//! The console, the banners, and the desk for questions.

use joy::approval::{asks, expires_in_ms, is_approved, request_id, wait_secs, Answered, Desk};
use joy::boot::{bad_configuration, exec_banner, servers_banner, ExecPolicy};
use joy::console::{
    memory_limits, memory_lines, new_session_id, read_command, session_line, unknown_command,
    Command, Event, Screen, SourcedFact, HELP,
};
use joy::skill_cmd::{
    export_targets, is_http, parse_export, raw_url, shown_lines, skill_line, ExportArgs,
};
use joy::skills::LoadedSkill;
use joy::turn::GateKind;

fn list(items: &[&str]) -> Vec<String> {
    items.iter().map(|i| i.to_string()).collect()
}

#[test]
fn a_line_is_a_command_or_a_message() {
    assert_eq!(read_command("   "), Command::Nothing);
    for quit in ["/quit", "/exit", "/q"] {
        assert_eq!(read_command(quit), Command::Quit);
    }
    assert_eq!(read_command(" /help "), Command::Help);
    assert_eq!(read_command("/new"), Command::NewSession);
    assert_eq!(read_command("/sessions"), Command::Sessions);
    assert_eq!(
        read_command("/memory alex"),
        Command::Memory("alex".to_string())
    );
    assert_eq!(read_command("/memory"), Command::Memory(String::new()));
    assert_eq!(
        read_command("/what"),
        Command::Unknown("/what".to_string())
    );
    assert_eq!(read_command(" 你好 "), Command::Say("你好".to_string()));
    assert!(unknown_command("/what").contains("/what"));
    assert!(HELP.contains("/memory"));
    assert_eq!(new_session_id(12), "cli-12");
}

#[test]
fn the_screen_breaks_a_line_before_a_note() {
    let mut screen = Screen::new();
    let delta = |t: &str| Event::TextDelta {
        delta: t.to_string(),
    };
    assert_eq!(screen.show(&delta("好")), "好");
    assert_eq!(
        screen.show(&Event::ToolStarted {
            tool: "save_note".to_string()
        }),
        "\n…正在调用 save_note…\n"
    );
    assert_eq!(
        screen.show(&Event::ToolCompleted {
            tool: "save_note".to_string(),
            succeeded: false,
            duration_ms: Some(12),
        }),
        "…save_note 完成（出错，12ms）\n"
    );
    assert_eq!(
        screen.show(&Event::GateDecided {
            decision: GateKind::Skip,
            reason: "闲聊".to_string(),
        }),
        "…记忆门：跳过（闲聊）\n"
    );
    assert_eq!(
        screen.show(&Event::Consolidated { new_facts: 2 }),
        "…提炼出 2 条新事实\n"
    );
    assert_eq!(screen.show(&Event::Other), "");
}

#[test]
fn a_streamed_reply_is_not_printed_twice() {
    let done = Event::TurnCompleted {
        reply: "好的".to_string(),
        model: "m".to_string(),
        iterations: 1,
        latency_ms: 20,
        usage: Some((10, 5)),
        interrupted: false,
        guard_hits: 0,
    };
    let mut screen = Screen::new();
    screen.show(&Event::TextDelta {
        delta: "好的".to_string(),
    });
    assert_eq!(
        screen.show(&done),
        "\n— m · 1 轮 · 20ms · token 10+5\n"
    );
    let mut screen = Screen::new();
    assert_eq!(
        screen.show(&done),
        "好的\n— m · 1 轮 · 20ms · token 10+5\n"
    );
}

#[test]
fn memory_is_listed_with_its_source() {
    let facts = vec![SourcedFact {
        subject: "alex".to_string(),
        content: "早会".to_string(),
        source: "user".to_string(),
    }];
    let episodes = vec![("2026-09-01".to_string(), "demo".to_string())];
    assert_eq!(
        memory_lines("", &facts, &episodes),
        vec!["- **alex**: 早会（user）", "- (2026-09-01) demo"]
    );
    let nothing = memory_lines("alex", &vec![], &vec![]);
    assert_eq!(nothing.len(), 1);
    assert!(nothing[0].contains("「alex」"));
    assert_ne!(memory_limits(""), memory_limits("alex"));
    assert_eq!(
        session_line("s1", "标题", 4, &None),
        "- s1  标题（4 条，最近 ?）"
    );
}

#[test]
fn answering_an_unknown_request_is_false_not_an_error() {
    let mut desk = Desk::new();
    assert_eq!(desk.answer("no-such-turn", "ap-1", true, false), None);
}

#[test]
fn a_question_is_answered_once() {
    let mut desk = Desk::new();
    desk.register_turn("t1");
    desk.ask("t1", "ap-1", "echo hi");
    assert_eq!(
        desk.answer("t1", "ap-1", true, true),
        Some(Answered {
            approved: true,
            remember: Some("echo hi".to_string()),
        })
    );
    assert_eq!(desk.answer("t1", "ap-1", true, true), None);
    desk.ask("t1", "ap-2", "rm x");
    assert_eq!(
        desk.answer("t1", "ap-2", false, true),
        Some(Answered {
            approved: false,
            remember: None,
        })
    );
    desk.ask("t1", "ap-3", "ls");
    desk.withdraw("t1", "ap-3");
    assert_eq!(desk.answer("t1", "ap-3", true, false), None);
}

#[test]
fn interrupt_hits_a_running_turn_and_misses_a_finished_one() {
    let mut desk = Desk::new();
    desk.register_turn("a");
    desk.register_turn("b");
    assert!(desk.interrupt_turn("a"));
    assert!(desk.is_interrupted("a"));
    assert!(!desk.is_interrupted("b"));
    desk.ask("b", "ap-1", "ls");
    desk.finish_turn("b");
    assert!(!desk.interrupt_turn("b"), "the turn has ended");
    assert_eq!(desk.answer("b", "ap-1", true, false), None);
}

#[test]
fn questions_have_numbers_and_an_end() {
    assert_eq!(request_id(3), "ap-3");
    assert!(asks("on-request"));
    assert!(!asks("never"));
    assert_eq!(expires_in_ms(20), 20_000);
    assert_eq!(expires_in_ms(i64::MAX), i32::MAX);
    assert_eq!(wait_secs(20), 20);
    assert!(is_approved(Some(true)));
    assert!(!is_approved(Some(false)));
    assert!(!is_approved(None), "nobody answered");
}

#[test]
fn the_banner_tells_what_may_run() {
    let policy = ExecPolicy {
        sandbox: true,
        network: false,
        allow: list(&["ls *", "git *"]),
        asks: true,
        approval_timeout_secs: 20,
        writable_roots: list(&["/w"]),
    };
    assert_eq!(
        exec_banner(&policy),
        "(joy) 执行工具已启用：沙箱 可用，沙箱内断网（JOY_EXEC_NETWORK=1 可开），放行规则：ls *, git *，没匹配上时问你（20秒没人答就拒绝），额外可写根：/w"
    );
    assert_eq!(servers_banner(&vec![], 0), None);
    assert_eq!(
        servers_banner(&list(&["a", "b"]), 5),
        Some("(joy) MCP：接上 2 个服务器（5 个工具）：a, b".to_string())
    );
    assert!(bad_configuration("X").starts_with("配置有问题，Joy 不启动：X"));
}

#[test]
fn addresses_of_skills_are_made_raw() {
    assert!(is_http("https://x") && is_http("http://x") && !is_http("/x"));
    assert_eq!(
        raw_url("https://github.com/a/b/blob/main/SKILL.md"),
        "https://raw.githubusercontent.com/a/b/main/SKILL.md"
    );
    assert_eq!(
        raw_url("https://gist.github.com/a/1/"),
        "https://gist.github.com/a/1/raw"
    );
    assert_eq!(raw_url("https://x/y.md"), "https://x/y.md");
}

#[test]
fn the_arguments_of_an_export_are_read() {
    assert_eq!(
        parse_export(&vec![], "codex"),
        Ok(ExportArgs {
            to: "codex".to_string(),
            project: false,
            force: false,
            names: vec![],
        })
    );
    assert_eq!(
        parse_export(&list(&[
            "--to",
            "other",
            "--project",
            "--force",
            "--names",
            "a,b"
        ]), "codex"),
        Ok(ExportArgs {
            to: "other".to_string(),
            project: true,
            force: true,
            names: list(&["a", "b"]),
        })
    );
    assert_eq!(
        parse_export(&list(&["--to"]), "codex"),
        Err("--to 后面要跟目标".to_string())
    );
    assert!(parse_export(&list(&["--names"]), "codex").is_err());
    assert_eq!(
        parse_export(&list(&["--what"]), "codex"),
        Err("不认识的参数 '--what'".to_string())
    );
}

#[test]
fn an_export_has_known_targets() {
    let agents = list(&["aider", "codex"]);
    assert_eq!(
        export_targets("aider, codex,", "/h", &agents),
        Ok(list(&["/h/.aider", "/h/.codex"]))
    );
    assert_eq!(
        export_targets("vim", "/h", &agents),
        Err("未知目标 'vim'。可选：aider, codex".to_string())
    );
    let lines = list(&["  copied      /d/a", "  copied      /d/b"]);
    assert_eq!(shown_lines(&lines, &vec![]), lines);
    assert_eq!(shown_lines(&lines, &list(&["a"])).len(), 1);
    assert_eq!(
        skill_line(&LoadedSkill {
            name: "a".to_string(),
            description: "d".to_string(),
            version: Some("1.0".to_string()),
            schedule: None,
            folder: "/f".to_string(),
        }),
        "- a v1.0  d"
    );
}
