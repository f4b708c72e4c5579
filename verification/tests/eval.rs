//! Scripted cases, and how an outcome is scored.

use joy::eval::{
    grade_request, mark_of_fields, parse_score, render, score, CaseResult, Seen, Tally,
    TurnOutput, Watch, Watcher,
};
use joy::model::{ContentBlock, CreateRequest, Message, Role};
use joy::scenario::{
    bad_case, build_script, case_file, case_lines, settings_for, Expectations, JudgeScenario,
    JudgeSpec, Line, Scenario, ScriptedResponse, SettingsOverrides, TurnScript, NO_GATE,
};
use joy::turn::GateKind;

fn list(items: &[&str]) -> Vec<String> {
    items.iter().map(|i| i.to_string()).collect()
}

fn outcome() -> TurnOutput {
    TurnOutput {
        reply: "已经记下了".to_string(),
        tools: list(&["save_note"]),
        iterations: 2,
        gates: vec![Some("retrieve".to_string())],
        interrupted: false,
        consolidation_new_facts: 1,
        tool_outputs: list(&["已记住 #1"]),
        prompts: list(&["gate prompt", "main prompt alex"]),
    }
}

#[test]
fn an_outcome_that_meets_all_has_no_failures() {
    let expect = Expectations {
        reply_contains: list(&["记下"]),
        reply_not_contains: list(&["对不起"]),
        tools_used: list(&["save_note"]),
        tool_output_contains: list(&["#1"]),
        gate: Some("retrieve".to_string()),
        iterations: Some(2),
        consolidation_new_facts: Some(1),
        interrupted: Some(false),
        prompt_contains: list(&["gate", "alex"]),
        prompt_not_contains: list(&["bob"]),
        last_prompt_contains: list(&["alex"]),
        last_prompt_not_contains: list(&["gate"]),
    };
    assert_eq!(score(&expect, &outcome()), Vec::<String>::new());
    assert!(score(&Expectations::default(), &outcome()).is_empty());
}

#[test]
fn each_expectation_that_fails_is_told() {
    let expect = Expectations {
        reply_contains: list(&["谢谢\"你"]),
        tools_used: list(&["a", "b"]),
        gate: Some("skip".to_string()),
        iterations: Some(3),
        consolidation_new_facts: Some(0),
        interrupted: Some(true),
        ..Expectations::default()
    };
    let failures = score(&expect, &outcome());
    assert_eq!(failures.len(), 6);
    assert_eq!(
        failures[0],
        "回复应包含 \"谢谢\\\"你\"，实际：\"已经记下了\""
    );
    assert!(failures[1].starts_with("工具序列应为 [\n    \"a\",\n    \"b\",\n]"));
    assert_eq!(
        failures[2],
        "检索门应为 \"skip\"，实际 Some(\"retrieve\")"
    );
    assert_eq!(failures[3], "应为 3 轮，实际 2 轮");
    assert_eq!(failures[4], "consolidation 应提炼 0 条，实际 1 条");
    assert_eq!(failures[5], "interrupted 应为 true，实际 false");
}

#[test]
fn one_turn_that_decides_otherwise_fails_the_case() {
    let expect = Expectations {
        gate: Some("skip".to_string()),
        ..Expectations::default()
    };
    let mut watcher = Watcher::new();
    for gate in [Some(GateKind::Skip), Some(GateKind::Retrieve), None, Some(GateKind::Skip)] {
        watcher.next_turn();
        let end = Seen::TurnCompleted {
            reply: "r".to_string(),
            iterations: 1,
            interrupted: false,
            tools: vec![],
            gate,
        };
        assert_eq!(watcher.see(end, None), Watch::Done);
    }
    assert_eq!(
        score(&expect, &watcher.output),
        vec![
            "检索门应为 \"skip\"，实际 Some(\"retrieve\")",
            "检索门应为 \"skip\"，实际 None",
        ]
    );
    assert_eq!(
        score(&expect, &TurnOutput::default()),
        vec!["检索门应为 \"skip\"，实际 None"]
    );
}

#[test]
fn a_prompt_that_never_was_cannot_hold_anything() {
    let expect = Expectations {
        last_prompt_contains: list(&["x"]),
        ..Expectations::default()
    };
    assert_eq!(
        score(&expect, &TurnOutput::default()),
        vec!["没有任何模型请求可断言"]
    );
}

#[test]
fn a_watcher_gathers_the_outcome() {
    let mut watcher = Watcher::new();
    assert_eq!(watcher.see(Seen::TextDelta, Some(2)), Watch::Continue);
    assert_eq!(watcher.see(Seen::TextDelta, Some(2)), Watch::Interrupt);
    assert_eq!(watcher.see(Seen::TextDelta, Some(2)), Watch::Continue);
    watcher.see(
        Seen::ToolCompleted {
            output: "o".to_string(),
        },
        None,
    );
    watcher.see(Seen::Consolidated { new_facts: 2 }, None);
    assert_eq!(
        watcher.see(
            Seen::TurnCompleted {
                reply: "r".to_string(),
                iterations: 1,
                interrupted: true,
                tools: list(&["t"]),
                gate: Some(GateKind::Skip),
            },
            None
        ),
        Watch::Done
    );
    assert_eq!(watcher.output.reply, "r");
    assert_eq!(watcher.output.gates, vec![Some("skip".to_string())]);
    assert_eq!(watcher.output.tool_outputs, vec!["o"]);
    assert_eq!(watcher.output.consolidation_new_facts, 2);
    watcher.next_turn();
    assert_eq!(watcher.deltas, 0);
    assert_eq!(watcher.see(Seen::Other, None), Watch::Continue);
}

#[test]
fn only_a_clean_run_is_a_success() {
    let clean = Tally::of(&vec![CaseResult::Passed, CaseResult::Skipped]);
    assert_eq!(clean.exit_code(), 0);
    let mixed = Tally::of(&vec![
        CaseResult::Passed,
        CaseResult::Failed,
        CaseResult::Failed,
    ]);
    assert_eq!(mixed.exit_code(), 2);
    assert_eq!(
        mixed.line(),
        "确定性 eval：1 通过 / 2 失败 / 0 跳过 / 共 3"
    );
}

#[test]
fn a_request_is_rendered_whole() {
    let request = CreateRequest {
        model: "m".to_string(),
        system: Some("sys".to_string()),
        messages: vec![
            Message::user_text("hi".to_string()),
            Message {
                role: Role::Assistant,
                content: vec![ContentBlock::ToolUse {
                    id: "1".to_string(),
                    name: "t".to_string(),
                    input: "{}".to_string(),
                }],
            },
            Message {
                role: Role::User,
                content: vec![ContentBlock::ToolResult {
                    tool_use_id: "1".to_string(),
                    content: "out".to_string(),
                }],
            },
        ],
        tools: vec![],
        max_tokens: 1,
    };
    let text = render(&request);
    assert!(text.starts_with("sys"), "{text}");
    for part in ["hi", "[tool_use t {}]", "[tool_result out]"] {
        assert!(text.contains(part), "{part}: {text}");
    }
}

#[test]
fn a_judges_mark_is_read() {
    assert_eq!(
        parse_score(r#"Sure: {"score": 8, "reason": "fine"}"#),
        Ok((8, "fine".to_string()))
    );
    assert_eq!(parse_score(r#"{"score": 3}"#), Ok((3, String::new())));
    assert_eq!(
        parse_score("no"),
        Err("裁判没回 JSON：no".to_string())
    );
    assert!(parse_score("{bad}")
        .unwrap_err()
        .starts_with("裁判的 JSON 坏了："));
    assert_eq!(
        mark_of_fields(None, None, "{}"),
        Err("裁判的 JSON 里没有 score：{}".to_string())
    );
    let case = JudgeScenario {
        id: "j".to_string(),
        description: String::new(),
        message: "任务".to_string(),
        judge: JudgeSpec {
            criteria: "标准".to_string(),
        },
    };
    let request = grade_request("m", &case, "答复");
    match &request.messages[0].content[0] {
        ContentBlock::Text { text } => {
            for part in ["任务", "标准", "答复"] {
                assert!(text.contains(part), "{text}");
            }
        }
        _ => panic!("text was expected"),
    }
}

fn case(turns: Option<Vec<TurnScript>>) -> Scenario {
    Scenario {
        id: "c".to_string(),
        description: String::new(),
        message: Some("hi".to_string()),
        gate: None,
        responses: vec![ScriptedResponse::Text("hello".to_string())],
        interrupt_after_deltas: Some(3),
        turns,
        expect: Expectations::default(),
        settings: SettingsOverrides::default(),
        files: vec![],
        prereq: None,
    }
}

#[test]
fn a_case_is_one_turn_or_many() {
    let one = case(None).effective_turns();
    assert_eq!(one.len(), 1);
    assert_eq!(one[0].message, "hi");
    assert_eq!(one[0].interrupt_after_deltas, Some(3));
    let many = case(Some(vec![one[0].clone(), one[0].clone()])).effective_turns();
    assert_eq!(many.len(), 2);
}

#[test]
fn a_script_says_the_gate_first() {
    let turns = vec![TurnScript {
        message: "m".to_string(),
        session_id: None,
        gate: None,
        responses: vec![
            ScriptedResponse::ToolUse {
                name: "save_note".to_string(),
                args: "{}".to_string(),
            },
            ScriptedResponse::Text("done".to_string()),
        ],
        apply_patch: None,
        interrupt_after_deltas: None,
    }];
    let script = build_script(&turns);
    assert_eq!(script[0], Line::Text(NO_GATE.to_string()));
    match &script[1] {
        Line::ToolUse { id, name, args } => {
            assert!(id.starts_with("tu_"));
            assert_eq!((name.as_str(), args.as_str()), ("save_note", "{}"));
        }
        other => panic!("{other:?}"),
    }
    assert_eq!(script[2], Line::Text("done".to_string()));
}

#[test]
fn a_case_has_its_own_settings_and_files() {
    let settings = settings_for(
        "/tmp/h",
        &SettingsOverrides {
            history_turns: Some(1),
            ..SettingsOverrides::default()
        },
    );
    assert_eq!(settings.history_turns, 1);
    assert_eq!(settings.home, "/tmp/h");
    assert_eq!(settings.api_key.as_deref(), Some("eval-dummy"));
    assert_eq!(
        case_file("/tmp/h", "a.txt", "in {{home}}"),
        Ok("in /tmp/h".to_string())
    );
    assert!(case_file("/tmp/h", "../a", "x").is_err());
    assert_eq!(
        case_lines("# note\n\n{\"id\":1}\n"),
        vec![(3, "{\"id\":1}".to_string())]
    );
    assert_eq!(
        bad_case("f.jsonl", 3, "why"),
        "f.jsonl 第 3 行不是合法用例：why"
    );
}
