//! The morning round: what the scans write, and where the round ends.

use joy::engine::{Engine, RunReport};
use joy::gather::{
    build_gather_graph, calendar_writes, count_events, draft_name, gather_topology, github_report,
    github_writes, listed_lines, memory_report, needs_action, scan_owns, synth_request,
    text_writes, unavailable, web_query, DEFAULT_TOPICS,
};
use joy::graph::{NodeWrites, State, DEFAULT_MAX_STEPS};
use joy::json::Json;
use joy::model::{ContentBlock, CreateRequest};

fn one(key: &str, value: &str) -> NodeWrites {
    let mut out = NodeWrites::new();
    out.insert(key.to_string(), Json::of_text(value));
    out
}

/// What the four scans found.
struct Found {
    github: Result<(String, i64, i64), String>,
    web: Result<String, String>,
    calendar: Result<(String, i64), String>,
    memory: Result<String, String>,
}

fn round(found: Found, digest: &str) -> RunReport {
    let mut engine = Engine::start(
        build_gather_graph().expect("建图"),
        State::new(),
        DEFAULT_MAX_STEPS,
    );
    while engine.open_wave() {
        for name in engine.wave.clone() {
            let wrote = match name.as_str() {
                "scan_github" => github_writes(found.github.clone()),
                "scan_web" => text_writes("web_text", found.web.clone()),
                "scan_calendar" => calendar_writes(found.calendar.clone()),
                "scan_memory" => text_writes("mem_text", found.memory.clone()),
                "synthesize" => one("digest", digest),
                "draft_digest" => one("draft_path", "/outbox/gather-2026-09-20.md"),
                other => panic!("no node is named {other}"),
            };
            if engine.node_wrote(wrote, 0).expect("no collision") {
                let label = needs_action(&engine.state);
                engine.route(&label);
            }
        }
        engine.close_wave();
    }
    engine.finish(0)
}

fn said(request: &CreateRequest) -> String {
    match &request.messages[0].content[0] {
        ContentBlock::Text { text } => text.clone(),
        _ => panic!("text was expected"),
    }
}

#[test]
fn with_pending_work_it_drafts_a_digest() {
    let report = round(
        Found {
            github: Ok(("Open PRs:\n- #12 fix loop".to_string(), 1, 0)),
            web: Ok("(web results)".to_string()),
            calendar: Ok(("standup".to_string(), 1)),
            memory: Ok("alex prefers mornings".to_string()),
        },
        "DIGEST: 今天只有一件事。",
    );
    assert!(report.state.str("gh_text").unwrap().contains("#12"));
    assert!(
        report.path.contains(&"draft_digest".to_string()),
        "有事发生就该写草稿：{:?}",
        report.path
    );
    assert_eq!(
        report.state.str("draft_path"),
        Some("/outbox/gather-2026-09-20.md")
    );
}

#[test]
fn a_quiet_day_ends_before_the_draft() {
    let report = round(
        Found {
            github: Ok((String::new(), 0, 0)),
            web: Ok(String::new()),
            calendar: Ok((String::new(), 0)),
            memory: Ok(String::new()),
        },
        "（都安静。）",
    );
    assert!(!report.path.contains(&"draft_digest".to_string()));
    assert!(report.state.str("draft_path").is_none());
    assert_eq!(report.state.str("digest"), Some("（都安静。）"));
}

#[test]
fn a_failed_scan_becomes_honest_text_not_silence() {
    let report = round(
        Found {
            github: Err("gh CLI 超时".to_string()),
            web: Ok("(web results)".to_string()),
            calendar: Ok((String::new(), 0)),
            memory: Ok(String::new()),
        },
        "尽力而为的晨报。",
    );
    assert!(report.state.str("gh_text").unwrap().contains("unavailable"));
    assert_eq!(report.errors.len(), 0, "scan 的失败不该留下引擎级错误");
    assert_eq!(report.state.str("digest"), Some("尽力而为的晨报。"));
}

#[test]
fn the_router_reads_counts_not_prose() {
    let mut state = State::new();
    assert_eq!(needs_action(&state), "quiet");
    state.set("gh_open_prs", Json::Int(2));
    assert_eq!(needs_action(&state), "propose");

    let mut state = State::new();
    state.set("cal_event_count", Json::Int(1));
    assert_eq!(needs_action(&state), "propose");
}

#[test]
fn the_topology_describes_the_shape() {
    let topology = gather_topology().expect("the graph is well formed");
    assert_eq!(topology.name, "gather");
    let names: Vec<&str> = topology.nodes.iter().map(|n| n.name.as_str()).collect();
    for expected in [
        "scan_github",
        "scan_web",
        "scan_calendar",
        "scan_memory",
        "synthesize",
        "draft_digest",
    ] {
        assert!(names.contains(&expected), "{names:?}");
    }
}

#[test]
fn scan_ownership_lists_are_disjoint() {
    let mut seen: Vec<&str> = Vec::new();
    for keys in [
        scan_owns("scan_github"),
        scan_owns("scan_web"),
        scan_owns("scan_calendar"),
        scan_owns("scan_memory"),
    ] {
        for key in keys {
            assert!(!seen.contains(&key), "'{key}' 被两个 scan 认领");
            seen.push(key);
        }
    }
}

#[test]
fn the_synth_request_carries_no_tools() {
    let mut state = State::new();
    state.set("gh_text", Json::of_text("PR #1"));
    state.set("web_text", Json::of_text(""));
    state.set("cal_text", Json::of_text("standup"));
    state.set("mem_text", Json::of_text(""));
    let request = synth_request("test-model", &state);
    assert!(request.tools.is_empty(), "tools 必须是空的");
    assert!(said(&request).contains("PR #1"));
    assert!(said(&request).contains("standup"));
}

#[test]
fn a_scan_writes_only_what_it_owns() {
    let wrote = github_writes(Ok(("t".to_string(), 2, 3)));
    let owned = scan_owns("scan_github");
    assert!(wrote.keys().iter().all(|k| owned.contains(&k.as_str())));
    let wrote = calendar_writes(Err("no access".to_string()));
    let owned = scan_owns("scan_calendar");
    assert!(wrote.keys().iter().all(|k| owned.contains(&k.as_str())));
    assert_eq!(
        wrote.get("cal_text"),
        Some(&Json::Text(unavailable("no access")))
    );
    assert!(scan_owns("synthesize").is_empty());
}

#[test]
fn reports_count_what_they_list() {
    let prs = vec!["#1 a".to_string(), "#2 b".to_string()];
    let (text, n, m) = github_report(&prs, &vec![]);
    assert_eq!((n, m), (2, 0));
    assert_eq!(
        text,
        "Open PRs:\n#1 a\n#2 b\n\nOpen issues: (none)"
    );
    assert_eq!(
        listed_lines("one\n\n   \ntwo\n"),
        vec!["one".to_string(), "two".to_string()]
    );
    let facts = vec![("alex".to_string(), "喜欢早会".to_string())];
    assert_eq!(memory_report(&facts), "- alex: 喜欢早会");
    assert_eq!(memory_report(&vec![]), "(nothing relevant)");
}

#[test]
fn events_stand_between_semicolons() {
    assert_eq!(count_events("standup; lunch; review"), 3);
    assert_eq!(count_events("standup"), 1);
    assert_eq!(count_events("(no events today)"), 0);
}

#[test]
fn the_query_follows_the_repository() {
    assert_eq!(
        web_query(&Some("joyczl/joy".to_string())),
        format!("joyczl/joy {DEFAULT_TOPICS} this week")
    );
    assert_eq!(
        web_query(&None),
        format!("{DEFAULT_TOPICS} {DEFAULT_TOPICS} this week")
    );
    assert_eq!(draft_name("2026-09-20"), "gather-2026-09-20.md");
}
