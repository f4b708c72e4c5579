//! Joy's memory, offered to others.

use joy::memory_server::{
    count_or, episodes_text, find_tool, forget_text, handle, limit_of, list_text, remember_text,
    require_str, require_text, search_text, step_of_fields, tool_declarations, MemoryTool,
    NumberedFact, ServerStep, SERVER_NAME,
};
use joy::transport::PROTOCOL_VERSION;

fn request(method: &str, params: &str) -> String {
    format!("{{\"jsonrpc\":\"2.0\",\"id\":1,\"method\":\"{method}\",\"params\":{params}}}")
}

fn pair(a: &str, b: &str) -> Vec<(String, String)> {
    vec![(a.to_string(), b.to_string())]
}

#[test]
fn initialize_hands_back_capabilities_and_identity() {
    assert_eq!(handle(&request("initialize", "{}")), ServerStep::Initialize);
    assert_eq!(PROTOCOL_VERSION, "2025-06-18");
    assert_eq!(SERVER_NAME, "joy-memory");
}

#[test]
fn tools_list_exposes_only_the_memory_tools() {
    assert_eq!(handle(&request("tools/list", "{}")), ServerStep::ListTools);
    let tools = tool_declarations();
    let names: Vec<&str> = tools.iter().map(|t| t.name.as_str()).collect();
    assert_eq!(
        names,
        vec![
            "memory_search",
            "memory_remember",
            "memory_forget",
            "memory_list",
            "memory_episodes"
        ]
    );
    assert!(!names
        .iter()
        .any(|n| n.contains("send") || n.contains("event")));
    assert!(names.iter().all(|n| find_tool(n).is_some()));
    assert_eq!(find_tool("send_mail"), None);
}

#[test]
fn remember_then_search_round_trips_through_the_memory_texts() {
    let line = request(
        "tools/call",
        r#"{"name":"memory_remember","arguments":{"subject":"alex","content":"喜欢早上的会议"}}"#,
    );
    assert_eq!(handle(&line), ServerStep::Call(MemoryTool::Remember));
    let subject = require_str(&line, "subject").expect("subject");
    let content = require_str(&line, "content").expect("content");
    let saved = remember_text(1, &subject, &content, true);
    assert!(saved.contains("已记住"), "{saved}");
    assert_eq!(saved, "已记住（#1）：alex — 喜欢早上的会议");
    assert!(remember_text(1, "alex", "x", false).contains("已经记过了"));
    let found = search_text("alex", &pair(&subject, &content), &vec![]);
    assert!(
        found.contains("喜欢早上的会议"),
        "写进去的必须搜得到：{found}"
    );
}

#[test]
fn forget_reports_the_count_and_says_when_there_is_nothing() {
    assert!(forget_text("bob", 2).contains("2 条"));
    assert!(forget_text("bob", 0).contains("没有"));
}

#[test]
fn empty_memory_answers_honestly_not_with_an_error() {
    assert!(list_text(&vec![]).contains("还没有"));
    assert!(episodes_text(&vec![]).contains("还没有"));
    assert!(search_text("???", &vec![], &vec![]).contains("没有找到"));
    assert_eq!(
        list_text(&vec![NumberedFact {
            id: 3,
            subject: "a".to_string(),
            content: "b".to_string(),
        }]),
        "#3 **a**: b"
    );
    assert_eq!(episodes_text(&pair("2026-09-01", "x")), "- (2026-09-01) x");
}

#[test]
fn a_notification_gets_no_response() {
    assert_eq!(
        handle(r#"{"jsonrpc":"2.0","method":"notifications/initialized"}"#),
        ServerStep::Silent
    );
}

#[test]
fn protocol_errors_and_tool_failures_take_different_paths() {
    match handle(&request("tools/call", r#"{"name":"nope","arguments":{}}"#)) {
        ServerStep::Refuse { code, .. } => assert_eq!(code, -32602),
        other => panic!("{other:?}"),
    }
    match handle(&request("turn/start", "{}")) {
        ServerStep::Refuse { code, message } => {
            assert_eq!(code, -32601);
            assert!(message.contains("turn/start"));
        }
        other => panic!("{other:?}"),
    }
    let line = request("tools/call", r#"{"name":"memory_search","arguments":{}}"#);
    assert_eq!(handle(&line), ServerStep::Call(MemoryTool::Search));
    let why = require_str(&line, "query").unwrap_err();
    assert!(why.contains("query"), "{why}");
    match handle("{ not json") {
        ServerStep::Refuse { code, .. } => assert_eq!(code, -32700),
        other => panic!("{other:?}"),
    }
    assert_eq!(handle(&request("ping", "{}")), ServerStep::Ping);
    assert!(matches!(
        step_of_fields(true, Some("tools/call".to_string()), None),
        ServerStep::Refuse { code: -32602, .. }
    ));
}

#[test]
fn limits_are_read_from_the_call() {
    let line = request(
        "tools/call",
        r#"{"name":"memory_list","arguments":{"limit":25}}"#,
    );
    assert_eq!(limit_of(&line, "limit", 10), 25);
    assert_eq!(limit_of(&line, "top_k", 5), 5);
    assert_eq!(count_or(None, 7), 7);
    assert!(require_text(Some("  ".to_string()), "k").is_err());
    assert_eq!(
        require_text(Some("v".to_string()), "k"),
        Ok("v".to_string())
    );
}
