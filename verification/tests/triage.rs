//! The front door: quick answers, and when it steps aside.

use joy::graph::State;
use joy::json::Json;
use joy::model::{ContentBlock, CreateRequest};
use joy::triage::{classify_message, classify_request, fill, key_router, quick_request, route_of_fields, todays_events, triage_topology};
use joy::turn::settle_route;

fn said(request: &CreateRequest) -> String {
    match &request.messages[0].content[0] {
        ContentBlock::Text { text } => text.clone(),
        _ => panic!("text was expected"),
    }
}

fn classified(answer: &str) -> (String, String) {
    classify_message(Some(answer.to_string()))
}

#[test]
fn a_clear_answer_is_followed() {
    assert_eq!(
        classified(r#"{"route": "quick", "reason": "greeting"}"#),
        ("quick".to_string(), "greeting".to_string())
    );
    assert_eq!(
        classified(r#"{"route": "full", "reason": "needs tools"}"#).0,
        "full"
    );
}

#[test]
fn anything_unclear_goes_the_full_way() {
    for (answer, why) in [
        ("no braces at all", "no JSON — failing open"),
        ("{broken", "no JSON — failing open"),
        ("{ not json }", "triage failed open (ParseError)"),
        (
            r#"{"route": "quick"} {"route": "full"}"#,
            "triage failed open (ParseError)",
        ),
        (
            r#"{"route": "sideways"}"#,
            "bad route 'sideways' — failing open",
        ),
        (r#"{"reason": "x"}"#, "bad route '' — failing open"),
    ] {
        assert_eq!(classified(answer), ("full".to_string(), why.to_string()));
    }
    assert_eq!(
        classify_message(None),
        (
            "full".to_string(),
            "triage failed open (ProviderError)".to_string()
        )
    );
    assert_eq!(
        route_of_fields(Some("quick".to_string()), None),
        ("quick".to_string(), String::new())
    );
}

#[test]
fn the_requests_carry_what_the_model_needs() {
    let request = classify_request("small", "你好呀");
    assert_eq!(request.model, "small");
    assert!(said(&request).contains("你好呀"));
    let mut state = State::new();
    state.set("message", Json::of_text("早"));
    state.set("calendar", Json::of_text("standup"));
    let quick = said(&quick_request("small", &state));
    assert!(quick.contains('早') && quick.contains("standup"), "{quick}");
    assert_eq!(fill(&state, "message"), "早");
    assert_eq!(fill(&state, "nothing"), "");
}

#[test]
fn only_todays_events_are_listed() {
    let calendar = "BEGIN:VEVENT\nSUMMARY:standup\nDTSTART:20260921T090000\nEND:VEVENT\nBEGIN:VEVENT\nSUMMARY:party\nDTSTART:20260922T190000\nEND:VEVENT\nBEGIN:VEVENT\nSUMMARY:review\nDTSTART:20260921T150000\nEND:VEVENT\n";
    assert_eq!(todays_events(Some(calendar), "20260921"), "standup; review");
    assert_eq!(todays_events(Some(calendar), "20260930"), "(nothing today)");
    assert_eq!(todays_events(None, "20260921"), "(no calendar)");
}

#[test]
fn a_key_routes_or_falls_back() {
    let mut state = State::new();
    assert_eq!(key_router(&state, "route", "full"), "full");
    state.set("route", Json::of_text("quick"));
    assert_eq!(key_router(&state, "route", "full"), "quick");
    state.set("route", Json::Int(1));
    assert_eq!(key_router(&state, "route", "full"), "full");
}

#[test]
fn an_empty_quick_answer_goes_the_ordinary_way() {
    assert_eq!(settle_route(&State::new(), vec![], None), Ok(None));
}

#[test]
fn the_triage_topology_is_drawn() {
    let topology = triage_topology().expect("the graph is well formed");
    assert_eq!(topology.name, "triage");
    assert_eq!(topology.nodes.len(), 5);
    assert_eq!(
        topology.edges.iter().filter(|e| e.conditional).count(),
        2
    );
}
