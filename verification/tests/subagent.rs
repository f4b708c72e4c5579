//! Work that is handed to a helper.

use joy::agent::ToolOutcome;
use joy::model::{Message, Role};
use joy::subagent::{
    after_first, after_second, candidate_json, child_session, child_system, child_tools,
    coerce_structured, conclude, iterations, nudge, task_preview, NextTry, Structured,
};
use joy::turn::Clock;

fn tool(name: &str, output: &str) -> ToolOutcome {
    ToolOutcome {
        name: name.to_string(),
        output: output.to_string(),
        duration_ms: 1,
    }
}

#[test]
fn a_structured_result_is_validated_and_retried_once() {
    let first = coerce_structured("我觉得是四吧。", &Ok(()));
    let said = vec![
        Message::user_text("二加二？".to_string()),
        Message::from_text(Role::Assistant, "我觉得是四吧。".to_string()),
    ];
    let again = match after_first(Some(first), said.clone(), r#"{"type":"object"}"#) {
        NextTry::Again { history, words } => {
            assert_eq!(history, said, "the second run goes on from the first");
            words
        }
        NextTry::Settled(_) => panic!("prose is no result"),
    };
    assert!(again.contains(r#"{"type":"object"}"#), "{again}");
    let second = coerce_structured(r#"{"answer": 4}"#, &Ok(()));
    let settled = after_second(Ok(second));
    assert_eq!(settled, Structured::Fits(r#"{"answer":4}"#.to_string()));
    let text = conclude(r#"{"answer": 4}"#, &settled, &vec![], 1);
    assert!(
        text.contains(r#"{"answer":4}"#),
        "合规之后带回的该是紧凑 JSON：{text}"
    );
    assert!(!text.contains("我觉得是四吧"), "{text}");
}

#[test]
fn a_structured_result_falls_back_to_prose_after_two_failures() {
    let settled = after_second(Ok(coerce_structured("还是四。", &Ok(()))));
    assert!(matches!(settled, Structured::Unfit(_)));
    let text = conclude("还是四。", &settled, &vec![], 2);
    assert!(text.contains("两次都没通过校验"), "{text}");
    assert!(text.contains("四。"), "{text}");
}

#[test]
fn a_result_must_fit_its_schema() {
    assert_eq!(
        coerce_structured(r#"好的：{"answer": "四"}"#, &Err("answer 要是整数".to_string())),
        Err("answer 要是整数".to_string())
    );
    assert_eq!(
        candidate_json("没有"),
        Err("回复里没找到 JSON 对象".to_string())
    );
    assert_eq!(
        candidate_json("{坏}"),
        Err("那段 JSON 解析不了".to_string())
    );
    assert_eq!(candidate_json(r#"a {"b":1} c"#), Ok(r#"{"b":1}"#.to_string()));
}

#[test]
fn a_retry_that_breaks_is_told() {
    let settled = after_second(Err("超时".to_string()));
    assert_eq!(settled, Structured::Broken("超时".to_string()));
    assert_eq!(
        conclude("原话", &settled, &vec![], 1),
        "原话\n（结构化重试没跑成：超时）"
    );
    assert!(matches!(
        after_first(None, vec![], "{}"),
        NextTry::Settled(Structured::Free)
    ));
    assert!(nudge("why", "SCHEMA").contains("SCHEMA"));
}

#[test]
fn a_conclusion_names_its_tools() {
    let calls = vec![tool("read", "fine"), tool("write", "Error: no")];
    assert_eq!(
        conclude(" 完成 ", &Structured::Free, &calls, 3),
        "完成\n（子代理跑了 3 轮，用了：read、write（失败））"
    );
    assert_eq!(
        conclude("  ", &Structured::Free, &vec![], 1),
        "（子代理没有给出结论。）"
    );
}

#[test]
fn a_helper_cannot_hand_work_on() {
    let names = vec![
        "save_note".to_string(),
        "delegate_task".to_string(),
        "todo_write".to_string(),
        "read".to_string(),
    ];
    assert_eq!(child_tools(&names), vec!["save_note", "read"]);
}

#[test]
fn a_helper_is_told_its_one_task() {
    let clock = Clock {
        at: "a".to_string(),
        zone: "z".to_string(),
        offset: "+00:00".to_string(),
    };
    let text = child_system("你是 Joy", &clock, "m", "p");
    assert!(text.starts_with("你是 Joy"));
    assert!(text.ends_with("you cannot ask follow-up questions."));
}

#[test]
fn rounds_are_held_within_bounds() {
    assert_eq!(iterations(None), 5);
    assert_eq!(iterations(Some(0)), 1);
    assert_eq!(iterations(Some(7)), 7);
    assert_eq!(iterations(Some(99)), 10);
    assert_eq!(child_session(5), "subagent:5");
    assert_eq!(task_preview(&"字".repeat(500)).chars().count(), 400);
}
