//! Goals: set, judged, and given up honestly.

use joy::goal::{
    active, after_round, bump, close_round, finish, judge, judge_request, read, store,
    text_lines, transcript, Judgement,
};
use joy::model::ContentBlock;

fn answer(text: &str) -> Result<String, String> {
    Ok(text.to_string())
}

#[test]
fn setting_and_clearing_a_goal() {
    let mut goals = store();
    assert!(active(&goals, "s1").is_none(), "一开始没目标");

    let goal = joy::goal::set(&mut goals, "s1", Some("  让测试全绿  ")).expect("设上");
    assert_eq!(goal.condition, "让测试全绿", "两侧空白该被去掉");
    assert_eq!(goal.rounds, 0);
    assert!(active(&goals, "s1").is_some());

    assert_eq!(bump(&mut goals, "s1"), 1);
    assert_eq!(bump(&mut goals, "s1"), 2, "轮次跨 turn 累计");

    finish(&mut goals, "s1", "round-limit");
    assert!(active(&goals, "s1").is_none(), "停了就不活跃");
    assert!(read(&goals, "s1").is_some(), "但没被清掉");

    assert!(joy::goal::set(&mut goals, "s1", Some("   ")).is_none());
    assert!(read(&goals, "s1").is_none());
    assert_eq!(bump(&mut goals, "nobody"), 0);
}

#[test]
fn a_self_contradicting_judgement_counts_as_not_done() {
    let judgement = judge(answer(
        r#"{"ok": true, "impossible": true, "reason": "说不清"}"#,
    ))
    .expect("判断出来了");
    assert!(!judgement.ok && !judgement.impossible, "{judgement:?}");
    assert!(judgement.reason.contains("自相矛盾"), "{judgement:?}");
}

#[test]
fn a_judge_that_does_not_answer_json_is_an_error() {
    let outcome = judge(answer("我觉得差不多了吧"));
    assert!(outcome.is_err(), "没 JSON 就该是错误：{outcome:?}");
    assert!(judge(answer("{坏的}")).unwrap_err().contains("JSON"));
    assert_eq!(
        judge(Err("超时".to_string())),
        Err("判断器调用失败：超时".to_string())
    );
}

#[test]
fn a_round_is_counted_and_fed_back() {
    let mut goals = store();
    joy::goal::set(&mut goals, "s", Some("让测试全绿")).expect("set");
    let told = close_round(
        &mut goals,
        "s",
        5,
        judge(answer(r#"{"ok": false, "reason": "测试还有两条红"}"#)),
    )
    .expect("a goal is pursued");
    assert_eq!((told.round, told.end.status.as_str()), (1, "continuing"));
    assert!(told.end.go_on.expect("it goes on").contains("测试还有两条红"));
    assert_eq!(read(&goals, "s").expect("kept").rounds, 1);
}

#[test]
fn the_judge_reads_every_round() {
    assert_eq!(transcript(&vec![]), "");
    let said = |m: &str, r: &str| (m.to_string(), r.to_string());
    assert_eq!(
        transcript(&vec![said("a", "b"), said("c", "d")]),
        "user: a\nassistant: b\nuser: c\nassistant: d\n"
    );
}

#[test]
fn a_goal_at_rest_is_not_judged_again() {
    let mut goals = store();
    assert_eq!(close_round(&mut goals, "s", 5, judge(answer("{}"))), None);
    joy::goal::set(&mut goals, "s", Some("X")).expect("set");
    let blocked = close_round(&mut goals, "s", 5, judge(Err("超时".to_string()))).expect("judged");
    assert_eq!((blocked.round, blocked.end.status.as_str()), (1, "blocked"));
    let rested = read(&goals, "s").expect("kept");
    assert_eq!(close_round(&mut goals, "s", 5, judge(answer("{}"))), None);
    assert_eq!(read(&goals, "s"), Some(rested));
}

#[test]
fn what_cannot_be_done_or_judged_stops_the_rounds() {
    let never = after_round(
        1,
        5,
        Ok(Judgement {
            ok: false,
            impossible: true,
            reason: "没有网".to_string(),
        }),
    );
    assert_eq!(
        (never.status.as_str(), never.reason.as_str(), never.go_on),
        ("impossible", "没有网", None)
    );
    let blocked = after_round(1, 5, Err("超时".to_string()));
    assert_eq!((blocked.status.as_str(), blocked.go_on), ("blocked", None));
}

#[test]
fn the_judge_sees_the_goal_and_the_talk() {
    let request = judge_request("small", "让测试全绿", "修好了两条");
    match &request.messages[0].content[0] {
        ContentBlock::Text { text } => {
            assert!(text.contains("让测试全绿") && text.contains("修好了两条"));
        }
        _ => panic!("text was expected"),
    }
    assert_eq!(request.model, "small");
    let blocks = vec![
        ContentBlock::Text {
            text: "a".to_string(),
        },
        ContentBlock::ToolResult {
            tool_use_id: "x".to_string(),
            content: "hidden".to_string(),
        },
        ContentBlock::Text {
            text: "b".to_string(),
        },
    ];
    assert_eq!(text_lines(&blocks), "a\nb");
}
