//! What trimming tool results does, and what it leaves alone.

use joy::budget::{
    is_stub, stub, stub_budget, trim_plan, trim_tool_results, ToolResultBudget,
};
use joy::model::{ContentBlock, Message, Role};

fn call(id: &str, name: &str) -> Message {
    Message {
        role: Role::Assistant,
        content: vec![ContentBlock::ToolUse {
            id: id.to_string(),
            name: name.to_string(),
            input: "{}".to_string(),
        }],
    }
}

fn result(id: &str, chars: usize) -> Message {
    Message {
        role: Role::User,
        content: vec![ContentBlock::ToolResult {
            tool_use_id: id.to_string(),
            content: "x".repeat(chars),
        }],
    }
}

fn budget(total: usize, per_result: usize) -> ToolResultBudget {
    ToolResultBudget {
        total_chars: total,
        per_result_chars: per_result,
    }
}

fn result_text(messages: &[Message], index: usize) -> &str {
    match &messages[index].content[0] {
        ContentBlock::ToolResult { content, .. } => content,
        _ => panic!("不是工具结果"),
    }
}

/// A stub for a text of which nothing is kept on disk.
fn unkept(text: String, max: usize) -> Option<String> {
    stub(&text, max, &None)
}

#[test]
fn a_disabled_budget_does_nothing() {
    let mut messages = vec![call("1", "mcp__x__big"), result("1", 500_000)];
    let before = result_text(&messages, 1).chars().count();

    let report = trim_tool_results(&mut messages, &ToolResultBudget::disabled(), unkept);

    assert_eq!(report.trimmed, 0);
    assert_eq!(result_text(&messages, 1).chars().count(), before);
}

#[test]
fn a_batch_under_the_cap_is_left_alone() {
    let mut messages = vec![call("1", "mcp__x__small"), result("1", 1_000)];
    let report = trim_tool_results(&mut messages, &budget(10_000, 5_000), unkept);
    assert_eq!(report.trimmed, 0);
    assert_eq!(report.total_chars, 1_000);
    assert!(!report.still_over_budget);
    assert!(!result_text(&messages, 1).contains("已截断"));
}

#[test]
fn the_largest_results_are_stubbed_until_it_fits() {
    let mut messages = vec![
        call("1", "mcp__x__huge"),
        result("1", 100_000),
        call("2", "mcp__x__big"),
        result("2", 50_000),
        call("3", "mcp__x__small"),
        result("3", 1_000),
    ];

    let report = trim_tool_results(&mut messages, &budget(10_000, 30_000), unkept);

    assert_eq!(report.trimmed, 2, "两条都得换成桩才装得下：{report:?}");
    assert!(!report.still_over_budget);
    assert!(result_text(&messages, 1).contains("已截断"), "第一条该换掉");
    assert!(result_text(&messages, 3).contains("已截断"), "第二条该换掉");
    assert_eq!(result_text(&messages, 5), "x".repeat(1_000));
    assert!(report.total_chars <= 10_000, "{report:?}");
}

#[test]
fn it_stops_as_soon_as_the_batch_fits() {
    let mut messages = vec![
        call("1", "mcp__x__huge"),
        result("1", 100_000),
        call("2", "mcp__x__big"),
        result("2", 50_000),
    ];

    let report = trim_tool_results(&mut messages, &budget(60_000, 30_000), unkept);

    assert_eq!(report.trimmed, 1, "换掉最大的就够 6 万了：{report:?}");
    assert!(!report.still_over_budget);
    assert_eq!(result_text(&messages, 3).chars().count(), 50_000);
}

#[test]
fn small_results_are_never_stubbed_even_when_the_total_is_over() {
    let mut messages = Vec::new();
    for i in 0..100 {
        messages.push(call(&i.to_string(), "mcp__x__chatty"));
        messages.push(result(&i.to_string(), 1_000));
    }

    let report = trim_tool_results(&mut messages, &budget(50_000, 30_000), unkept);

    assert_eq!(report.trimmed, 0, "给一百条小结果各建一个文件更贵");
    assert!(report.still_over_budget, "要如实承认没达标，不假装处理过了");
    assert!(!result_text(&messages, 1).contains("已截断"));
}

#[test]
fn a_self_budgeted_tool_is_left_to_the_tool_itself() {
    let mut messages = vec![call("1", "run_command"), result("1", 40_000)];
    let report = trim_tool_results(&mut messages, &budget(10_000, 5_000), unkept);
    assert_eq!(report.trimmed, 0);
    assert!(!result_text(&messages, 1).contains("已截断"));
}

#[test]
fn trimming_is_idempotent() {
    let mut messages = vec![call("1", "mcp__x__huge"), result("1", 100_000)];

    let first = trim_tool_results(&mut messages, &budget(10_000, 5_000), unkept);
    assert_eq!(first.trimmed, 1);
    let after_first = result_text(&messages, 1).to_string();

    let second = trim_tool_results(&mut messages, &budget(10_000, 5_000), unkept);
    assert_eq!(second.trimmed, 0, "已经是桩了就不该再动它");
    assert_eq!(result_text(&messages, 1), after_first);
}

#[test]
fn the_report_adds_up() {
    let mut messages = vec![
        call("1", "mcp__x__huge"),
        result("1", 3_000),
        call("2", "mcp__x__big"),
        result("2", 2_000),
    ];
    let made = "（已截断，省略了 2990 字符）";
    let report = trim_tool_results(&mut messages, &budget(2_500, 1_000), |_, max| {
        assert_eq!(max, 1_000);
        Some(made.to_string())
    });
    let size = made.chars().count();
    assert_eq!(report.trimmed, 1);
    assert_eq!(report.omitted_chars, 3_000 - size);
    assert_eq!(report.total_chars, 2_000 + size);
    assert_eq!(result_text(&messages, 1), made);
    assert_eq!(result_text(&messages, 3).len(), 2_000);
}

#[test]
fn what_cannot_be_stubbed_stays() {
    let mut messages = vec![
        call("1", "mcp__x__huge"),
        result("1", 3_000),
        call("2", "mcp__x__big"),
        result("2", 2_000),
    ];
    let report = trim_tool_results(&mut messages, &budget(100, 1_000), |text: String, _| {
        if text.len() == 3_000 {
            None
        } else {
            Some("完整输出在 spill/a".to_string())
        }
    });
    assert_eq!(report.trimmed, 1);
    assert!(report.still_over_budget);
    assert_eq!(result_text(&messages, 1).len(), 3_000);
    assert_eq!(result_text(&messages, 3), "完整输出在 spill/a");
}

#[test]
fn equal_results_are_taken_in_their_order() {
    let messages = vec![
        call("1", "a"),
        result("1", 200),
        call("2", "a"),
        result("2", 300),
        call("3", "a"),
        result("3", 300),
        call("4", "a"),
        result("4", 100),
    ];
    assert_eq!(
        trim_plan(&messages, &budget(1, 150)),
        vec![(3, 0), (5, 0), (1, 0)]
    );
}

#[test]
fn a_stub_is_known_by_its_words() {
    assert!(is_stub("头…（完整输出在 spill/2026/x）"));
    assert!(is_stub("头…（已截断，省略了 12 字符）"));
    assert!(!is_stub("已截断"));
    assert!(!is_stub(""));
}

#[test]
fn the_stub_points_at_the_spilled_file() {
    let mut messages = vec![call("1", "mcp__x__huge"), result("1", 100_000)];
    let disk = std::cell::RefCell::new(Vec::new());
    let keep_aside = |text: String, max: usize| {
        let path = format!("spill/2026-09-20/tool-result-{}.txt", disk.borrow().len());
        let made = stub(&text, max, &Some(path.clone()));
        disk.borrow_mut().push((path, text));
        made
    };
    let report = trim_tool_results(&mut messages, &budget(10_000, 5_000), keep_aside);
    assert_eq!(report.trimmed, 1);

    let text = result_text(&messages, 1);
    assert!(text.contains("完整输出在 spill/"), "要指出回查路径：{text}");
    let relative = text
        .split("完整输出在 ")
        .nth(1)
        .and_then(|rest| rest.split('）').next())
        .expect("路径");
    let disk = disk.borrow();
    let (_, saved) = disk.iter().find(|(path, _)| path == relative).expect("读回落盘文件");
    assert_eq!(saved.chars().count(), 100_000, "落盘的必须是完整原文");
}

#[test]
fn a_stub_is_shorter_or_is_not_made() {
    assert_eq!(stub("abc", 3, &None), None);
    assert_eq!(stub(&"a".repeat(20), 10, &None), None);
    let text = "a".repeat(100);
    assert_eq!(
        stub(&text, 4, &None).as_deref(),
        Some("aaaa\n…（已截断，省略了 96 字符）")
    );
    let made = stub(&text, 4, &Some("spill/x.txt".to_string())).expect("shorter");
    assert_eq!(made, "aaaa\n…（已截断，省略了 96 字符；完整输出在 spill/x.txt）");
    assert!(is_stub(&made));
}

#[test]
fn the_size_of_a_stub_is_held_within_bounds() {
    assert_eq!(stub_budget(&budget(0, 1)), 64);
    assert_eq!(stub_budget(&budget(0, 64)), 64);
    assert_eq!(stub_budget(&budget(0, 500)), 500);
    assert_eq!(stub_budget(&budget(0, 2_000)), 2_000);
    assert_eq!(stub_budget(&budget(0, 30_000)), 2_000);
    assert!(ToolResultBudget::default() == ToolResultBudget::disabled());
    assert!(!ToolResultBudget::default().enabled());
    assert!(budget(1, 1).enabled());
}

#[test]
fn trimming_again_finds_the_same_files() {
    let mut messages = vec![
        call("1", "mcp__x__a"),
        result("1", 9_000),
        call("2", "mcp__x__b"),
        result("2", 8_000),
        call("3", "mcp__x__c"),
        result("3", 300),
    ];
    let kept = |text: String, max: usize| stub(&text, max, &Some("spill/0001.txt".to_string()));
    let first = trim_tool_results(&mut messages, &budget(4_000, 500), kept);
    assert_eq!(first.trimmed, 2);
    let after = messages.clone();
    let second = trim_tool_results(&mut messages, &budget(4_000, 500), kept);
    assert_eq!(second.trimmed, 0);
    assert_eq!(messages, after);
}
