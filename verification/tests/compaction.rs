//! Folding the older turns into a summary.

use joy::compaction::{
    clip, fallback_summary, newly_evicted, refresh, roll_forward, roll_request, summary_section,
    turn_costs, turns_that_fit, Refresh,
};
use joy::model::ContentBlock;

fn pairs(n: usize) -> Vec<(String, String)> {
    (0..n)
        .map(|i| (format!("问题 {i}"), format!("回答 {i}")))
        .collect()
}

#[test]
fn the_waterline_only_reports_turns_newly_pushed_out() {
    assert_eq!(newly_evicted(&pairs(10), 4, 0).len(), 6);
    assert!(newly_evicted(&pairs(10), 4, 6).is_empty());
    let fresh = newly_evicted(&pairs(12), 4, 6);
    assert_eq!(fresh.len(), 2);
    assert_eq!(fresh[0].0, "问题 6");
    assert!(newly_evicted(&pairs(3), 12, 0).is_empty());
}

#[test]
fn rolling_forward_folds_new_turns_into_the_previous_summary() {
    let previous = Some((2, "之前聊过项目排期。".to_string()));
    let fresh = pairs(3)[2..3].to_vec();
    let (covered, summary) = roll_forward(
        &previous,
        &fresh,
        &Some("阿明喜欢早上的会议；下周一要发版。".to_string()),
    );
    assert_eq!(covered, 3, "水位线要往前走");
    assert!(summary.contains("发版"), "{summary}");

    let request = roll_request("small", &previous, &fresh);
    let sent = match &request.messages[0].content[0] {
        ContentBlock::Text { text } => text.clone(),
        _ => panic!("text was expected"),
    };
    assert!(
        sent.contains("之前聊过项目排期。"),
        "上一版摘要没带上：{sent}"
    );
    assert!(sent.contains("回答 2"), "新挤出去的轮次没带上：{sent}");
    assert!(request.tools.is_empty());
}

#[test]
fn a_dead_summarizer_falls_back_to_a_deterministic_excerpt() {
    let (covered, summary) = roll_forward(&None, &pairs(2), &None);
    assert_eq!(covered, 2, "折叠过就是折叠过，跟上不上模型无关");
    assert!(summary.contains("问题 0"), "兜底要留住原话：{summary}");
    assert!(summary.contains("回答 1"), "{summary}");
    assert!(summary.starts_with("（模型摘要不可用"), "{summary}");
}

#[test]
fn an_empty_model_answer_is_treated_as_a_failure() {
    let (_, summary) = roll_forward(&None, &pairs(1), &Some("   ".to_string()));
    assert!(summary.contains("问题 0"), "{summary}");
}

#[test]
fn the_summary_section_is_omitted_when_empty() {
    assert!(summary_section("   ").is_none());
    let section = summary_section("阿明喜欢早会。").expect("非空就有段落");
    assert!(
        section.contains("Earlier in this conversation"),
        "{section}"
    );
    assert!(section.contains("阿明喜欢早会。"));
}

#[test]
fn refresh_persists_the_waterline_so_the_next_turn_does_not_recompute() {
    let fresh = match refresh(&None, &pairs(5), 0) {
        Refresh::Fold(fresh) => fresh,
        Refresh::Keep(_) => panic!("五轮都该折进去"),
    };
    assert_eq!(fresh.len(), 5);
    let stored = roll_forward(&None, &fresh, &Some("第一版摘要。".to_string()));
    assert_eq!(stored.0, 5);
    assert_eq!(stored.1, "第一版摘要。");

    assert_eq!(
        refresh(&Some(stored), &pairs(5), 0),
        Refresh::Keep(Some("第一版摘要。".to_string()))
    );
}

#[test]
fn an_excerpt_is_one_line_of_limited_length() {
    assert_eq!(clip("a\n b   c", 9), "a b c");
    assert_eq!(clip("abcdef", 3), "abc…");
    assert_eq!(clip("abc", 3), "abc");
    let text = fallback_summary("旧的", &pairs(1));
    assert_eq!(
        text,
        "（模型摘要不可用，以下是原对话的截断摘录：旧的 … 用户：问题 0 ｜ 助手：回答 0）"
    );
}

#[test]
fn the_newest_turns_that_fit_are_kept() {
    assert_eq!(turns_that_fit(&vec![10, 20, 30], 50), 2);
    assert_eq!(turns_that_fit(&vec![10, 20, 30], 60), 3);
    assert_eq!(turns_that_fit(&vec![10, 20, 30], 29), 1);
    assert_eq!(turns_that_fit(&vec![], 5), 0);
    let costs = turn_costs(&vec![(1, 1), (5, 7), (0, 0)]);
    assert_eq!(costs, vec![10, 20, 8]);
    assert_eq!(turns_that_fit(&costs, 28), 2);
    assert_eq!(turns_that_fit(&costs, 0), 1, "the latest one always stays");
}
