//! The memory gate, what is distilled, what is retrieved, and skills.

use joy::consolidation::{
    count_new, distill, distill_request, fact_of_fields, is_due, marker_in, temporary_marker,
    temporary_markers, Consolidation, Distilled, LogRow, NewFact, Step,
};
use joy::gate::{extract_json, gate_request, should_retrieve, Decision};
use joy::memory::{context_of, index_text, markdown_of, reindex_failure};
use joy::model::{ContentBlock, CreateRequest};
use joy::skills::{
    export_line, export_step, install_from_text, is_slug, loaded_skills, parse_skill_text, rank,
    tokens, words_in, Export, FoundSkill, LoadedSkill, SkillLoader,
};

fn said(request: &CreateRequest) -> String {
    match &request.messages[0].content[0] {
        ContentBlock::Text { text } => text.clone(),
        _ => panic!("text was expected"),
    }
}

fn answer(text: &str) -> Result<String, String> {
    Ok(text.to_string())
}

fn pair(a: &str, b: &str) -> Vec<(String, String)> {
    vec![(a.to_string(), b.to_string())]
}

#[test]
fn gate_says_retrieve_with_a_query() {
    let d = should_retrieve(
        answer(r#"{"retrieve": true, "query": "alex meetings", "reason": "mentions a person"}"#),
        "我什么时候和阿明开会",
    );
    assert!(d.retrieve);
    assert_eq!(d.query, "alex meetings");
    assert_eq!(d.reason, "mentions a person");
}

#[test]
fn gate_lets_small_talk_through() {
    let d = should_retrieve(
        answer(r#"{"retrieve": false, "query": "", "reason": "just math"}"#),
        "2+2 等于几",
    );
    assert!(!d.retrieve);
}

#[test]
fn gate_fails_open_on_model_error() {
    let d = should_retrieve(Err("挂了".to_string()), "我什么时候和阿明开会");
    assert!(d.retrieve, "门坏了必须失败开放");
    assert_eq!(d.query, "我什么时候和阿明开会", "检索词退回原消息");
    assert!(
        d.reason.contains("失败开放"),
        "理由要说明是失败开放：{}",
        d.reason
    );
}

#[test]
fn gate_fails_open_when_model_only_thinks() {
    let d = should_retrieve(
        answer("让我想想……这是一个关于日程的问题。"),
        "我什么时候和阿明开会",
    );
    assert!(d.retrieve);
    assert!(d.reason.contains("失败开放"));
    let broken = should_retrieve(answer("{ 不是 JSON }"), "m");
    assert!(broken.retrieve && broken.reason.contains("失败开放"));
}

#[test]
fn gate_tolerates_prose_around_the_json() {
    let d = should_retrieve(
        answer("好的，判断如下：\n{\"retrieve\": true, \"query\": \"alex\", \"reason\": \"person\"}\n以上。"),
        "alex 是谁",
    );
    assert!(d.retrieve);
    assert_eq!(d.query, "alex");
}

#[test]
fn extract_json_picks_the_braces() {
    assert_eq!(
        extract_json("前缀 {\"a\":1} 后缀").as_deref(),
        Some("{\"a\":1}")
    );
    assert_eq!(extract_json("没有括号"), None);
    assert_eq!(
        extract_json("{\"a\":{\"b\":2}}").as_deref(),
        Some("{\"a\":{\"b\":2}}")
    );
}

#[test]
fn braces_the_wrong_way_round_hold_nothing() {
    assert_eq!(extract_json("} {"), None);
    assert_eq!(
        extract_json("{\"a\":1} {\"b\":2}").as_deref(),
        Some("{\"a\":1}"),
        "the first object, and no more"
    );
    assert_eq!(
        extract_json(r#"x {"a":"}\"{"} y}"#).as_deref(),
        Some(r#"{"a":"}\"{"}"#),
        "braces in strings do not count"
    );
    assert_eq!(
        extract_json("{\"a\":{\"b\":2} z").as_deref(),
        Some("{\"a\":{\"b\":2}"),
        "one that never closes goes to the last brace"
    );
    assert_eq!(extract_json("{"), None);
}

#[test]
fn gate_prompt_carries_the_message() {
    let sent = said(&gate_request("small", "阿明喜欢什么"));
    assert!(sent.contains("阿明喜欢什么"), "用户消息没进 prompt：{sent}");
}

#[test]
fn a_missing_field_is_filled_in() {
    let d = Decision::from_fields(None, None, None, "消息");
    assert!(d.retrieve, "an unclear answer lets memory in");
    assert_eq!(d.query, "消息");
}

#[test]
fn retrieve_context_formats_facts_and_episodes() {
    let text = context_of(
        &pair("alex", "Alex prefers morning meetings"),
        &pair("2026-09-01", "planned the Acme demo with alex"),
    );
    assert!(text.contains("**alex**"), "{text}");
    assert!(
        text.contains("(2026-09-01) planned the Acme demo"),
        "{text}"
    );
}

#[test]
fn retrieve_context_is_empty_when_nothing_matches() {
    let text = context_of(&vec![], &vec![]);
    assert!(text.is_empty(), "没检索到就不该拼标题：{text:?}");
}

#[test]
fn memory_mirror_lands_as_markdown() {
    let text = markdown_of(
        &pair("alex", "prefers mornings"),
        &pair("2026-09-01", "planned the demo"),
    );
    assert!(text.contains("**alex** — prefers mornings"), "{text}");
    assert!(text.contains("**2026-09-01** — planned the demo"), "{text}");
    assert!(text.contains("state.db"), "要说清事实来源在哪儿：{text}");
    assert!(markdown_of(&vec![], &vec![]).contains("_还没有_"));
    assert_eq!(index_text("alex", "x"), "alex: x");
    assert_eq!(
        reindex_failure(7, "timeout", 3),
        "第 7 条算不出来（timeout）—— 已补 3 条"
    );
}

#[test]
fn consolidation_waits_until_enough_exchanges() {
    assert!(!is_due(2, 6), "只攒了 1 轮，不该提炼");
    assert!(is_due(12, 6));
    assert!(!is_due(11, 6));
}

#[test]
fn consolidation_distills_facts_and_an_episode() {
    let got = distill(&Some(
        r#"{"facts": [{"subject": "alex", "content": "Alex prefers mornings"}],
            "episode": "talked about scheduling"}"#
            .to_string(),
    ));
    match got {
        Distilled::Memory { facts, episode } => {
            assert_eq!(facts.len(), 1);
            assert_eq!(facts[0].subject, "alex");
            assert_eq!(episode.as_deref(), Some("talked about scheduling"));
        }
        Distilled::Failed => panic!("a good answer"),
    }
}

#[test]
fn consolidation_drops_temporary_statements_but_keeps_facts() {
    let got = distill(&Some(
        r#"{"facts": [
             {"subject": "plan", "content": "这个方案本次会话先用 A"},
             {"subject": "alex", "content": "Alex prefers mornings"}
           ],
           "episode": "planned the week"}"#
            .to_string(),
    ));
    match got {
        Distilled::Memory { facts, .. } => {
            assert_eq!(facts.len(), 1, "只该写进一条");
            assert_eq!(facts[0].subject, "alex");
        }
        Distilled::Failed => panic!("a good answer"),
    }
}

#[test]
fn consolidation_failure_keeps_the_log() {
    assert_eq!(
        distill(&Some("我觉得这段对话没什么值得记的。".to_string())),
        Distilled::Failed
    );
    assert_eq!(distill(&None), Distilled::Failed);
    match distill(&Some(
        r#"{"facts": [{"subject": "", "content": "x"}, {"subject": "a", "content": ""}]}"#
            .to_string(),
    )) {
        Distilled::Memory { facts, episode } => {
            assert!(facts.is_empty());
            assert_eq!(episode, None);
        }
        Distilled::Failed => panic!("the answer itself was fine"),
    }
}

#[test]
fn consolidation_distills_facts_and_marks_rows() {
    let mut rows = Vec::new();
    for i in 0..6 {
        for (role, content) in [("user", format!("msg{i}")), ("assistant", format!("reply{i}"))] {
            rows.push(LogRow { id: rows.len() as i64 + 1, role: role.to_string(), content });
        }
    }
    assert!(is_due(rows.len(), 6));
    let told = r#"{"facts": [{"subject": "alex", "content": "Alex prefers mornings"}],
            "episode": "talked about scheduling"}"#;
    let mut work = match Consolidation::open(&rows, &Some(told.to_string())) {
        Ok(work) => work,
        Err(_) => panic!("a good answer"),
    };
    assert_eq!(work.facts.len(), 1);
    assert_eq!(work.episode.as_deref(), Some("talked about scheduling"));
    work.fact_written(true);
    assert_eq!(work.next_step(), Step::Episode, "成功之后才标记");
    work.episode_done();
    let (ids, written) = work.close();
    assert_eq!(written, 1);
    assert_eq!(ids, (1..=12).collect::<Vec<i64>>());
}

#[test]
fn rows_are_marked_when_all_is_written() {
    let rows = vec![
        LogRow { id: 4, role: "user".to_string(), content: "a".to_string() },
        LogRow { id: 5, role: "assistant".to_string(), content: "b".to_string() },
    ];
    let told = r#"{"facts": [{"subject": "alex", "content": "likes mornings"},
                            {"subject": "bob", "content": "ships on Fridays"}],
                   "episode": "planned the week"}"#;
    let mut c = match Consolidation::open(&rows, &Some(told.to_string())) {
        Ok(c) => c,
        Err(_) => panic!("a good answer"),
    };
    assert_eq!(c.next_step(), Step::Fact(0));
    assert_eq!(c.facts[0].subject, "alex");
    c.fact_written(true);
    assert_eq!(c.next_step(), Step::Fact(1));
    c.fact_written(false);
    assert_eq!(c.next_step(), Step::Episode);
    c.episode_done();
    assert_eq!(c.next_step(), Step::Mark);
    assert_eq!(c.close(), (vec![4, 5], 1));

    match Consolidation::open(&rows, &Some("没什么".to_string())) {
        Ok(_) => panic!("there is no object in it"),
        Err(ids) => assert_eq!(ids, vec![4, 5]),
    }
    match Consolidation::open(&rows, &Some("{}".to_string())) {
        Ok(c) => assert_eq!(c.next_step(), Step::Mark),
        Err(_) => panic!("an empty object is fine"),
    }
}

#[test]
fn temporary_statements_are_kept_out_of_long_term_memory() {
    assert!(temporary_marker("这次会话先用这个方案").is_some());
    assert!(temporary_marker("We will use this path for now").is_some());
    assert!(temporary_marker("暂时把会议挪到下午").is_some());
    assert!(temporary_marker("Alex 喜欢早上的会议").is_none());
    assert!(temporary_marker("The release is on October 15").is_none());
    assert!(temporary_marker("FOR NOW keep it simple").is_some());
}

#[test]
fn the_log_is_told_in_order() {
    let rows = vec![
        LogRow {
            id: 1,
            role: "user".to_string(),
            content: "第一句".to_string(),
        },
        LogRow {
            id: 2,
            role: "assistant".to_string(),
            content: "第二句".to_string(),
        },
    ];
    let request = distill_request(&rows, "small");
    let text = said(&request);
    assert!(
        text.find("第一句").expect("first") < text.find("第二句").expect("second"),
        "{text}"
    );
    assert_eq!(request.model, "small");
    assert_eq!(count_new(&vec![true, false, true]), 2);
    assert!(marker_in("for now").is_some());
    assert!(marker_in("FOR NOW").is_none());
    assert!(temporary_markers().contains(&"暂时"));
    let text = |t: &str| Some(t.to_string());
    assert!(fact_of_fields(text("a"), text("b"), None, true).is_none());
    assert!(matches!(
        fact_of_fields(text("a"), text("b"), None, false),
        Some(NewFact { .. })
    ));
}

const SKILL_MD: &str = "\
---
name: weekly-review
description: Summarize the week and draft the Monday brief
---

1. Pull last week's episodes.
2. Distill into three bullets.
";

#[test]
fn skill_frontmatter_must_carry_name_and_description() {
    let skill = parse_skill_text(SKILL_MD).expect("合法的 SKILL.md");
    assert_eq!(skill.name, "weekly-review");
    assert!(skill.description.contains("Monday brief"));
    assert!(skill.body.starts_with("1. Pull"), "{:?}", skill.body);

    assert!(parse_skill_text("没有 frontmatter 的普通 markdown").is_none());
    assert!(parse_skill_text("---\nname: x\n---\nbody").is_none());
    let skill = parse_skill_text("---\nname: 'a'\ndescription: \"b\"\n---\nx\n").unwrap();
    assert_eq!(
        (skill.name.as_str(), skill.description.as_str()),
        ("a", "b")
    );
}

#[test]
fn trigger_is_transparent_keyword_overlap() {
    let loader = SkillLoader::new(vec![parse_skill_text(SKILL_MD).unwrap()]);
    let hit = loader.matching_skills("help me do the weekly review of my inbox");
    assert!(hit.contains("Pull last week's episodes"), "{hit}");
    let miss = loader.matching_skills("2+2 等于几");
    assert!(miss.is_empty(), "不该触发：{miss}");
    assert_eq!(loader.match_message("weekly review", 0).len(), 0);
    assert_eq!(loader.skills().len(), 1);
}

#[test]
fn a_skill_created_mid_session_is_live_next_match() {
    assert!(SkillLoader::new(vec![])
        .matching_skills("plan the quarterly roadmap")
        .is_empty());
    let made = parse_skill_text(
        "---\nname: roadmap-planning\ndescription: plan the quarterly roadmap and milestones\n---\nStep one.",
    )
    .unwrap();
    let hit =
        SkillLoader::new(vec![made]).matching_skills("let us plan the quarterly roadmap now");
    assert!(hit.contains("Step one"), "目录变了必须重扫：{hit}");
}

#[test]
fn ranking_puts_the_best_first() {
    assert_eq!(rank(&vec![1, 5, 3, 5], 2), vec![1, 3]);
    assert_eq!(rank(&vec![1, 0], 2), Vec::<usize>::new());
    assert_eq!(rank(&vec![2, 3, 2], 9), vec![1, 0, 2]);
}

#[test]
fn words_are_lower_case_and_of_some_length() {
    assert_eq!(
        tokens("Weekly REVIEW of weekly-plans，好"),
        vec!["weekly", "review", "weekly", "plans"]
    );
    assert_eq!(words_in("ab abc_abd"), vec!["abc", "abd"]);
    assert!(tokens("").is_empty());
}

#[test]
fn skills_come_sorted_and_once_each() {
    let skill = |name: &str| {
        parse_skill_text(&format!("---\nname: {name}\ndescription: d\n---\nbody")).unwrap()
    };
    let loader = SkillLoader::new(vec![skill("b"), skill("a")]);
    let names: Vec<&str> = loader.skills().iter().map(|s| s.name.as_str()).collect();
    assert_eq!(names, vec!["a", "b"]);
    assert_eq!(
        SkillLoader::dirs_for("/h", &Some("/x:/y".to_string()))[0],
        "/h/skills"
    );
}

#[test]
fn a_slug_is_plain() {
    assert!(is_slug("weekly-review"));
    assert!(is_slug("a1"));
    assert!(!is_slug(""));
    assert!(!is_slug("../evil"));
    assert!(!is_slug("Upper"));
    assert!(!is_slug("a b"));
}

#[test]
fn a_skill_is_installed_from_its_text() {
    let placed = install_from_text("/h", SKILL_MD, false).expect("a good skill");
    assert_eq!(placed.dir, "/h/skills/weekly-review");
    assert_eq!(placed.file, "/h/skills/weekly-review/SKILL.md");
    assert!(placed.message.starts_with("已安装 'weekly-review' → "));
    assert!(install_from_text("/h", SKILL_MD, true)
        .unwrap_err()
        .contains("已有一个叫"));
    assert!(install_from_text("/h", "no skill", false).is_err());
    assert!(
        install_from_text("/h", "---\nname: Bad Name\ndescription: d\n---\nb", false)
            .unwrap_err()
            .contains("slug")
    );
}

#[test]
fn a_changed_copy_is_kept_unless_forced() {
    assert_eq!(export_step(true, true, false), Export::Unchanged);
    assert_eq!(export_step(false, true, false), Export::Kept);
    assert_eq!(
        export_step(false, true, true),
        Export::Copy { replace: true }
    );
    assert_eq!(
        export_step(false, false, false),
        Export::Copy { replace: false }
    );
    assert_eq!(
        export_line(Export::Unchanged, "/d", &None),
        "  unchanged   /d"
    );
    assert_eq!(
        export_line(
            Export::Copy { replace: false },
            "/d",
            &Some("full".to_string())
        ),
        "  FAILED      /d：full"
    );
}

#[test]
fn incoming_skills_are_not_loaded() {
    let found = |name: &str, folder: &str| FoundSkill {
        skill: LoadedSkill {
            name: name.to_string(),
            description: "d".to_string(),
            version: None,
            schedule: None,
            folder: folder.to_string(),
        },
        folder: folder.to_string(),
        root: "/h/skills".to_string(),
    };
    let loaded = loaded_skills(&vec![
        found("b", "/h/skills/b"),
        found("root", "/h/skills"),
        found("in", "/h/skills/_incoming"),
        found("a", "/h/skills/a"),
    ]);
    let names: Vec<&str> = loaded.iter().map(|s| s.name.as_str()).collect();
    assert_eq!(names, vec!["a", "b"]);
}
