//! Rows on their way out, pages, and answers.

use joy::dispatch::{
    answer, bad_line, bad_params, before_row, dispatch, fact_page, find_method, iso, iso_opt,
    limit_of, list_models, list_offset, list_page, message_page, name_or, narrow, new_session_id,
    next_row_cursor, removed_count, row_offset, runs_aside, session_page, source_of, to_episode,
    to_episodes, to_fact, to_message, to_session, Call, EpisodeRow, ErrorCode, FactRow,
    MessageRole, MessageRow, Method, Outcome, Plan, ProviderInfo, Reply, RequestId, SessionRow,
};
use joy::telemetry::read_meta;
use joy::turn::{GateKind, GraphRoute, TokenUsage};

fn row(role: &str, meta: Option<&str>) -> MessageRow {
    MessageRow {
        id: 7,
        role: role.to_string(),
        content: "你好".to_string(),
        at: "2026-09-19 16:46:49".to_string(),
        meta: meta.map(str::to_string),
    }
}

#[test]
fn sqlite_datetime_goes_out_as_iso_8601_utc() {
    assert_eq!(
        iso("2026-09-19 16:46:49".to_string()),
        "2026-09-19T16:46:49Z"
    );
    assert_eq!(iso_opt(None), None);
    assert_eq!(
        iso_opt(Some("2026-01-02 03:04:05".to_string())),
        Some("2026-01-02T03:04:05Z".to_string())
    );
}

#[test]
fn iso_passes_through_what_it_cannot_parse() {
    for weird in ["", "2026-09-19T16:46:49+08:00", "不是时间"] {
        assert_eq!(iso(weird.to_string()), weird);
    }
}

#[test]
fn only_renderable_roles_make_it_into_the_protocol() {
    assert_eq!(
        to_message(row("user", None)).expect("user").role,
        MessageRole::User
    );
    assert_eq!(
        to_message(row("assistant", None)).expect("assistant").role,
        MessageRole::Assistant
    );
    assert!(to_message(row("system", None)).is_none());
    assert!(to_message(row("", None)).is_none());
}

#[test]
fn broken_telemetry_does_not_take_the_message_with_it() {
    let raw = r#"{"gate":null,"graph":null,"iterations":2,"latencyMs":120,
                  "tools":[],"model":"qwen","provider":"dashscope"}"#;
    let meta = to_message(row("assistant", Some(raw)))
        .expect("assistant")
        .meta
        .expect("这份遥测该被解析出来");
    assert_eq!(meta.model, "qwen");
    assert_eq!(meta.iterations, 2);
    assert_eq!(meta.provider, "dashscope");

    let broken = to_message(row("assistant", Some("这不是 JSON"))).expect("assistant");
    assert!(broken.meta.is_none());
    assert_eq!(broken.content, "你好");
}

#[test]
fn id_and_timestamp_survive_the_trip() {
    let message = to_message(row("user", None)).expect("user");
    assert_eq!(message.id, 7);
    assert_eq!(message.at, "2026-09-19T16:46:49Z");
    assert!(message.meta.is_none());
}

#[test]
fn rows_become_what_goes_out() {
    let fact = to_fact(FactRow {
        id: 3,
        subject: "alex".to_string(),
        content: "喜欢早会".to_string(),
        source: "user".to_string(),
        created_at: Some("2026-01-02 03:04:05".to_string()),
    });
    assert_eq!(fact.id, 3);
    assert_eq!(fact.created_at.as_deref(), Some("2026-01-02T03:04:05Z"));
    let episode = to_episode(EpisodeRow {
        id: 4,
        happened_at: "2026-09-01".to_string(),
        summary: "demo".to_string(),
        created_at: None,
    });
    assert_eq!(
        (episode.id, episode.happened_at.as_str(), episode.created_at),
        (4, "2026-09-01", None)
    );
    let session = to_session(SessionRow {
        id: "s".to_string(),
        title: "t".to_string(),
        messages: 12,
        started_at: None,
        last_at: Some("2026-01-02 03:04:05".to_string()),
    });
    assert_eq!(session.messages, 12);
    assert_eq!(session.last_at.as_deref(), Some("2026-01-02T03:04:05Z"));
}

#[test]
fn a_wide_number_is_narrowed_to_the_edge() {
    assert_eq!(narrow(5), 5);
    assert_eq!(narrow(i64::MAX), i32::MAX);
}

#[test]
fn pages_follow_each_other() {
    let first = list_page(5, 0, 2);
    assert_eq!((first.from, first.to), (0, 2));
    let second = list_page(5, list_offset(&first.next), 2);
    assert_eq!((second.from, second.to), (2, 4));
    let third = list_page(5, list_offset(&second.next), 2);
    assert_eq!((third.from, third.to, third.next), (4, 5, None));
    assert_eq!(list_page(5, 9, 2).from, list_page(5, 9, 2).to);
}

#[test]
fn a_full_page_has_a_cursor() {
    assert_eq!(next_row_cursor(50, 50, 0), Some("50".to_string()));
    assert_eq!(next_row_cursor(49, 50, 0), None);
    assert_eq!(row_offset(&Some("50".to_string())), 50);
    assert_eq!(row_offset(&Some("x".to_string())), 0);
    assert_eq!(row_offset(&None), 0);
    assert_eq!(before_row(&Some("17".to_string())), Some(17));
    assert_eq!(before_row(&Some("?".to_string())), None);
    assert_eq!(limit_of(Some(3), 50), 3);
    assert_eq!(limit_of(None, 50), 50);
}

#[test]
fn a_page_of_messages_skips_what_cannot_be_shown() {
    let mut rows = vec![row("user", None), row("system", None)];
    rows[0].id = 9;
    rows[1].id = 8;
    let page = message_page(&rows, 2);
    assert_eq!(page.data.len(), 1);
    assert!(page.next.is_some(), "the page was full");
    assert!(message_page(&rows, 3).next.is_none());
}

#[test]
fn methods_are_found_by_name() {
    assert_eq!(find_method("turn/start"), Ok(Method::TurnStart));
    assert!(runs_aside(Method::TurnStart));
    assert!(!runs_aside(Method::MemorySearch));
    let missing = find_method("no/such").expect_err("unknown");
    assert_eq!(missing.code, ErrorCode::MethodNotFound);
    assert!(missing.message.contains("no/such"));
    assert_eq!(
        bad_params("turn/start", "why").code,
        ErrorCode::InvalidParams
    );
    assert_eq!(bad_line("why").code, ErrorCode::ParseError);
}

#[test]
fn every_request_is_answered_once() {
    let id = RequestId::Number(1);
    assert_eq!(
        answer(id.clone(), Ok(Outcome::Value("{}".to_string()))),
        Some(Reply::Response {
            id: id.clone(),
            result: "{}".to_string(),
        })
    );
    assert_eq!(answer(id.clone(), Ok(Outcome::SelfSent)), None);
    assert_eq!(
        answer(id.clone(), Err(bad_line("x"))),
        Some(Reply::Failure {
            to: Some(id),
            error: bad_line("x"),
        })
    );
}

#[test]
fn model_list_reports_the_provider_catalog() {
    let all = vec![
        ProviderInfo {
            id: "anthropic".to_string(),
            model: "big".to_string(),
            small_model: "small".to_string(),
        },
        ProviderInfo {
            id: "deepseek".to_string(),
            model: "chat".to_string(),
            small_model: "chat".to_string(),
        },
    ];
    let every = list_models(&all, &None);
    assert_eq!(every.len(), all.len());
    assert_eq!(every[0].provider, "anthropic");
    assert_eq!(every[0].flagship.as_deref(), Some("big"));
    let one = list_models(&all, &Some("deepseek".to_string()));
    assert_eq!(one.len(), 1);
    assert_eq!(one[0].provider, "deepseek");
    assert!(list_models(&all, &Some("nobody".to_string())).is_empty());
}

#[test]
fn names_fall_back() {
    assert_eq!(name_or(Some("a".to_string()), "b".to_string()), "a");
    assert_eq!(name_or(None, "b".to_string()), "b");
    assert_eq!(source_of(None), "user");
    assert_eq!(source_of(Some("import".to_string())), "import");
    assert_ne!(new_session_id(1), new_session_id(2));
}

#[test]
fn what_a_call_leaves_open_is_filled_in() {
    let some = |t: &str| Some(t.to_string());
    assert_eq!(
        dispatch(Call::MemorySearch { query: "q".to_string(), top_k: None }, 0),
        Plan::Search { query: "q".to_string(), facts: 4, episodes: 3 }
    );
    assert_eq!(
        dispatch(Call::MemorySearch { query: "q".to_string(), top_k: Some(9) }, 0),
        Plan::Search { query: "q".to_string(), facts: 9, episodes: 3 }
    );
    assert_eq!(
        dispatch(Call::MemoryList { limit: None, cursor: some("100") }, 0),
        Plan::RecentFacts { limit: 50, offset: 100 }
    );
    assert_eq!(
        dispatch(Call::MemoryList { limit: Some(5), cursor: some("x") }, 0),
        Plan::RecentFacts { limit: 5, offset: 0 }
    );
    assert_eq!(
        dispatch(Call::MemoryListEpisodes { limit: None }, 0),
        Plan::RecentEpisodes { limit: 20 }
    );
    assert_eq!(
        dispatch(
            Call::MemoryRemember {
                subject: "a".to_string(),
                content: "b".to_string(),
                source: some("  "),
            },
            0
        ),
        Plan::AddFact {
            subject: "a".to_string(),
            content: "b".to_string(),
            source: "user".to_string(),
        }
    );
    assert_eq!(
        dispatch(Call::MemoryForget { subject: "a".to_string() }, 0),
        Plan::ForgetSubject { subject: "a".to_string() }
    );
    assert_eq!(
        dispatch(Call::SessionList { limit: None, cursor: None }, 0),
        Plan::Sessions { limit: 50, offset: 0 }
    );
    assert_eq!(
        dispatch(Call::SessionNew { session_id: None }, 12),
        Plan::NameSession { session_id: "s12".to_string() }
    );
    assert_eq!(
        dispatch(
            Call::SessionMessages {
                session_id: "s".to_string(),
                limit: None,
                cursor: some("-3"),
            },
            0
        ),
        Plan::Messages { session_id: "s".to_string(), before: Some(-3), limit: 50 }
    );
    assert_eq!(dispatch(Call::ConfigRead, 0), Plan::ReadConfig);
    assert_eq!(dispatch(Call::ConfigWrite, 0), Plan::WriteConfig);
    assert_eq!(
        dispatch(Call::ModelList { provider: some("p") }, 0),
        Plan::Models { provider: some("p") }
    );
    assert_eq!(dispatch(Call::TurnStart, 0), Plan::RunTurn);
    assert_eq!(
        dispatch(Call::TurnInterrupt { turn_id: "t1".to_string() }, 0),
        Plan::Interrupt { turn_id: "t1".to_string() }
    );
}

#[test]
fn pages_are_made_of_rows() {
    let fact = |id: i64| FactRow {
        id,
        subject: format!("s{id}"),
        content: "c".to_string(),
        source: "user".to_string(),
        created_at: None,
    };
    let full = fact_page(vec![fact(1), fact(2)], 2, 4);
    assert_eq!(full.data.len(), 2);
    assert_eq!(full.data[1].subject, "s2");
    assert_eq!(full.next.as_deref(), Some("6"));
    assert_eq!(fact_page(vec![fact(1)], 2, 4).next, None);

    let session = |id: &str| SessionRow {
        id: id.to_string(),
        title: "t".to_string(),
        messages: 2,
        started_at: Some("2026-09-19 16:46:49".to_string()),
        last_at: None,
    };
    let all = vec![session("a"), session("b"), session("c")];
    let first = session_page(&all, 2, 0);
    let ids: Vec<&str> = first.data.iter().map(|s| s.id.as_str()).collect();
    assert_eq!(ids, vec!["a", "b"]);
    assert_eq!(first.data[0].started_at.as_deref(), Some("2026-09-19T16:46:49Z"));
    assert_eq!(first.next.as_deref(), Some("2"));
    let last = session_page(&all, 2, list_offset(&first.next));
    assert_eq!(last.data[0].id, "c");
    assert_eq!(last.next, None);
    assert!(session_page(&all, 2, 9).data.is_empty());

    let episodes = to_episodes(vec![EpisodeRow {
        id: 3,
        happened_at: "2026-09-19".to_string(),
        summary: "s".to_string(),
        created_at: None,
    }]);
    assert_eq!(episodes[0].happened_at, "2026-09-19");
    assert_eq!(removed_count(5), 5);
    assert_eq!(removed_count(5_000_000_000), i32::MAX);
}

#[test]
fn a_record_comes_back_whole() {
    let raw = r#"{"gate":{"decision":"retrieve","reason":"a person","query":"alex"},
                  "graph":{"workflow":"triage","route":"quick","reason":"hi","path":["a","b"]},
                  "iterations":3,"latencyMs":9,
                  "tools":[{"tool":"t","status":"ok","durationMs":4},{"tool":"u","status":"error"}],
                  "model":"m","provider":"p",
                  "usage":{"inputTokens":1,"outputTokens":2},
                  "interrupted":true,"guardHits":2,"guardNote":"again"}"#;
    let meta = read_meta(raw).expect("a good record");
    let gate = meta.gate.expect("it decided");
    assert_eq!(gate.decision, GateKind::Retrieve);
    assert_eq!(gate.query.as_deref(), Some("alex"));
    let graph = meta.graph.expect("it ran");
    assert_eq!(graph.route, GraphRoute::Quick);
    assert_eq!(graph.path, vec!["a", "b"]);
    assert_eq!(meta.tools[0].duration_ms, Some(4));
    assert!(meta.tools[0].succeeded);
    assert_eq!(meta.tools[1].duration_ms, None);
    assert!(!meta.tools[1].succeeded);
    assert_eq!(
        meta.usage,
        Some(TokenUsage {
            input_tokens: 1,
            output_tokens: 2
        })
    );
    assert!(meta.interrupted);
    assert_eq!(meta.guard_hits, 2);
    assert_eq!(meta.guard_note.as_deref(), Some("again"));

    for (good, bad) in [
        (r#""route":"quick""#, r#""route":"slow""#),
        (r#""path":["a","b"]"#, r#""path":["a",2]"#),
        (r#""decision":"retrieve""#, r#""decision":1"#),
        (r#""status":"error""#, r#""status":"?""#),
        (r#""iterations":3"#, r#""iterations":3000000000"#),
        (r#""guardHits":2"#, r#""guardHits":"2""#),
        (r#""interrupted":true"#, r#""interrupted":1"#),
        (r#""model":"m","#, ""),
        (r#""outputTokens":2"#, r#""outputTokens":null"#),
    ] {
        let broken = raw.replace(good, bad);
        assert_ne!(broken, raw);
        assert_eq!(read_meta(&broken), None, "{bad}");
    }
}

#[test]
fn walking_the_pages_shows_every_session_once() {
    let all: Vec<SessionRow> = (0..7)
        .map(|i| SessionRow {
            id: format!("s{i}"),
            title: "t".to_string(),
            messages: 1,
            started_at: None,
            last_at: None,
        })
        .collect();
    for limit in 1..9 {
        let (mut seen, mut cursor, mut steps) = (Vec::new(), None, 0);
        loop {
            let page = session_page(&all, limit, list_offset(&cursor));
            seen.extend(page.data.into_iter().map(|s| s.id));
            steps += 1;
            cursor = page.next;
            if cursor.is_none() {
                break;
            }
        }
        let ids: Vec<String> = all.iter().map(|row| row.id.clone()).collect();
        assert_eq!(seen, ids, "pages of {limit}");
        assert_eq!(steps, 7usize.div_ceil(limit as usize));
    }
}

#[test]
fn a_record_tells_of_retries_and_goals() {
    let raw = r#"{"iterations":1,"latencyMs":9,"tools":[],"model":"m","provider":"p",
                  "retries":2,"goalStatus":"satisfied","goalRounds":3}"#;
    let meta = read_meta(raw).expect("a good record");
    assert_eq!((meta.retries, meta.goal_rounds), (2, 3));
    assert_eq!(meta.goal_status.as_deref(), Some("satisfied"));
    let bare = raw
        .replace(r#""retries":2,"#, "")
        .replace(r#""goalStatus":"satisfied","goalRounds":3"#, r#""goalStatus":null"#);
    let meta = read_meta(&bare).expect("an older record");
    assert_eq!((meta.retries, meta.goal_rounds, meta.goal_status), (0, 0, None));
    for bad in [r#""retries":"2""#, r#""goalRounds":null"#, r#""goalStatus":1"#] {
        let key = &bad[..bad.find(':').expect("a key") + 1];
        let at = raw.find(key).expect("it is there");
        let end = raw[at..].find([',', '}']).expect("a value") + at;
        let broken = format!("{}{bad}{}", &raw[..at], &raw[end..]);
        assert_eq!(read_meta(&broken), None, "{broken}");
    }
}
