//! The course of a turn, and what the model is given.

use joy::agent::{
    LoopEvent, LoopResult, LoopState, ModelReply, Progress, StopReason, ToolOutcome,
};
use joy::config::Settings;
use joy::dispatch::{ErrorCode, ErrorObject, RequestId};
use joy::engine::{Engine, GraphEvent};
use joy::full::{FullRun, LoopFailure, Next, Recall, Stage};
use joy::gate::{gate_request, Decision};
use joy::goal::{
    active, close_round, judge, judge_request, read, store, transcript, Goals,
};
use joy::graph::{NodeWrites, State, DEFAULT_MAX_STEPS};
use joy::guard::GuardReport;
use joy::json::Json;
use joy::model::{ContentBlock, CreateRequest, Message, Role, Usage};
use joy::triage::{
    build_triage_graph, calendar_writes, classify_message, classify_request, classify_writes,
    quick_request, quick_writes, triage_label,
};
use joy::turn::{
    build_system, enters_graph, facts_wanted, fold_tool_activity, gate_decision, graph_event,
    history_messages, live_frame, loop_failed, new_turn_id, settle_route, trace_line, trace_path,
    truncate, usage_line, usage_path, Clock, Frame, FullTurn, GateKind, GraphNotice, GraphRoute,
    Models, Phase, TokenUsage, TurnMeta, TurnRun, DEFAULT_SOUL, NO_MODEL,
};

fn clock() -> Clock {
    Clock {
        at: "2026-09-21 09:00".to_string(),
        zone: "CST".to_string(),
        offset: "+08:00".to_string(),
    }
}

fn models() -> Models {
    Models {
        provider: "mock".to_string(),
        model: "big".to_string(),
        small_model: "small".to_string(),
    }
}

fn test_models() -> Models {
    Models {
        provider: "mock".to_string(),
        model: "test-model".to_string(),
        small_model: "test-small".to_string(),
    }
}

/// A turn of the request 1, that goes the ordinary way or through the graph.
fn begin(message: &str, graph_workflows: bool) -> TurnRun {
    let mut run = TurnRun::begin(
        true,
        RequestId::Number(1),
        "t1".to_string(),
        Some("test".to_string()),
        message.to_string(),
    )
    .expect("configured");
    let settings = Settings {
        graph_workflows,
        ..Settings::default()
    };
    assert_eq!(run.choose_way(&settings), graph_workflows);
    run
}

/// A model that says what it was told to say, and counts how often it was asked.
struct Mock {
    outcomes: Vec<Result<String, LoopFailure>>,
    received: Vec<CreateRequest>,
}

impl Mock {
    fn new(outcomes: Vec<Result<&str, LoopFailure>>) -> Mock {
        Mock {
            outcomes: outcomes
                .into_iter()
                .map(|o| o.map(str::to_string))
                .collect(),
            received: vec![],
        }
    }

    fn ask(&mut self, request: CreateRequest) -> Result<String, LoopFailure> {
        self.received.push(request);
        if self.outcomes.is_empty() {
            return Err(LoopFailure::Other("脚本用完了".to_string()));
        }
        self.outcomes.remove(0)
    }

    /// The loop, with this model and no tools.
    fn run_loop(
        &mut self,
        system: String,
        history: Vec<Message>,
        message: &str,
    ) -> Result<LoopResult, LoopFailure> {
        let mut state = LoopState::start(history, message.to_string(), 8);
        let request = state.ask("test-model", system, vec![], 1024, 0);
        let text = self.ask(request)?;
        let reply = ModelReply {
            content: vec![ContentBlock::Text { text: text.clone() }],
            text,
            stop_reason: StopReason::EndTurn,
            usage: Usage {
                input_tokens: 10,
                output_tokens: 5,
            },
        };
        match state.on_reply(reply) {
            Progress::Finished(result, _) => Ok(result),
            _ => panic!("no tool was asked for"),
        }
    }
}

/// A full turn with a scripted model, and the summary that is stored after it.
fn drive(
    mock: &mut Mock,
    message: &str,
    pairs: Vec<(String, String)>,
) -> (Result<FullTurn, ErrorObject>, Option<(i32, String)>) {
    drive_with(mock, message, pairs, None, Settings::default().history_turns)
}

fn drive_with(
    mock: &mut Mock,
    message: &str,
    pairs: Vec<(String, String)>,
    todo: Option<String>,
    window: i32,
) -> (Result<FullTurn, ErrorObject>, Option<(i32, String)>) {
    let models = test_models();
    let answer = mock
        .ask(gate_request(&models.small_model, message))
        .map_err(LoopFailure::why);
    let (mut full, _) = FullRun::decided(models, message, answer);
    assert_eq!(full.stage, Stage::Recalling);
    let mut stored = None;
    let mut next = full.recalled(
        Recall {
            soul: DEFAULT_SOUL.to_string(),
            clock: clock(),
            memory: String::new(),
            skills: String::new(),
            todo,
            pairs,
        },
        None,
        window,
    );
    loop {
        next = match next {
            Next::Fold(request) => {
                let (rollup, next) = full.folded(mock.ask(request).ok());
                stored = Some(rollup);
                next
            }
            Next::Loop { system, history } => full.looped(mock.run_loop(system, history, message)),
            Next::Done(outcome) => return (outcome, stored),
        };
    }
}

/// A turn through the front door, and what it was routed to.
fn through_graph(mock: &mut Mock, message: &str) -> (TurnRun, Result<bool, ErrorObject>) {
    let mut run = begin(message, true);
    let mut state = State::new();
    state.set("message", Json::of_text(message));
    let mut engine = Engine::start(
        build_triage_graph().expect("the graph is well formed"),
        state,
        DEFAULT_MAX_STEPS,
    );
    let mut landed = None;
    while engine.open_wave() {
        for name in engine.wave.clone() {
            let wrote = match name.as_str() {
                "classify" => {
                    let answer = mock.ask(classify_request("test-small", message)).ok();
                    let (route, reason) = classify_message(answer);
                    Ok(classify_writes(route, reason))
                }
                "check_calendar" => Ok(calendar_writes("(no calendar)".to_string())),
                "quick_reply" => mock
                    .ask(quick_request("test-small", &engine.state))
                    .map(quick_writes)
                    .map_err(LoopFailure::why),
                "full_agent" => {
                    let (turn, _) = drive(mock, message, vec![]);
                    let why = turn.as_ref().err().map(|e| e.message.clone());
                    landed = Some(turn);
                    match why {
                        Some(why) => Err(why),
                        None => Ok(NodeWrites::new()),
                    }
                }
                _ => Ok(NodeWrites::new()),
            };
            let routes = match wrote {
                Ok(wrote) => engine.node_wrote(wrote, 0).expect("no collision"),
                Err(why) => {
                    engine.node_failed(why, 0);
                    false
                }
            };
            if routes {
                let label = triage_label(&engine.state);
                engine.route(&label);
            }
        }
        engine.close_wave();
    }
    let report = engine.finish(0);
    for event in report.events {
        if let Some(notice) = graph_event(event) {
            run.tell(Frame::Graph(notice));
        }
    }
    let landed = settle_route(&report.state, report.path, landed);
    let routed = run.routed(landed, &test_models(), 1, false);
    (run, routed)
}

/// How often the end of the graph was told.
fn graph_ends(run: &TurnRun) -> usize {
    run.sent
        .iter()
        .filter(|f| matches!(f, Frame::Graph(GraphNotice::Ended { .. })))
        .count()
}

fn words(request: &CreateRequest) -> String {
    match &request.messages[0].content[0] {
        ContentBlock::Text { text } => text.clone(),
        _ => panic!("text was expected"),
    }
}

const NO_SEARCH: &str = r#"{"retrieve": false, "query": "", "reason": "small talk"}"#;

fn full_turn(reply: &str, tools: Vec<ToolOutcome>) -> FullTurn {
    FullTurn {
        result: LoopResult {
            reply: reply.to_string(),
            tool_calls: tools,
            iterations: 2,
            usage: Usage {
                input_tokens: 30,
                output_tokens: 7,
            },
            messages: vec![],
            interrupted: false,
            guard: GuardReport::default(),
            estimated_input_tokens: 0,
            observed_input_tokens: 0,
        },
        gate: None,
    }
}

fn tool(name: &str, output: &str) -> ToolOutcome {
    ToolOutcome {
        name: name.to_string(),
        output: output.to_string(),
        duration_ms: 12,
    }
}

#[test]
fn tool_started_goes_out_before_tool_completed() {
    let mut run = begin("记一下", true);
    assert_eq!(run.phase, Phase::Routing);
    assert_eq!(run.routed(Ok(None), &models(), 5, false), Ok(false));
    for event in [
        LoopEvent::ToolStart {
            name: "save_note".to_string(),
            args: "{}".to_string(),
        },
        LoopEvent::Tool {
            name: "save_note".to_string(),
            args: "{}".to_string(),
            output: "已记住".to_string(),
        },
        LoopEvent::Text {
            delta: "好".to_string(),
        },
        LoopEvent::Llm {
            iteration: 2,
            stop_reason: StopReason::EndTurn,
            usage: Usage::default(),
        },
    ] {
        if let Some(frame) = live_frame("t1", &event) {
            run.tell(frame);
        }
    }
    let turn = full_turn("好了", vec![tool("save_note", "已记住")]);
    assert_eq!(run.looped(Ok(turn), &models(), 42, false), Ok(()));
    let record = run.record.clone().expect("the loop ended");
    assert_eq!(record.reply, "好了\n[tools used: save_note(已记住)]");
    assert_eq!(record.meta.latency_ms, 42);
    assert_eq!(record.meta.model, "big");
    assert_eq!(record.meta.tools.len(), 1);
    assert_eq!(record.meta.tools[0].duration_ms, Some(12));
    assert_eq!(run.stored(Ok(())), Ok(None));
    run.consolidated(Some(2));
    run.complete();
    assert_eq!(run.phase, Phase::Finished);
    let kinds: Vec<&str> = run
        .sent
        .iter()
        .map(|f| match f {
            Frame::TurnStarted { .. } => "started",
            Frame::GateDecided { .. } => "gate",
            Frame::TextDelta { .. } => "text",
            Frame::ToolStarted { .. } => "tool started",
            Frame::Graph(_) => "graph",
            Frame::ToolCompleted { .. } => "tool",
            Frame::Retry { .. } => "retry",
            Frame::GoalRound { .. } => "goal",
            Frame::Consolidated { .. } => "consolidated",
            Frame::TurnCompleted { .. } => "completed",
            Frame::Answer { .. } => "answer",
        })
        .collect();
    assert_eq!(
        kinds,
        vec![
            "started",
            "tool started",
            "text",
            "tool",
            "consolidated",
            "completed",
            "answer"
        ]
    );
    match &run.sent[5] {
        Frame::TurnCompleted { turn_id, meta, .. } => {
            assert_eq!(turn_id, "t1");
            assert_eq!(meta, &record.meta, "what is told is what was recorded");
        }
        other => panic!("{other:?}"),
    }
}

#[test]
fn an_answer_belongs_to_its_request_and_its_turn() {
    let mut run = TurnRun::begin(
        true,
        RequestId::Text("r-7".to_string()),
        "t99".to_string(),
        Some("  ".to_string()),
        "hi".to_string(),
    )
    .expect("configured");
    assert_eq!(
        run.sent[0],
        Frame::TurnStarted {
            turn_id: "t99".to_string(),
            session_id: "default".to_string(),
            message: "hi".to_string(),
        }
    );
    run.choose_way(&Settings::default());
    run.looped(Ok(full_turn("r", vec![])), &models(), 0, false)
        .expect("the loop ended");
    run.stored(Ok(())).expect("written");
    run.consolidated(None);
    run.complete();
    assert_eq!(
        run.sent.last(),
        Some(&Frame::Answer {
            request: RequestId::Text("r-7".to_string()),
            turn_id: "t99".to_string(),
        })
    );
    assert!(matches!(
        run.sent[run.sent.len() - 2],
        Frame::TurnCompleted { .. }
    ));
}

#[test]
fn a_turn_without_a_model_says_so() {
    let begun = TurnRun::begin(
        false,
        RequestId::Number(1),
        "t1".to_string(),
        None,
        "hi".to_string(),
    );
    match begun {
        Err(error) => {
            assert_eq!(error.code, ErrorCode::ProviderError);
            assert_eq!(error.message, NO_MODEL);
        }
        Ok(_) => panic!("there is no model"),
    }
}

#[test]
fn a_failure_ends_the_turn_without_an_answer() {
    let error = ErrorObject {
        code: ErrorCode::ProviderError,
        message: "x".to_string(),
    };
    let mut run = begin("m", false);
    assert_eq!(
        run.looped(Err(error.clone()), &models(), 0, false),
        Err(error.clone())
    );
    assert_eq!(run.phase, Phase::Failed);
    assert!(!run.sent.iter().any(|f| matches!(f, Frame::Answer { .. })));

    let mut run = begin("m", true);
    assert_eq!(run.routed(Err(error.clone()), &models(), 0, false), Err(error));

    let mut run = begin("m", false);
    let _ = run.looped(Ok(full_turn("r", vec![])), &models(), 0, false);
    let failed = run.stored(Err("disk full".to_string())).unwrap_err();
    assert_eq!(failed.code, ErrorCode::InternalError);
    assert_eq!(failed.message, "写对话日志失败：disk full");
}

#[test]
fn a_context_overflow_is_compacted_and_retried_exactly_once() {
    let message = "2+2 等于几？";
    let pairs: Vec<(String, String)> = (0..4)
        .map(|i| (format!("问题 {i}"), format!("回答 {i}")))
        .collect();
    let mut mock = Mock::new(vec![
        Ok(NO_SEARCH),
        Err(LoopFailure::Overflow("context too long".to_string())),
        Ok("更早的对话摘要。"),
        Ok("四。"),
    ]);
    let (turn, rollup) = drive(&mut mock, message, pairs);

    let mut run = begin(message, false);
    run.looped(turn, &test_models(), 1, false).expect("溢出后重试该跑通");
    run.stored(Ok(())).expect("written");
    run.consolidated(None);
    run.complete();
    let reply = run.sent.iter().find_map(|f| match f {
        Frame::TurnCompleted { reply, .. } => Some(reply.clone()),
        _ => None,
    });
    assert_eq!(reply.as_deref(), Some("四。"));
    assert_eq!(
        mock.received.len(),
        4,
        "门 + 溢出 + 摘要 + 重试，一次都不多"
    );
    assert_eq!(
        rollup,
        Some((3, "更早的对话摘要。".to_string())),
        "强制压缩该留下摘要"
    );
    let again = &mock.received[3];
    assert_eq!(again.messages.len(), 3, "the latest turn, and the message");
    assert!(again
        .system
        .as_deref()
        .is_some_and(|system| system.contains("更早的对话摘要。")));
}

#[test]
fn a_second_overflow_is_the_end() {
    let overflow = || Err(LoopFailure::Overflow("too long".to_string()));
    let mut mock = Mock::new(vec![Ok(NO_SEARCH), overflow(), overflow()]);
    let pairs = vec![("q".to_string(), "a".to_string())];
    let (turn, rollup) = drive(&mut mock, "hi", pairs);
    let error = turn.expect_err("twice is enough");
    assert_eq!(error.message, "模型调用失败：too long");
    assert_eq!(mock.received.len(), 3);
    assert_eq!(rollup, None, "one turn alone is not folded");
}

#[test]
fn a_plain_provider_error_is_not_retried() {
    let mut mock = Mock::new(vec![
        Ok(NO_SEARCH),
        Err(LoopFailure::Other("boom".to_string())),
    ]);
    let (turn, _) = drive(&mut mock, "你好", vec![]);
    let mut run = begin("你好", false);
    let error = run.looped(turn, &test_models(), 1, false).expect_err("要如实报错");
    assert_eq!(error.code, ErrorCode::ProviderError);
    assert_eq!(error, loop_failed("boom"));
    assert_eq!(
        mock.received.len(),
        2,
        "门一次 + loop 一次，不该有第二次模型调用"
    );
}

#[test]
fn turns_that_left_the_window_are_folded_before_the_loop() {
    let pairs: Vec<(String, String)> = (0..14)
        .map(|i| (format!("问题 {i}"), format!("回答 {i}")))
        .collect();
    let mut mock = Mock::new(vec![Ok(NO_SEARCH), Ok("摘要"), Ok("好")]);
    let (turn, rollup) = drive(&mut mock, "hi", pairs);
    assert_eq!(turn.expect("it went well").result.reply, "好");
    assert_eq!(rollup, Some((2, "摘要".to_string())));
    assert_eq!(mock.received.len(), 3);
    assert_eq!(mock.received[2].messages.len(), 25);
}

#[test]
fn the_system_text_has_its_parts_in_order() {
    let text = build_system(
        DEFAULT_SOUL,
        &clock(),
        "big",
        "mock",
        "- **alex**: 早会",
        "",
        &Some("\nEarlier in this conversation:\nx".to_string()),
        &Some("\nTo do:\npending: y".to_string()),
    );
    let at = |needle: &str| text.find(needle).unwrap_or_else(|| panic!("{needle}: {text}"));
    assert!(at("你是 Joy") < at("Right now it is 2026-09-21 09:00 (CST, UTC+08:00)"));
    assert!(at("Right now") < at("Your model: you are running on 'big' via the 'mock' provider"));
    assert!(at("Relevant memory:") < at("Earlier in this conversation"));
    assert!(text.ends_with("\nTo do:\npending: y"), "{text}");
    assert!(!text.contains("Relevant skill instructions"));
}

#[test]
fn only_the_latest_turns_are_history() {
    let pairs: Vec<(String, String)> = (0..5).map(|i| (format!("q{i}"), format!("a{i}"))).collect();
    let history = history_messages(&pairs, 2);
    assert_eq!(
        history,
        vec![
            Message::from_text(Role::User, "q3".to_string()),
            Message::from_text(Role::Assistant, "a3".to_string()),
            Message::from_text(Role::User, "q4".to_string()),
            Message::from_text(Role::Assistant, "a4".to_string()),
        ]
    );
    assert!(history_messages(&pairs, 0).is_empty());
    assert!(history_messages(&pairs, -1).is_empty());
    assert_eq!(history_messages(&pairs, 99).len(), 10);
}

#[test]
fn what_tools_did_is_remembered_in_short() {
    assert_eq!(fold_tool_activity("好", &vec![]), "好");
    let long = "x".repeat(300);
    let text = fold_tool_activity("好", &vec![tool("a", &long), tool("b", "y")]);
    assert_eq!(
        text,
        format!("好\n[tools used: a({}…); b(y)]", "x".repeat(200))
    );
    assert_eq!(truncate("你好吗", 2), "你好…");
    assert_eq!(truncate("你好", 2), "你好");
    assert_eq!(facts_wanted(0), 1);
    assert_eq!(facts_wanted(4), 4);
}

#[test]
fn the_gate_is_told_in_its_own_words() {
    let skip = gate_decision(&Decision {
        retrieve: false,
        query: String::new(),
        reason: "small talk".to_string(),
    });
    assert_eq!(skip.decision, GateKind::Skip);
    assert_eq!(skip.reason, "small talk");
    let look = gate_decision(&Decision {
        retrieve: true,
        query: "alex".to_string(),
        reason: "person".to_string(),
    });
    assert_eq!(look.decision, GateKind::Retrieve);
    assert_eq!(look.query.as_deref(), Some("alex"));
}

#[test]
fn inner_events_are_not_told_twice() {
    assert_eq!(
        graph_event(GraphEvent::Inner {
            node: "agent".to_string(),
            event: LoopEvent::Text {
                delta: "hi".to_string()
            },
        }),
        None
    );
    assert_eq!(
        graph_event(GraphEvent::NodeEnded {
            workflow: "w".to_string(),
            node: "n".to_string(),
            ms: i64::MAX,
            keys: vec![],
            error: None,
        }),
        Some(GraphNotice::NodeEnded {
            workflow: "w".to_string(),
            node: "n".to_string(),
            ms: i32::MAX,
            keys: vec![],
            error: None,
        })
    );
}

#[test]
fn a_turn_leaves_a_trace_and_a_usage_line_behind() {
    let message = "2+2 等于几？";
    let mut mock = Mock::new(vec![Ok(NO_SEARCH), Ok("四。")]);
    let (turn, _) = drive(&mut mock, message, vec![]);
    let mut run = begin(message, false);
    run.looped(turn, &test_models(), 1, false).expect("这轮该跑通");
    let record = run.record.as_ref().expect("a record");

    let trace = trace_line("now".to_string(), "t1", "test", message, record);
    assert_eq!(trace.user_message, "2+2 等于几？");
    assert_eq!(trace.meta.model, "test-model");
    assert_eq!(
        trace.meta.usage.map(|usage| usage.output_tokens),
        Some(5),
        "usage 随 meta 落盘"
    );
    assert_eq!((trace.turn_id.as_str(), trace.reply.as_str()), ("t1", "四。"));

    let row = usage_line("now".to_string(), "t1", "test", record);
    assert_eq!(row.provider, "mock");
    assert_eq!(row.input_tokens, 10);
    assert_eq!(row.iterations, 1);
    assert!(!row.interrupted);

    assert_eq!(
        trace_path("/h", "2026-09-21"),
        "/h/traces/2026-09-21.jsonl"
    );
    assert_eq!(usage_path("/h"), "/h/usage.jsonl");
    assert_eq!(new_turn_id(17), "t17");
}

#[test]
fn graph_off_is_the_plain_path() {
    let mut mock = Mock::new(vec![Ok(NO_SEARCH), Ok("四。")]);
    let (turn, _) = drive(&mut mock, "2+2 等于几？", vec![]);
    let mut run = begin("2+2 等于几？", false);
    assert_eq!(run.phase, Phase::Looping, "the front door is not asked");
    assert_eq!(run.sent.len(), 1, "and nothing is told of it");
    assert!(!enters_graph(&Settings::default()));
    run.looped(turn, &test_models(), 1, false).expect("the loop ended");
    let record = run.record.as_ref().expect("a record");
    assert!(record.meta.graph.is_none(), "图关着的时候不该留痕迹");
    assert!(record.meta.gate.is_some(), "普通路径有检索门");
    assert_eq!(record.meta.model, "test-model");
    assert_eq!(record.reply, "四。");
    assert_eq!(mock.received.len(), 2, "门 + loop，不多不少");
    assert!(
        !run.sent.iter().any(|f| matches!(f, Frame::Graph(_))),
        "没开图就没图的通知"
    );
    assert_eq!(
        record.meta.usage,
        Some(TokenUsage {
            input_tokens: 10,
            output_tokens: 5,
        })
    );
    assert!(!record.meta.interrupted, "没人打断它，meta 得说实话");
}

#[test]
fn quick_route_is_one_short_call_and_no_gate() {
    let mut mock = Mock::new(vec![
        Ok(r#"{"route": "quick", "reason": "greeting"}"#),
        Ok("你好呀。"),
    ]);
    let (run, routed) = through_graph(&mut mock, "你好");
    assert_eq!(routed, Ok(true));
    let record = run.record.as_ref().expect("it landed");
    let graph = record.meta.graph.as_ref().expect("走图就该有图的记录");
    assert_eq!(graph.workflow, "triage");
    assert_eq!(graph.route, GraphRoute::Quick);
    assert_eq!(graph.reason, "greeting");
    assert!(graph.path.contains(&"quick_reply".to_string()), "{graph:?}");

    assert_eq!(record.meta.gate, None, "快答连记忆都不翻，哪来的门");
    assert_eq!(record.meta.iterations, 1);
    assert_eq!(
        record.meta.model, "test-small",
        "快答是小模型答的，meta 得说实话"
    );
    assert_eq!(run.reply, "你好呀。");

    assert_eq!(mock.received.len(), 2);
    assert!(words(&mock.received[0]).contains("triage gate"));

    let walked: Vec<&str> = run
        .sent
        .iter()
        .filter_map(|f| match f {
            Frame::Graph(GraphNotice::NodeStarted { node, .. }) => Some(node.as_str()),
            _ => None,
        })
        .collect();
    assert!(run
        .sent
        .iter()
        .any(|f| matches!(f, Frame::Graph(GraphNotice::Started { .. }))));
    assert!(walked.contains(&"classify"), "{walked:?}");
    assert!(walked.contains(&"quick_reply"), "{walked:?}");
    assert_eq!(graph_ends(&run), 1, "图有始有终");
}

#[test]
fn full_route_is_the_same_turn_as_the_plain_path() {
    let mut mock = Mock::new(vec![
        Ok(r#"{"route": "full", "reason": "about a person"}"#),
        Ok(r#"{"retrieve": true, "query": "阿明 会议", "reason": "about a person"}"#),
        Ok("你和阿明周四下午三点开会。"),
    ]);
    let (run, routed) = through_graph(&mut mock, "我什么时候和阿明开会？");
    assert_eq!(routed, Ok(true));
    let record = run.record.as_ref().expect("it landed");
    let graph = record.meta.graph.as_ref().expect("走图就该有图的记录");
    assert_eq!(graph.route, GraphRoute::Full);
    assert!(graph.path.contains(&"full_agent".to_string()), "{graph:?}");
    assert_eq!(
        record.meta.gate.as_ref().map(|g| g.decision),
        Some(GateKind::Retrieve)
    );
    assert_eq!(record.meta.model, "test-model", "完整路径还是大模型");
    assert_eq!(run.reply, "你和阿明周四下午三点开会。");
    assert_eq!(mock.received.len(), 3);
    assert!(
        words(&mock.received[1]).contains("retrieval gate"),
        "第二次调用是门，不是别的东西"
    );
}

#[test]
fn a_failed_loop_inside_the_graph_is_reported_without_a_retry() {
    let mut mock = Mock::new(vec![Ok(r#"{"route": "full", "reason": "x"}"#)]);
    let (run, routed) = through_graph(&mut mock, "帮我看下");
    let error = routed.expect_err("该报错");
    assert_eq!(error.code, ErrorCode::ProviderError);
    assert!(error.message.contains("模型调用失败"), "{error:?}");
    assert_eq!(mock.received.len(), 3);
    assert_eq!(graph_ends(&run), 1);
}

/// The session of these tests that has a goal.
const GOAL_SESSION: &str = "goal-session";

/// A whole turn under a goal, with a scripted model that is also the judge.
fn pursue(mock: &mut Mock, goals: &mut Goals, max_rounds: i32, message: &str) -> TurnRun {
    let mut run = begin(message, false);
    let mut said: Vec<(String, String)> = vec![];
    let mut message = message.to_string();
    loop {
        let (turn, _) = drive(mock, &message, said.clone());
        let goal = active(goals, GOAL_SESSION);
        run.looped(turn, &test_models(), 1, goal.is_some())
            .expect("这一轮该跑完");
        said.push((message.clone(), run.reply.clone()));
        if run.phase == Phase::Judging {
            let condition = goal.expect("a goal is pursued").condition;
            let request = judge_request("test-small", &condition, &transcript(&said));
            let judged = judge(mock.ask(request).map_err(LoopFailure::why));
            run.judged(close_round(goals, GOAL_SESSION, max_rounds, judged));
        }
        match run.stored(Ok(())).expect("written") {
            Some(next) => message = next,
            None => break,
        }
    }
    run.consolidated(None);
    run.complete();
    run
}

/// The rounds that were told: status, reason and number.
fn rounds_told(run: &TurnRun) -> Vec<(String, String, i32)> {
    run.sent
        .iter()
        .filter_map(|f| match f {
            Frame::GoalRound {
                turn_id,
                round,
                status,
                reason,
            } => {
                assert_eq!(turn_id, "t1");
                Some((status.clone(), reason.clone(), *round))
            }
            _ => None,
        })
        .collect()
}

/// What the end of the turn says, and its reply.
fn completed(run: &TurnRun) -> (TurnMeta, String) {
    run.sent
        .iter()
        .find_map(|f| match f {
            Frame::TurnCompleted { meta, reply, .. } => Some((meta.clone(), reply.clone())),
            _ => None,
        })
        .expect("有 TurnCompleted")
}

#[test]
fn the_loop_continues_until_the_judge_is_satisfied() {
    let mut mock = Mock::new(vec![
        Ok(r#"{"retrieve": false, "query": "", "reason": "goal"}"#),
        Ok("我先做了一半。"),
        Ok(r#"{"ok": false, "impossible": false, "reason": "测试还有两条红"}"#),
        Ok(r#"{"retrieve": false, "query": "", "reason": "goal"}"#),
        Ok("两条都修好了。"),
        Ok(r#"{"ok": true, "impossible": false, "reason": "全绿了"}"#),
    ]);
    let mut goals = store();
    joy::goal::set(&mut goals, GOAL_SESSION, Some("让测试全绿")).expect("设上");
    let run = pursue(&mut mock, &mut goals, 5, "开始吧");

    let rounds = rounds_told(&run);
    assert_eq!(rounds.len(), 2, "续一轮 + 达成一次：{rounds:?}");
    assert_eq!(rounds[0].0, "continuing", "{rounds:?}");
    assert_eq!(rounds[1].0, "satisfied", "{rounds:?}");
    assert_eq!(rounds[1].2, 2, "第二轮：{rounds:?}");
    assert!(
        rounds[0].1.contains("还有两条红"),
        "理由要带过去：{rounds:?}"
    );

    let (meta, reply) = completed(&run);
    assert_eq!(meta.goal_status.as_deref(), Some("satisfied"), "{meta:?}");
    assert_eq!(meta.goal_rounds, 2, "{meta:?}");
    assert!(reply.contains("修好了"), "最终答复是第二轮的：{reply}");

    assert_eq!(mock.received.len(), 6, "gate, reply, judge, twice");
    assert!(words(&mock.received[2]).contains("让测试全绿"), "the judge");
    assert!(words(&mock.received[5]).contains("两条都修好了。"), "and again");
    assert!(
        mock.received.iter().any(|request| request
            .messages
            .iter()
            .any(|message| message.content.iter().any(
                |block| matches!(block, ContentBlock::Text { text } if text.contains("还有两条红"))
            ))),
        "续轮要把理由喂回去"
    );
    let last = mock.received[4].messages.last().expect("a message");
    assert_eq!(last.role, Role::User, "it is fed back as the user's");
    assert_eq!(
        mock.received[4].messages.len(),
        3,
        "the first round is history by then"
    );
    let goal = read(&goals, GOAL_SESSION).expect("记录还在");
    assert_eq!(goal.status.as_deref(), Some("satisfied"));
    assert_eq!(goal.rounds, 2);
}

#[test]
fn running_out_of_rounds_is_reported_honestly() {
    let mut mock = Mock::new(vec![
        Ok(r#"{"retrieve": false, "query": "", "reason": "goal"}"#),
        Ok("还没弄好。"),
        Ok(r#"{"ok": false, "impossible": false, "reason": "还差一点"}"#),
    ]);
    let mut goals = store();
    joy::goal::set(&mut goals, GOAL_SESSION, Some("做到 X")).expect("设上");
    let run = pursue(&mut mock, &mut goals, 1, "开始");

    let statuses: Vec<String> = rounds_told(&run).into_iter().map(|round| round.0).collect();
    assert_eq!(statuses, vec!["round-limit".to_string()], "一轮就是上限");
    assert!(
        read(&goals, GOAL_SESSION).is_some(),
        "不伪装完成，也不清掉目标"
    );
    let (meta, reply) = completed(&run);
    assert_eq!(meta.goal_status.as_deref(), Some("round-limit"));
    assert_eq!((meta.goal_rounds, reply.as_str()), (1, "还没弄好。"));
    assert_eq!(mock.received.len(), 3);
}

#[test]
fn a_turn_without_a_goal_is_not_judged() {
    let mut mock = Mock::new(vec![Ok(NO_SEARCH), Ok("好")]);
    let run = pursue(&mut mock, &mut store(), 5, "hi");
    let (meta, _) = completed(&run);
    assert_eq!((meta.goal_status, meta.goal_rounds), (None, 0));
    assert_eq!(mock.received.len(), 2, "nobody judges");
}

#[test]
fn a_stopped_turn_is_not_judged() {
    let mut turn = full_turn("停了", vec![]);
    turn.result.interrupted = true;
    let mut run = begin("m", false);
    run.looped(Ok(turn), &models(), 0, true).expect("it ended");
    assert_eq!(run.phase, Phase::Storing);

    let mut run = begin("m", false);
    run.looped(Ok(full_turn("r", vec![])), &models(), 0, true)
        .expect("it ended");
    assert_eq!(run.phase, Phase::Judging);
    run.judged(None);
    let record = run.record.clone().expect("a record");
    assert_eq!((record.meta.goal_status, record.meta.goal_rounds), (None, 0));
    assert_eq!(run.stored(Ok(())), Ok(None), "a goal that is gone goes on no more");
}

/// One line on a call that is tried again.
fn retry(reason: &str) -> Frame {
    Frame::Retry {
        turn_id: "t1".to_string(),
        reason: reason.to_string(),
    }
}

#[test]
fn a_rate_limited_call_is_retried_and_reported_in_the_meta() {
    let mut mock = Mock::new(vec![
        Ok(r#"{"retrieve": false, "query": "", "reason": "small talk"}"#),
        Ok("四。"),
    ]);
    let message = "2+2 等于几？";
    let mut run = begin(message, false);
    run.tell(retry("HTTP 429: slow down"));
    let (turn, _) = drive(&mut mock, message, vec![]);
    run.looped(turn, &test_models(), 1, false)
        .expect("限流之后该照常跑完");
    run.stored(Ok(())).expect("written");
    run.consolidated(None);
    run.complete();

    let mut retries = 0;
    for frame in &run.sent {
        if let Frame::Retry { turn_id, reason } = frame {
            retries += 1;
            assert!(reason.contains("429"), "{reason}");
            assert!(!turn_id.is_empty(), "通知要带上是哪一轮");
        }
    }
    assert_eq!(retries, 1, "每次重试都要有一条通知");
    let (meta, reply) = completed(&run);
    assert_eq!(meta.retries, 1, "meta 里的次数是实测的");
    assert_eq!(reply, "四。");
}

#[test]
fn retries_of_the_judge_count_too() {
    let mut goals = store();
    joy::goal::set(&mut goals, GOAL_SESSION, Some("X")).expect("set");
    let mut run = begin("m", false);
    run.tell(retry("429"));
    run.looped(Ok(full_turn("r", vec![])), &models(), 0, true)
        .expect("it ended");
    assert_eq!(run.record.as_ref().map(|r| r.meta.retries), Some(1));
    run.tell(retry("429"));
    let judged = judge(Ok(r#"{"ok": true, "reason": "done"}"#.to_string()));
    run.judged(close_round(&mut goals, GOAL_SESSION, 5, judged));
    assert_eq!(run.record.as_ref().map(|r| r.meta.retries), Some(2));
}

/// What stands above a to-do list.
const TODO_HEADER: &str = "\nThe to-do list of this session:\n";

#[test]
fn a_todo_list_is_injected_into_the_next_turn() {
    let list = "in_progress: 写测试\npending: 改文档";
    let mut first = begin("列一下要做的事", false);
    let turn = full_turn("清单记下了。", vec![tool("todo_write", list)]);
    first
        .looped(Ok(turn), &test_models(), 1, false)
        .expect("这一轮该跑完");
    let tool_output = first
        .sent
        .iter()
        .find_map(|f| match f {
            Frame::ToolCompleted { output, .. } => Some(output.clone()),
            _ => None,
        })
        .expect("the tool was told of");
    assert!(
        tool_output.contains("in_progress: 写测试"),
        "工具应答里该有权威清单：{tool_output}"
    );

    let mut mock = Mock::new(vec![
        Ok(r#"{"retrieve": false, "query": "", "reason": "todo"}"#),
        Ok("接着干。"),
    ]);
    let section = format!("{TODO_HEADER}{tool_output}");
    let (turn, _) = drive_with(&mut mock, "接着来", vec![], Some(section), 12);
    assert_eq!(turn.expect("这一轮该跑完").result.reply, "接着干。");
    let system = mock.received.last().expect("asked").system.clone();
    let system = system.expect("a system prompt");
    assert!(
        system.contains(TODO_HEADER),
        "第二轮的 system prompt 里该有清单那一段：{system}"
    );
    assert!(system.contains("in_progress: 写测试"), "{system}");
    assert!(system.contains("pending: 改文档"), "{system}");
}

#[test]
fn a_session_without_a_list_gets_no_section() {
    let mut systems = Vec::new();
    for todo in [None, Some(String::new())] {
        let mut mock = Mock::new(vec![
            Ok(r#"{"retrieve": false, "query": "", "reason": "plain"}"#),
            Ok("好。"),
        ]);
        let (turn, _) = drive_with(&mut mock, "hi", vec![], todo, 12);
        assert_eq!(turn.expect("这一轮该跑完").result.reply, "好。");
        let system = mock.received.last().expect("asked").system.clone();
        systems.push(system.expect("a system prompt"));
    }
    assert!(!systems[0].contains(TODO_HEADER), "{}", systems[0]);
    assert_eq!(systems[0], systems[1], "nor does an empty list");
}

#[test]
fn an_overflow_never_widens_the_window() {
    let pairs: Vec<(String, String)> = (0..3).map(|i| (format!("q{i}"), format!("a{i}"))).collect();
    let mut mock = Mock::new(vec![
        Ok(NO_SEARCH),
        Ok("摘要"),
        Err(LoopFailure::Overflow("too long".to_string())),
        Ok("好"),
    ]);
    let (turn, rollup) = drive_with(&mut mock, "hi", pairs, None, 0);
    assert_eq!(turn.expect("it went well").result.reply, "好");
    assert_eq!(rollup, Some((3, "摘要".to_string())));
    assert_eq!(
        mock.received.last().expect("asked").messages.len(),
        1,
        "no turn comes back into the window"
    );
}
