//! The loop between a model and its tools, driven by hand.

use std::cell::RefCell;

use joy::agent::{
    tool_uses, LoopEvent, LoopResult, LoopState, ModelReply, Progress, StopReason, ToolOutcome,
};
use joy::budget::{stub, ToolResultBudget};
use joy::model::{ContentBlock, CreateRequest, Message, Role, ToolSchema, Usage};

/// What a scripted model says in one round.
fn text(said: &str) -> ModelReply {
    ModelReply {
        content: vec![ContentBlock::Text {
            text: said.to_string(),
        }],
        text: said.to_string(),
        stop_reason: StopReason::EndTurn,
        usage: Usage {
            input_tokens: 10,
            output_tokens: 5,
        },
    }
}

fn tool_use(id: &str, name: &str, input: &str) -> ModelReply {
    ModelReply {
        content: vec![ContentBlock::ToolUse {
            id: id.to_string(),
            name: name.to_string(),
            input: input.to_string(),
        }],
        text: String::new(),
        stop_reason: StopReason::ToolUse,
        usage: Usage {
            input_tokens: 10,
            output_tokens: 5,
        },
    }
}

/// What a scripted turn left behind.
struct Played {
    result: LoopResult,
    events: Vec<LoopEvent>,
    requests: Vec<CreateRequest>,
    /// What was put aside, and where.
    disk: Vec<(String, String)>,
}

/// Plays the script to its end; `tool` stands for the tools, and the model says
/// its answers in pieces of two characters.
fn play(
    script: Vec<ModelReply>,
    max_iterations: i32,
    budget: ToolResultBudget,
    tool: impl Fn(&str, &str) -> String,
) -> Played {
    let mut script = script.into_iter();
    let mut requests = Vec::new();
    let disk = RefCell::new(Vec::new());
    let mut state = LoopState::start(vec![], "记住 alex 喜欢早会".to_string(), max_iterations);
    loop {
        state.trim(&budget, |text: String, max: usize| {
            let path = format!("spill/2026-09-20/tool-result-{}.txt", disk.borrow().len());
            let made = stub(&text, max, &Some(path.clone()));
            disk.borrow_mut().push((path, text));
            made
        });
        let tools = vec![ToolSchema {
            name: "save_note".to_string(),
            description: String::new(),
            input_schema: "{}".to_string(),
        }];
        requests.push(state.ask("test-model", "你是 Joy".to_string(), tools, 1024, 3));
        let reply = script.next().expect("script ran dry");
        let said: Vec<char> = reply.text.chars().collect();
        for piece in said.chunks(2) {
            state.heard(&piece.iter().collect::<String>());
        }
        let mut progress = state.on_reply(reply);
        loop {
            match progress {
                Progress::Finished(result, events) => {
                    return Played {
                        result,
                        events,
                        requests,
                        disk: disk.into_inner(),
                    }
                }
                Progress::AskModel(next) => {
                    state = next;
                    break;
                }
                Progress::RunTool(next) => {
                    let output = {
                        let used = next.next_use().expect("a tool to run");
                        tool(&used.name, &used.input)
                    };
                    progress = next.on_tool(output, 7);
                }
            }
        }
    }
}

fn run(
    script: Vec<ModelReply>,
    max_iterations: i32,
    tool: impl Fn(&str, &str) -> String,
) -> LoopResult {
    play(script, max_iterations, ToolResultBudget::disabled(), tool).result
}

fn result_texts(messages: &[Message]) -> Vec<String> {
    messages
        .iter()
        .flat_map(|m| m.content.iter())
        .filter_map(|b| match b {
            ContentBlock::ToolResult { content, .. } => Some(content.clone()),
            _ => None,
        })
        .collect()
}

#[test]
fn no_tool_call_ends_the_turn_immediately() {
    let result = run(vec![text("好，我记住了。")], 5, |_, _| unreachable!());
    assert_eq!(result.reply, "好，我记住了。");
    assert_eq!(result.iterations, 1);
    assert!(result.tool_calls.is_empty());
    assert_eq!(result.usage.input_tokens, 10);
    assert_eq!(
        result.messages[0],
        Message::user_text("记住 alex 喜欢早会".to_string())
    );
    assert_eq!(result.messages.len(), 2);
    assert_eq!(result.estimated_input_tokens, 3);
    assert_eq!(result.observed_input_tokens, 10);
}

#[test]
fn the_request_carries_the_conversation() {
    let played = play(
        vec![text("好")],
        5,
        ToolResultBudget::disabled(),
        |_, _| unreachable!(),
    );
    let sent = &played.requests[0];
    assert_eq!(sent.system.as_deref(), Some("你是 Joy"));
    assert_eq!(sent.model, "test-model");
    assert_eq!(sent.max_tokens, 1024);
    assert_eq!(sent.tools.len(), 1);
    assert_eq!(
        sent.messages,
        vec![Message::user_text("记住 alex 喜欢早会".to_string())]
    );
}

/// What an observer writes down of each event.
fn names(events: &[LoopEvent]) -> Vec<String> {
    events
        .iter()
        .map(|event| match event {
            LoopEvent::Llm {
                iteration,
                stop_reason,
                ..
            } => format!(
                "llm#{iteration}={}",
                match stop_reason {
                    StopReason::ToolUse => "tool_use",
                    StopReason::EndTurn => "end_turn",
                    StopReason::Other => "other",
                }
            ),
            LoopEvent::Text { .. } => "text".to_string(),
            LoopEvent::ToolStart { name, .. } => format!("tool_start:{name}"),
            LoopEvent::Tool { name, .. } => format!("tool:{name}"),
        })
        .collect()
}

#[test]
fn observer_sees_llm_and_tool_events_in_order() {
    let played = play(
        vec![
            tool_use("tu_1", "save_note", r#"{"subject":"a","content":"b"}"#),
            text("记好了"),
        ],
        5,
        ToolResultBudget::disabled(),
        |_, _| "已记住".to_string(),
    );
    assert_eq!(played.result.iterations, 2);
    let seen: Vec<String> = names(&played.events)
        .into_iter()
        .filter(|n| n != "text")
        .collect();
    assert_eq!(
        seen,
        vec![
            "llm#1=tool_use",
            "tool_start:save_note",
            "tool:save_note",
            "llm#2=end_turn"
        ]
    );
}

#[test]
fn streaming_emits_text_deltas_in_order() {
    let played = play(
        vec![text("好的，我记住了。")],
        5,
        ToolResultBudget::disabled(),
        |_, _| unreachable!(),
    );
    let deltas: Vec<String> = played
        .events
        .iter()
        .filter_map(|e| match e {
            LoopEvent::Text { delta } => Some(delta.clone()),
            _ => None,
        })
        .collect();
    assert_eq!(
        deltas.join(""),
        "好的，我记住了。",
        "增量拼起来应当是完整文本"
    );
    assert!(deltas.len() > 1, "应当有多个增量，而不是一整段");
    assert_eq!(
        played.result.reply, "好的，我记住了。",
        "最终应答应当还是完整的"
    );
}

#[test]
fn streaming_works_across_tool_rounds() {
    let played = play(
        vec![
            tool_use("tu_1", "save_note", r#"{"subject":"a","content":"b"}"#),
            text("记好了。"),
        ],
        5,
        ToolResultBudget::disabled(),
        |_, _| "已记住".to_string(),
    );
    assert_eq!(played.result.iterations, 2);
    let said: String = played
        .events
        .iter()
        .filter_map(|e| match e {
            LoopEvent::Text { delta } => Some(delta.as_str()),
            _ => None,
        })
        .collect();
    assert_eq!(said, "记好了。", "工具那一轮没有文本，不该产生增量");
    assert!(played.result.tool_calls[0].ok());
}

#[test]
fn an_oversized_tool_result_becomes_a_stub_before_the_next_request() {
    let played = play(
        vec![
            tool_use("call-1", "mcp__demo__fetch", "{}"),
            text("看完了。"),
        ],
        4,
        ToolResultBudget {
            total_chars: 10_000,
            per_result_chars: 5_000,
        },
        |_, _| "z".repeat(100_000),
    );
    assert_eq!(played.result.reply, "看完了。");
    assert_eq!(played.requests.len(), 2, "一次工具往返 = 两次模型调用");
    let stub = &result_texts(&played.requests[1].messages)[0];
    assert!(
        stub.contains("已截断") && stub.chars().count() < 5_000,
        "超限结果该换成桩：{} 字符",
        stub.chars().count()
    );
    assert!(stub.contains("完整输出在 spill/"), "{stub}");
    let relative = stub
        .split("完整输出在 ")
        .nth(1)
        .and_then(|rest| rest.split('）').next())
        .expect("路径");
    let (_, saved) = played
        .disk
        .iter()
        .find(|(path, _)| path == relative)
        .expect("读回落盘");
    assert_eq!(saved.chars().count(), 100_000);
    assert!(relative.starts_with("spill/"), "{relative}");
    assert_eq!(
        played.result.tool_calls[0].output.chars().count(),
        100_000,
        "记录里仍是真结果"
    );
}

#[test]
fn unknown_tool_name_is_surfaced_not_fatal() {
    let result = run(
        vec![
            tool_use("tu_1", "hack_the_planet", "{}"),
            text("我没有那个工具。"),
        ],
        5,
        |name, _| format!("Error: 没有叫 '{name}' 的工具"),
    );
    assert!(result.tool_calls[0]
        .output
        .contains("没有叫 'hack_the_planet' 的工具"));
    assert_eq!(result.iterations, 2);
}

#[test]
fn tool_call_round_trip_feeds_result_back() {
    let result = run(
        vec![
            tool_use(
                "tu_1",
                "save_note",
                r#"{"subject":"alex","content":"喜欢早会"}"#,
            ),
            text("已经记下了。"),
        ],
        5,
        |_, _| "已记住 #1".to_string(),
    );
    assert_eq!(result.iterations, 2);
    assert_eq!(result.reply, "已经记下了。");
    assert_eq!(result.tool_calls.len(), 1);
    assert!(result.tool_calls[0].ok());
    assert_eq!(result.usage.input_tokens, 20);
    assert_eq!(result.usage.output_tokens, 10);
    assert_eq!(
        result.messages[2],
        Message {
            role: Role::User,
            content: vec![ContentBlock::ToolResult {
                tool_use_id: "tu_1".to_string(),
                content: "已记住 #1".to_string(),
            }],
        }
    );
}

#[test]
fn tool_error_becomes_text_and_the_loop_continues() {
    let result = run(
        vec![
            tool_use("tu_1", "save_note", r#"{"subject":42}"#),
            text("参数好像不对，你能再说一遍吗？"),
        ],
        5,
        |_, _| "Error: subject 要是字符串".to_string(),
    );
    assert!(!result.tool_calls[0].ok());
    assert_eq!(result.iterations, 2, "出错后 loop 应当继续，而不是崩掉");
    assert_eq!(result.reply, "参数好像不对，你能再说一遍吗？");
    assert!(result_texts(&result.messages)[0].starts_with("Error:"));
}

#[test]
fn iteration_limit_stops_the_loop() {
    let result = run(
        vec![
            tool_use("tu_1", "current_time", "{}"),
            tool_use("tu_2", "current_time", "{}"),
        ],
        2,
        |_, _| "12:00".to_string(),
    );
    assert_eq!(result.iterations, 2);
    assert!(result.reply.contains("迭代上限"), "{}", result.reply);
    assert_eq!(result.tool_calls.len(), 2);
    assert!(!result.interrupted);
}

#[test]
fn a_cancelled_interrupt_stops_the_loop_before_any_model_call() {
    let state = LoopState::start(vec![], "hi".to_string(), 5);
    let result = state.interrupt();
    assert!(result.interrupted);
    assert_eq!(result.iterations, 0, "一次模型调用都不该发生");
    assert_eq!(result.reply, "（这轮被打断了。）");
}

#[test]
fn an_interrupt_between_tool_rounds_keeps_what_already_happened() {
    let state = LoopState::start(vec![], "hi".to_string(), 5);
    let running = match state.on_reply(tool_use("tu_1", "save_note", "{}")) {
        Progress::RunTool(next) => next,
        _ => panic!("a tool was asked for"),
    };
    let next = match running.on_tool("已记住".to_string(), 1) {
        Progress::AskModel(next) => next,
        _ => panic!("the model is next"),
    };
    let result = next.interrupt();
    assert!(result.interrupted);
    assert_eq!(result.tool_calls.len(), 1, "第一轮工具确实做完了");
    assert_eq!(result.iterations, 1, "第二轮模型调用没有发生");
    assert_eq!(result.reply, "（这轮被打断了。）");
}

#[test]
fn what_was_streamed_before_an_interrupt_is_kept() {
    let mut state = LoopState::start(vec![], "hi".to_string(), 5);
    state.ask("m", String::new(), vec![], 10, 42);
    state.heard("说到");
    state.heard("一半");
    let result = state.interrupt();
    assert_eq!(result.reply, "说到一半");
    assert!(result.interrupted);
    assert_eq!(result.estimated_input_tokens, 42);
}

#[test]
fn the_stall_guard_warns_the_model_but_keeps_real_tool_output() {
    let args = r#"{"query":"查不到的东西"}"#;
    let result = run(
        vec![
            tool_use("tu_1", "search_memory", args),
            tool_use("tu_2", "search_memory", args),
            tool_use("tu_3", "search_memory", args),
            text("好了。"),
        ],
        5,
        |_, _| "没有找到".to_string(),
    );
    assert!(result.guard.hits >= 1, "第 3 次相同调用必须触发护栏");
    assert!(result.guard.note.is_some(), "命中的说明要留下来");
    assert!(result_texts(&result.messages)
        .iter()
        .any(|t| t.contains("[guard]")));
    assert!(result
        .tool_calls
        .iter()
        .all(|c| !c.output.contains("[guard]")));
    assert!(result.tool_calls.iter().all(|c| c.ok()));
}

#[test]
fn two_tools_of_one_reply_are_answered_together() {
    let both = ModelReply {
        content: vec![
            ContentBlock::Text {
                text: "看一下".to_string(),
            },
            ContentBlock::ToolUse {
                id: "a".to_string(),
                name: "one".to_string(),
                input: "{}".to_string(),
            },
            ContentBlock::ToolUse {
                id: "b".to_string(),
                name: "two".to_string(),
                input: "{}".to_string(),
            },
        ],
        text: "看一下".to_string(),
        stop_reason: StopReason::ToolUse,
        usage: Usage::default(),
    };
    let uses = tool_uses(&both.content);
    assert_eq!(uses.len(), 2);
    assert_eq!(uses[1].name, "two");
    let result = run(vec![both, text("完")], 5, |name, _| format!("did {name}"));
    assert_eq!(result_texts(&result.messages), vec!["did one", "did two"]);
    assert_eq!(result.messages.len(), 4);
    assert_eq!(
        result.tool_calls[1],
        ToolOutcome {
            name: "two".to_string(),
            output: "did two".to_string(),
            duration_ms: 7,
        }
    );
}
