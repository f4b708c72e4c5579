//! One turn from end to end: what is asked for, what the client is told and in
//! which order, and what is written down.
//!
//! A turn is a state that the caller drives; what it tells the client comes out
//! in order, and the answer to the request comes last.

use vstd::prelude::*;

use crate::agent::{LoopEvent, LoopResult, ToolOutcome};
use crate::compaction::{a_summary_is_told, evicted, pair_views, section_of, summary_section};
use crate::config::{below, join_path, Settings};
use crate::dispatch::{ErrorCode, ErrorObject, name_or, named_or, narrow, narrowed, RequestId};
use crate::engine::GraphEvent;
use crate::gate::{Decision, DecisionV};
use crate::goal::GoalRound;
use crate::graph::State;
use crate::guard::GuardReport;
use crate::model::{Message, message_views, MessageV, Role, text_message, Usage};
use crate::text::{
    a_joined_text_holds_its_parts, begins, decimal, head, join, joined, lemma_occurs,
    lemma_occurs_within, occurs, occurs_at, opt_text, take_chars, to_decimal, trimmed, views,
};
use crate::triage::{fill, or_empty};

verus! {

pub const DEFAULT_SOUL: &'static str =
    "你是 Joy，一个跑在用户自己电脑上的本地个人助手。\n你简洁、温暖、主动。用户告诉你的事你会记住。\n\n规则：\n- 想安排日程、解释「今天」「明天」之前，先用 current_time 确认现在几点。\n- 用户说了值得长期记住的事（关于人、项目、偏好），用 save_note 存起来。\n- 用户问起过去的事、某个人，用 search_memory 查；想知道你都记了什么，用 list_memory。\n- 用户明确说「忘掉…」，用 forget_note。\n- 用户教你一套想复用的工作流程时，先征得同意，再用 create_skill 写成 SKILL.md。\n- 下面的「相关记忆」来自你自己的记忆库，可以信任。\n- 每个工具的输出都写明了结果落在哪儿 —— 如实转述，别声称同步到了别处。\n- [tools used: ...] 是你过去几轮实际做过的事；已经做过的不要重复做。";

pub const NO_MODEL: &'static str =
    "模型还没配好：缺 API key。设好环境变量再重启 joy app-server —— 例如 export ANTHROPIC_API_KEY=…（Joy 不读 .env，要用就先 `set -a; source .env; set +a`）。";

// ---- what goes into the prompt ---------------------------------------------

/// The local time, in words: the minute, the zone and its offset.
#[derive(Debug, Clone, PartialEq, Eq)]
pub struct Clock {
    pub at: String,
    pub zone: String,
    pub offset: String,
}

pub open spec fn clock_line(clock: Clock) -> Seq<char> {
    "\nRight now it is "@ + clock.at@ + " ("@ + clock.zone@ + ", UTC"@ + clock.offset@ + ")"@
}

pub open spec fn model_line(model: Seq<char>, provider: Seq<char>) -> Seq<char> {
    "Your model: you are running on '"@ + model + "' via the '"@ + provider
        + "' provider, inside Joy, a local-first open-source agent harness."@
}

pub open spec fn headed(title: Seq<char>, text: Seq<char>) -> Seq<Seq<char>> {
    if text.len() > 0 {
        seq![title + text]
    } else {
        Seq::empty()
    }
}

pub open spec fn summary_part(summary: Option<Seq<char>>) -> Seq<Seq<char>> {
    match summary {
        Some(s) => match section_of(s) {
            Some(section) => seq![section],
            None => Seq::empty(),
        },
        None => Seq::empty(),
    }
}

/// The to-do list of a session, as it is put before the model. A session without
/// one gets no such part.
pub open spec fn todo_part(todo: Option<Seq<char>>) -> Seq<Seq<char>> {
    match todo {
        Some(section) => if section.len() > 0 {
            seq![section]
        } else {
            Seq::empty()
        },
        None => Seq::empty(),
    }
}

/// The parts of a system prompt; what is empty is left out.
pub open spec fn system_parts(
    soul: Seq<char>,
    clock: Clock,
    model: Seq<char>,
    provider: Seq<char>,
    memory: Seq<char>,
    skills: Seq<char>,
    summary: Option<Seq<char>>,
    todo: Option<Seq<char>>,
) -> Seq<Seq<char>> {
    seq![soul, clock_line(clock), model_line(model, provider)] + headed(
        "\nRelevant memory:\n"@,
        memory,
    ) + headed("\nRelevant skill instructions:\n"@, skills) + summary_part(summary) + todo_part(todo)
}

fn push_part(parts: &mut Vec<String>, part: String)
    ensures
        views(final(parts)@) == views(old(parts)@).push(part@),
{
    parts.push(part);
    assert(views(parts@) =~= views(old(parts)@).push(part@));
}

fn push_headed(parts: &mut Vec<String>, title: &str, text: &str)
    ensures
        views(final(parts)@) == views(old(parts)@) + headed(title@, text@),
{
    if text.unicode_len() > 0 {
        let mut part = title.to_owned();
        part.append(text);
        push_part(parts, part);
        assert(views(parts@) =~= views(old(parts)@) + headed(title@, text@));
    } else {
        assert(views(parts@) =~= views(old(parts)@) + headed(title@, text@));
    }
}

pub fn build_system(
    soul: &str,
    clock: &Clock,
    model: &str,
    provider: &str,
    memory: &str,
    skills: &str,
    summary: &Option<String>,
    todo: &Option<String>,
) -> (r: String)
    ensures
        r@ == joined(
            system_parts(
                soul@,
                *clock,
                model@,
                provider@,
                memory@,
                skills@,
                opt_text(*summary),
                opt_text(*todo),
            ),
            "\n"@,
        ),
{
    let mut parts: Vec<String> = Vec::new();
    push_part(&mut parts, soul.to_owned());
    let mut now = "\nRight now it is ".to_owned();
    now.append(clock.at.as_str());
    now.append(" (");
    now.append(clock.zone.as_str());
    now.append(", UTC");
    now.append(clock.offset.as_str());
    now.append(")");
    push_part(&mut parts, now);
    let mut line = "Your model: you are running on '".to_owned();
    line.append(model);
    line.append("' via the '");
    line.append(provider);
    line.append("' provider, inside Joy, a local-first open-source agent harness.");
    push_part(&mut parts, line);
    push_headed(&mut parts, "\nRelevant memory:\n", memory);
    push_headed(&mut parts, "\nRelevant skill instructions:\n", skills);
    let ghost front = views(parts@);
    match summary {
        Some(s) => match summary_section(s.as_str()) {
            Some(section) => {
                push_part(&mut parts, section);
            },
            None => {},
        },
        None => {},
    }
    assert(views(parts@) =~= front + summary_part(opt_text(*summary)));
    let ghost told = views(parts@);
    match todo {
        Some(section) => if section.as_str().unicode_len() > 0 {
            push_part(&mut parts, section.clone());
        },
        None => {},
    }
    assert(views(parts@) =~= told + todo_part(opt_text(*todo)));
    assert(views(parts@) =~= system_parts(
        soul@,
        *clock,
        model@,
        provider@,
        memory@,
        skills@,
        opt_text(*summary),
        opt_text(*todo),
    ));
    join(&parts, "\n")
}

pub open spec fn window_of(turns: int) -> int {
    if turns < 0 {
        0
    } else {
        turns
    }
}

/// The messages of turns: each is what the user said, then the answer.
pub open spec fn exchanges(pairs: Seq<(Seq<char>, Seq<char>)>, k: int) -> Seq<MessageV>
    decreases k,
{
    if k <= 0 {
        Seq::empty()
    } else {
        exchanges(pairs, k - 1).push(text_message(Role::User, pairs[k - 1].0)).push(
            text_message(Role::Assistant, pairs[k - 1].1),
        )
    }
}

/// The latest turns of a conversation, as the model gets them.
pub open spec fn latest_messages(pairs: Seq<(Seq<char>, Seq<char>)>, turns: int) -> Seq<MessageV> {
    let kept = pairs.skip(evicted(pairs.len() as int, window_of(turns)));
    exchanges(kept, kept.len() as int)
}

pub fn history_messages(pairs: &Vec<(String, String)>, history_turns: i32) -> (r: Vec<Message>)
    ensures
        message_views(r@) == latest_messages(pair_views(pairs@), history_turns as int),
{
    let n: usize = pairs.len();
    let window: u64 = if history_turns < 0 {
        0
    } else {
        history_turns as u64
    };
    let from: usize = if n as u64 > window {
        (n as u64 - window) as usize
    } else {
        0
    };
    let ghost all = pair_views(pairs@);
    let ghost kept = all.skip(from as int);
    let mut r: Vec<Message> = Vec::new();
    let mut i: usize = from;
    assert(message_views(r@) =~= exchanges(kept, 0));
    while i < n
        invariant
            from <= i <= n,
            n == pairs@.len(),
            all == pair_views(pairs@),
            kept == all.skip(from as int),
            message_views(r@) == exchanges(kept, i - from),
        decreases n - i,
    {
        let ghost before = message_views(r@);
        let said = Message::user_text(pairs[i].0.clone());
        let answered = Message::from_text(Role::Assistant, pairs[i].1.clone());
        r.push(said);
        r.push(answered);
        assert(message_views(r@) =~= before.push(said@).push(answered@));
        assert(kept[i - from] == all[i as int]);
        i += 1;
    }
    r
}

/// How many facts are looked for: at least one.
pub fn facts_wanted(retrieval_top_k: i32) -> (r: u32)
    ensures
        r == if retrieval_top_k < 1 {
            1
        } else {
            retrieval_top_k as int
        },
{
    if retrieval_top_k < 1 {
        1
    } else {
        retrieval_top_k as u32
    }
}

// ---- what stays of a turn --------------------------------------------------

pub open spec fn truncated(text: Seq<char>, max: nat) -> Seq<char> {
    if text.len() <= max {
        text
    } else {
        head(text, max) + "…"@
    }
}

pub fn truncate(text: &str, max: usize) -> (r: String)
    ensures
        r@ == truncated(text@, max as nat),
{
    let n: usize = text.unicode_len();
    if n <= max {
        text.to_owned()
    } else {
        let mut t = take_chars(text, max);
        t.append("…");
        t
    }
}

/// How much of a tool's output is remembered.
pub const REMEMBERED_OUTPUT: usize = 200;

pub open spec fn call_notes(calls: Seq<ToolOutcome>) -> Seq<Seq<char>> {
    calls.map_values(
        |c: ToolOutcome| c.name@ + "("@ + truncated(c.output@, REMEMBERED_OUTPUT as nat) + ")"@,
    )
}

pub open spec fn with_activity(reply: Seq<char>, calls: Seq<ToolOutcome>) -> Seq<char> {
    if calls.len() == 0 {
        reply
    } else {
        reply + "\n[tools used: "@ + joined(call_notes(calls), "; "@) + "]"@
    }
}

/// The reply as it is written down: with what was done, so that the next turn
/// does not do it again.
pub fn fold_tool_activity(reply: &str, calls: &Vec<ToolOutcome>) -> (r: String)
    ensures
        r@ == with_activity(reply@, calls@),
{
    if calls.len() == 0 {
        return reply.to_owned();
    }
    let ghost all = call_notes(calls@);
    let mut notes: Vec<String> = Vec::new();
    let mut i: usize = 0;
    assert(views(notes@) =~= all.take(0));
    while i < calls.len()
        invariant
            i <= calls@.len(),
            all == call_notes(calls@),
            views(notes@) == all.take(i as int),
        decreases calls@.len() - i,
    {
        let ghost before = views(notes@);
        let mut note = calls[i].name.clone();
        note.append("(");
        note.append(truncate(calls[i].output.as_str(), REMEMBERED_OUTPUT).as_str());
        note.append(")");
        assert(note@ =~= all[i as int]);
        notes.push(note);
        assert(views(notes@) =~= before.push(note@));
        assert(all.take(i + 1) =~= before.push(note@));
        i += 1;
    }
    assert(all.take(calls@.len() as int) =~= all);
    let mut t = reply.to_owned();
    t.append("\n[tools used: ");
    t.append(join(&notes, "; ").as_str());
    t.append("]");
    t
}

#[derive(Debug, Clone, Copy, PartialEq, Eq, Structural)]
pub enum GateKind {
    Retrieve,
    Skip,
}

/// What the memory gate decided, as a client is told.
#[derive(Debug, Clone, PartialEq, Eq)]
pub struct GateDecision {
    pub decision: GateKind,
    pub reason: String,
    /// What the memory was searched for.
    pub query: Option<String>,
}

pub open spec fn tells_gate(g: GateDecision, d: DecisionV) -> bool {
    &&& g.decision == if d.retrieve {
        GateKind::Retrieve
    } else {
        GateKind::Skip
    }
    &&& g.reason@ == d.reason
    &&& opt_text(g.query) == if d.retrieve {
        Some(d.query)
    } else {
        None
    }
}

pub fn gate_decision(decision: &Decision) -> (r: GateDecision)
    ensures
        tells_gate(r, decision@),
{
    if decision.retrieve {
        GateDecision {
            decision: GateKind::Retrieve,
            reason: decision.reason.clone(),
            query: Some(decision.query.clone()),
        }
    } else {
        GateDecision { decision: GateKind::Skip, reason: decision.reason.clone(), query: None }
    }
}

// ---- the front door --------------------------------------------------------

#[derive(Debug, Clone, Copy, PartialEq, Eq, Structural)]
pub enum GraphRoute {
    Quick,
    Full,
}

/// Which way a turn went.
#[derive(Debug, Clone, PartialEq, Eq)]
pub struct GraphInfo {
    pub workflow: String,
    pub route: GraphRoute,
    pub reason: String,
    pub path: Vec<String>,
}

/// What a turn came to, and what its gate decided. A quick answer has no gate.
#[derive(Debug, Clone, PartialEq, Eq)]
pub struct FullTurn {
    pub result: LoopResult,
    pub gate: Option<GateDecision>,
}

#[derive(Debug, Clone, PartialEq, Eq)]
pub struct Routed {
    pub info: GraphInfo,
    pub turn: FullTurn,
}

/// An answer of one call, without tools.
pub open spec fn is_quick_answer(turn: FullTurn, reply: Seq<char>) -> bool {
    &&& turn.gate is None
    &&& turn.result.reply@ == reply
    &&& turn.result.tool_calls@.len() == 0
    &&& turn.result.iterations == 1
    &&& turn.result.usage.input_tokens == 0
    &&& turn.result.usage.output_tokens == 0
    &&& turn.result.messages@.len() == 0
    &&& !turn.result.interrupted
    &&& turn.result.guard.hits == 0
    &&& turn.result.guard.note is None
    &&& turn.result.estimated_input_tokens == 0
    &&& turn.result.observed_input_tokens == 0
}

fn quick_answer(reply: &str) -> (r: FullTurn)
    ensures
        is_quick_answer(r, reply@),
{
    FullTurn {
        result: LoopResult {
            reply: reply.to_owned(),
            tool_calls: Vec::new(),
            iterations: 1,
            usage: Usage::default(),
            messages: Vec::new(),
            interrupted: false,
            guard: GuardReport::default(),
            estimated_input_tokens: 0,
            observed_input_tokens: 0,
        },
        gate: None,
    }
}

pub open spec fn tells_route(
    info: GraphInfo,
    route: GraphRoute,
    state: State,
    path: Seq<String>,
) -> bool {
    &&& info.workflow@ == "triage"@
    &&& info.route == route
    &&& info.reason@ == or_empty(state.text_at("triage_reason"@))
    &&& info.path@ == path
}

/// What the front door came to. `state` and `path` are what the workflow left;
/// `landed` is what the full turn came to, where it ran. `None` means that the
/// turn goes the ordinary way: the door may save time, never ability. A turn
/// that ran and failed is not run again.
pub fn settle_route(
    state: &State,
    path: Vec<String>,
    landed: Option<Result<FullTurn, ErrorObject>>,
) -> (r: Result<Option<Routed>, ErrorObject>)
    ensures
        match landed {
            Some(Err(error)) => r == Err::<Option<Routed>, ErrorObject>(error),
            Some(Ok(turn)) => r matches Ok(Some(routed)) && routed.turn == turn && tells_route(
                routed.info,
                GraphRoute::Full,
                *state,
                path@,
            ),
            None => match state.text_at("reply"@) {
                Some(reply) => if reply.len() > 0 {
                    r matches Ok(Some(routed)) && is_quick_answer(routed.turn, reply)
                        && tells_route(routed.info, GraphRoute::Quick, *state, path@)
                } else {
                    r matches Ok(None)
                },
                None => r matches Ok(None),
            },
        },
{
    let reason = fill(state, "triage_reason");
    match landed {
        Some(Err(error)) => Err(error),
        Some(Ok(turn)) => Ok(
            Some(
                Routed {
                    info: GraphInfo {
                        workflow: "triage".to_owned(),
                        route: GraphRoute::Full,
                        reason,
                        path,
                    },
                    turn,
                },
            ),
        ),
        None => match state.str("reply") {
            Some(reply) => if reply.unicode_len() > 0 {
                Ok(
                    Some(
                        Routed {
                            info: GraphInfo {
                                workflow: "triage".to_owned(),
                                route: GraphRoute::Quick,
                                reason,
                                path,
                            },
                            turn: quick_answer(reply),
                        },
                    ),
                )
            } else {
                Ok(None)
            },
            None => Ok(None),
        },
    }
}

/// What a client is told of it.
#[derive(Debug, Clone, PartialEq, Eq)]
pub enum GraphNotice {
    Started { workflow: String, nodes: Vec<String> },
    NodeStarted { workflow: String, node: String, visit: i32 },
    NodeEnded { workflow: String, node: String, ms: i32, keys: Vec<String>, error: Option<String> },
    Ended { workflow: String, ms: i32, steps: i32, path: Vec<String>, error: Option<String> },
}

/// The route shows in the end, and what a node tells has been told already:
/// neither is told again.
pub fn graph_event(event: GraphEvent) -> (r: Option<GraphNotice>)
    ensures
        match event {
            GraphEvent::Started { workflow, nodes } => r == Some(
                GraphNotice::Started { workflow, nodes },
            ),
            GraphEvent::NodeStarted { workflow, node, visit } => r == Some(
                GraphNotice::NodeStarted { workflow, node, visit },
            ),
            GraphEvent::NodeEnded { workflow, node, ms, keys, error } => r == Some(
                GraphNotice::NodeEnded {
                    workflow,
                    node,
                    ms: narrowed(ms as int) as i32,
                    keys,
                    error,
                },
            ),
            GraphEvent::Ended { workflow, ms, steps, path, error } => r == Some(
                GraphNotice::Ended { workflow, ms: narrowed(ms as int) as i32, steps, path, error },
            ),
            GraphEvent::Route { .. } => r is None,
            GraphEvent::Inner { .. } => r is None,
        },
{
    match event {
        GraphEvent::Started { workflow, nodes } => Some(GraphNotice::Started { workflow, nodes }),
        GraphEvent::NodeStarted { workflow, node, visit } => Some(
            GraphNotice::NodeStarted { workflow, node, visit },
        ),
        GraphEvent::NodeEnded { workflow, node, ms, keys, error } => Some(
            GraphNotice::NodeEnded { workflow, node, ms: narrow(ms), keys, error },
        ),
        GraphEvent::Ended { workflow, ms, steps, path, error } => Some(
            GraphNotice::Ended { workflow, ms: narrow(ms), steps, path, error },
        ),
        GraphEvent::Route { .. } => None,
        GraphEvent::Inner { .. } => None,
    }
}

// ---- the course of a turn --------------------------------------------------

/// The models at hand, and who provides them.
#[derive(Debug, Clone, PartialEq, Eq)]
pub struct Models {
    pub provider: String,
    pub model: String,
    pub small_model: String,
}

#[derive(Debug, Clone, PartialEq, Eq)]
pub struct ToolRecord {
    pub tool: String,
    pub succeeded: bool,
    pub duration_ms: Option<i32>,
}

#[derive(Debug, Clone, Copy, PartialEq, Eq, Structural)]
pub struct TokenUsage {
    pub input_tokens: i32,
    pub output_tokens: i32,
}

/// What was measured of a turn.
#[derive(Debug, Clone, PartialEq, Eq)]
pub struct TurnMeta {
    pub gate: Option<GateDecision>,
    pub graph: Option<GraphInfo>,
    pub iterations: i32,
    pub latency_ms: i32,
    pub tools: Vec<ToolRecord>,
    pub model: String,
    pub provider: String,
    pub usage: Option<TokenUsage>,
    pub interrupted: bool,
    pub guard_hits: i32,
    pub guard_note: Option<String>,
    /// How often a call was tried again.
    pub retries: i32,
    /// How the goal of the session stands, where one was judged.
    pub goal_status: Option<String>,
    pub goal_rounds: i32,
}

pub open spec fn records(record: ToolRecord, call: ToolOutcome) -> bool {
    &&& record.tool@ == call.name@
    &&& record.succeeded == call.succeeded()
    &&& record.duration_ms == Some(narrowed(call.duration_ms as int) as i32)
}

pub open spec fn is_quick(graph: Option<GraphInfo>) -> bool {
    graph is Some && graph->0.route == GraphRoute::Quick
}

/// A quick answer came from the small model, and is said to.
pub open spec fn answered_by(graph: Option<GraphInfo>, models: Models) -> Seq<char> {
    if is_quick(graph) {
        models.small_model@
    } else {
        models.model@
    }
}

pub open spec fn usage_of(usage: Usage) -> TokenUsage {
    TokenUsage {
        input_tokens: narrowed(usage.input_tokens as int) as i32,
        output_tokens: narrowed(usage.output_tokens as int) as i32,
    }
}

pub open spec fn measures(
    meta: TurnMeta,
    turn: FullTurn,
    graph: Option<GraphInfo>,
    models: Models,
    latency_ms: i32,
) -> bool {
    &&& meta.gate == turn.gate
    &&& meta.graph == graph
    &&& meta.iterations == turn.result.iterations
    &&& meta.latency_ms == latency_ms
    &&& meta.tools@.len() == turn.result.tool_calls@.len()
    &&& forall|i: int|
        0 <= i < meta.tools@.len() ==> records(#[trigger] meta.tools@[i], turn.result.tool_calls@[i])
    &&& meta.model@ == answered_by(graph, models)
    &&& meta.provider@ == models.provider@
    &&& meta.usage == Some(usage_of(turn.result.usage))
    &&& meta.interrupted == turn.result.interrupted
    &&& meta.guard_hits == turn.result.guard.hits
    &&& meta.guard_note == turn.result.guard.note
}

/// What is noted of the rounds of a goal is what was told of them last.
pub open spec fn notes_goal(meta: TurnMeta, told: Option<(int, Seq<char>)>) -> bool {
    match told {
        Some((round, status)) => meta.goal_rounds == round && opt_text(meta.goal_status) == Some(
            status,
        ),
        None => meta.goal_rounds == 0 && meta.goal_status is None,
    }
}

/// Something that goes out to the client. What belongs to a turn names it.
#[derive(Debug, Clone, PartialEq, Eq)]
pub enum Frame {
    TurnStarted { turn_id: String, session_id: String, message: String },
    GateDecided { turn_id: String, decision: GateDecision },
    TextDelta { turn_id: String, delta: String },
    ToolStarted { turn_id: String, tool: String, args: String },
    Graph(GraphNotice),
    ToolCompleted {
        turn_id: String,
        tool: String,
        output: String,
        succeeded: bool,
        duration_ms: i32,
    },
    /// A call is tried again.
    Retry { turn_id: String, reason: String },
    /// A round of the session's goal was judged.
    GoalRound { turn_id: String, round: i32, status: String, reason: String },
    Consolidated { new_facts: i32 },
    TurnCompleted {
        turn_id: String,
        reply: String,
        iterations: i32,
        usage: TokenUsage,
        meta: TurnMeta,
    },
    /// The answer to the request: the turn that it started.
    Answer { request: RequestId, turn_id: String },
}

pub enum FrameV {
    TurnStarted { turn_id: Seq<char>, session_id: Seq<char>, message: Seq<char> },
    GateDecided { turn_id: Seq<char>, decision: GateDecision },
    TextDelta { turn_id: Seq<char>, delta: Seq<char> },
    ToolStarted { turn_id: Seq<char>, tool: Seq<char>, args: Seq<char> },
    Graph(GraphNotice),
    ToolCompleted {
        turn_id: Seq<char>,
        tool: Seq<char>,
        output: Seq<char>,
        succeeded: bool,
        duration_ms: int,
    },
    Retry { turn_id: Seq<char>, reason: Seq<char> },
    GoalRound { turn_id: Seq<char>, round: int, status: Seq<char>, reason: Seq<char> },
    Consolidated { new_facts: int },
    TurnCompleted {
        turn_id: Seq<char>,
        reply: Seq<char>,
        iterations: int,
        usage: TokenUsage,
        meta: TurnMeta,
    },
    Answer { request: RequestId, turn_id: Seq<char> },
}

impl View for Frame {
    type V = FrameV;

    open spec fn view(&self) -> FrameV {
        match *self {
            Frame::TurnStarted { turn_id, session_id, message } => FrameV::TurnStarted {
                turn_id: turn_id@,
                session_id: session_id@,
                message: message@,
            },
            Frame::GateDecided { turn_id, decision } => FrameV::GateDecided {
                turn_id: turn_id@,
                decision,
            },
            Frame::TextDelta { turn_id, delta } => FrameV::TextDelta {
                turn_id: turn_id@,
                delta: delta@,
            },
            Frame::ToolStarted { turn_id, tool, args } => FrameV::ToolStarted {
                turn_id: turn_id@,
                tool: tool@,
                args: args@,
            },
            Frame::Graph(notice) => FrameV::Graph(notice),
            Frame::ToolCompleted { turn_id, tool, output, succeeded, duration_ms } =>
                FrameV::ToolCompleted {
                turn_id: turn_id@,
                tool: tool@,
                output: output@,
                succeeded,
                duration_ms: duration_ms as int,
            },
            Frame::Retry { turn_id, reason } => FrameV::Retry {
                turn_id: turn_id@,
                reason: reason@,
            },
            Frame::GoalRound { turn_id, round, status, reason } => FrameV::GoalRound {
                turn_id: turn_id@,
                round: round as int,
                status: status@,
                reason: reason@,
            },
            Frame::Consolidated { new_facts } => FrameV::Consolidated {
                new_facts: new_facts as int,
            },
            Frame::TurnCompleted { turn_id, reply, iterations, usage, meta } =>
                FrameV::TurnCompleted {
                turn_id: turn_id@,
                reply: reply@,
                iterations: iterations as int,
                usage,
                meta,
            },
            Frame::Answer { request, turn_id } => FrameV::Answer { request, turn_id: turn_id@ },
        }
    }
}

pub open spec fn frame_views(frames: Seq<Frame>) -> Seq<FrameV> {
    frames.map_values(|f: Frame| f@)
}

impl FrameV {
    /// What goes out while a turn is still being answered.
    pub open spec fn is_live(self) -> bool {
        self is GateDecided || self is TextDelta || self is ToolStarted || self is Graph
            || self is Retry
    }

    /// The turn that a frame names.
    pub open spec fn turn(self) -> Option<Seq<char>> {
        match self {
            FrameV::TurnStarted { turn_id, .. } => Some(turn_id),
            FrameV::GateDecided { turn_id, .. } => Some(turn_id),
            FrameV::TextDelta { turn_id, .. } => Some(turn_id),
            FrameV::ToolStarted { turn_id, .. } => Some(turn_id),
            FrameV::ToolCompleted { turn_id, .. } => Some(turn_id),
            FrameV::Retry { turn_id, .. } => Some(turn_id),
            FrameV::GoalRound { turn_id, .. } => Some(turn_id),
            FrameV::TurnCompleted { turn_id, .. } => Some(turn_id),
            FrameV::Answer { turn_id, .. } => Some(turn_id),
            FrameV::Graph(_) => None,
            FrameV::Consolidated { .. } => None,
        }
    }

    pub open spec fn fits_turn(self, turn_id: Seq<char>) -> bool {
        self.turn() is None || self.turn() == Some(turn_id)
    }
}

/// How often it was told that a call is tried again.
pub open spec fn retries_told(frames: Seq<FrameV>) -> nat
    decreases frames.len(),
{
    if frames.len() == 0 {
        0
    } else {
        retries_told(frames.drop_last()) + if frames.last() is Retry {
            1nat
        } else {
            0nat
        }
    }
}

/// The round and the status that were told last of a goal.
pub open spec fn goal_told(frames: Seq<FrameV>) -> Option<(int, Seq<char>)>
    decreases frames.len(),
{
    if frames.len() == 0 {
        None
    } else {
        match frames.last() {
            FrameV::GoalRound { round, status, .. } => Some((round, status)),
            _ => goal_told(frames.drop_last()),
        }
    }
}

proof fn lemma_told_next(frames: Seq<FrameV>, next: FrameV)
    ensures
        retries_told(frames.push(next)) == retries_told(frames) + if next is Retry {
            1nat
        } else {
            0nat
        },
        goal_told(frames.push(next)) == match next {
            FrameV::GoalRound { round, status, .. } => Some((round, status)),
            _ => goal_told(frames),
        },
{
    assert(frames.push(next).drop_last() =~= frames);
}

/// What a client is told at once of what happens in the loop. The ends of the
/// tools are told together, later.
pub fn live_frame(turn_id: &str, event: &LoopEvent) -> (r: Option<Frame>)
    ensures
        match *event {
            LoopEvent::Text { delta } => r matches Some(f) && f@ == (FrameV::TextDelta {
                turn_id: turn_id@,
                delta: delta@,
            }),
            LoopEvent::ToolStart { name, args } => r matches Some(f) && f@ == (
            FrameV::ToolStarted { turn_id: turn_id@, tool: name@, args: args@ }),
            LoopEvent::Llm { .. } => r is None,
            LoopEvent::Tool { .. } => r is None,
        },
{
    match event {
        LoopEvent::Text { delta } => Some(
            Frame::TextDelta { turn_id: turn_id.to_owned(), delta: delta.clone() },
        ),
        LoopEvent::ToolStart { name, args } => Some(
            Frame::ToolStarted {
                turn_id: turn_id.to_owned(),
                tool: name.clone(),
                args: args.clone(),
            },
        ),
        LoopEvent::Llm { .. } => None,
        LoopEvent::Tool { .. } => None,
    }
}

/// What is told of the tools that ran.
pub open spec fn tool_frames(turn_id: Seq<char>, calls: Seq<ToolOutcome>) -> Seq<FrameV> {
    calls.map_values(
        |c: ToolOutcome|
            FrameV::ToolCompleted {
                turn_id,
                tool: c.name@,
                output: c.output@,
                succeeded: c.succeeded(),
                duration_ms: narrowed(c.duration_ms as int),
            },
    )
}

/// What comes next.
#[derive(Debug, Clone, Copy, PartialEq, Eq, Structural)]
pub enum Phase {
    /// Choose the way.
    Begun,
    /// Ask the front door.
    Routing,
    /// Go the ordinary way.
    Looping,
    /// Have the session's goal judged.
    Judging,
    /// Write the exchange down.
    Storing,
    /// Distill, where it is due.
    Consolidating,
    /// Renew the mirror, then close.
    Closing,
    Finished,
    Failed,
}

/// What is written down of a turn.
#[derive(Debug, Clone, PartialEq, Eq)]
pub struct Record {
    /// The reply with what was done.
    pub reply: String,
    pub meta: TurnMeta,
    /// What the turn cost, in full.
    pub cost: Usage,
}

pub open spec fn is_record_of(
    record: Record,
    turn: FullTurn,
    graph: Option<GraphInfo>,
    models: Models,
    latency_ms: i32,
) -> bool {
    &&& record.reply@ == with_activity(turn.result.reply@, turn.result.tool_calls@)
    &&& measures(record.meta, turn, graph, models, latency_ms)
    &&& record.cost == turn.result.usage
}

/// Whether a turn asks the front door at all.
pub fn enters_graph(settings: &Settings) -> (r: bool)
    ensures
        r == settings.graph_workflows,
{
    settings.graph_workflows
}

fn copy_request(request: &RequestId) -> (r: RequestId)
    ensures
        r == *request,
{
    match request {
        RequestId::Number(n) => RequestId::Number(*n),
        RequestId::Text(t) => RequestId::Text(t.clone()),
    }
}

/// A turn under way.
pub struct TurnRun {
    pub phase: Phase,
    /// The request that the turn answers.
    pub request: RequestId,
    pub turn_id: String,
    /// Everything that went out to the client, in order.
    pub sent: Vec<Frame>,
    /// What is written down of the turn, once it came to something.
    pub record: Option<Record>,
    /// What the client is told at the end.
    pub reply: String,
    pub iterations: i32,
    pub usage: TokenUsage,
    /// How often a call was tried again.
    pub retries: i32,
    /// The round and the status of the session's goal that were told last.
    pub goal: Option<(i32, String)>,
    /// What the next round of the goal starts with.
    pub next: Option<String>,
}

impl TurnRun {
    pub open spec fn frames(self) -> Seq<FrameV> {
        frame_views(self.sent@)
    }

    /// The turn has told its start first, every frame names this turn, and the
    /// end and the answer go out last, once, at the very end.
    pub open spec fn wf(self) -> bool {
        &&& self.sent@.len() > 0
        &&& forall|i: int|
            0 <= i < self.sent@.len() ==> ((#[trigger] self.frames()[i]) is TurnStarted <==> i == 0)
        &&& forall|i: int|
            0 <= i < self.sent@.len() ==> (#[trigger] self.frames()[i]).fits_turn(self.turn_id@)
        &&& forall|i: int|
            0 <= i < self.sent@.len() ==> ((#[trigger] self.frames()[i]) is Answer <==> (self.phase
                == Phase::Finished && i == self.sent@.len() - 1))
        &&& forall|i: int|
            0 <= i < self.sent@.len() ==> ((#[trigger] self.frames()[i]) is TurnCompleted <==> (
            self.phase == Phase::Finished && i == self.sent@.len() - 2))
        &&& self.phase == Phase::Finished ==> self.sent@.len() >= 3 && self.frames().last() == (
        FrameV::Answer { request: self.request, turn_id: self.turn_id@ })
        &&& self.phase == Phase::Judging || self.is_noted() ==> self.record is Some
        &&& self.is_noted() ==> self.record->0.meta.retries == self.retries && notes_goal(
            self.record->0.meta,
            goal_told(self.frames()),
        )
        &&& self.phase == Phase::Finished ==> self.frames()[self.sent@.len() - 2]->meta.retries
            == self.retries && notes_goal(
            self.frames()[self.sent@.len() - 2]->meta,
            goal_told(self.frames()),
        )
        &&& self.retries == retries_told(self.frames())
        &&& goal_told(self.frames()) == match self.goal {
            Some((round, status)) => Some((round as int, status@)),
            None => None,
        }
        &&& self.next is Some ==> self.phase == Phase::Storing
    }

    /// What the turn came to is noted for good.
    pub open spec fn is_noted(self) -> bool {
        self.phase == Phase::Storing || self.phase == Phase::Consolidating || self.phase
            == Phase::Closing
    }

    /// The same turn of the same request.
    pub open spec fn same_turn(self, other: TurnRun) -> bool {
        self.request == other.request && self.turn_id == other.turn_id
    }

    /// Starts a turn. `configured` says whether there is a model to ask.
    pub fn begin(
        configured: bool,
        request: RequestId,
        turn_id: String,
        session_id: Option<String>,
        message: String,
    ) -> (r: Result<TurnRun, ErrorObject>)
        ensures
            if configured {
                &&& r matches Ok(run) && run.wf() && run.phase == Phase::Begun && run.request
                    == request && run.turn_id == turn_id && run.frames() == seq![
                    FrameV::TurnStarted {
                        turn_id: turn_id@,
                        session_id: named_or(opt_text(session_id), "default"@),
                        message: message@,
                    },
                ]
            } else {
                r matches Err(e) && e.says(ErrorCode::ProviderError, NO_MODEL@)
            },
    {
        if !configured {
            return Err(
                ErrorObject { code: ErrorCode::ProviderError, message: NO_MODEL.to_owned() },
            );
        }
        let mut sent: Vec<Frame> = Vec::new();
        let session_id = name_or(session_id, "default".to_owned());
        sent.push(Frame::TurnStarted { turn_id: turn_id.clone(), session_id, message });
        let run = TurnRun {
            phase: Phase::Begun,
            request,
            turn_id,
            sent,
            record: None,
            reply: String::new(),
            iterations: 0,
            usage: TokenUsage { input_tokens: 0, output_tokens: 0 },
            retries: 0,
            goal: None,
            next: None,
        };
        proof {
            let none = Seq::<FrameV>::empty();
            lemma_told_next(none, run.sent@[0]@);
            assert(run.frames() =~= none.push(run.sent@[0]@));
        }
        assert(run.frames() =~= seq![
            FrameV::TurnStarted {
                turn_id: turn_id@,
                session_id: session_id@,
                message: message@,
            },
        ]);
        Ok(run)
    }

    /// Chooses the way: where the workflows are off the turn goes the ordinary
    /// one at once, and nothing is told of the other.
    pub fn choose_way(&mut self, settings: &Settings) -> (r: bool)
        requires
            old(self).wf(),
            old(self).phase == Phase::Begun,
        ensures
            final(self).wf(),
            r == settings.graph_workflows,
            *final(self) == (TurnRun {
                phase: if settings.graph_workflows {
                    Phase::Routing
                } else {
                    Phase::Looping
                },
                ..*old(self)
            }),
            final(self).frames() == old(self).frames(),
    {
        let enters = enters_graph(settings);
        self.phase = if enters {
            Phase::Routing
        } else {
            Phase::Looping
        };
        enters
    }

    /// Adds a frame that neither starts nor ends a turn, and tells of no round.
    fn push(&mut self, frame: Frame)
        requires
            old(self).wf(),
            old(self).phase != Phase::Finished,
            frame@.fits_turn(old(self).turn_id@),
            !(frame@ is TurnStarted) && !(frame@ is TurnCompleted) && !(frame@ is Answer),
            !(frame@ is GoalRound) && !(frame@ is Retry),
        ensures
            final(self).wf(),
            *final(self) == (TurnRun { sent: final(self).sent, ..*old(self) }),
            final(self).frames() == old(self).frames().push(frame@),
    {
        let ghost before = self.frames();
        self.sent.push(frame);
        proof {
            let now = self.frames();
            assert(now =~= before.push(frame@));
            assert forall|k: int| 0 <= k < before.len() implies now[k] == before[k] by {}
            lemma_told_next(before, frame@);
        }
    }

    /// Tells of something at once, while the turn is being answered.
    pub fn tell(&mut self, frame: Frame)
        requires
            old(self).wf(),
            old(self).is_under_way(),
            frame@.is_live(),
            frame@.fits_turn(old(self).turn_id@),
            frame@ is Retry ==> old(self).retries < i32::MAX,
        ensures
            final(self).wf(),
            *final(self) == (TurnRun {
                sent: final(self).sent,
                retries: final(self).retries,
                ..*old(self)
            }),
            final(self).retries == old(self).retries + if frame@ is Retry {
                1int
            } else {
                0int
            },
            final(self).frames() == old(self).frames().push(frame@),
    {
        let ghost before = self.frames();
        match &frame {
            Frame::Retry { .. } => {
                self.retries = self.retries + 1;
            },
            _ => {},
        }
        self.sent.push(frame);
        proof {
            let now = self.frames();
            assert(now =~= before.push(frame@));
            assert forall|k: int| 0 <= k < before.len() implies now[k] == before[k] by {}
            lemma_told_next(before, frame@);
        }
    }

    /// The turn is being answered, or what it came to is being judged.
    pub open spec fn is_under_way(self) -> bool {
        self.phase == Phase::Routing || self.phase == Phase::Looping || self.phase
            == Phase::Judging
    }

    /// The turn came to this: its tools are told of, and what is to be written down
    /// is noted. Where a goal is pursued it is judged next, unless somebody stopped
    /// the turn.
    pub open spec fn settles(
        self,
        before: TurnRun,
        turn: FullTurn,
        graph: Option<GraphInfo>,
        models: Models,
        latency_ms: i32,
        pursued: bool,
    ) -> bool {
        &&& self.same_turn(before)
        &&& self.phase == if pursued && !turn.result.interrupted {
            Phase::Judging
        } else {
            Phase::Storing
        }
        &&& self.frames() == before.frames() + tool_frames(
            before.turn_id@,
            turn.result.tool_calls@,
        )
        &&& self.reply@ == turn.result.reply@
        &&& self.iterations == turn.result.iterations
        &&& self.usage == usage_of(turn.result.usage)
        &&& self.retries == before.retries
        &&& self.goal == before.goal
        &&& self.next is None
        &&& self.record matches Some(record) && is_record_of(
            record,
            turn,
            graph,
            models,
            latency_ms,
        ) && record.meta.retries == before.retries && notes_goal(
            record.meta,
            goal_told(before.frames()),
        )
    }

    /// Takes what the turn came to: tells of its tools, and notes what is to be
    /// written down.
    fn settle(
        &mut self,
        turn: FullTurn,
        graph: Option<GraphInfo>,
        models: &Models,
        latency_ms: i32,
        pursued: bool,
    )
        requires
            old(self).wf(),
            old(self).phase == Phase::Routing || old(self).phase == Phase::Looping,
        ensures
            final(self).wf(),
            final(self).settles(*old(self), turn, graph, *models, latency_ms, pursued),
    {
        let calls = &turn.result.tool_calls;
        let ghost front = self.frames();
        let ghost all = tool_frames(self.turn_id@, calls@);
        let mut tools: Vec<ToolRecord> = Vec::new();
        let mut i: usize = 0;
        assert(self.frames() =~= front + all.take(0));
        while i < calls.len()
            invariant
                i <= calls@.len(),
                self.wf(),
                *self == (TurnRun { sent: self.sent, ..*old(self) }),
                old(self).phase == Phase::Routing || old(self).phase == Phase::Looping,
                goal_told(self.frames()) == goal_told(front),
                all == tool_frames(self.turn_id@, calls@),
                front == old(self).frames(),
                self.frames() == front + all.take(i as int),
                tools@.len() == i,
                forall|k: int| 0 <= k < i ==> records(#[trigger] tools@[k], calls@[k]),
            decreases calls@.len() - i,
        {
            let ghost before = self.frames();
            let call = &calls[i];
            let succeeded = call.ok();
            let duration_ms: i32 = narrow(call.duration_ms);
            let frame = Frame::ToolCompleted {
                turn_id: self.turn_id.clone(),
                tool: call.name.clone(),
                output: call.output.clone(),
                succeeded,
                duration_ms,
            };
            self.push(frame);
            proof {
                lemma_told_next(before, frame@);
            }
            assert(frame@ == all[i as int]);
            assert(front + all.take(i + 1) =~= before.push(frame@));
            tools.push(
                ToolRecord { tool: call.name.clone(), succeeded, duration_ms: Some(duration_ms) },
            );
            i += 1;
        }
        assert(all.take(calls@.len() as int) =~= all);
        let reply = fold_tool_activity(turn.result.reply.as_str(), calls);
        let quick = match &graph {
            Some(info) => match info.route {
                GraphRoute::Quick => true,
                GraphRoute::Full => false,
            },
            None => false,
        };
        let model = if quick {
            models.small_model.clone()
        } else {
            models.model.clone()
        };
        let usage = TokenUsage {
            input_tokens: narrow(turn.result.usage.input_tokens),
            output_tokens: narrow(turn.result.usage.output_tokens),
        };
        self.reply = turn.result.reply.clone();
        self.iterations = turn.result.iterations;
        self.usage = usage;
        let (goal_rounds, goal_status): (i32, Option<String>) = match &self.goal {
            Some((round, status)) => (*round, Some(status.clone())),
            None => (0, None),
        };
        let stopped = turn.result.interrupted;
        let meta = TurnMeta {
            gate: turn.gate,
            graph,
            iterations: turn.result.iterations,
            latency_ms,
            tools,
            model,
            provider: models.provider.clone(),
            usage: Some(usage),
            interrupted: turn.result.interrupted,
            guard_hits: turn.result.guard.hits,
            guard_note: turn.result.guard.note,
            retries: self.retries,
            goal_status,
            goal_rounds,
        };
        self.record = Some(Record { reply, meta, cost: turn.result.usage });
        self.phase = if pursued && !stopped {
            Phase::Judging
        } else {
            Phase::Storing
        };
    }

    /// What the front door came to: whether that settles the turn. If not, it goes
    /// the ordinary way now. `pursued` says whether the session has a goal.
    pub fn routed(
        &mut self,
        landed: Result<Option<Routed>, ErrorObject>,
        models: &Models,
        latency_ms: i32,
        pursued: bool,
    ) -> (r: Result<bool, ErrorObject>)
        requires
            old(self).wf(),
            old(self).phase == Phase::Routing,
        ensures
            final(self).wf(),
            match landed {
                Ok(Some(routed)) => {
                    &&& r == Ok::<bool, ErrorObject>(true)
                    &&& final(self).settles(
                        *old(self),
                        routed.turn,
                        Some(routed.info),
                        *models,
                        latency_ms,
                        pursued,
                    )
                },
                Ok(None) => *final(self) == (TurnRun { phase: Phase::Looping, ..*old(self) }) && r
                    == Ok::<bool, ErrorObject>(false),
                Err(error) => *final(self) == (TurnRun { phase: Phase::Failed, ..*old(self) }) && r
                    == Err::<bool, ErrorObject>(error),
            },
    {
        match landed {
            Ok(Some(routed)) => {
                self.settle(routed.turn, Some(routed.info), models, latency_ms, pursued);
                Ok(true)
            },
            Ok(None) => {
                self.phase = Phase::Looping;
                Ok(false)
            },
            Err(error) => {
                self.phase = Phase::Failed;
                Err(error)
            },
        }
    }

    /// What the ordinary way came to. `pursued` says whether the session has a goal.
    pub fn looped(
        &mut self,
        turn: Result<FullTurn, ErrorObject>,
        models: &Models,
        latency_ms: i32,
        pursued: bool,
    ) -> (r: Result<(), ErrorObject>)
        requires
            old(self).wf(),
            old(self).phase == Phase::Looping,
        ensures
            final(self).wf(),
            match turn {
                Ok(turn) => r is Ok && final(self).settles(
                    *old(self),
                    turn,
                    None,
                    *models,
                    latency_ms,
                    pursued,
                ),
                Err(error) => *final(self) == (TurnRun { phase: Phase::Failed, ..*old(self) }) && r
                    == Err::<(), ErrorObject>(error),
            },
    {
        match turn {
            Ok(turn) => {
                self.settle(turn, None, models, latency_ms, pursued);
                Ok(())
            },
            Err(error) => {
                self.phase = Phase::Failed;
                Err(error)
            },
        }
    }

    /// What is told of a round.
    pub open spec fn round_frame(self, told: GoalRound) -> FrameV {
        FrameV::GoalRound {
            turn_id: self.turn_id@,
            round: told.round as int,
            status: told.end.status@,
            reason: told.end.reason@,
        }
    }

    /// How a round of the session's goal was judged: it is told and noted. `None`
    /// means that the goal is gone.
    pub fn judged(&mut self, round: Option<GoalRound>)
        requires
            old(self).wf(),
            old(self).phase == Phase::Judging,
        ensures
            final(self).wf(),
            final(self).same_turn(*old(self)),
            final(self).phase == Phase::Storing,
            final(self).reply == old(self).reply,
            final(self).iterations == old(self).iterations,
            final(self).usage == old(self).usage,
            final(self).retries == old(self).retries,
            match round {
                Some(told) => {
                    &&& final(self).frames() == old(self).frames().push(
                        old(self).round_frame(told),
                    )
                    &&& final(self).goal == Some((told.round, told.end.status))
                    &&& final(self).next == told.end.go_on
                    &&& final(self).record == Some(
                        Record {
                            meta: TurnMeta {
                                retries: old(self).retries,
                                goal_status: Some(told.end.status),
                                goal_rounds: told.round,
                                ..old(self).record->0.meta
                            },
                            ..old(self).record->0
                        },
                    )
                },
                None => {
                    &&& final(self).frames() == old(self).frames()
                    &&& final(self).goal == old(self).goal
                    &&& final(self).next is None
                    &&& final(self).record matches Some(record) && record == (Record {
                        meta: TurnMeta {
                            retries: old(self).retries,
                            goal_status: record.meta.goal_status,
                            goal_rounds: record.meta.goal_rounds,
                            ..old(self).record->0.meta
                        },
                        ..old(self).record->0
                    }) && notes_goal(record.meta, goal_told(old(self).frames()))
                },
            },
    {
        let ghost before = self.frames();
        let (rounds, status): (i32, Option<String>) = match round {
            Some(told) => {
                let frame = Frame::GoalRound {
                    turn_id: self.turn_id.clone(),
                    round: told.round,
                    status: told.end.status.clone(),
                    reason: told.end.reason,
                };
                self.sent.push(frame);
                proof {
                    let now = self.frames();
                    assert(now =~= before.push(frame@));
                    assert forall|k: int| 0 <= k < before.len() implies now[k] == before[k] by {}
                    lemma_told_next(before, frame@);
                }
                self.goal = Some((told.round, told.end.status.clone()));
                self.next = told.end.go_on;
                (told.round, Some(told.end.status))
            },
            None => match &self.goal {
                Some((round, status)) => (*round, Some(status.clone())),
                None => (0, None),
            },
        };
        let taken = self.record.take();
        if let Some(record) = taken {
            let mut meta = record.meta;
            meta.retries = self.retries;
            meta.goal_status = status;
            meta.goal_rounds = rounds;
            self.record = Some(Record { reply: record.reply, meta, cost: record.cost });
        }
        self.phase = Phase::Storing;
    }

    /// Nothing but the phase and what went out changes.
    pub open spec fn same_end(self, other: TurnRun) -> bool {
        &&& self.same_turn(other)
        &&& self.record == other.record
        &&& self.reply == other.reply
        &&& self.iterations == other.iterations
        &&& self.usage == other.usage
        &&& self.retries == other.retries
        &&& self.goal == other.goal
    }

    /// Whether the exchange could be written down. Where a round of a goal goes on,
    /// the turn loops again, in the same session, on the message that comes back.
    pub fn stored(&mut self, outcome: Result<(), String>) -> (r: Result<
        Option<String>,
        ErrorObject,
    >)
        requires
            old(self).wf(),
            old(self).phase == Phase::Storing,
        ensures
            final(self).wf(),
            final(self).frames() == old(self).frames(),
            final(self).same_end(*old(self)),
            final(self).next is None,
            match outcome {
                Ok(_) => r == Ok::<Option<String>, ErrorObject>(old(self).next)
                    && final(self).phase == if old(self).next is Some {
                    Phase::Looping
                } else {
                    Phase::Consolidating
                },
                Err(why) => final(self).phase == Phase::Failed && (r matches Err(e) && e.says(
                    ErrorCode::InternalError,
                    "写对话日志失败："@ + why@,
                )),
            },
    {
        let next = self.next.take();
        match outcome {
            Ok(_) => {
                self.phase = if next.is_some() {
                    Phase::Looping
                } else {
                    Phase::Consolidating
                };
                Ok(next)
            },
            Err(why) => {
                self.phase = Phase::Failed;
                let mut message = "写对话日志失败：".to_owned();
                message.append(why.as_str());
                Err(ErrorObject { code: ErrorCode::InternalError, message })
            },
        }
    }

    /// How many facts were distilled; `None` where it failed, which harms
    /// nothing.
    pub fn consolidated(&mut self, new_facts: Option<usize>)
        requires
            old(self).wf(),
            old(self).phase == Phase::Consolidating,
            new_facts is Some ==> new_facts->0 <= i32::MAX,
        ensures
            final(self).wf(),
            final(self).phase == Phase::Closing,
            final(self).same_end(*old(self)),
            final(self).frames() == if new_facts is Some && new_facts->0 > 0 {
                old(self).frames().push(FrameV::Consolidated { new_facts: new_facts->0 as int })
            } else {
                old(self).frames()
            },
    {
        match new_facts {
            Some(n) => {
                if n > 0 {
                    self.push(Frame::Consolidated { new_facts: n as i32 });
                }
            },
            None => {},
        }
        self.phase = Phase::Closing;
    }

    /// Tells the end of the turn and what was measured of it, then answers the
    /// request.
    pub fn complete(&mut self)
        requires
            old(self).wf(),
            old(self).phase == Phase::Closing,
        ensures
            final(self).wf(),
            final(self).same_turn(*old(self)),
            final(self).phase == Phase::Finished,
            final(self).frames() == old(self).frames().push(
                FrameV::TurnCompleted {
                    turn_id: old(self).turn_id@,
                    reply: old(self).reply@,
                    iterations: old(self).iterations as int,
                    usage: old(self).usage,
                    meta: old(self).record->0.meta,
                },
            ).push(FrameV::Answer { request: old(self).request, turn_id: old(self).turn_id@ }),
    {
        let ghost before = self.frames();
        let taken = self.record.take();
        if let Some(record) = taken {
            let done = Frame::TurnCompleted {
                turn_id: self.turn_id.clone(),
                reply: self.reply.clone(),
                iterations: self.iterations,
                usage: self.usage,
                meta: record.meta,
            };
            let answer = Frame::Answer {
                request: copy_request(&self.request),
                turn_id: self.turn_id.clone(),
            };
            self.sent.push(done);
            self.sent.push(answer);
            self.phase = Phase::Finished;
            proof {
                let now = self.frames();
                assert(now =~= before.push(done@).push(answer@));
                assert forall|k: int| 0 <= k < before.len() implies now[k] == before[k] by {}
                lemma_told_next(before, done@);
                lemma_told_next(before.push(done@), answer@);
            }
        }
    }
}

/// A to-do list adds itself to a system prompt, and nothing else; without one, or
/// with an empty one, there is no trace of it.
pub proof fn only_a_list_has_a_section(
    soul: Seq<char>,
    clock: Clock,
    model: Seq<char>,
    provider: Seq<char>,
    memory: Seq<char>,
    skills: Seq<char>,
    summary: Option<Seq<char>>,
    section: Seq<char>,
)
    ensures
        ({
            let bare = system_parts(soul, clock, model, provider, memory, skills, summary, None);
            system_parts(soul, clock, model, provider, memory, skills, summary, Some(section))
                == if section.len() > 0 {
                bare.push(section)
            } else {
                bare
            }
        }),
{
    let bare = system_parts(soul, clock, model, provider, memory, skills, summary, None);
    let full = system_parts(
        soul,
        clock,
        model,
        provider,
        memory,
        skills,
        summary,
        Some(section),
    );
    if section.len() > 0 {
        assert(full =~= bare.push(section));
    } else {
        assert(full =~= bare);
    }
}

/// Whatever a turn goes through, its answer goes out at most once, and nothing
/// goes out after it.
pub proof fn the_answer_comes_last(run: TurnRun, i: int)
    requires
        run.wf(),
        0 <= i < run.sent@.len(),
        run.frames()[i] is Answer,
    ensures
        i == run.sent@.len() - 1,
        run.phase == Phase::Finished,
{
}

/// A finished turn has answered the request that it was begun for, with the turn
/// that it told the start of; its one report of the end stands right before.
pub proof fn the_answer_names_its_turn(run: TurnRun)
    requires
        run.wf(),
        run.phase == Phase::Finished,
    ensures
        run.frames().last() == (FrameV::Answer { request: run.request, turn_id: run.turn_id@ }),
        run.frames()[0] is TurnStarted,
        run.frames()[0]->TurnStarted_turn_id == run.turn_id@,
        run.frames()[run.sent@.len() - 2] is TurnCompleted,
        run.frames()[run.sent@.len() - 2]->TurnCompleted_turn_id == run.turn_id@,
        forall|i: int|
            0 <= i < run.sent@.len() && (#[trigger] run.frames()[i]) is TurnCompleted ==> i
                == run.sent@.len() - 2,
{
    let n = run.sent@.len() as int;
    assert(run.frames()[0].fits_turn(run.turn_id@));
    assert(run.frames()[n - 2].fits_turn(run.turn_id@));
}

/// The report of a turn's end counts every retry that was told, and says of the
/// session's goal what was told of it last.
pub proof fn the_report_is_what_was_told(run: TurnRun)
    requires
        run.wf(),
        run.phase == Phase::Finished,
    ensures
        ({
            let meta = run.frames()[run.sent@.len() - 2]->meta;
            &&& meta.retries == retries_told(run.frames())
            &&& notes_goal(meta, goal_told(run.frames()))
        }),
{
}

pub fn loop_failed(why: &str) -> (r: ErrorObject)
    ensures
        r.says(ErrorCode::ProviderError, "模型调用失败："@ + why@),
{
    let mut message = "模型调用失败：".to_owned();
    message.append(why);
    ErrorObject { code: ErrorCode::ProviderError, message }
}

/// A label for a turn; `nanos` is the time.
pub fn new_turn_id(nanos: u64) -> (r: String)
    ensures
        r@ == "t"@ + decimal(nanos as nat),
{
    let mut t = "t".to_owned();
    t.append(to_decimal(nanos).as_str());
    t
}

/// What the book of turns says of one.
#[derive(Debug, Clone, PartialEq, Eq)]
pub struct TraceLine<'a> {
    pub ts: String,
    pub turn_id: String,
    pub session_id: String,
    pub user_message: String,
    pub reply: String,
    pub meta: &'a TurnMeta,
}

pub fn trace_line<'a>(
    ts: String,
    turn_id: &str,
    session_id: &str,
    message: &str,
    record: &'a Record,
) -> (r: TraceLine<'a>)
    ensures
        r.ts == ts,
        r.turn_id@ == turn_id@,
        r.session_id@ == session_id@,
        r.user_message@ == message@,
        r.reply@ == record.reply@,
        *r.meta == record.meta,
{
    TraceLine {
        ts,
        turn_id: turn_id.to_owned(),
        session_id: session_id.to_owned(),
        user_message: message.to_owned(),
        reply: record.reply.clone(),
        meta: &record.meta,
    }
}

/// What the book of costs says of a turn.
#[derive(Debug, Clone, PartialEq, Eq)]
pub struct UsageLine {
    pub ts: String,
    pub turn_id: String,
    pub session_id: String,
    pub provider: String,
    pub model: String,
    pub input_tokens: i64,
    pub output_tokens: i64,
    pub iterations: i32,
    pub interrupted: bool,
}

pub fn usage_line(ts: String, turn_id: &str, session_id: &str, record: &Record) -> (r: UsageLine)
    ensures
        r.ts == ts,
        r.turn_id@ == turn_id@,
        r.session_id@ == session_id@,
        r.provider@ == record.meta.provider@,
        r.model@ == record.meta.model@,
        r.input_tokens == record.cost.input_tokens,
        r.output_tokens == record.cost.output_tokens,
        r.iterations == record.meta.iterations,
        r.interrupted == record.meta.interrupted,
{
    UsageLine {
        ts,
        turn_id: turn_id.to_owned(),
        session_id: session_id.to_owned(),
        provider: record.meta.provider.clone(),
        model: record.meta.model.clone(),
        input_tokens: record.cost.input_tokens,
        output_tokens: record.cost.output_tokens,
        iterations: record.meta.iterations,
        interrupted: record.meta.interrupted,
    }
}

/// Where the turns of a day are written down.
pub fn trace_path(home: &str, date: &str) -> (r: String)
    ensures
        r@ == below(below(home@, "traces"@), date@ + ".jsonl"@),
{
    let mut leaf = date.to_owned();
    leaf.append(".jsonl");
    join_path(join_path(home, "traces").as_str(), leaf.as_str())
}

/// Where it is written down what turns cost.
pub fn usage_path(home: &str) -> (r: String)
    ensures
        r@ == below(home@, "usage.jsonl"@),
{
    join_path(home, "usage.jsonl")
}

// ---- what the model is told, and what is written down ----------------------

/// A system prompt holds who the assistant is, what time it is and which model
/// speaks, and beside these what the memory, the skills, the summary and the to-do
/// list say.
pub proof fn a_system_prompt_holds_it_all(
    soul: Seq<char>,
    clock: Clock,
    model: Seq<char>,
    provider: Seq<char>,
    memory: Seq<char>,
    skills: Seq<char>,
    summary: Option<Seq<char>>,
    todo: Option<Seq<char>>,
)
    ensures
        ({
            let parts = system_parts(soul, clock, model, provider, memory, skills, summary, todo);
            let text = joined(parts, "\n"@);
            &&& parts[0] == soul
            &&& occurs(text, soul)
            &&& occurs(text, clock.at@)
            &&& occurs(text, clock.zone@)
            &&& occurs(text, clock.offset@)
            &&& occurs(text, model)
            &&& occurs(text, provider)
            &&& memory.len() > 0 ==> occurs(text, memory)
            &&& skills.len() > 0 ==> occurs(text, skills)
            &&& summary is Some && trimmed(summary->0).len() > 0 ==> occurs(
                text,
                trimmed(summary->0),
            )
            &&& todo is Some && todo->0.len() > 0 ==> occurs(text, todo->0)
        }),
{
    let front = seq![soul, clock_line(clock), model_line(model, provider)];
    let m = headed("\nRelevant memory:\n"@, memory);
    let s = headed("\nRelevant skill instructions:\n"@, skills);
    let u = summary_part(summary);
    let t = todo_part(todo);
    let parts = system_parts(soul, clock, model, provider, memory, skills, summary, todo);
    let text = joined(parts, "\n"@);
    assert(parts[0] == soul && parts[1] == clock_line(clock) && parts[2] == model_line(
        model,
        provider,
    ));
    lemma_part_occurs(parts, 0);
    lemma_part_occurs(parts, 1);
    lemma_part_occurs(parts, 2);
    lemma_clock_line(clock);
    lemma_model_line(model, provider);
    lemma_occurs_within(text, clock_line(clock), clock.at@);
    lemma_occurs_within(text, clock_line(clock), clock.zone@);
    lemma_occurs_within(text, clock_line(clock), clock.offset@);
    lemma_occurs_within(text, model_line(model, provider), model);
    lemma_occurs_within(text, model_line(model, provider), provider);
    if memory.len() > 0 {
        let title = "\nRelevant memory:\n"@;
        assert(parts[3] == title + memory);
        lemma_part_occurs(parts, 3);
        lemma_occurs(title, memory, Seq::empty());
        assert(title + memory + Seq::<char>::empty() =~= title + memory);
        lemma_occurs_within(text, title + memory, memory);
    }
    if skills.len() > 0 {
        let title = "\nRelevant skill instructions:\n"@;
        let at = 3 + m.len() as int;
        assert(parts[at] == title + skills);
        lemma_part_occurs(parts, at);
        lemma_occurs(title, skills, Seq::empty());
        assert(title + skills + Seq::<char>::empty() =~= title + skills);
        lemma_occurs_within(text, title + skills, skills);
    }
    if summary is Some && trimmed(summary->0).len() > 0 {
        let section = section_of(summary->0)->0;
        let at = 3 + m.len() + s.len() as int;
        assert(parts[at] == section);
        lemma_part_occurs(parts, at);
        a_summary_is_told(summary->0);
        let said = trimmed(summary->0);
        assert(occurs_at(section, said, section.len() - said.len()));
        lemma_occurs_within(text, section, said);
    }
    if todo is Some && todo->0.len() > 0 {
        let at = 3 + m.len() + s.len() + u.len() as int;
        assert(parts[at] == todo->0);
        lemma_part_occurs(parts, at);
    }
}

proof fn lemma_part_occurs(parts: Seq<Seq<char>>, i: int)
    requires
        0 <= i < parts.len(),
    ensures
        occurs(joined(parts, "\n"@), parts[i]),
{
    assert(parts =~= parts.take(i) + seq![parts[i]] + parts.skip(i + 1));
    a_joined_text_holds_its_parts(parts.take(i), parts[i], parts.skip(i + 1), "\n"@);
}

proof fn lemma_clock_line(clock: Clock)
    ensures
        occurs(clock_line(clock), clock.at@),
        occurs(clock_line(clock), clock.zone@),
        occurs(clock_line(clock), clock.offset@),
{
    let a = "\nRight now it is "@;
    let b = " ("@;
    let c = ", UTC"@;
    let d = ")"@;
    let all = clock_line(clock);
    lemma_occurs(a, clock.at@, b + clock.zone@ + c + clock.offset@ + d);
    assert(all =~= a + clock.at@ + (b + clock.zone@ + c + clock.offset@ + d));
    lemma_occurs(a + clock.at@ + b, clock.zone@, c + clock.offset@ + d);
    assert(all =~= (a + clock.at@ + b) + clock.zone@ + (c + clock.offset@ + d));
    lemma_occurs(a + clock.at@ + b + clock.zone@ + c, clock.offset@, d);
    assert(all =~= (a + clock.at@ + b + clock.zone@ + c) + clock.offset@ + d);
}

proof fn lemma_model_line(model: Seq<char>, provider: Seq<char>)
    ensures
        occurs(model_line(model, provider), model),
        occurs(model_line(model, provider), provider),
{
    let a = "Your model: you are running on '"@;
    let b = "' via the '"@;
    let c = "' provider, inside Joy, a local-first open-source agent harness."@;
    let all = model_line(model, provider);
    lemma_occurs(a, model, b + provider + c);
    assert(all =~= a + model + (b + provider + c));
    lemma_occurs(a + model + b, provider, c);
    assert(all =~= (a + model + b) + provider + c);
}

/// Without memory, skills, summary and list a system prompt has three parts, and
/// each of them adds one.
pub proof fn nothing_empty_is_told(soul: Seq<char>, clock: Clock, model: Seq<char>, provider: Seq<char>)
    ensures
        system_parts(soul, clock, model, provider, Seq::empty(), Seq::empty(), None, None).len() == 3,
{
}

/// The history is the latest turns that the window holds, each by what was said and
/// then by what was answered.
pub proof fn the_history_is_the_latest_turns(
    pairs: Seq<(Seq<char>, Seq<char>)>,
    turns: int,
    i: int,
)
    ensures
        ({
            let kept = if turns < 0 {
                0
            } else if turns < pairs.len() {
                turns
            } else {
                pairs.len() as int
            };
            let told = latest_messages(pairs, turns);
            let from = pairs.len() - kept;
            &&& told.len() == 2 * kept
            &&& 0 <= i < kept ==> told[2 * i] == text_message(Role::User, pairs[from + i].0)
                && told[2 * i + 1] == text_message(Role::Assistant, pairs[from + i].1)
        }),
{
    let from = evicted(pairs.len() as int, window_of(turns));
    let kept = pairs.skip(from);
    lemma_exchanges(kept, kept.len() as int);
    if 0 <= i < kept.len() {
        assert(kept[i] == pairs[from + i]);
    }
}

proof fn lemma_exchanges(pairs: Seq<(Seq<char>, Seq<char>)>, k: int)
    requires
        0 <= k <= pairs.len(),
    ensures
        exchanges(pairs, k).len() == 2 * k,
        forall|i: int|
            #![trigger pairs[i]]
            0 <= i < k ==> exchanges(pairs, k)[2 * i] == text_message(Role::User, pairs[i].0)
                && exchanges(pairs, k)[2 * i + 1] == text_message(Role::Assistant, pairs[i].1),
    decreases k,
{
    if k > 0 {
        lemma_exchanges(pairs, k - 1);
        let before = exchanges(pairs, k - 1);
        let now = exchanges(pairs, k);
        assert forall|i: int|
            #![trigger pairs[i]]
            0 <= i < k implies now[2 * i] == text_message(Role::User, pairs[i].0) && now[2 * i + 1]
            == text_message(Role::Assistant, pairs[i].1) by {
            if i < k - 1 {
                assert(now[2 * i] == before[2 * i]);
                assert(now[2 * i + 1] == before[2 * i + 1]);
            }
        }
    }
}

/// A text that is short enough is kept; a longer one keeps its front and is marked.
pub proof fn a_cut_text_keeps_its_front(text: Seq<char>, max: nat)
    ensures
        text.len() <= max ==> truncated(text, max) == text,
        text.len() > max ==> truncated(text, max).len() == max + 1 && text.take(
            max as int,
        ).is_prefix_of(truncated(text, max)) && truncated(text, max).last() == '…',
{
    reveal_strlit("…");
    if text.len() > max {
        assert(truncated(text, max).take(max as int) =~= text.take(max as int));
    }
}

/// What is remembered of a turn starts with the reply; behind it stands every tool
/// that was used, with the front of what it gave.
pub proof fn a_reply_is_remembered_with_its_tools(
    reply: Seq<char>,
    calls: Seq<ToolOutcome>,
    i: int,
)
    ensures
        reply.is_prefix_of(with_activity(reply, calls)),
        calls.len() == 0 ==> with_activity(reply, calls) == reply,
        0 <= i < calls.len() ==> occurs(with_activity(reply, calls), calls[i].name@),
        0 <= i < calls.len() && calls[i].output@.len() <= 200 ==> occurs(
            with_activity(reply, calls),
            calls[i].name@ + "("@ + calls[i].output@ + ")"@,
        ),
        0 <= i < calls.len() && calls[i].output@.len() > 200 ==> occurs(
            with_activity(reply, calls),
            calls[i].output@.take(200),
        ),
{
    let all = with_activity(reply, calls);
    if calls.len() == 0 {
        assert(reply =~= reply.take(reply.len() as int));
    } else {
        let notes = call_notes(calls);
        let list = joined(notes, "; "@);
        let a = "\n[tools used: "@;
        let b = "]"@;
        assert(all.take(reply.len() as int) =~= reply);
        lemma_occurs(reply + a, list, b);
        if 0 <= i < calls.len() {
            let c = calls[i];
            let said = truncated(c.output@, 200);
            let note = c.name@ + "("@ + said + ")"@;
            assert(notes[i] == note);
            assert(notes =~= notes.take(i) + seq![note] + notes.skip(i + 1));
            a_joined_text_holds_its_parts(notes.take(i), note, notes.skip(i + 1), "; "@);
            lemma_occurs_within(all, list, note);
            lemma_occurs(Seq::empty(), c.name@, "("@ + said + ")"@);
            assert(note =~= Seq::<char>::empty() + c.name@ + ("("@ + said + ")"@));
            lemma_occurs_within(all, note, c.name@);
            lemma_occurs(c.name@ + "("@, said, ")"@);
            lemma_occurs_within(all, note, said);
            if c.output@.len() > 200 {
                let front = c.output@.take(200);
                a_cut_text_keeps_its_front(c.output@, 200);
                assert(head(c.output@, 200) =~= front);
                lemma_occurs(Seq::empty(), front, "…"@);
                assert(said =~= Seq::<char>::empty() + front + "…"@);
                lemma_occurs_within(all, said, front);
            }
        }
    }
}

/// Triage is told as it decided: what is searched for is told only where a search
/// was made.
pub proof fn a_gate_is_told_as_it_decided(g: GateDecision, d: DecisionV)
    requires
        tells_gate(g, d),
    ensures
        g.decision == GateKind::Retrieve <==> d.retrieve,
        g.decision == GateKind::Skip <==> !d.retrieve,
        g.reason@ == d.reason,
        d.retrieve ==> g.query is Some && g.query->0@ == d.query,
        !d.retrieve ==> g.query is None,
{
}

/// A quick answer was given by the small model, any other by the large one.
pub proof fn the_model_that_answered_is_named(graph: Option<GraphInfo>, models: Models)
    ensures
        graph is None ==> answered_by(graph, models) == models.model@,
        graph matches Some(info) && info.route == GraphRoute::Quick ==> answered_by(graph, models)
            == models.small_model@,
        graph matches Some(info) && info.route == GraphRoute::Full ==> answered_by(graph, models)
            == models.model@,
{
}

/// What is measured of a turn is what happened in it.
pub proof fn a_turn_is_measured_as_it_went(
    meta: TurnMeta,
    turn: FullTurn,
    graph: Option<GraphInfo>,
    models: Models,
    latency_ms: i32,
    i: int,
)
    requires
        measures(meta, turn, graph, models, latency_ms),
    ensures
        meta.gate == turn.gate,
        meta.graph == graph,
        meta.iterations == turn.result.iterations,
        meta.latency_ms == latency_ms,
        meta.provider@ == models.provider@,
        meta.interrupted == turn.result.interrupted,
        meta.guard_hits == turn.result.guard.hits,
        meta.guard_note == turn.result.guard.note,
        meta.tools@.len() == turn.result.tool_calls@.len(),
        0 <= i < meta.tools@.len() ==> meta.tools@[i].tool@ == turn.result.tool_calls@[i].name@
            && meta.tools@[i].succeeded == !begins(turn.result.tool_calls@[i].output@, "Error:"@),
        0 <= i < meta.tools@.len() && 0 <= turn.result.tool_calls@[i].duration_ms <= 0x7fff_ffff
            ==> meta.tools@[i].duration_ms == Some(turn.result.tool_calls@[i].duration_ms as i32),
        meta.usage is Some,
        0 <= turn.result.usage.input_tokens <= 0x7fff_ffff ==> meta.usage->0.input_tokens
            == turn.result.usage.input_tokens,
        0 <= turn.result.usage.output_tokens <= 0x7fff_ffff ==> meta.usage->0.output_tokens
            == turn.result.usage.output_tokens,
{
    if 0 <= i < meta.tools@.len() {
        assert(records(meta.tools@[i], turn.result.tool_calls@[i]));
    }
}

/// Every tool of a turn is told of, in its order, with all that it gave.
pub proof fn every_tool_is_told_of(turn_id: Seq<char>, calls: Seq<ToolOutcome>, i: int)
    requires
        0 <= i < calls.len(),
    ensures
        tool_frames(turn_id, calls).len() == calls.len(),
        tool_frames(turn_id, calls)[i] matches FrameV::ToolCompleted {
            turn_id: id,
            tool,
            output,
            succeeded,
            duration_ms,
        } && id == turn_id && tool == calls[i].name@ && output == calls[i].output@ && succeeded
            == !begins(calls[i].output@, "Error:"@) && (0 <= calls[i].duration_ms <= 0x7fff_ffff
            ==> duration_ms == calls[i].duration_ms),
{
}

/// A quick answer is the reply of the quick way and nothing more.
pub proof fn a_quick_answer_is_just_that(turn: FullTurn, reply: Seq<char>)
    requires
        is_quick_answer(turn, reply),
    ensures
        turn.result.reply@ == reply,
        turn.gate is None,
        turn.result.iterations == 1,
        turn.result.tool_calls@.len() == 0,
        !turn.result.interrupted,
{
}

/// What is told of the way through the graph is what it was.
pub proof fn a_route_is_told(info: GraphInfo, route: GraphRoute, state: State, path: Seq<String>)
    requires
        tells_route(info, route, state, path),
    ensures
        info.route == route,
        info.path@ == path,
        state.text_at("triage_reason"@) matches Some(r) ==> info.reason@ == r,
        info.workflow@ == "triage"@,
{
}

/// What is told while a turn goes on is of its start, its tools, its words, its
/// graph or a retry; the end and the judgement of a goal are told by themselves.
pub proof fn only_what_happens_is_told_live(frame: FrameV)
    ensures
        frame.is_live() ==> !(frame is TurnStarted) && !(frame is TurnCompleted) && !(frame
            is Answer) && !(frame is ToolCompleted) && !(frame is GoalRound) && !(frame
            is Consolidated),
        frame is TextDelta || frame is GateDecided || frame is ToolStarted || frame is Graph || frame
            is Retry ==> frame.is_live(),
{
}

/// A frame belongs to the turn that it names.
pub proof fn a_frame_belongs_to_its_turn(frame: FrameV, turn: Seq<char>, other: Seq<char>)
    requires
        turn != other,
        frame.fits_turn(turn),
        frame.fits_turn(other),
    ensures
        frame is Graph || frame is Consolidated,
{
}

/// Retries are counted one by one, and of a goal the round that was told last counts.
pub proof fn what_is_told_is_counted(frames: Seq<FrameV>, frame: FrameV)
    ensures
        retries_told(Seq::empty()) == 0,
        goal_told(Seq::empty()) is None,
        retries_told(frames.push(frame)) == retries_told(frames) + if frame is Retry {
            1int
        } else {
            0int
        },
        frame matches FrameV::GoalRound { turn_id, round, status, reason } ==> goal_told(
            frames.push(frame),
        ) == Some((round, status)),
        !(frame is GoalRound) ==> goal_told(frames.push(frame)) == goal_told(frames),
{
    lemma_told_next(frames, frame);
}

/// A turn that came to something: its tools are told of behind all that was told
/// before, its reply is what the model said, and what is written down is its reply and
/// its measures. A goal is judged unless the turn was stopped; without one the turn is
/// stored.
pub proof fn a_settled_turn_is_written_down(
    before: TurnRun,
    after: TurnRun,
    turn: FullTurn,
    graph: Option<GraphInfo>,
    models: Models,
    latency_ms: i32,
    pursued: bool,
)
    requires
        after.settles(before, turn, graph, models, latency_ms, pursued),
    ensures
        after.request == before.request,
        after.turn_id == before.turn_id,
        after.phase == Phase::Judging <==> pursued && !turn.result.interrupted,
        after.phase == Phase::Storing <==> !pursued || turn.result.interrupted,
        before.frames().is_prefix_of(after.frames()),
        after.frames().len() == before.frames().len() + turn.result.tool_calls@.len(),
        after.reply@ == turn.result.reply@,
        after.iterations == turn.result.iterations,
        after.goal == before.goal,
        after.retries == before.retries,
        after.record is Some,
        ({
            let record = after.record->0;
            &&& begins(record.reply@, turn.result.reply@)
            &&& turn.result.tool_calls@.len() == 0 ==> record.reply@ == turn.result.reply@
            &&& record.cost == turn.result.usage
            &&& record.meta.latency_ms == latency_ms
            &&& record.meta.interrupted == turn.result.interrupted
            &&& record.meta.retries == before.retries
            &&& record.meta.provider@ == models.provider@
            &&& graph is None ==> record.meta.model@ == models.model@
        }),
        0 <= turn.result.usage.input_tokens <= i32::MAX ==> after.usage.input_tokens
            == turn.result.usage.input_tokens,
        0 <= turn.result.usage.output_tokens <= i32::MAX ==> after.usage.output_tokens
            == turn.result.usage.output_tokens,
{
    let told = tool_frames(before.turn_id@, turn.result.tool_calls@);
    assert(after.frames().take(before.frames().len() as int) =~= before.frames());
    assert(told.len() == turn.result.tool_calls@.len());
    let reply = turn.result.reply@;
    let noted = with_activity(reply, turn.result.tool_calls@);
    assert(noted.take(reply.len() as int) =~= reply);
}

/// A round of a goal is told with its number, how it stands and why.
pub proof fn a_round_is_told_as_it_ended(run: TurnRun, told: GoalRound)
    ensures
        run.round_frame(told) matches FrameV::GoalRound { turn_id, round, status, reason }
            && turn_id == run.turn_id@ && round == told.round && status == told.end.status@
            && reason == told.end.reason@,
{
}

} // verus!
