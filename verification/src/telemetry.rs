//! What was measured of a turn, read back from the log.
//!
//! The log keeps a JSON text with every answer. One whose shape is not the one
//! expected here is no record at all.

use vstd::prelude::*;

use crate::json::{
    bool_at, count_at, int_at, json_bool_at, json_count_at, json_int_at, json_text_at,
    json_written_at, place, place_of, text_at, written_at,
};
use crate::text::{decimal, opt_text, push_decimal, same, views};
use crate::turn::{GateDecision, GateKind, GraphInfo, GraphRoute, TokenUsage, ToolRecord, TurnMeta};

verus! {

// ---- members ---------------------------------------------------------------

/// Nothing stands at this place, or `null` does.
pub open spec fn empty_at(raw: Seq<char>, at: Seq<char>) -> bool {
    json_written_at(raw, at) is None || json_written_at(raw, at) == Some("null"@)
}

fn is_empty_at(raw: &str, at: &str) -> (r: bool)
    ensures
        r == empty_at(raw@, at@),
{
    match written_at(raw, at) {
        Some(t) => same(t.as_str(), "null"),
        None => true,
    }
}

pub open spec fn small(n: Option<i64>) -> bool {
    n is Some && i32::MIN <= n->0 <= i32::MAX
}

/// The number at a place, where it is one of the size that records use.
fn number_at(raw: &str, at: &str) -> (r: Option<i32>)
    ensures
        match r {
            Some(n) => json_int_at(raw@, at@) == Some(n as i64),
            None => !small(json_int_at(raw@, at@)),
        },
{
    match int_at(raw, at) {
        Some(n) => if -2147483648 <= n && n <= 2147483647 {
            Some(n as i32)
        } else {
            None
        },
        None => None,
    }
}

/// A text that may be left out.
pub open spec fn maybe_text(raw: Seq<char>, at: Seq<char>) -> bool {
    empty_at(raw, at) || json_text_at(raw, at) is Some
}

pub open spec fn text_or_none(raw: Seq<char>, at: Seq<char>) -> Option<Seq<char>> {
    if empty_at(raw, at) {
        None
    } else {
        json_text_at(raw, at)
    }
}

/// The text at a place; the outer `None` stands for something that is no text.
fn text_if_any(raw: &str, at: &str) -> (r: Option<Option<String>>)
    ensures
        match r {
            Some(t) => maybe_text(raw@, at@) && opt_text(t) == text_or_none(raw@, at@),
            None => !maybe_text(raw@, at@),
        },
{
    if is_empty_at(raw, at) {
        return Some(None);
    }
    match text_at(raw, at) {
        Some(t) => Some(Some(t)),
        None => None,
    }
}

// ---- the memory gate -------------------------------------------------------

pub open spec fn gate_named(name: Option<Seq<char>>) -> Option<GateKind> {
    if name == Some("retrieve"@) {
        Some(GateKind::Retrieve)
    } else if name == Some("skip"@) {
        Some(GateKind::Skip)
    } else {
        None
    }
}

pub open spec fn gate_fits(raw: Seq<char>) -> bool {
    &&& gate_named(json_text_at(raw, "/gate/decision"@)) is Some
    &&& json_text_at(raw, "/gate/reason"@) is Some
    &&& maybe_text(raw, "/gate/query"@)
}

pub open spec fn is_gate(gate: GateDecision, raw: Seq<char>) -> bool {
    &&& Some(gate.decision) == gate_named(json_text_at(raw, "/gate/decision"@))
    &&& Some(gate.reason@) == json_text_at(raw, "/gate/reason"@)
    &&& opt_text(gate.query) == text_or_none(raw, "/gate/query"@)
}

fn read_gate(raw: &str) -> (r: Option<GateDecision>)
    ensures
        match r {
            Some(gate) => gate_fits(raw@) && is_gate(gate, raw@),
            None => !gate_fits(raw@),
        },
{
    let decision = match text_at(raw, "/gate/decision") {
        Some(name) => if same(name.as_str(), "retrieve") {
            GateKind::Retrieve
        } else if same(name.as_str(), "skip") {
            GateKind::Skip
        } else {
            return None;
        },
        None => return None,
    };
    match (text_at(raw, "/gate/reason"), text_if_any(raw, "/gate/query")) {
        (Some(reason), Some(query)) => Some(GateDecision { decision, reason, query }),
        _ => None,
    }
}

// ---- the graph -------------------------------------------------------------

/// The place of element `k` of the list at `list`.
pub open spec fn element_of(list: Seq<char>, k: nat) -> Seq<char> {
    list + "/"@ + decimal(k)
}

fn element(list: &str, k: usize) -> (r: String)
    ensures
        r@ == element_of(list@, k as nat),
{
    let mut t = list.to_owned();
    t.append("/");
    push_decimal(&mut t, k as u64);
    t
}

pub open spec fn all_texts(raw: Seq<char>, list: Seq<char>) -> bool {
    &&& json_count_at(raw, list) is Some
    &&& forall|k: nat|
        k < json_count_at(raw, list)->0 ==> json_text_at(raw, #[trigger] element_of(list, k)) is Some
}

pub open spec fn texts_at(raw: Seq<char>, list: Seq<char>) -> Seq<Seq<char>> {
    Seq::new(
        json_count_at(raw, list)->0 as nat,
        |k: int| json_text_at(raw, element_of(list, k as nat))->0,
    )
}

fn read_texts(raw: &str, list: &str) -> (r: Option<Vec<String>>)
    ensures
        match r {
            Some(texts) => all_texts(raw@, list@) && views(texts@) == texts_at(raw@, list@),
            None => !all_texts(raw@, list@),
        },
{
    let n: usize = match count_at(raw, list) {
        Some(n) => n,
        None => return None,
    };
    let mut texts: Vec<String> = Vec::new();
    let mut k: usize = 0;
    while k < n
        invariant
            k <= n,
            json_count_at(raw@, list@) == Some(n),
            texts@.len() == k,
            forall|i: nat|
                i < k ==> json_text_at(raw@, #[trigger] element_of(list@, i)) == Some(
                    texts@[i as int]@,
                ),
        decreases n - k,
    {
        match text_at(raw, element(list, k).as_str()) {
            Some(t) => texts.push(t),
            None => return None,
        }
        k += 1;
    }
    assert(views(texts@) =~= texts_at(raw@, list@)) by {
        assert forall|i: int| 0 <= i < n implies views(texts@)[i] == texts_at(raw@, list@)[i] by {
            assert(json_text_at(raw@, element_of(list@, i as nat)) == Some(texts@[i]@));
        }
    }
    Some(texts)
}

pub open spec fn route_named(name: Option<Seq<char>>) -> Option<GraphRoute> {
    if name == Some("quick"@) {
        Some(GraphRoute::Quick)
    } else if name == Some("full"@) {
        Some(GraphRoute::Full)
    } else {
        None
    }
}

pub open spec fn graph_fits(raw: Seq<char>) -> bool {
    &&& json_text_at(raw, "/graph/workflow"@) is Some
    &&& route_named(json_text_at(raw, "/graph/route"@)) is Some
    &&& json_text_at(raw, "/graph/reason"@) is Some
    &&& all_texts(raw, "/graph/path"@)
}

pub open spec fn is_graph(graph: GraphInfo, raw: Seq<char>) -> bool {
    &&& Some(graph.workflow@) == json_text_at(raw, "/graph/workflow"@)
    &&& Some(graph.route) == route_named(json_text_at(raw, "/graph/route"@))
    &&& Some(graph.reason@) == json_text_at(raw, "/graph/reason"@)
    &&& views(graph.path@) == texts_at(raw, "/graph/path"@)
}

fn read_graph(raw: &str) -> (r: Option<GraphInfo>)
    ensures
        match r {
            Some(graph) => graph_fits(raw@) && is_graph(graph, raw@),
            None => !graph_fits(raw@),
        },
{
    let route = match text_at(raw, "/graph/route") {
        Some(name) => if same(name.as_str(), "quick") {
            GraphRoute::Quick
        } else if same(name.as_str(), "full") {
            GraphRoute::Full
        } else {
            return None;
        },
        None => return None,
    };
    match (
        text_at(raw, "/graph/workflow"),
        text_at(raw, "/graph/reason"),
        read_texts(raw, "/graph/path"),
    ) {
        (Some(workflow), Some(reason), Some(path)) => Some(
            GraphInfo { workflow, route, reason, path },
        ),
        _ => None,
    }
}

// ---- the tools -------------------------------------------------------------

pub open spec fn status_named(name: Option<Seq<char>>) -> Option<bool> {
    if name == Some("ok"@) {
        Some(true)
    } else if name == Some("error"@) {
        Some(false)
    } else {
        None
    }
}

pub open spec fn duration_fits(raw: Seq<char>, at: Seq<char>) -> bool {
    empty_at(raw, at) || small(json_int_at(raw, at))
}

pub open spec fn tool_fits(raw: Seq<char>, k: nat) -> bool {
    &&& json_text_at(raw, place_of("/tools"@, k, "tool"@)) is Some
    &&& status_named(json_text_at(raw, place_of("/tools"@, k, "status"@))) is Some
    &&& duration_fits(raw, place_of("/tools"@, k, "durationMs"@))
}

pub open spec fn is_tool(tool: ToolRecord, raw: Seq<char>, k: nat) -> bool {
    &&& Some(tool.tool@) == json_text_at(raw, place_of("/tools"@, k, "tool"@))
    &&& Some(tool.succeeded) == status_named(
        json_text_at(raw, place_of("/tools"@, k, "status"@)),
    )
    &&& match tool.duration_ms {
        Some(ms) => json_int_at(raw, place_of("/tools"@, k, "durationMs"@)) == Some(ms as i64)
            && !empty_at(raw, place_of("/tools"@, k, "durationMs"@)),
        None => empty_at(raw, place_of("/tools"@, k, "durationMs"@)),
    }
}

fn read_tool(raw: &str, k: usize) -> (r: Option<ToolRecord>)
    ensures
        match r {
            Some(tool) => tool_fits(raw@, k as nat) && is_tool(tool, raw@, k as nat),
            None => !tool_fits(raw@, k as nat),
        },
{
    let tool = match text_at(raw, place("/tools", k, "tool").as_str()) {
        Some(t) => t,
        None => return None,
    };
    let succeeded = match text_at(raw, place("/tools", k, "status").as_str()) {
        Some(name) => if same(name.as_str(), "ok") {
            true
        } else if same(name.as_str(), "error") {
            false
        } else {
            return None;
        },
        None => return None,
    };
    let at = place("/tools", k, "durationMs");
    if is_empty_at(raw, at.as_str()) {
        return Some(ToolRecord { tool, succeeded, duration_ms: None });
    }
    match number_at(raw, at.as_str()) {
        Some(ms) => Some(ToolRecord { tool, succeeded, duration_ms: Some(ms) }),
        None => None,
    }
}

pub open spec fn tools_fit(raw: Seq<char>) -> bool {
    &&& json_count_at(raw, "/tools"@) is Some
    &&& forall|k: nat| k < json_count_at(raw, "/tools"@)->0 ==> #[trigger] tool_fits(raw, k)
}

pub open spec fn are_tools(tools: Seq<ToolRecord>, raw: Seq<char>) -> bool {
    &&& Some(tools.len() as usize) == json_count_at(raw, "/tools"@)
    &&& forall|k: int| 0 <= k < tools.len() ==> is_tool(#[trigger] tools[k], raw, k as nat)
}

fn read_tools(raw: &str) -> (r: Option<Vec<ToolRecord>>)
    ensures
        match r {
            Some(tools) => tools_fit(raw@) && are_tools(tools@, raw@),
            None => !tools_fit(raw@),
        },
{
    let n: usize = match count_at(raw, "/tools") {
        Some(n) => n,
        None => return None,
    };
    let mut tools: Vec<ToolRecord> = Vec::new();
    let mut k: usize = 0;
    while k < n
        invariant
            k <= n,
            json_count_at(raw@, "/tools"@) == Some(n),
            tools@.len() == k,
            forall|i: nat| i < k ==> #[trigger] tool_fits(raw@, i),
            forall|i: int| 0 <= i < k ==> is_tool(#[trigger] tools@[i], raw@, i as nat),
        decreases n - k,
    {
        match read_tool(raw, k) {
            Some(tool) => tools.push(tool),
            None => return None,
        }
        k += 1;
    }
    Some(tools)
}

// ---- the whole record ------------------------------------------------------

pub open spec fn usage_fits(raw: Seq<char>) -> bool {
    &&& small(json_int_at(raw, "/usage/inputTokens"@))
    &&& small(json_int_at(raw, "/usage/outputTokens"@))
}

pub open spec fn is_usage(usage: TokenUsage, raw: Seq<char>) -> bool {
    &&& json_int_at(raw, "/usage/inputTokens"@) == Some(usage.input_tokens as i64)
    &&& json_int_at(raw, "/usage/outputTokens"@) == Some(usage.output_tokens as i64)
}

pub open spec fn missing(raw: Seq<char>, at: Seq<char>) -> bool {
    json_written_at(raw, at) is None
}

/// A text has the shape of a record. The decision of the memory gate, the graph,
/// the usage, the interruption and the guard may be left out.
pub open spec fn is_record(raw: Seq<char>) -> bool {
    &&& empty_at(raw, "/gate"@) || gate_fits(raw)
    &&& empty_at(raw, "/graph"@) || graph_fits(raw)
    &&& small(json_int_at(raw, "/iterations"@))
    &&& small(json_int_at(raw, "/latencyMs"@))
    &&& tools_fit(raw)
    &&& json_text_at(raw, "/model"@) is Some
    &&& json_text_at(raw, "/provider"@) is Some
    &&& empty_at(raw, "/usage"@) || usage_fits(raw)
    &&& missing(raw, "/interrupted"@) || json_bool_at(raw, "/interrupted"@) is Some
    &&& missing(raw, "/guardHits"@) || small(json_int_at(raw, "/guardHits"@))
    &&& maybe_text(raw, "/guardNote"@)
    &&& missing(raw, "/retries"@) || small(json_int_at(raw, "/retries"@))
    &&& maybe_text(raw, "/goalStatus"@)
    &&& missing(raw, "/goalRounds"@) || small(json_int_at(raw, "/goalRounds"@))
}

/// What a record counts; where it does not say, there was none.
pub open spec fn counted(raw: Seq<char>, pointer: Seq<char>, n: i32) -> bool {
    if missing(raw, pointer) {
        n == 0
    } else {
        json_int_at(raw, pointer) == Some(n as i64)
    }
}

/// What was measured is what the record says.
pub open spec fn recalls(meta: TurnMeta, raw: Seq<char>) -> bool {
    &&& match meta.gate {
        Some(gate) => !empty_at(raw, "/gate"@) && is_gate(gate, raw),
        None => empty_at(raw, "/gate"@),
    }
    &&& match meta.graph {
        Some(graph) => !empty_at(raw, "/graph"@) && is_graph(graph, raw),
        None => empty_at(raw, "/graph"@),
    }
    &&& json_int_at(raw, "/iterations"@) == Some(meta.iterations as i64)
    &&& json_int_at(raw, "/latencyMs"@) == Some(meta.latency_ms as i64)
    &&& are_tools(meta.tools@, raw)
    &&& Some(meta.model@) == json_text_at(raw, "/model"@)
    &&& Some(meta.provider@) == json_text_at(raw, "/provider"@)
    &&& match meta.usage {
        Some(usage) => !empty_at(raw, "/usage"@) && is_usage(usage, raw),
        None => empty_at(raw, "/usage"@),
    }
    &&& if missing(raw, "/interrupted"@) {
        !meta.interrupted
    } else {
        json_bool_at(raw, "/interrupted"@) == Some(meta.interrupted)
    }
    &&& counted(raw, "/guardHits"@, meta.guard_hits)
    &&& opt_text(meta.guard_note) == text_or_none(raw, "/guardNote"@)
    &&& counted(raw, "/retries"@, meta.retries)
    &&& opt_text(meta.goal_status) == text_or_none(raw, "/goalStatus"@)
    &&& counted(raw, "/goalRounds"@, meta.goal_rounds)
}

/// Reads what a record counts.
fn counted_at(raw: &str, pointer: &str) -> (r: Option<i32>)
    ensures
        match r {
            Some(n) => counted(raw@, pointer@, n) && (missing(raw@, pointer@) || small(
                json_int_at(raw@, pointer@),
            )),
            None => !missing(raw@, pointer@) && !small(json_int_at(raw@, pointer@)),
        },
{
    match written_at(raw, pointer) {
        None => Some(0),
        Some(_) => number_at(raw, pointer),
    }
}

/// Reads a record of a turn. One that cannot be read is no record.
pub fn read_meta(raw: &str) -> (r: Option<TurnMeta>)
    ensures
        match r {
            Some(meta) => is_record(raw@) && recalls(meta, raw@),
            None => !is_record(raw@),
        },
{
    let gate = if is_empty_at(raw, "/gate") {
        None
    } else {
        match read_gate(raw) {
            Some(gate) => Some(gate),
            None => return None,
        }
    };
    let graph = if is_empty_at(raw, "/graph") {
        None
    } else {
        match read_graph(raw) {
            Some(graph) => Some(graph),
            None => return None,
        }
    };
    let usage = if is_empty_at(raw, "/usage") {
        None
    } else {
        match (number_at(raw, "/usage/inputTokens"), number_at(raw, "/usage/outputTokens")) {
            (Some(input_tokens), Some(output_tokens)) => Some(
                TokenUsage { input_tokens, output_tokens },
            ),
            _ => return None,
        }
    };
    let interrupted = match written_at(raw, "/interrupted") {
        None => false,
        Some(_) => match bool_at(raw, "/interrupted") {
            Some(b) => b,
            None => return None,
        },
    };
    let guard_hits: i32 = match counted_at(raw, "/guardHits") {
        Some(n) => n,
        None => return None,
    };
    let retries: i32 = match counted_at(raw, "/retries") {
        Some(n) => n,
        None => return None,
    };
    let goal_status = match text_if_any(raw, "/goalStatus") {
        Some(status) => status,
        None => return None,
    };
    let goal_rounds: i32 = match counted_at(raw, "/goalRounds") {
        Some(n) => n,
        None => return None,
    };
    let guard_note = match text_if_any(raw, "/guardNote") {
        Some(note) => note,
        None => return None,
    };
    match (
        number_at(raw, "/iterations"),
        number_at(raw, "/latencyMs"),
        read_tools(raw),
        text_at(raw, "/model"),
        text_at(raw, "/provider"),
    ) {
        (Some(iterations), Some(latency_ms), Some(tools), Some(model), Some(provider)) => Some(
            TurnMeta {
                gate,
                graph,
                iterations,
                latency_ms,
                tools,
                model,
                provider,
                usage,
                interrupted,
                guard_hits,
                guard_note,
                retries,
                goal_status,
                goal_rounds,
            },
        ),
        _ => None,
    }
}

// ---- what a record gives back ----------------------------------------------

/// What is read of a record is what it says, field by field; what it leaves out is
/// none.
pub proof fn a_record_gives_back_what_it_says(meta: TurnMeta, raw: Seq<char>)
    requires
        recalls(meta, raw),
    ensures
        json_int_at(raw, "/iterations"@) == Some(meta.iterations as i64),
        json_int_at(raw, "/latencyMs"@) == Some(meta.latency_ms as i64),
        json_text_at(raw, "/model"@) == Some(meta.model@),
        json_text_at(raw, "/provider"@) == Some(meta.provider@),
        meta.gate is Some <==> !empty_at(raw, "/gate"@),
        meta.graph is Some <==> !empty_at(raw, "/graph"@),
        meta.usage is Some <==> !empty_at(raw, "/usage"@),
        meta.usage matches Some(u) ==> json_int_at(raw, "/usage/inputTokens"@) == Some(
            u.input_tokens as i64,
        ) && json_int_at(raw, "/usage/outputTokens"@) == Some(u.output_tokens as i64),
        missing(raw, "/interrupted"@) ==> !meta.interrupted,
        !missing(raw, "/interrupted"@) ==> json_bool_at(raw, "/interrupted"@) == Some(
            meta.interrupted,
        ),
        missing(raw, "/guardHits"@) ==> meta.guard_hits == 0,
        missing(raw, "/retries"@) ==> meta.retries == 0,
        missing(raw, "/goalRounds"@) ==> meta.goal_rounds == 0,
        !missing(raw, "/guardHits"@) ==> json_int_at(raw, "/guardHits"@) == Some(
            meta.guard_hits as i64,
        ),
        !missing(raw, "/retries"@) ==> json_int_at(raw, "/retries"@) == Some(meta.retries as i64),
        !missing(raw, "/goalRounds"@) ==> json_int_at(raw, "/goalRounds"@) == Some(
            meta.goal_rounds as i64,
        ),
        meta.guard_note matches Some(n) ==> json_text_at(raw, "/guardNote"@) == Some(n@),
        meta.goal_status matches Some(s) ==> json_text_at(raw, "/goalStatus"@) == Some(s@),
{
}

/// The decision of a record is read by its word.
pub proof fn a_gate_is_read_by_its_word(name: Option<Seq<char>>)
    ensures
        gate_named(name) == Some(GateKind::Retrieve) <==> name == Some("retrieve"@),
        gate_named(name) == Some(GateKind::Skip) <==> name == Some("skip"@),
{
    reveal_strlit("retrieve");
    reveal_strlit("skip");
    assert("retrieve"@.len() == 8 && "skip"@.len() == 4);
}

/// The decision of a record says what was decided, why, and what was looked for.
pub proof fn a_recorded_gate_is_whole(gate: GateDecision, raw: Seq<char>)
    requires
        is_gate(gate, raw),
    ensures
        gate.decision == GateKind::Retrieve <==> json_text_at(raw, "/gate/decision"@) == Some(
            "retrieve"@,
        ),
        json_text_at(raw, "/gate/reason"@) == Some(gate.reason@),
        gate.query matches Some(q) ==> json_text_at(raw, "/gate/query"@) == Some(q@),
        gate.query is None && !empty_at(raw, "/gate/query"@) ==> json_text_at(raw, "/gate/query"@)
            is None,
{
    a_gate_is_read_by_its_word(json_text_at(raw, "/gate/decision"@));
}

/// A text that has no model, no number of iterations or no list of tools is no
/// record.
pub proof fn a_record_needs_its_parts(raw: Seq<char>)
    ensures
        json_text_at(raw, "/model"@) is None ==> !is_record(raw),
        json_text_at(raw, "/provider"@) is None ==> !is_record(raw),
        json_int_at(raw, "/iterations"@) is None ==> !is_record(raw),
        json_int_at(raw, "/latencyMs"@) is None ==> !is_record(raw),
        json_count_at(raw, "/tools"@) is None ==> !is_record(raw),
{
}

/// Every tool of a record is read: its name, how it went, and how long it took where
/// the record says so.
pub proof fn every_recorded_tool_is_read(meta: TurnMeta, raw: Seq<char>, k: int)
    requires
        recalls(meta, raw),
        0 <= k < meta.tools@.len(),
    ensures
        json_count_at(raw, "/tools"@) == Some(meta.tools@.len() as usize),
        ({
            let tool = meta.tools@[k];
            let took = place_of("/tools"@, k as nat, "durationMs"@);
            let status = json_text_at(raw, place_of("/tools"@, k as nat, "status"@));
            &&& json_text_at(raw, place_of("/tools"@, k as nat, "tool"@)) == Some(tool.tool@)
            &&& tool.succeeded <==> status == Some("ok"@)
            &&& !tool.succeeded <==> status == Some("error"@)
            &&& tool.duration_ms is Some <==> !empty_at(raw, took)
            &&& tool.duration_ms matches Some(ms) ==> json_int_at(raw, took) == Some(ms as i64)
        }),
{
    reveal_strlit("ok");
    reveal_strlit("error");
    assert("ok"@.len() == 2 && "error"@.len() == 5);
    assert(is_tool(meta.tools@[k], raw, k as nat));
}

/// The way that a turn took is read of its record whole.
pub proof fn a_recorded_route_is_whole(meta: TurnMeta, raw: Seq<char>)
    requires
        recalls(meta, raw),
        meta.graph is Some,
    ensures
        json_text_at(raw, "/graph/workflow"@) == Some(meta.graph->0.workflow@),
        json_text_at(raw, "/graph/reason"@) == Some(meta.graph->0.reason@),
        views(meta.graph->0.path@) == texts_at(raw, "/graph/path"@),
        meta.graph->0.route == GraphRoute::Quick <==> json_text_at(raw, "/graph/route"@) == Some(
            "quick"@,
        ),
        meta.graph->0.route == GraphRoute::Full <==> json_text_at(raw, "/graph/route"@) == Some(
            "full"@,
        ),
{
    reveal_strlit("quick");
    reveal_strlit("full");
    assert("quick"@.len() == 5 && "full"@.len() == 4);
}

} // verus!
