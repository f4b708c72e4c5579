//! The engine that walks a graph.
//!
//! It works in waves. The caller runs the nodes of a wave side by side, reports
//! what each of them wrote or how it failed, in the order of the wave, and then
//! closes the wave; the engine says which nodes come next.

use vstd::prelude::*;

use crate::agent::{LoopEvent, LoopEventV};
use crate::graph::{
    EdgeV, END, Graph, GraphError, hidden, lemma_texts_insert, merged, Node, node_at, node_views,
    NodeV, NodeWrites, START, State, texts,
};
use crate::json::Json;
use crate::table::{sorted, Table};
use crate::text::{
    decimal, is_among, lemma_occurs, occurs, opt_text, push_decimal, same, signed, starts_with,
    to_signed, views,
};

verus! {

pub open spec fn visits(runs: Map<Seq<char>, i32>, name: Seq<char>) -> int {
    if runs.contains_key(name) {
        runs[name] as int
    } else {
        0
    }
}

/// A node that never ran, and into which every edge has fired: an edge fires
/// from the start at once, and from a node when it is done.
pub open spec fn ready(
    edges: Seq<EdgeV>,
    done: Seq<Seq<char>>,
    runs: Map<Seq<char>, i32>,
    name: Seq<char>,
) -> bool {
    &&& exists|e: int| 0 <= e < edges.len() && (#[trigger] edges[e]).dst == name
    &&& forall|e: int|
        0 <= e < edges.len() && (#[trigger] edges[e]).dst == name ==> edges[e].src == START@
            || done.contains(edges[e].src)
    &&& visits(runs, name) == 0
}

/// The names of the first `k` nodes that are ready, in the order they were added.
pub open spec fn ready_names(
    nodes: Seq<NodeV>,
    edges: Seq<EdgeV>,
    done: Seq<Seq<char>>,
    runs: Map<Seq<char>, i32>,
    k: int,
) -> Seq<Seq<char>>
    decreases k,
{
    if k <= 0 {
        Seq::empty()
    } else {
        let before = ready_names(nodes, edges, done, runs, k - 1);
        if ready(edges, done, runs, nodes[k - 1].name) {
            before.push(nodes[k - 1].name)
        } else {
            before
        }
    }
}

#[verifier::ext_equal]
pub struct SweepV {
    pub wave: Seq<Seq<char>>,
    pub errors: Map<Seq<char>, Seq<char>>,
}

pub open spec fn visits_error(n: int) -> Seq<char> {
    "max_visits="@ + signed(n) + " reached"@
}

/// A candidate joins the wave once, where it is a node that may still be
/// visited. One that may not leaves an error, unless there is one already.
pub open spec fn sweep_step(
    nodes: Seq<NodeV>,
    runs: Map<Seq<char>, i32>,
    st: SweepV,
    name: Seq<char>,
) -> SweepV {
    if name == END@ || st.wave.contains(name) || node_at(nodes, name) is None {
        st
    } else if visits(runs, name) >= node_at(nodes, name)->0.max_visits {
        if st.errors.contains_key(name) {
            st
        } else {
            SweepV {
                wave: st.wave,
                errors: st.errors.insert(name, visits_error(node_at(nodes, name)->0.max_visits)),
            }
        }
    } else {
        SweepV { wave: st.wave.push(name), errors: st.errors }
    }
}

/// The wave that the first `k` candidates make.
pub open spec fn sweep(
    nodes: Seq<NodeV>,
    runs: Map<Seq<char>, i32>,
    errors: Map<Seq<char>, Seq<char>>,
    candidates: Seq<Seq<char>>,
    k: int,
) -> SweepV
    decreases k,
{
    if k <= 0 {
        SweepV { wave: Seq::empty(), errors }
    } else {
        sweep_step(nodes, runs, sweep(nodes, runs, errors, candidates, k - 1), candidates[k - 1])
    }
}

/// Jumps come first, then the nodes that are ready.
pub open spec fn candidates(
    graph: Graph,
    done: Seq<Seq<char>>,
    runs: Map<Seq<char>, i32>,
    jumps: Seq<Seq<char>>,
) -> Seq<Seq<char>> {
    jumps + ready_names(
        graph.node_seq(),
        graph.edge_seq(),
        done,
        runs,
        graph.node_seq().len() as int,
    )
}

pub open spec fn next_sweep(
    graph: Graph,
    done: Seq<Seq<char>>,
    runs: Map<Seq<char>, i32>,
    jumps: Seq<Seq<char>>,
    errors: Map<Seq<char>, Seq<char>>,
) -> SweepV {
    let c = candidates(graph, done, runs, jumps);
    sweep(graph.node_seq(), runs, errors, c, c.len() as int)
}

/// Each name stands once, belongs to a node, and may be visited once more.
pub open spec fn may_run(
    nodes: Seq<NodeV>,
    runs: Map<Seq<char>, i32>,
    wave: Seq<Seq<char>>,
) -> bool {
    &&& wave.no_duplicates()
    &&& forall|i: int|
        0 <= i < wave.len() ==> node_at(nodes, #[trigger] wave[i]) is Some && visits(runs, wave[i])
            < node_at(nodes, wave[i])->0.max_visits
}

pub proof fn lemma_sweep_may_run(
    nodes: Seq<NodeV>,
    runs: Map<Seq<char>, i32>,
    errors: Map<Seq<char>, Seq<char>>,
    candidates: Seq<Seq<char>>,
    k: int,
)
    ensures
        may_run(nodes, runs, sweep(nodes, runs, errors, candidates, k).wave),
    decreases k,
{
    if k > 0 {
        lemma_sweep_may_run(nodes, runs, errors, candidates, k - 1);
        let st = sweep(nodes, runs, errors, candidates, k - 1);
        let next = sweep(nodes, runs, errors, candidates, k);
        let name = candidates[k - 1];
        if next.wave != st.wave {
            assert(next.wave == st.wave.push(name));
            assert forall|i: int| 0 <= i < next.wave.len() implies node_at(
                nodes,
                #[trigger] next.wave[i],
            ) is Some && visits(runs, next.wave[i]) < node_at(nodes, next.wave[i])->0.max_visits by {
                if i < st.wave.len() {
                    assert(next.wave[i] == st.wave[i]);
                }
            }
        }
    }
}

/// An error that is already there is never overwritten when a wave is formed.
pub proof fn a_sweep_keeps_errors(
    nodes: Seq<NodeV>,
    runs: Map<Seq<char>, i32>,
    errors: Map<Seq<char>, Seq<char>>,
    candidates: Seq<Seq<char>>,
    k: int,
    name: Seq<char>,
)
    requires
        errors.contains_key(name),
    ensures
        sweep(nodes, runs, errors, candidates, k).errors.contains_key(name),
        sweep(nodes, runs, errors, candidates, k).errors[name] == errors[name],
    decreases k,
{
    if k > 0 {
        a_sweep_keeps_errors(nodes, runs, errors, candidates, k - 1, name);
    }
}

/// A wave holds every candidate that is a node and may still be visited, and no
/// other name.
pub proof fn a_wave_is_all_that_may_run(
    nodes: Seq<NodeV>,
    runs: Map<Seq<char>, i32>,
    errors: Map<Seq<char>, Seq<char>>,
    candidates: Seq<Seq<char>>,
    name: Seq<char>,
)
    ensures
        sweep(nodes, runs, errors, candidates, candidates.len() as int).wave.contains(name) <==> (
        candidates.contains(name) && name != END@ && node_at(nodes, name) is Some && visits(
            runs,
            name,
        ) < node_at(nodes, name)->0.max_visits),
{
    lemma_sweep_members(nodes, runs, errors, candidates, candidates.len() as int, name);
    assert(candidates.take(candidates.len() as int) =~= candidates);
}

proof fn lemma_sweep_members(
    nodes: Seq<NodeV>,
    runs: Map<Seq<char>, i32>,
    errors: Map<Seq<char>, Seq<char>>,
    candidates: Seq<Seq<char>>,
    k: int,
    name: Seq<char>,
)
    requires
        0 <= k <= candidates.len(),
    ensures
        sweep(nodes, runs, errors, candidates, k).wave.contains(name) <==> (candidates.take(
            k,
        ).contains(name) && name != END@ && node_at(nodes, name) is Some && visits(runs, name)
            < node_at(nodes, name)->0.max_visits),
    decreases k,
{
    if k > 0 {
        lemma_sweep_members(nodes, runs, errors, candidates, k - 1, name);
        let last = candidates[k - 1];
        let before = sweep(nodes, runs, errors, candidates, k - 1).wave;
        let now = sweep(nodes, runs, errors, candidates, k).wave;
        lemma_sweep_members(nodes, runs, errors, candidates, k - 1, last);
        assert(candidates.take(k) =~= candidates.take(k - 1).push(last));
        lemma_pushed(candidates.take(k - 1), last, name);
        lemma_pushed(before, last, name);
    }
}

proof fn lemma_pushed(s: Seq<Seq<char>>, last: Seq<char>, name: Seq<char>)
    ensures
        s.push(last).contains(name) == (s.contains(name) || name == last),
{
    let more = s.push(last);
    if s.contains(name) {
        let i = choose|i: int| 0 <= i < s.len() && s[i] == name;
        assert(more[i] == name);
    }
    if name == last {
        assert(more[s.len() as int] == name);
    }
    if more.contains(name) && name != last {
        let i = choose|i: int| 0 <= i < more.len() && more[i] == name;
        assert(s[i] == name);
    }
}

/// A node that is asked for once too often does not run, and an error says so.
pub proof fn a_refused_visit_is_told(
    nodes: Seq<NodeV>,
    runs: Map<Seq<char>, i32>,
    errors: Map<Seq<char>, Seq<char>>,
    candidates: Seq<Seq<char>>,
    k: int,
    i: int,
)
    requires
        0 <= i < k <= candidates.len(),
        candidates[i] != END@,
        node_at(nodes, candidates[i]) is Some,
        visits(runs, candidates[i]) >= node_at(nodes, candidates[i])->0.max_visits,
    ensures
        !sweep(nodes, runs, errors, candidates, k).wave.contains(candidates[i]),
        sweep(nodes, runs, errors, candidates, k).errors.contains_key(candidates[i]),
    decreases k,
{
    lemma_sweep_members(nodes, runs, errors, candidates, k, candidates[i]);
    if i < k - 1 {
        a_refused_visit_is_told(nodes, runs, errors, candidates, k - 1, i);
    } else {
        lemma_sweep_members(nodes, runs, errors, candidates, k - 1, candidates[i]);
    }
}

/// Two nodes that write different keys may be merged in either order.
pub proof fn the_order_of_a_wave_does_not_matter(
    state: Map<Seq<char>, Json>,
    a: Map<Seq<char>, Json>,
    b: Map<Seq<char>, Json>,
)
    requires
        forall|k: Seq<char>| #[trigger] a.contains_key(k) && b.contains_key(k) ==> hidden(k),
    ensures
        merged(merged(state, a), b) == merged(merged(state, b), a),
{
    assert(merged(merged(state, a), b) =~= merged(merged(state, b), a));
}

proof fn lemma_visits_bounded(nodes: Seq<Node>, name: Seq<char>)
    ensures
        node_at(node_views(nodes), name) is Some ==> node_at(
            node_views(nodes),
            name,
        )->0.max_visits <= i32::MAX,
    decreases nodes.len(),
{
    if nodes.len() > 0 {
        lemma_visits_bounded(nodes.drop_last(), name);
        assert(node_views(nodes).drop_last() =~= node_views(nodes.drop_last()));
        assert(node_views(nodes).last() == nodes.last()@);
    }
}

fn visit_count(runs: &Table<i32>, name: &str) -> (r: i32)
    ensures
        r == visits(runs@, name@),
{
    match runs.get(name) {
        Some(n) => *n,
        None => 0,
    }
}

fn is_ready(graph: &Graph, done: &Vec<String>, runs: &Table<i32>, name: &str) -> (r: bool)
    ensures
        r == ready(graph.edge_seq(), views(done@), runs@, name@),
{
    let ghost edges = graph.edge_seq();
    if visit_count(runs, name) != 0 {
        return false;
    }
    let mut found: bool = false;
    let mut e: usize = 0;
    while e < graph.edges.len()
        invariant
            e <= graph.edges@.len(),
            edges == graph.edge_seq(),
            found == exists|k: int| 0 <= k < e && (#[trigger] edges[k]).dst == name@,
            forall|k: int|
                0 <= k < e && (#[trigger] edges[k]).dst == name@ ==> edges[k].src == START@ || views(
                    done@,
                ).contains(edges[k].src),
        decreases graph.edges@.len() - e,
    {
        assert(edges[e as int] == graph.edges@[e as int]@);
        if same(graph.edges[e].dst.as_str(), name) {
            if !same(graph.edges[e].src.as_str(), START) && !is_among(
                done,
                graph.edges[e].src.as_str(),
            ) {
                return false;
            }
            found = true;
        }
        e += 1;
    }
    found
}

/// Says which nodes come next, and which may not come any more.
pub fn next_wave(
    graph: &Graph,
    done: &Vec<String>,
    runs: &Table<i32>,
    jumps: &Vec<String>,
    errors: &mut Table<String>,
) -> (r: Vec<String>)
    ensures
        ({
            let st = next_sweep(
                *graph,
                views(done@),
                runs@,
                views(jumps@),
                texts(old(errors)@),
            );
            views(r@) == st.wave && texts(final(errors)@) == st.errors
        }),
        may_run(graph.node_seq(), runs@, views(r@)),
{
    let ghost nodes = graph.node_seq();
    let mut names: Vec<String> = Vec::new();
    let mut i: usize = 0;
    assert(views(names@) =~= views(jumps@).take(0));
    while i < jumps.len()
        invariant
            i <= jumps@.len(),
            views(names@) == views(jumps@).take(i as int),
        decreases jumps@.len() - i,
    {
        let ghost before = views(names@);
        names.push(jumps[i].clone());
        assert(views(names@) =~= before.push(views(jumps@)[i as int]));
        i += 1;
        assert(views(names@) =~= views(jumps@).take(i as int));
    }
    assert(views(jumps@).take(i as int) =~= views(jumps@));
    let mut n: usize = 0;
    assert(views(names@) =~= views(jumps@) + ready_names(
        nodes,
        graph.edge_seq(),
        views(done@),
        runs@,
        0,
    ));
    while n < graph.nodes.len()
        invariant
            n <= graph.nodes@.len(),
            nodes == graph.node_seq(),
            views(names@) == views(jumps@) + ready_names(
                nodes,
                graph.edge_seq(),
                views(done@),
                runs@,
                n as int,
            ),
        decreases graph.nodes@.len() - n,
    {
        let ghost before = views(names@);
        assert(nodes[n as int].name == graph.nodes@[n as int].name@);
        if is_ready(graph, done, runs, graph.nodes[n].name.as_str()) {
            names.push(graph.nodes[n].name.clone());
            assert(views(names@) =~= before.push(nodes[n as int].name));
        }
        n += 1;
        assert(views(names@) =~= views(jumps@) + ready_names(
            nodes,
            graph.edge_seq(),
            views(done@),
            runs@,
            n as int,
        ));
    }
    let ghost all = views(names@);
    let ghost start = texts(errors@);
    let mut wave: Vec<String> = Vec::new();
    let mut k: usize = 0;
    assert(views(wave@) =~= Seq::<Seq<char>>::empty());
    while k < names.len()
        invariant
            k <= names@.len(),
            all == views(names@),
            nodes == graph.node_seq(),
            views(wave@) == sweep(nodes, runs@, start, all, k as int).wave,
            texts(errors@) == sweep(nodes, runs@, start, all, k as int).errors,
        decreases names@.len() - k,
    {
        let name = &names[k];
        assert(name@ == all[k as int]);
        let ghost before = views(wave@);
        if !same(name.as_str(), END) && !is_among(&wave, name.as_str()) {
            match graph.find(name.as_str()) {
                None => {},
                Some(at) => {
                    let limit: i32 = graph.nodes[at].max_visits;
                    if visit_count(runs, name.as_str()) >= limit {
                        if !errors.has(name.as_str()) {
                            let mut why = "max_visits=".to_owned();
                            let count = to_signed(limit as i64);
                            why.append(count.as_str());
                            why.append(" reached");
                            proof {
                                lemma_texts_insert(errors@, name@, why);
                            }
                            errors.insert(name.clone(), why);
                        }
                    } else {
                        wave.push(name.clone());
                        assert(views(wave@) =~= before.push(name@));
                    }
                },
            }
        }
        k += 1;
    }
    proof {
        lemma_sweep_may_run(nodes, runs@, start, all, k as int);
    }
    wave
}

/// The errors that a state already carries: the texts of its `errors` object.
pub open spec fn carried(fields: Seq<(String, Json)>) -> Map<Seq<char>, Seq<char>>
    decreases fields.len(),
{
    if fields.len() == 0 {
        Map::empty()
    } else {
        let before = carried(fields.drop_last());
        match fields.last().1 {
            Json::Text(t) => before.insert(fields.last().0@, t@),
            _ => before,
        }
    }
}

pub open spec fn errors_of(state: Map<Seq<char>, Json>) -> Map<Seq<char>, Seq<char>> {
    if state.contains_key("errors"@) && state["errors"@] is Object {
        carried(state["errors"@]->Object_0@)
    } else {
        Map::empty()
    }
}

pub fn existing_errors(state: &State) -> (r: Table<String>)
    ensures
        texts(r@) == errors_of(state@),
{
    let mut out: Table<String> = Table::new();
    assert(texts(out@) =~= Map::<Seq<char>, Seq<char>>::empty());
    match state.get("errors") {
        Some(Json::Object(fields)) => {
            let mut i: usize = 0;
            assert(fields@.take(0) =~= Seq::<(String, Json)>::empty());
            while i < fields.len()
                invariant
                    i <= fields@.len(),
                    texts(out@) == carried(fields@.take(i as int)),
                decreases fields@.len() - i,
            {
                assert(fields@.take(i + 1).drop_last() =~= fields@.take(i as int));
                match &fields[i].1 {
                    Json::Text(t) => {
                        proof {
                            lemma_texts_insert(out@, fields@[i as int].0@, *t);
                        }
                        out.insert(fields[i].0.clone(), t.clone());
                    },
                    _ => {},
                }
                i += 1;
            }
            assert(fields@.take(i as int) =~= fields@);
        },
        _ => {},
    }
    out
}

/// What happens while a workflow runs.
#[derive(Debug, Clone, PartialEq, Eq)]
pub enum GraphEvent {
    Started { workflow: String, nodes: Vec<String> },
    NodeStarted { workflow: String, node: String, visit: i32 },
    NodeEnded { workflow: String, node: String, ms: i64, keys: Vec<String>, error: Option<String> },
    Route { workflow: String, router: String, target: String, reason: String },
    /// Something that a node tells of its own work.
    Inner { node: String, event: LoopEvent },
    Ended { workflow: String, ms: i64, steps: i32, path: Vec<String>, error: Option<String> },
}

#[verifier::ext_equal]
pub enum EventV {
    Started { workflow: Seq<char>, nodes: Seq<Seq<char>> },
    NodeStarted { workflow: Seq<char>, node: Seq<char>, visit: int },
    NodeEnded {
        workflow: Seq<char>,
        node: Seq<char>,
        ms: int,
        keys: Seq<Seq<char>>,
        error: Option<Seq<char>>,
    },
    Route { workflow: Seq<char>, router: Seq<char>, target: Seq<char>, reason: Seq<char> },
    Inner { node: Seq<char>, event: LoopEventV },
    Ended {
        workflow: Seq<char>,
        ms: int,
        steps: int,
        path: Seq<Seq<char>>,
        error: Option<Seq<char>>,
    },
}

impl View for GraphEvent {
    type V = EventV;

    open spec fn view(&self) -> EventV {
        match *self {
            GraphEvent::Started { workflow, nodes } => EventV::Started {
                workflow: workflow@,
                nodes: views(nodes@),
            },
            GraphEvent::NodeStarted { workflow, node, visit } => EventV::NodeStarted {
                workflow: workflow@,
                node: node@,
                visit: visit as int,
            },
            GraphEvent::NodeEnded { workflow, node, ms, keys, error } => EventV::NodeEnded {
                workflow: workflow@,
                node: node@,
                ms: ms as int,
                keys: views(keys@),
                error: opt_text(error),
            },
            GraphEvent::Route { workflow, router, target, reason } => EventV::Route {
                workflow: workflow@,
                router: router@,
                target: target@,
                reason: reason@,
            },
            GraphEvent::Inner { node, event } => EventV::Inner { node: node@, event: event@ },
            GraphEvent::Ended { workflow, ms, steps, path, error } => EventV::Ended {
                workflow: workflow@,
                ms: ms as int,
                steps: steps as int,
                path: views(path@),
                error: opt_text(error),
            },
        }
    }
}

pub open spec fn event_views(events: Seq<GraphEvent>) -> Seq<EventV> {
    events.map_values(|e: GraphEvent| e@)
}

pub open spec fn node_names_of(nodes: Seq<NodeV>) -> Seq<Seq<char>> {
    nodes.map_values(|n: NodeV| n.name)
}

/// The nodes whose start is told, in order.
pub open spec fn started(events: Seq<EventV>) -> Seq<Seq<char>>
    decreases events.len(),
{
    if events.len() == 0 {
        Seq::empty()
    } else {
        let before = started(events.drop_last());
        match events.last() {
            EventV::NodeStarted { node, .. } => before.push(node),
            _ => before,
        }
    }
}

/// The nodes whose end is told, in order.
pub open spec fn ended(events: Seq<EventV>) -> Seq<Seq<char>>
    decreases events.len(),
{
    if events.len() == 0 {
        Seq::empty()
    } else {
        let before = ended(events.drop_last());
        match events.last() {
            EventV::NodeEnded { node, .. } => before.push(node),
            _ => before,
        }
    }
}

/// Told from the start on, and not yet to the end.
pub open spec fn under_way(events: Seq<EventV>) -> bool {
    &&& events.len() > 0
    &&& events[0] is Started
    &&& forall|i: int| 0 <= i < events.len() ==> !((#[trigger] events[i]) is Ended)
    &&& forall|i: int| 0 < i < events.len() ==> !((#[trigger] events[i]) is Started)
}

/// The start of the first `k` nodes of a wave.
pub open spec fn wave_starts(
    workflow: Seq<char>,
    wave: Seq<Seq<char>>,
    runs: Map<Seq<char>, i32>,
    k: int,
) -> Seq<EventV>
    recommends
        0 <= k <= wave.len(),
{
    Seq::new(
        k as nat,
        |i: int| EventV::NodeStarted { workflow, node: wave[i], visit: visits(runs, wave[i]) },
    )
}

proof fn lemma_next_event(events: Seq<EventV>, next: EventV)
    ensures
        started(events.push(next)) == match next {
            EventV::NodeStarted { node, .. } => started(events).push(node),
            _ => started(events),
        },
        ended(events.push(next)) == match next {
            EventV::NodeEnded { node, .. } => ended(events).push(node),
            _ => ended(events),
        },
        under_way(events) && !(next is Started) && !(next is Ended) ==> under_way(events.push(next)),
{
    let more = events.push(next);
    assert(more.drop_last() =~= events);
    if under_way(events) && !(next is Started) && !(next is Ended) {
        assert(more[0] == events[0]);
        assert forall|i: int| 0 <= i < more.len() implies !((#[trigger] more[i]) is Ended) by {
            if i < events.len() {
                assert(more[i] == events[i]);
            }
        }
        assert forall|i: int| 0 < i < more.len() implies !((#[trigger] more[i]) is Started) by {
            if i < events.len() {
                assert(more[i] == events[i]);
            }
        }
    }
}

/// The keys of these pairs that are not hidden.
pub open spec fn open_keys(pairs: Seq<(Seq<char>, Json)>) -> Seq<Seq<char>>
    decreases pairs.len(),
{
    if pairs.len() == 0 {
        Seq::empty()
    } else {
        let before = open_keys(pairs.drop_last());
        if hidden(pairs.last().0) {
            before
        } else {
            before.push(pairs.last().0)
        }
    }
}

fn written_keys(writes: &NodeWrites) -> (r: Vec<String>)
    ensures
        views(r@) == open_keys(writes.pairs()),
{
    let ghost pairs = writes.pairs();
    let mut r: Vec<String> = Vec::new();
    let mut i: usize = 0;
    assert(pairs.take(0) =~= Seq::<(Seq<char>, Json)>::empty());
    assert(views(r@) =~= Seq::<Seq<char>>::empty());
    while i < writes.len()
        invariant
            i <= pairs.len(),
            pairs == writes.pairs(),
            views(r@) == open_keys(pairs.take(i as int)),
        decreases pairs.len() - i,
    {
        let ghost before = views(r@);
        let (key, _) = writes.entry(i);
        assert(pairs.take(i + 1).drop_last() =~= pairs.take(i as int));
        if !starts_with(key.as_str(), "_") {
            r.push(key.clone());
            assert(views(r@) =~= before.push(key@));
        }
        i += 1;
    }
    assert(pairs.take(i as int) =~= pairs);
    r
}

/// `fields` is the errors as a JSON object: a text for each, and nothing else.
pub open spec fn renders(fields: Seq<(String, Json)>, errors: Table<String>) -> bool {
    let pairs = errors.pairs();
    &&& fields.len() == pairs.len()
    &&& forall|i: int|
        0 <= i < fields.len() ==> (#[trigger] fields[i]).0@ == pairs[i].0 && (fields[i].1 matches
            Json::Text(t) && t@ == pairs[i].1@)
}

/// The error of the node whose name stands first in the order of names.
pub open spec fn first_of(errors: Table<String>) -> Option<Seq<char>> {
    if errors.pairs().len() == 0 {
        None
    } else {
        Some(errors.pairs()[0].1@)
    }
}

/// What a run came to.
pub struct RunReport {
    pub state: State,
    pub path: Vec<String>,
    pub errors: Table<String>,
    pub ms: i64,
    pub events: Vec<GraphEvent>,
}

impl RunReport {
    /// The error of the node whose name stands first in the order of names.
    pub fn first_error(&self) -> (r: Option<&str>)
        ensures
            match r {
                Some(e) => first_of(self.errors) == Some(e@),
                None => first_of(self.errors) is None,
            },
    {
        if self.errors.len() == 0 {
            None
        } else {
            let (_, e) = self.errors.entry(0);
            Some(e.as_str())
        }
    }
}

/// A walk under way.
pub struct Engine {
    pub graph: Graph,
    pub state: State,
    /// The nodes that finished without an error and without a router.
    pub done: Vec<String>,
    pub runs: Table<i32>,
    pub path: Vec<String>,
    pub errors: Table<String>,
    pub wave: Vec<String>,
    /// Whether the wave is running; then its first `settled` nodes are reported.
    pub open: bool,
    pub settled: usize,
    /// The router that waits for its label.
    pub routing: Option<String>,
    pub jumps: Vec<String>,
    /// Which node of this wave wrote a key.
    pub writers: Table<String>,
    pub max_steps: usize,
    /// Everything that happened so far.
    pub events: Vec<GraphEvent>,
}

/// How often a name stands in a list.
pub open spec fn times(names: Seq<Seq<char>>, name: Seq<char>) -> nat
    decreases names.len(),
{
    if names.len() == 0 {
        0
    } else {
        times(names.drop_last(), name) + if names.last() == name {
            1nat
        } else {
            0nat
        }
    }
}

proof fn lemma_times_push(names: Seq<Seq<char>>, last: Seq<char>, name: Seq<char>)
    ensures
        times(names.push(last), name) == times(names, name) + if last == name {
            1nat
        } else {
            0nat
        },
{
    assert(names.push(last).drop_last() =~= names);
}

proof fn lemma_times_front(front: Seq<Seq<char>>, rest: Seq<Seq<char>>, name: Seq<char>)
    ensures
        times(front, name) <= times(front + rest, name),
    decreases rest.len(),
{
    if rest.len() == 0 {
        assert(front + rest =~= front);
    } else {
        lemma_times_front(front, rest.drop_last(), name);
        assert((front + rest).drop_last() =~= front + rest.drop_last());
    }
}

/// Every visit that was counted stands in the path, or runs right now.
pub open spec fn accounts(names: Seq<Seq<char>>, runs: Map<Seq<char>, i32>) -> bool {
    forall|name: Seq<char>| #[trigger] visits(runs, name) == times(names, name)
}

/// No node was visited more often than it allows.
pub open spec fn within_visits(nodes: Seq<NodeV>, runs: Map<Seq<char>, i32>) -> bool {
    forall|name: Seq<char>| #[trigger]
        visits(runs, name) > 0 ==> node_at(nodes, name) is Some && visits(runs, name) <= node_at(
            nodes,
            name,
        )->0.max_visits
}

/// The smallest key that another node of the wave wrote as well.
pub open spec fn clash_from(
    keys: Seq<(Seq<char>, Json)>,
    writers: Map<Seq<char>, String>,
    name: Seq<char>,
    i: int,
) -> int
    decreases keys.len() - i,
{
    if i < 0 || i >= keys.len() {
        -1
    } else if !hidden(keys[i].0) && writers.contains_key(keys[i].0) && writers[keys[i].0]@
        != name {
        i
    } else {
        clash_from(keys, writers, name, i + 1)
    }
}

impl Engine {
    pub open spec fn nodes(self) -> Seq<NodeV> {
        self.graph.node_seq()
    }

    pub open spec fn wf(self) -> bool {
        &&& within_visits(self.nodes(), self.runs@)
        &&& self.path@.len() <= self.max_steps
        &&& self.open ==> self.settled <= self.wave@.len() && self.path@.len() + (self.wave@.len()
            - self.settled) <= self.max_steps
        &&& !self.open ==> self.routing is None && may_run(
            self.nodes(),
            self.runs@,
            views(self.wave@),
        )
        &&& self.routing is Some ==> self.open
        &&& under_way(self.told())
        &&& ended(self.told()) == views(self.path@)
        &&& started(self.told()) == views(self.path@) + self.running()
        &&& accounts(views(self.path@) + self.running(), self.runs@)
    }

    pub open spec fn told(self) -> Seq<EventV> {
        event_views(self.events@)
    }

    /// The nodes that run and are not reported yet.
    pub open spec fn running(self) -> Seq<Seq<char>> {
        if self.open {
            views(self.wave@).skip(self.settled as int)
        } else {
            Seq::empty()
        }
    }

    pub open spec fn same_setting(self, other: Engine) -> bool {
        &&& self.graph == other.graph
        &&& self.max_steps == other.max_steps
    }

    pub fn start(graph: Graph, state: State, max_steps: usize) -> (r: Engine)
        ensures
            r.wf(),
            !r.open,
            r.graph == graph,
            r.state == state,
            r.max_steps == max_steps,
            r.path@.len() == 0,
            r.done@.len() == 0,
            r.runs@ == Map::<Seq<char>, i32>::empty(),
            r.told() == seq![
                EventV::Started { workflow: graph.name@, nodes: node_names_of(graph.node_seq()) },
            ],
            ({
                let st = next_sweep(
                    graph,
                    Seq::empty(),
                    Map::empty(),
                    Seq::empty(),
                    errors_of(state@),
                );
                views(r.wave@) == st.wave && texts(r.errors@) == st.errors
            }),
    {
        let mut errors = existing_errors(&state);
        let done: Vec<String> = Vec::new();
        let runs: Table<i32> = Table::new();
        let jumps: Vec<String> = Vec::new();
        assert(views(done@) =~= Seq::<Seq<char>>::empty());
        let wave = next_wave(&graph, &done, &runs, &jumps, &mut errors);
        let mut events: Vec<GraphEvent> = Vec::new();
        let names = graph.node_names();
        assert(views(names@) =~= node_names_of(graph.node_seq()));
        let first = GraphEvent::Started { workflow: graph.name.clone(), nodes: names };
        events.push(first);
        proof {
            let none = Seq::<EventV>::empty();
            assert(event_views(events@) =~= none.push(first@));
            assert(none.push(first@) =~= seq![first@]);
            lemma_next_event(none, first@);
        }
        let ghost path = Seq::<Seq<char>>::empty();
        assert(path + path =~= path);
        let start = Engine {
            graph,
            state,
            done,
            runs,
            path: Vec::new(),
            errors,
            wave,
            open: false,
            settled: 0,
            routing: None,
            jumps,
            writers: Table::new(),
            max_steps,
            events,
        };
        assert(views(start.path@) =~= path);
        start
    }

    /// Opens the wave. `false` means that the walk is over: there is nothing
    /// left to run, or the wave would take too many steps.
    pub fn open_wave(&mut self) -> (r: bool)
        requires
            old(self).wf(),
            !old(self).open,
        ensures
            final(self).wf(),
            final(self).same_setting(*old(self)),
            final(self).state == old(self).state,
            final(self).path == old(self).path,
            final(self).done == old(self).done,
            ({
                let too_long = old(self).path@.len() + old(self).wave@.len() > old(self).max_steps;
                let idle = old(self).wave@.len() == 0;
                &&& r == (!idle && !too_long)
                &&& r ==> final(self).open && final(self).settled == 0
                    && final(self).wave == old(self).wave && final(self).errors == old(self).errors
                    && final(self).jumps@.len() == 0 && final(self).routing is None
                    && final(self).writers@ == Map::<Seq<char>, String>::empty()
                &&& r ==> forall|name: Seq<char>| #[trigger]
                    visits(final(self).runs@, name) == visits(old(self).runs@, name) + (if views(
                        old(self).wave@,
                    ).contains(name) {
                        1int
                    } else {
                        0int
                    })
                &&& r ==> final(self).told() == old(self).told() + wave_starts(
                    old(self).graph.name@,
                    views(old(self).wave@),
                    final(self).runs@,
                    old(self).wave@.len() as int,
                )
                &&& !r ==> !final(self).open && final(self).wave@.len() == 0
                    && final(self).runs == old(self).runs && final(self).told() == old(self).told()
                &&& idle ==> final(self).errors == old(self).errors
                &&& !idle && too_long ==> texts(final(self).errors@) == texts(
                    old(self).errors@,
                ).insert("engine"@, "max_steps="@ + decimal(old(self).max_steps as nat) + " reached"@)
            }),
    {
        if self.wave.len() == 0 {
            return false;
        }
        if self.wave.len() > self.max_steps - self.path.len() {
            let mut why = "max_steps=".to_owned();
            push_decimal(&mut why, self.max_steps as u64);
            why.append(" reached");
            proof {
                lemma_texts_insert(self.errors@, "engine"@, why);
            }
            self.errors.insert("engine".to_owned(), why);
            self.wave.clear();
            assert(views(self.wave@) =~= Seq::<Seq<char>>::empty());
            return false;
        }
        let ghost names = views(self.wave@);
        let ghost nodes = self.nodes();
        let ghost before = self.runs@;
        proof {
            assert forall|name: Seq<char>| node_at(nodes, name) is Some implies (#[trigger] node_at(
                nodes,
                name,
            ))->0.max_visits <= i32::MAX by {
                lemma_visits_bounded(self.graph.nodes@, name);
            }
        }
        let mut runs: Table<i32> = Table::new();
        std::mem::swap(&mut runs, &mut self.runs);
        let mut events: Vec<GraphEvent> = Vec::new();
        std::mem::swap(&mut events, &mut self.events);
        let ghost told = event_views(events@);
        let ghost path = views(self.path@);
        let ghost workflow = self.graph.name@;
        let mut k: usize = 0;
        assert(told + wave_starts(workflow, names, runs@, 0) =~= told);
        assert(path + names.take(0) =~= path);
        assert(path + Seq::<Seq<char>>::empty() =~= path);
        while k < self.wave.len()
            invariant
                k <= self.wave@.len(),
                names == views(self.wave@),
                workflow == self.graph.name@,
                event_views(events@) == told + wave_starts(workflow, names, runs@, k as int),
                under_way(event_views(events@)),
                ended(event_views(events@)) == path,
                started(event_views(events@)) == path + names.take(k as int),
                may_run(nodes, before, names),
                within_visits(nodes, before),
                within_visits(nodes, runs@),
                accounts(path + names.take(k as int), runs@),
                forall|name: Seq<char>| #[trigger]
                    visits(runs@, name) == visits(before, name) + (if names.take(
                        k as int,
                    ).contains(name) {
                        1int
                    } else {
                        0int
                    }),
                forall|name: Seq<char>|
                    node_at(nodes, name) is Some ==> (#[trigger] node_at(nodes, name))->0.max_visits
                        <= i32::MAX,
            decreases self.wave@.len() - k,
        {
            let name = self.wave[k].clone();
            let ghost now = runs@;
            proof {
                assert(name@ == names[k as int]);
                assert(!names.take(k as int).contains(name@)) by {
                    let shorter = names.take(k as int);
                    if shorter.contains(name@) {
                        let j = choose|j: int|
                            0 <= j < shorter.len() && #[trigger] shorter[j] == name@;
                        assert(names[j] == names[k as int]);
                    }
                }
                assert(visits(now, name@) == visits(before, name@));
                assert(node_at(nodes, names[k as int]) is Some);
            }
            let seen: i32 = visit_count(&runs, name.as_str());
            let next = GraphEvent::NodeStarted {
                workflow: self.graph.name.clone(),
                node: name.clone(),
                visit: seen + 1,
            };
            let ghost so_far = event_views(events@);
            events.push(next);
            runs.insert(name, seen + 1);
            k += 1;
            proof {
                assert(event_views(events@) =~= so_far.push(next@));
                lemma_next_event(so_far, next@);
                assert(path + names.take(k as int) =~= (path + names.take(k - 1)).push(name@));
                assert forall|x: Seq<char>| #[trigger]
                    visits(runs@, x) == times(path + names.take(k as int), x) by {
                    assert(visits(now, x) == times(path + names.take(k - 1), x));
                    lemma_times_push(path + names.take(k - 1), name@, x);
                }
                assert(visits(runs@, name@) == seen + 1);
                assert forall|i: int| 0 <= i < k - 1 implies visits(runs@, #[trigger] names[i])
                    == visits(now, names[i]) by {
                    assert(names[i] != names[k - 1]);
                }
                assert(told + wave_starts(workflow, names, runs@, k as int) =~= (told + wave_starts(
                    workflow,
                    names,
                    now,
                    k - 1,
                )).push(next@));
                assert forall|x: Seq<char>| #[trigger]
                    visits(runs@, x) == visits(before, x) + (if names.take(k as int).contains(x) {
                        1int
                    } else {
                        0int
                    }) by {
                    assert(visits(now, x) == visits(before, x) + (if names.take(k - 1).contains(x) {
                        1int
                    } else {
                        0int
                    }));
                    let longer = names.take(k as int);
                    let shorter = names.take(k - 1);
                    assert(longer =~= shorter.push(names[k - 1]));
                    if longer.contains(x) && x != names[k - 1] {
                        let j = choose|j: int| 0 <= j < longer.len() && #[trigger] longer[j] == x;
                        assert(shorter[j] == x);
                    }
                    if shorter.contains(x) {
                        let j = choose|j: int| 0 <= j < shorter.len() && #[trigger] shorter[j] == x;
                        assert(longer[j] == x);
                    }
                    if x == names[k - 1] {
                        assert(longer[k - 1] == x);
                    }
                }
                assert forall|x: Seq<char>| #[trigger] visits(runs@, x) > 0 implies node_at(
                    nodes,
                    x,
                ) is Some && visits(runs@, x) <= node_at(nodes, x)->0.max_visits by {
                    assert(visits(now, x) > 0 || x == name@);
                }
            }
        }
        self.runs = runs;
        self.events = events;
        assert(names.take(k as int) =~= names);
        assert(names.skip(0) =~= names);
        self.open = true;
        self.settled = 0;
        self.routing = None;
        self.jumps = Vec::new();
        self.writers = Table::new();
        true
    }

    /// What a report on the node at hand leaves alone.
    pub open spec fn goes_on(self, before: Engine) -> bool {
        &&& self.same_setting(before)
        &&& self.runs == before.runs
        &&& self.wave == before.wave
        &&& self.open
        &&& self.settled == before.settled + 1
        &&& views(self.path@) == views(before.path@).push(before.wave@[before.settled as int]@)
    }

    /// How the end of the node at hand is told.
    pub open spec fn end_of_node(
        self,
        ms: i64,
        keys: Seq<Seq<char>>,
        error: Option<Seq<char>>,
    ) -> EventV {
        EventV::NodeEnded {
            workflow: self.graph.name@,
            node: self.wave@[self.settled as int]@,
            ms: ms as int,
            keys,
            error,
        }
    }

    proof fn lemma_node_ends(self, end: EventV)
        requires
            self.wf(),
            self.open,
            self.settled < self.wave@.len(),
            end matches EventV::NodeEnded { node, .. } && node == self.wave@[self.settled as int]@,
        ensures
            ({
                let more = self.told().push(end);
                let path = views(self.path@).push(self.wave@[self.settled as int]@);
                &&& under_way(more)
                &&& ended(more) == path
                &&& started(more) == path + views(self.wave@).skip(self.settled + 1)
                &&& accounts(path + views(self.wave@).skip(self.settled + 1), self.runs@)
            }),
    {
        lemma_next_event(self.told(), end);
        let wave = views(self.wave@);
        let at = self.settled as int;
        assert(wave[at] == self.wave@[at]@);
        assert(views(self.path@) + wave.skip(at) =~= views(self.path@).push(wave[at]) + wave.skip(
            at + 1,
        ));
    }

    /// A node of the wave tells of its own work, under its own name.
    pub fn node_told(&mut self, at: usize, event: LoopEvent)
        requires
            old(self).wf(),
            old(self).open,
            old(self).settled <= at < old(self).wave@.len(),
        ensures
            final(self).wf(),
            *final(self) == (Engine { events: final(self).events, ..*old(self) }),
            final(self).told() == old(self).told().push(
                EventV::Inner { node: old(self).wave@[at as int]@, event: event@ },
            ),
    {
        let ghost told = self.told();
        let _count: usize = self.wave.len();
        let next = GraphEvent::Inner { node: self.wave[at].clone(), event };
        self.events.push(next);
        proof {
            assert(self.told() =~= told.push(next@));
            lemma_next_event(told, next@);
        }
    }

    /// The node at hand failed. Nothing fires from it; it may jump elsewhere.
    pub fn node_failed(&mut self, message: String, ms: i64)
        requires
            old(self).wf(),
            old(self).open,
            old(self).routing is None,
            old(self).settled < old(self).wave@.len(),
        ensures
            final(self).wf(),
            final(self).goes_on(*old(self)),
            final(self).routing is None,
            final(self).state == old(self).state,
            final(self).done == old(self).done,
            final(self).writers == old(self).writers,
            ({
                let name = old(self).wave@[old(self).settled as int]@;
                let node = node_at(old(self).nodes(), name);
                &&& texts(final(self).errors@) == texts(old(self).errors@).insert(name, message@)
                &&& final(self).told() == old(self).told().push(
                    old(self).end_of_node(ms, Seq::empty(), Some(message@)),
                )
                &&& views(final(self).jumps@) == match node {
                    Some(NodeV { on_error: Some(to), .. }) => views(old(self).jumps@).push(to),
                    _ => views(old(self).jumps@),
                }
            }),
    {
        let _count: usize = self.wave.len();
        let name = self.wave[self.settled].clone();
        let ghost path = views(self.path@);
        let ghost jumps = views(self.jumps@);
        let ghost told = self.told();
        let keys: Vec<String> = Vec::new();
        let end = GraphEvent::NodeEnded {
            workflow: self.graph.name.clone(),
            node: name.clone(),
            ms,
            keys,
            error: Some(message.clone()),
        };
        proof {
            assert(views(keys@) =~= Seq::<Seq<char>>::empty());
            self.lemma_node_ends(end@);
        }
        self.events.push(end);
        assert(self.told() =~= told.push(end@));
        self.path.push(name.clone());
        assert(views(self.path@) =~= path.push(name@));
        match self.graph.find(name.as_str()) {
            Some(at) => match &self.graph.nodes[at].on_error {
                Some(to) => {
                    self.jumps.push(to.clone());
                    assert(views(self.jumps@) =~= jumps.push(to@));
                },
                None => {},
            },
            None => {},
        }
        proof {
            lemma_texts_insert(self.errors@, name@, message);
        }
        self.errors.insert(name, message);
        self.settled = self.settled + 1;
    }

    /// The node at hand wrote this. `Ok(true)` means that its router is to be
    /// asked for a label next. Two nodes of one wave may not write one key.
    pub fn node_wrote(&mut self, writes: NodeWrites, ms: i64) -> (r: Result<bool, GraphError>)
        requires
            old(self).wf(),
            old(self).open,
            old(self).routing is None,
            old(self).settled < old(self).wave@.len(),
        ensures
            ({
                let name = old(self).wave@[old(self).settled as int]@;
                let clash = clash_from(writes.pairs(), old(self).writers@, name, 0);
                match r {
                    Ok(routed) => {
                        &&& clash < 0
                        &&& final(self).wf()
                        &&& final(self).goes_on(*old(self))
                        &&& final(self).state@ == merged(old(self).state@, writes@)
                        &&& final(self).told() == old(self).told().push(
                            old(self).end_of_node(ms, open_keys(writes.pairs()), None),
                        )
                        &&& final(self).errors == old(self).errors
                        &&& final(self).jumps == old(self).jumps
                        &&& routed == old(self).graph.routers@.contains_key(name)
                        &&& routed ==> final(self).routing is Some && final(self).routing->0@ == name
                            && final(self).done == old(self).done
                        &&& !routed ==> final(self).routing is None && views(final(self).done@)
                            == views(old(self).done@).push(name)
                        &&& forall|k: Seq<char>| #[trigger]
                            final(self).writers@.contains_key(k) == (
                            old(self).writers@.contains_key(k) || (writes@.contains_key(k)
                                && !hidden(k)))
                        &&& forall|k: Seq<char>|
                            writes@.contains_key(k) && !hidden(k) ==> (
                            #[trigger] final(self).writers@[k])@ == name
                        &&& forall|k: Seq<char>|
                            old(self).writers@.contains_key(k) && !(writes@.contains_key(k)
                                && !hidden(k)) ==> #[trigger] final(self).writers@[k]
                                == old(self).writers@[k]
                    },
                    Err(e) => {
                        &&& clash >= 0
                        &&& *final(self) == *old(self)
                        &&& e matches GraphError::Collision { key, nodes }
                        &&& key@ == writes.pairs()[clash].0
                        &&& views(nodes@) == seq![old(self).writers@[key@]@, name]
                    },
                }
            }),
    {
        let _count: usize = self.wave.len();
        let name = self.wave[self.settled].clone();
        let ghost path = views(self.path@);
        let ghost pairs = writes.pairs();
        let ghost first = self.writers@;
        let mut i: usize = 0;
        while i < writes.len()
            invariant
                i <= pairs.len(),
                pairs == writes.pairs(),
                *self == *old(self),
                name@ == old(self).wave@[old(self).settled as int]@,
                first == self.writers@,
                clash_from(pairs, first, name@, 0) == clash_from(pairs, first, name@, i as int),
            decreases pairs.len() - i,
        {
            let (key, _) = writes.entry(i);
            if !starts_with(key.as_str(), "_") {
                match self.writers.get(key.as_str()) {
                    Some(other) => {
                        if !same(other.as_str(), name.as_str()) {
                            let mut nodes: Vec<String> = Vec::new();
                            nodes.push(other.clone());
                            nodes.push(name);
                            assert(views(nodes@) =~= seq![first[key@]@, name@]);
                            return Err(GraphError::Collision { key: key.clone(), nodes });
                        }
                    },
                    None => {},
                }
            }
            i += 1;
        }
        let mut j: usize = 0;
        while j < writes.len()
            invariant
                j <= pairs.len(),
                pairs == writes.pairs(),
                name@ == old(self).wave@[old(self).settled as int]@,
                self.graph == old(self).graph,
                self.state == old(self).state,
                self.done == old(self).done,
                self.runs == old(self).runs,
                self.path == old(self).path,
                self.errors == old(self).errors,
                self.wave == old(self).wave,
                self.open == old(self).open,
                self.settled == old(self).settled,
                self.routing == old(self).routing,
                self.jumps == old(self).jumps,
                self.max_steps == old(self).max_steps,
                self.events == old(self).events,
                first == old(self).writers@,
                forall|k: Seq<char>| #[trigger]
                    self.writers@.contains_key(k) == (first.contains_key(k) || (!hidden(k)
                        && crate::table::has_key(pairs.take(j as int), k))),
                forall|k: Seq<char>|
                    !hidden(k) && crate::table::has_key(pairs.take(j as int), k) ==> (
                    #[trigger] self.writers@[k])@ == name@,
                forall|k: Seq<char>|
                    first.contains_key(k) && !(!hidden(k) && crate::table::has_key(
                        pairs.take(j as int),
                        k,
                    )) ==> #[trigger] self.writers@[k] == first[k],
            decreases pairs.len() - j,
        {
            let (key, _) = writes.entry(j);
            proof {
                assert forall|k: Seq<char>| #[trigger]
                    crate::table::has_key(pairs.take(j + 1), k) == (crate::table::has_key(
                        pairs.take(j as int),
                        k,
                    ) || k == key@) by {
                    lemma_take_key(pairs, j as int, k);
                }
            }
            if !starts_with(key.as_str(), "_") {
                self.writers.insert(key.clone(), name.clone());
            }
            j += 1;
        }
        proof {
            assert(pairs.take(j as int) =~= pairs);
        }
        let keys = written_keys(&writes);
        let end = GraphEvent::NodeEnded {
            workflow: self.graph.name.clone(),
            node: name.clone(),
            ms,
            keys,
            error: None,
        };
        let ghost told = self.told();
        proof {
            old(self).lemma_node_ends(end@);
        }
        self.events.push(end);
        assert(self.told() =~= told.push(end@));
        self.state.merge(writes);
        self.path.push(name.clone());
        assert(views(self.path@) =~= path.push(name@));
        self.settled = self.settled + 1;
        if self.graph.routers.has(name.as_str()) {
            self.routing = Some(name);
            Ok(true)
        } else {
            let ghost done = views(self.done@);
            self.done.push(name);
            assert(views(self.done@) =~= done.push(name@));
            Ok(false)
        }
    }

    /// The router that was asked gave this label. A label leads to a jump, to
    /// the end, or, where the router does not know it, to an error.
    pub fn route(&mut self, label: &str)
        requires
            old(self).wf(),
            old(self).routing is Some,
        ensures
            final(self).wf(),
            final(self).same_setting(*old(self)),
            final(self).routing is None,
            final(self).open,
            final(self).settled == old(self).settled,
            final(self).wave == old(self).wave,
            final(self).runs == old(self).runs,
            final(self).state == old(self).state,
            final(self).done == old(self).done,
            final(self).path == old(self).path,
            final(self).writers == old(self).writers,
            ({
                let name = old(self).routing->0@;
                let target = old(self).graph.target_of(name, label@);
                final(self).told() == old(self).told().push(
                    EventV::Route {
                        workflow: old(self).graph.name@,
                        router: name,
                        target: match target {
                            Some(t) => t,
                            None => END@,
                        },
                        reason: label@,
                    },
                ) && match target {
                    None => texts(final(self).errors@) == texts(old(self).errors@).insert(
                        name,
                        "router returned unknown label '"@ + label@ + "'"@,
                    ) && final(self).jumps == old(self).jumps,
                    Some(target) => final(self).errors == old(self).errors && views(
                        final(self).jumps@,
                    ) == if target == END@ {
                        views(old(self).jumps@)
                    } else {
                        views(old(self).jumps@).push(target)
                    },
                }
            }),
    {
        let ghost jumps = views(self.jumps@);
        let taken = self.routing.take();
        match taken {
            None => {},
            Some(name) => {
                let target: Option<String> = match self.graph.routers.get(name.as_str()) {
                    Some(targets) => match targets.get(label) {
                        Some(t) => Some(t.clone()),
                        None => None,
                    },
                    None => None,
                };
                let shown = match &target {
                    Some(t) => t.clone(),
                    None => END.to_owned(),
                };
                let next = GraphEvent::Route {
                    workflow: self.graph.name.clone(),
                    router: name.clone(),
                    target: shown,
                    reason: label.to_owned(),
                };
                let ghost told = self.told();
                self.events.push(next);
                proof {
                    assert(self.told() =~= told.push(next@));
                    lemma_next_event(told, next@);
                }
                match target {
                    None => {
                        let mut why = "router returned unknown label '".to_owned();
                        why.append(label);
                        why.append("'");
                        proof {
                            lemma_texts_insert(self.errors@, name@, why);
                        }
                        self.errors.insert(name, why);
                    },
                    Some(t) => {
                        if !same(t.as_str(), END) {
                            self.jumps.push(t);
                            assert(views(self.jumps@) =~= jumps.push(t@));
                        }
                    },
                }
            },
        }
    }

    /// Every node of the wave was reported: the next wave is formed.
    pub fn close_wave(&mut self)
        requires
            old(self).wf(),
            old(self).open,
            old(self).routing is None,
            old(self).settled == old(self).wave@.len(),
        ensures
            final(self).wf(),
            final(self).same_setting(*old(self)),
            !final(self).open,
            final(self).state == old(self).state,
            final(self).done == old(self).done,
            final(self).runs == old(self).runs,
            final(self).path == old(self).path,
            final(self).events == old(self).events,
            ({
                let st = next_sweep(
                    old(self).graph,
                    views(old(self).done@),
                    old(self).runs@,
                    views(old(self).jumps@),
                    texts(old(self).errors@),
                );
                views(final(self).wave@) == st.wave && texts(final(self).errors@) == st.errors
            }),
    {
        assert(views(self.wave@).skip(self.settled as int) =~= Seq::<Seq<char>>::empty());
        self.wave = next_wave(
            &self.graph,
            &self.done,
            &self.runs,
            &self.jumps,
            &mut self.errors,
        );
        self.open = false;
    }

    /// The walk is over; the errors go on the blackboard. What was told of it
    /// runs from the start to the end, and every node that started has ended,
    /// in the order of the path.
    pub fn finish(self, ms: i64) -> (r: RunReport)
        requires
            self.wf(),
            !self.open,
            self.path@.len() <= i32::MAX,
        ensures
            r.path@ == self.path@,
            r.errors == self.errors,
            r.ms == ms,
            event_views(r.events@) == self.told().push(
                EventV::Ended {
                    workflow: self.graph.name@,
                    ms: ms as int,
                    steps: self.path@.len() as int,
                    path: views(self.path@),
                    error: first_of(self.errors),
                },
            ),
            started(event_views(r.events@)) == views(r.path@),
            ended(event_views(r.events@)) == views(r.path@),
            accounts(views(r.path@), self.runs@),
            forall|k: Seq<char>| #[trigger]
                r.state@.contains_key(k) == (self.state@.contains_key(k) || k == "errors"@),
            forall|k: Seq<char>|
                self.state@.contains_key(k) && k != "errors"@ ==> #[trigger] r.state@[k]
                    == self.state@[k],
            r.state@["errors"@] is Object,
            renders(r.state@["errors"@]->Object_0@, self.errors),
            carried(r.state@["errors"@]->Object_0@) == texts(self.errors@),
    {
        let mut fields: Vec<(String, Json)> = Vec::new();
        let ghost pairs = self.errors.pairs();
        let mut i: usize = 0;
        let ghost so_far = Map::<Seq<char>, Seq<char>>::empty();
        assert(texts(crate::table::map_of(pairs.take(0))) =~= so_far);
        while i < self.errors.len()
            invariant
                i <= pairs.len(),
                pairs == self.errors.pairs(),
                fields@.len() == i,
                i > 0 ==> sorted(pairs),
                forall|k: int|
                    0 <= k < i ==> (#[trigger] fields@[k]).0@ == pairs[k].0 && (
                    fields@[k].1 matches Json::Text(t) && t@ == pairs[k].1@),
                carried(fields@) == texts(crate::table::map_of(pairs.take(i as int))),
            decreases pairs.len() - i,
        {
            let ghost before = fields@;
            let (key, why) = self.errors.entry(i);
            fields.push((key.clone(), Json::Text(why.clone())));
            assert(fields@.drop_last() =~= before);
            proof {
                lemma_take_map(pairs, i as int);
                lemma_texts_insert(
                    crate::table::map_of(pairs.take(i as int)),
                    pairs[i as int].0,
                    pairs[i as int].1,
                );
            }
            i += 1;
        }
        assert(pairs.take(i as int) =~= pairs);
        let first: Option<String> = if self.errors.len() == 0 {
            None
        } else {
            let (_, e) = self.errors.entry(0);
            Some(e.clone())
        };
        let last = GraphEvent::Ended {
            workflow: self.graph.name.clone(),
            ms,
            steps: self.path.len() as i32,
            path: self.path.clone(),
            error: first,
        };
        let mut events = self.events;
        events.push(last);
        proof {
            assert(event_views(events@) =~= self.told().push(last@));
            lemma_next_event(self.told(), last@);
            assert(views(self.path@) + Seq::<Seq<char>>::empty() =~= views(self.path@));
        }
        let mut state = self.state;
        state.set("errors", Json::Object(fields));
        RunReport { state, path: self.path, errors: self.errors, ms, events }
    }
}

proof fn lemma_take_key<V>(pairs: Seq<(Seq<char>, V)>, at: int, k: Seq<char>)
    requires
        0 <= at < pairs.len(),
    ensures
        crate::table::has_key(pairs.take(at + 1), k) == (crate::table::has_key(pairs.take(at), k)
            || k == pairs[at].0),
{
    let a = pairs.take(at + 1);
    let b = pairs.take(at);
    assert(a[at] == pairs[at]);
    if crate::table::has_key(a, k) {
        let i = choose|i: int| 0 <= i < a.len() && (#[trigger] a[i]).0 == k;
        if i < at {
            assert(b[i] == a[i]);
        }
    }
    if crate::table::has_key(b, k) {
        let i = choose|i: int| 0 <= i < b.len() && (#[trigger] b[i]).0 == k;
        assert(a[i] == b[i]);
    }
}

proof fn lemma_take_map<V>(pairs: Seq<(Seq<char>, V)>, at: int)
    requires
        0 <= at < pairs.len(),
        sorted(pairs),
    ensures
        crate::table::map_of(pairs.take(at + 1)) == crate::table::map_of(pairs.take(at)).insert(
            pairs[at].0,
            pairs[at].1,
        ),
{
    let a = pairs.take(at + 1);
    let b = pairs.take(at);
    assert(sorted(a));
    assert(sorted(b));
    let m = crate::table::map_of(a);
    let n = crate::table::map_of(b).insert(pairs[at].0, pairs[at].1);
    assert forall|k: Seq<char>| #[trigger] m.contains_key(k) == n.contains_key(k) by {
        lemma_take_key(pairs, at, k);
    }
    assert forall|k: Seq<char>| #[trigger] m.contains_key(k) implies m[k] == n[k] by {
        assert(crate::table::has_key(a, k));
        let i = choose|i: int| 0 <= i < a.len() && (#[trigger] a[i]).0 == k;
        crate::table::lemma_map_at(a, i);
        if i < at {
            assert(b[i] == a[i]);
            crate::table::lemma_map_at(b, i);
            assert(crate::table::less(pairs[i].0, pairs[at].0));
            crate::table::keys_are_ordered(pairs[at].0, pairs[at].0, pairs[at].0);
        }
    }
    assert(m =~= n);
}

/// However a graph loops, a walk ends: it takes no more steps than it may, and no
/// node stands in its path more often than it allows. The visits that were counted
/// are those in the path and those that run right now.
pub proof fn every_walk_is_bounded(e: Engine, name: Seq<char>)
    requires
        e.wf(),
    ensures
        e.path@.len() <= e.max_steps,
        visits(e.runs@, name) == times(views(e.path@) + e.running(), name),
        visits(e.runs@, name) > 0 ==> node_at(e.nodes(), name) is Some && visits(e.runs@, name)
            <= node_at(e.nodes(), name)->0.max_visits,
        times(views(e.path@), name) > 0 ==> node_at(e.nodes(), name) is Some && times(
            views(e.path@),
            name,
        ) <= node_at(e.nodes(), name)->0.max_visits,
{
    lemma_times_front(views(e.path@), e.running(), name);
}

// ---- when a node runs ------------------------------------------------------

/// A node waits for all that lead to it: while one of them is neither the start nor
/// done it is not ready, and once it ran it is not ready again by itself.
pub proof fn a_node_waits_for_all_before_it(
    edges: Seq<EdgeV>,
    done: Seq<Seq<char>>,
    runs: Map<Seq<char>, i32>,
    name: Seq<char>,
    e: int,
)
    requires
        0 <= e < edges.len(),
        edges[e].dst == name,
    ensures
        edges[e].src != START@ && !done.contains(edges[e].src) ==> !ready(edges, done, runs, name),
        runs.contains_key(name) && runs[name] != 0 ==> !ready(edges, done, runs, name),
        !runs.contains_key(name) && (forall|k: int|
            0 <= k < edges.len() && (#[trigger] edges[k]).dst == name ==> edges[k].src == START@
                || done.contains(edges[k].src)) ==> ready(edges, done, runs, name),
{
}

/// A node to which nothing leads is never ready.
pub proof fn a_node_without_edges_is_never_ready(
    edges: Seq<EdgeV>,
    done: Seq<Seq<char>>,
    runs: Map<Seq<char>, i32>,
    name: Seq<char>,
)
    requires
        forall|k: int| 0 <= k < edges.len() ==> (#[trigger] edges[k]).dst != name,
    ensures
        !ready(edges, done, runs, name),
{
}

/// Every node that is ready is named, and no other one, in the order in which the
/// nodes were added.
pub proof fn all_that_is_ready_is_named(
    nodes: Seq<NodeV>,
    edges: Seq<EdgeV>,
    done: Seq<Seq<char>>,
    runs: Map<Seq<char>, i32>,
    k: int,
    i: int,
)
    requires
        0 <= i < k <= nodes.len(),
    ensures
        ready_names(nodes, edges, done, runs, k).contains(nodes[i].name) <==> ready(
            edges,
            done,
            runs,
            nodes[i].name,
        ),
        ready_names(nodes, edges, done, runs, i).is_prefix_of(
            ready_names(nodes, edges, done, runs, k),
        ),
{
    lemma_ready_names(nodes, edges, done, runs, k);
    lemma_ready_held(nodes, edges, done, runs, k, i);
    lemma_ready_grow(nodes, edges, done, runs, i, k);
    let all = ready_names(nodes, edges, done, runs, k);
    if all.contains(nodes[i].name) {
        let j = choose|j: int| 0 <= j < all.len() && all[j] == nodes[i].name;
        assert(ready(edges, done, runs, all[j]));
    }
}

proof fn lemma_ready_names(
    nodes: Seq<NodeV>,
    edges: Seq<EdgeV>,
    done: Seq<Seq<char>>,
    runs: Map<Seq<char>, i32>,
    k: int,
)
    ensures
        forall|j: int|
            0 <= j < ready_names(nodes, edges, done, runs, k).len() ==> ready(
                edges,
                done,
                runs,
                #[trigger] ready_names(nodes, edges, done, runs, k)[j],
            ),
    decreases k,
{
    if k > 0 {
        lemma_ready_names(nodes, edges, done, runs, k - 1);
        let before = ready_names(nodes, edges, done, runs, k - 1);
        let now = ready_names(nodes, edges, done, runs, k);
        assert forall|j: int| 0 <= j < now.len() implies ready(
            edges,
            done,
            runs,
            #[trigger] now[j],
        ) by {
            if j < before.len() {
                assert(now[j] == before[j]);
            }
        }
    }
}

proof fn lemma_ready_held(
    nodes: Seq<NodeV>,
    edges: Seq<EdgeV>,
    done: Seq<Seq<char>>,
    runs: Map<Seq<char>, i32>,
    k: int,
    i: int,
)
    requires
        0 <= i < k <= nodes.len(),
    ensures
        ready(edges, done, runs, nodes[i].name) ==> ready_names(
            nodes,
            edges,
            done,
            runs,
            k,
        ).contains(nodes[i].name),
    decreases k,
{
    let before = ready_names(nodes, edges, done, runs, k - 1);
    let now = ready_names(nodes, edges, done, runs, k);
    if ready(edges, done, runs, nodes[i].name) {
        if i == k - 1 {
            assert(now[before.len() as int] == nodes[i].name);
        } else {
            lemma_ready_held(nodes, edges, done, runs, k - 1, i);
            let j = choose|j: int| 0 <= j < before.len() && before[j] == nodes[i].name;
            assert(now[j] == nodes[i].name);
        }
    }
}

proof fn lemma_ready_grow(
    nodes: Seq<NodeV>,
    edges: Seq<EdgeV>,
    done: Seq<Seq<char>>,
    runs: Map<Seq<char>, i32>,
    i: int,
    k: int,
)
    requires
        0 <= i <= k,
    ensures
        ready_names(nodes, edges, done, runs, i).is_prefix_of(
            ready_names(nodes, edges, done, runs, k),
        ),
    decreases k,
{
    let front = ready_names(nodes, edges, done, runs, i);
    let now = ready_names(nodes, edges, done, runs, k);
    if i < k {
        lemma_ready_grow(nodes, edges, done, runs, i, k - 1);
        let before = ready_names(nodes, edges, done, runs, k - 1);
        assert(now.take(front.len() as int) =~= before.take(front.len() as int));
    } else {
        assert(now.take(front.len() as int) =~= front);
    }
}

/// Jumps stand before what is ready, and all of both may join the wave.
pub proof fn jumps_come_first(
    graph: Graph,
    done: Seq<Seq<char>>,
    runs: Map<Seq<char>, i32>,
    jumps: Seq<Seq<char>>,
    i: int,
)
    ensures
        jumps.is_prefix_of(candidates(graph, done, runs, jumps)),
        candidates(graph, done, runs, Seq::empty()) == ready_names(
            graph.node_seq(),
            graph.edge_seq(),
            done,
            runs,
            graph.node_seq().len() as int,
        ),
        candidates(graph, done, runs, jumps).skip(jumps.len() as int) == candidates(
            graph,
            done,
            runs,
            Seq::empty(),
        ),
{
    let all = candidates(graph, done, runs, jumps);
    let rest = candidates(graph, done, runs, Seq::empty());
    let names = ready_names(
        graph.node_seq(),
        graph.edge_seq(),
        done,
        runs,
        graph.node_seq().len() as int,
    );
    assert(all.take(jumps.len() as int) =~= jumps);
    assert(rest =~= names);
    assert(all.skip(jumps.len() as int) =~= rest);
}

/// Visits are counted from none, and each name has a count of its own.
pub proof fn visits_are_counted_by_name(
    runs: Map<Seq<char>, i32>,
    name: Seq<char>,
    n: i32,
    other: Seq<char>,
)
    ensures
        visits(Map::empty(), name) == 0,
        visits(runs.insert(name, n), name) == n,
        other != name ==> visits(runs.insert(name, n), other) == visits(runs, other),
{
}

/// A refusal says how many visits were allowed.
pub proof fn a_refusal_names_the_bound(n: int)
    ensures
        occurs(visits_error(n), signed(n)),
{
    lemma_occurs("max_visits="@, signed(n), " reached"@);
}

/// Two nodes of a wave clash exactly where the one writes a key that the other wrote
/// before it; hidden keys never clash, nor does a node with itself.
pub proof fn a_clash_is_a_key_of_another(
    keys: Seq<(Seq<char>, Json)>,
    writers: Map<Seq<char>, String>,
    name: Seq<char>,
    from: int,
    i: int,
)
    requires
        0 <= from <= i < keys.len(),
    ensures
        ({
            let clash = clash_from(keys, writers, name, from);
            &&& clash >= 0 ==> from <= clash < keys.len() && !hidden(keys[clash].0)
                && writers.contains_key(keys[clash].0) && writers[keys[clash].0]@ != name
            &&& clash < 0 || i < clash ==> hidden(keys[i].0) || !writers.contains_key(keys[i].0)
                || writers[keys[i].0]@ == name
        }),
    decreases keys.len() - from,
{
    let next = clash_from(keys, writers, name, from + 1);
    if hidden(keys[from].0) || !writers.contains_key(keys[from].0) || writers[keys[from].0]@ == name {
        assert(clash_from(keys, writers, name, from) == next);
        if from < i {
            a_clash_is_a_key_of_another(keys, writers, name, from + 1, i);
        } else if from + 1 < keys.len() {
            a_clash_is_a_key_of_another(keys, writers, name, from + 1, from + 1);
        } else {
            assert(next < 0);
        }
    } else {
        assert(clash_from(keys, writers, name, from) == from);
    }
}

/// The keys that are told of a node are all that it wrote, in their order, but for
/// the hidden ones.
pub proof fn every_open_key_is_told(pairs: Seq<(Seq<char>, Json)>, pair: (Seq<char>, Json))
    ensures
        open_keys(Seq::empty()).len() == 0,
        hidden(pair.0) ==> open_keys(pairs.push(pair)) == open_keys(pairs),
        !hidden(pair.0) ==> open_keys(pairs.push(pair)) == open_keys(pairs).push(pair.0),
{
    assert(pairs.push(pair).drop_last() =~= pairs);
}

/// Errors that a state brings along are kept, where they are texts.
pub proof fn errors_are_carried_on(fields: Seq<(String, Json)>, name: String, why: String)
    ensures
        carried(fields.push((name, Json::Text(why)))).contains_key(name@),
        carried(fields.push((name, Json::Text(why))))[name@] == why@,
        carried(fields.push((name, Json::Null))) == carried(fields),
        carried(Seq::empty()) == Map::<Seq<char>, Seq<char>>::empty(),
{
    assert(fields.push((name, Json::Text(why))).drop_last() =~= fields);
    assert(fields.push((name, Json::Null)).drop_last() =~= fields);
}

/// A walk starts with the errors of its state, where that has any.
pub proof fn a_walk_starts_with_the_errors_of_its_state(state: Map<Seq<char>, Json>)
    ensures
        !state.contains_key("errors"@) ==> errors_of(state) == Map::<Seq<char>, Seq<char>>::empty(),
        state.contains_key("errors"@) && state["errors"@] is Object ==> errors_of(state) == carried(
            state["errors"@]->Object_0@,
        ),
{
}

/// The names that started and ended are read off the events, in their order.
pub proof fn events_tell_who_ran(events: Seq<EventV>, event: EventV)
    ensures
        started(Seq::empty()).len() == 0,
        ended(Seq::empty()).len() == 0,
        event matches EventV::NodeStarted { workflow, node, visit } ==> started(events.push(event))
            == started(events).push(node) && ended(events.push(event)) == ended(events),
        event matches EventV::NodeEnded { workflow, node, ms, keys, error } ==> ended(
            events.push(event),
        ) == ended(events).push(node) && started(events.push(event)) == started(events),
        !(event is NodeStarted) && !(event is NodeEnded) ==> started(events.push(event)) == started(
            events,
        ) && ended(events.push(event)) == ended(events),
{
    assert(events.push(event).drop_last() =~= events);
}

/// A wave is told node by node, in its order, each with how often it has run by then.
pub proof fn a_wave_is_told_node_by_node(
    workflow: Seq<char>,
    wave: Seq<Seq<char>>,
    runs: Map<Seq<char>, i32>,
    i: int,
)
    requires
        0 <= i < wave.len(),
    ensures
        wave_starts(workflow, wave, runs, wave.len() as int).len() == wave.len(),
        wave_starts(workflow, wave, runs, wave.len() as int)[i] == (EventV::NodeStarted {
            workflow,
            node: wave[i],
            visit: visits(runs, wave[i]),
        }),
{
}

/// Occurrences are counted one by one.
pub proof fn occurrences_are_counted(names: Seq<Seq<char>>, name: Seq<char>, other: Seq<char>)
    ensures
        times(Seq::empty(), name) == 0,
        times(names.push(name), name) == times(names, name) + 1,
        other != name ==> times(names.push(other), name) == times(names, name),
{
    assert(names.push(name).drop_last() =~= names);
    assert(names.push(other).drop_last() =~= names);
}

/// The error that is told of a walk is the first by name, and none where all went
/// well.
pub proof fn the_first_error_is_told(errors: Table<String>)
    ensures
        errors.pairs().len() == 0 <==> first_of(errors) is None,
        errors.pairs().len() > 0 ==> first_of(errors) == Some(errors.pairs()[0].1@),
{
}

/// The end of a node tells which node it was and what it wrote, or why it failed.
pub proof fn the_end_of_a_node_is_told(
    e: Engine,
    ms: i64,
    keys: Seq<Seq<char>>,
    error: Option<Seq<char>>,
)
    ensures
        e.end_of_node(ms, keys, error) matches EventV::NodeEnded {
            workflow,
            node,
            ms: took,
            keys: wrote,
            error: why,
        } && workflow == e.graph.name@ && node == e.wave@[e.settled as int]@ && took == ms && wrote
            == keys && why == error,
{
}

/// A node that is settled is behind in the wave and last in the path.
pub proof fn a_settled_node_is_last_in_the_path(now: Engine, before: Engine)
    requires
        now.goes_on(before),
    ensures
        now.settled == before.settled + 1,
        now.path@.len() == before.path@.len() + 1,
        now.path@.last()@ == before.wave@[before.settled as int]@,
        views(before.path@).is_prefix_of(views(now.path@)),
        now.wave == before.wave && now.runs == before.runs,
{
    let a = views(before.path@);
    let b = views(now.path@);
    assert(b.len() == now.path@.len());
    assert(a.len() == before.path@.len());
    assert(b[b.len() - 1] == now.path@.last()@);
    assert(b.take(a.len() as int) =~= a);
}

} // verus!
