//! Graphs of named steps, and the engine that walks them wave by wave.
//!
//! A node runs once all edges into it have fired, or when a router or an error
//! jumps to it. Nodes of one wave run side by side and write to disjoint keys.

use vstd::prelude::*;

use crate::json::Json;
use crate::table::{has_key, lemma_map_at, less, map_of, sorted, Table};
use crate::text::{begins, is_among, lemma_occurs, occurs, same, starts_with, views};

verus! {

pub const START: &'static str = "START";

pub const END: &'static str = "END";

pub const DEFAULT_MAX_STEPS: usize = 25;

// ---- the blackboard --------------------------------------------------------

/// What a node writes.
pub type NodeWrites = Table<Json>;

/// The blackboard that nodes read and write.
pub struct State {
    entries: Table<Json>,
}

impl View for State {
    type V = Map<Seq<char>, Json>;

    closed spec fn view(&self) -> Map<Seq<char>, Json> {
        self.entries@
    }
}

/// The map that the members of an object spell; of equal keys the last counts.
pub open spec fn members(fields: Seq<(String, Json)>) -> Map<Seq<char>, Json>
    decreases fields.len(),
{
    if fields.len() == 0 {
        Map::empty()
    } else {
        members(fields.drop_last()).insert(fields.last().0@, fields.last().1)
    }
}

pub open spec fn kind_name(value: Json) -> Seq<char> {
    match value {
        Json::Null => "null"@,
        Json::Bool(_) => "boolean"@,
        Json::Int(_) => "number"@,
        Json::Number(_) => "number"@,
        Json::Text(_) => "string"@,
        Json::List(_) => "array"@,
        Json::Object(_) => "object"@,
    }
}

pub fn kind_of(value: &Json) -> (r: &'static str)
    ensures
        r@ == kind_name(*value),
{
    match value {
        Json::Null => "null",
        Json::Bool(_) => "boolean",
        Json::Int(_) => "number",
        Json::Number(_) => "number",
        Json::Text(_) => "string",
        Json::List(_) => "array",
        Json::Object(_) => "object",
    }
}

/// A key that a node keeps to itself.
pub open spec fn hidden(key: Seq<char>) -> bool {
    begins(key, "_"@)
}

/// What a merge makes visible: every written key that is not hidden.
pub open spec fn merged(old_map: Map<Seq<char>, Json>, writes: Map<Seq<char>, Json>) -> Map<
    Seq<char>,
    Json,
> {
    Map::new(
        |k: Seq<char>| old_map.contains_key(k) || (writes.contains_key(k) && !hidden(k)),
        |k: Seq<char>|
            if writes.contains_key(k) && !hidden(k) {
                writes[k]
            } else {
                old_map[k]
            },
    )
}

impl State {
    pub fn new() -> (r: State)
        ensures
            r@ == Map::<Seq<char>, Json>::empty(),
    {
        State { entries: Table::new() }
    }

    pub fn from_value(value: Json) -> (r: Result<State, String>)
        ensures
            match (value, r) {
                (Json::Object(fields), Ok(s)) => s@ == members(fields@),
                (Json::Object(_), Err(_)) => false,
                (other, Ok(_)) => false,
                (other, Err(why)) => why@ == "state 必须是 JSON 对象，拿到 "@ + kind_name(
                    value,
                ),
            },
    {
        match value {
            Json::Object(fields) => Ok(State { entries: table_of(fields) }),
            other => {
                let mut why = "state 必须是 JSON 对象，拿到 ".to_owned();
                why.append(kind_of(&other));
                Err(why)
            },
        }
    }

    /// The state as an object. `from_value` makes the same state of it again.
    pub fn into_value(self) -> (r: Json)
        ensures
            r is Object,
            members(r->Object_0@) == self@,
    {
        let fields = self.entries.into_entries();
        proof {
            let pairs = self.entries.pairs();
            lemma_members(fields@, pairs);
        }
        Json::Object(fields)
    }

    pub fn get(&self, key: &str) -> (r: Option<&Json>)
        ensures
            match r {
                Some(v) => self@.contains_key(key@) && self@[key@] == *v,
                None => !self@.contains_key(key@),
            },
    {
        self.entries.get(key)
    }

    pub fn has(&self, key: &str) -> (r: bool)
        ensures
            r == self@.contains_key(key@),
    {
        self.entries.has(key)
    }

    pub fn set(&mut self, key: &str, value: Json)
        ensures
            final(self)@ == old(self)@.insert(key@, value),
    {
        self.entries.insert(key.to_owned(), value);
    }

    /// The text under `key`.
    pub open spec fn text_at(&self, key: Seq<char>) -> Option<Seq<char>> {
        if self@.contains_key(key) {
            self@[key].text()
        } else {
            None
        }
    }

    pub open spec fn int_at(&self, key: Seq<char>) -> Option<i64> {
        if self@.contains_key(key) {
            self@[key].whole()
        } else {
            None
        }
    }

    pub fn str(&self, key: &str) -> (r: Option<&str>)
        ensures
            match r {
                Some(t) => self.text_at(key@) == Some(t@),
                None => self.text_at(key@) is None,
            },
    {
        match self.entries.get(key) {
            Some(v) => v.as_str(),
            None => None,
        }
    }

    pub fn i64(&self, key: &str) -> (r: Option<i64>)
        ensures
            r == self.int_at(key@),
    {
        match self.entries.get(key) {
            Some(v) => v.as_i64(),
            None => None,
        }
    }

    /// Takes over what a node wrote, except for its hidden keys.
    pub fn merge(&mut self, writes: NodeWrites)
        ensures
            final(self)@ == merged(old(self)@, writes@),
    {
        let ghost pairs = writes.pairs();
        let ghost before = self@;
        let mut rest = writes.into_entries();
        let ghost all = rest@;
        assert(forall|i: int| 0 <= i < all.len() ==> #[trigger] pairs[i] == (all[i].0@, all[i].1));
        let ghost mut left = all.len() as int;
        while rest.len() > 0
            invariant
                left == rest@.len() <= all.len(),
                rest@ == all.take(left),
                pairs.len() == all.len(),
                sorted(pairs),
                forall|i: int|
                    0 <= i < all.len() ==> #[trigger] pairs[i] == (all[i].0@, all[i].1),
                forall|k: Seq<char>| #[trigger]
                    self@.contains_key(k) == (before.contains_key(k) || (!hidden(k) && has_key(
                        pairs.skip(left),
                        k,
                    ))),
                forall|i: int|
                    left <= i < all.len() && !hidden((#[trigger] pairs[i]).0) ==> self@[pairs[i].0]
                        == pairs[i].1,
                forall|k: Seq<char>|
                    before.contains_key(k) && (hidden(k) || !has_key(pairs.skip(left), k))
                        ==> #[trigger] self@[k] == before[k],
            decreases rest@.len(),
        {
            let ghost old_map = self@;
            let ghost old_left = left;
            let taken = rest.pop();
            match taken {
                None => {},
                Some(pair) => {
                    proof {
                        left = left - 1;
                        assert(rest@ =~= all.take(left));
                        assert(pair == all[left]);
                        assert(pairs[left] == (pair.0@, pair.1));
                        assert forall|k: Seq<char>| #[trigger]
                            has_key(pairs.skip(left), k) == (has_key(pairs.skip(old_left), k) || k
                                == pair.0@) by {
                            lemma_skip_key(pairs, left, k);
                        }
                    }
                    let (key, value) = pair;
                    if !starts_with(key.as_str(), "_") {
                        self.entries.insert(key, value);
                        proof {
                            assert forall|i: int|
                                left <= i < all.len() && !hidden(
                                    (#[trigger] pairs[i]).0,
                                ) implies self@[pairs[i].0] == pairs[i].1 by {
                                if i > left {
                                    assert(less(pairs[left].0, pairs[i].0));
                                    crate::table::keys_are_ordered(
                                        pairs[left].0,
                                        pairs[left].0,
                                        pairs[i].0,
                                    );
                                }
                            }
                        }
                    }
                },
            }
        }
        proof {
            assert(pairs.skip(0) =~= pairs);
            assert(map_of(pairs) == writes@);
            assert forall|k: Seq<char>| #[trigger] self@.contains_key(k) implies self@[k] == merged(
                before,
                writes@,
            )[k] by {
                if !hidden(k) && has_key(pairs, k) {
                    let i = choose|i: int| 0 <= i < pairs.len() && (#[trigger] pairs[i]).0 == k;
                    lemma_map_at(pairs, i);
                }
            }
            assert(self@ =~= merged(before, writes@));
        }
    }

    /// The keys, in order.
    pub fn keys(&self) -> (r: Vec<String>)
        ensures
            forall|k: Seq<char>| #[trigger] self@.contains_key(k) <==> views(r@).contains(k),
            forall|i: int, j: int|
                0 <= i < j < r@.len() ==> less((#[trigger] r@[i])@, (#[trigger] r@[j])@),
    {
        let r = self.entries.keys();
        proof {
            let pairs = self.entries.pairs();
            assert forall|k: Seq<char>| #[trigger] self@.contains_key(k) <==> views(r@).contains(
                k,
            ) by {
                if has_key(pairs, k) {
                    let i = choose|i: int| 0 <= i < pairs.len() && (#[trigger] pairs[i]).0 == k;
                    assert(views(r@)[i] == k);
                }
                if views(r@).contains(k) {
                    let i = choose|i: int| 0 <= i < views(r@).len() && views(r@)[i] == k;
                    assert(r@[i]@ == pairs[i].0);
                }
            }
        }
        r
    }
}

proof fn lemma_skip_key(pairs: Seq<(Seq<char>, Json)>, at: int, k: Seq<char>)
    requires
        0 <= at < pairs.len(),
    ensures
        has_key(pairs.skip(at), k) == (has_key(pairs.skip(at + 1), k) || k == pairs[at].0),
{
    let a = pairs.skip(at);
    let b = pairs.skip(at + 1);
    assert(a[0] == pairs[at]);
    if has_key(a, k) {
        let i = choose|i: int| 0 <= i < a.len() && (#[trigger] a[i]).0 == k;
        if i > 0 {
            assert(b[i - 1] == a[i]);
        }
    }
    if has_key(b, k) {
        let i = choose|i: int| 0 <= i < b.len() && (#[trigger] b[i]).0 == k;
        assert(a[i + 1] == b[i]);
    }
}

proof fn lemma_members(fields: Seq<(String, Json)>, pairs: Seq<(Seq<char>, Json)>)
    requires
        fields.map_values(|e: (String, Json)| (e.0@, e.1)) == pairs,
        sorted(pairs),
    ensures
        members(fields) == map_of(pairs),
    decreases fields.len(),
{
    assert(forall|i: int|
        0 <= i < fields.len() ==> #[trigger] pairs[i] == (fields[i].0@, fields[i].1));
    if fields.len() == 0 {
        assert(map_of(pairs) =~= Map::<Seq<char>, Json>::empty());
    } else {
        let f = fields.drop_last();
        let p = pairs.drop_last();
        assert(f.map_values(|e: (String, Json)| (e.0@, e.1)) =~= p);
        assert(sorted(p));
        lemma_members(f, p);
        let last = pairs.last();
        let n = pairs.len() - 1;
        assert forall|k: Seq<char>| #[trigger]
            has_key(pairs, k) == (has_key(p, k) || k == last.0) by {
            if has_key(pairs, k) {
                let i = choose|i: int| 0 <= i < pairs.len() && (#[trigger] pairs[i]).0 == k;
                if i < n {
                    assert(p[i] == pairs[i]);
                }
            }
            if has_key(p, k) {
                let i = choose|i: int| 0 <= i < p.len() && (#[trigger] p[i]).0 == k;
                assert(pairs[i] == p[i]);
            }
            assert(pairs[n] == last);
        }
        assert forall|k: Seq<char>| #[trigger] map_of(pairs).contains_key(k) implies map_of(
            pairs,
        )[k] == map_of(p).insert(last.0, last.1)[k] by {
            let i = choose|i: int| 0 <= i < pairs.len() && (#[trigger] pairs[i]).0 == k;
            assert(has_key(pairs, k));
            lemma_map_at(pairs, i);
            if i < n {
                assert(p[i] == pairs[i]);
                lemma_map_at(p, i);
                assert(less(pairs[i].0, pairs[n].0));
                crate::table::keys_are_ordered(pairs[n].0, pairs[n].0, pairs[n].0);
            }
        }
        assert(map_of(pairs) =~= map_of(p).insert(last.0, last.1));
    }
}

fn table_of(fields: Vec<(String, Json)>) -> (r: Table<Json>)
    ensures
        r@ == members(fields@),
{
    let ghost all = fields@;
    let mut fields = fields;
    let mut table: Table<Json> = Table::new();
    let mut reversed: Vec<(String, Json)> = Vec::new();
    while fields.len() > 0
        invariant
            fields@.len() + reversed@.len() == all.len(),
            fields@ == all.take(fields@.len() as int),
            forall|i: int|
                0 <= i < reversed@.len() ==> #[trigger] reversed@[i] == all[all.len() - 1 - i],
        decreases fields@.len(),
    {
        match fields.pop() {
            Some(f) => {
                reversed.push(f);
                assert(fields@ =~= all.take(fields@.len() as int));
            },
            None => {},
        }
    }
    assert(all.take(0) =~= Seq::<(String, Json)>::empty());
    while reversed.len() > 0
        invariant
            reversed@.len() <= all.len(),
            forall|i: int|
                0 <= i < reversed@.len() ==> #[trigger] reversed@[i] == all[all.len() - 1 - i],
            table@ == members(all.take(all.len() - reversed@.len())),
        decreases reversed@.len(),
    {
        let ghost done = all.len() - reversed@.len();
        match reversed.pop() {
            Some(f) => {
                assert(f == all[done]);
                assert(all.take(done + 1).drop_last() =~= all.take(done));
                table.insert(f.0, f.1);
            },
            None => {},
        }
    }
    assert(all.take(all.len() as int) =~= all);
    table
}

// ---- building a graph ------------------------------------------------------

#[derive(Debug, Clone, PartialEq, Eq)]
pub struct Node {
    pub name: String,
    pub kind: String,
    pub max_visits: i32,
    pub on_error: Option<String>,
}

#[verifier::ext_equal]
pub struct NodeV {
    pub name: Seq<char>,
    pub kind: Seq<char>,
    pub max_visits: int,
    pub on_error: Option<Seq<char>>,
}

impl View for Node {
    type V = NodeV;

    open spec fn view(&self) -> NodeV {
        NodeV {
            name: self.name@,
            kind: self.kind@,
            max_visits: self.max_visits as int,
            on_error: match self.on_error {
                Some(n) => Some(n@),
                None => None,
            },
        }
    }
}

pub open spec fn plain_node(name: Seq<char>, kind: Seq<char>) -> NodeV {
    NodeV { name, kind, max_visits: 1, on_error: None }
}

impl Node {
    /// A node that runs once.
    pub fn new(name: &str, kind: &str) -> (r: Node)
        ensures
            r@ == plain_node(name@, kind@),
    {
        Node { name: name.to_owned(), kind: kind.to_owned(), max_visits: 1, on_error: None }
    }

    pub fn max_visits(self, visits: i32) -> (r: Node)
        ensures
            r@ == (NodeV { max_visits: visits as int, ..self@ }),
    {
        let mut node = self;
        node.max_visits = visits;
        node
    }

    pub fn on_error(self, node: &str) -> (r: Node)
        ensures
            r@ == (NodeV { on_error: Some(node@), ..self@ }),
    {
        let mut me = self;
        me.on_error = Some(node.to_owned());
        me
    }
}

#[derive(Debug, Clone, PartialEq, Eq)]
pub struct Edge {
    pub src: String,
    pub dst: String,
}

#[verifier::ext_equal]
pub struct EdgeV {
    pub src: Seq<char>,
    pub dst: Seq<char>,
}

impl View for Edge {
    type V = EdgeV;

    open spec fn view(&self) -> EdgeV {
        EdgeV { src: self.src@, dst: self.dst@ }
    }
}

#[derive(Debug, Clone, PartialEq, Eq)]
pub struct TopologyEdge {
    pub src: String,
    pub dst: String,
    pub conditional: bool,
}

#[verifier::ext_equal]
pub struct LinkV {
    pub src: Seq<char>,
    pub dst: Seq<char>,
    pub conditional: bool,
}

impl View for TopologyEdge {
    type V = LinkV;

    open spec fn view(&self) -> LinkV {
        LinkV { src: self.src@, dst: self.dst@, conditional: self.conditional }
    }
}

#[derive(Debug, Clone, PartialEq, Eq)]
pub struct TopologyNode {
    pub name: String,
    pub kind: String,
}

#[derive(Debug, Clone, PartialEq, Eq)]
pub struct Topology {
    pub name: String,
    pub nodes: Vec<TopologyNode>,
    pub edges: Vec<TopologyEdge>,
}

#[derive(Debug, Clone, PartialEq, Eq)]
pub enum GraphError {
    Reserved { name: String },
    UnknownNode { name: String },
    UnknownRouterTarget { label: String, target: String },
    Collision { key: String, nodes: Vec<String> },
}

pub open spec fn or_mark(names: Seq<String>, i: int) -> Seq<char> {
    if i < names.len() {
        names[i]@
    } else {
        "?"@
    }
}

impl GraphError {
    pub open spec fn text(self) -> Seq<char> {
        match self {
            GraphError::Reserved { name } => "'"@ + name@ + "' 是保留名"@,
            GraphError::UnknownNode { name } => "未知节点 '"@ + name@ + "'"@,
            GraphError::UnknownRouterTarget { label, target } => "路由目标 '"@ + target@
                + "'（标签 '"@ + label@ + "'）未知"@,
            GraphError::Collision { key, nodes } => "'"@ + or_mark(nodes@, 0) + "' 和 '"@
                + or_mark(nodes@, 1) + "' 都写了 '"@ + key@
                + "' —— 并行分支必须写不相交的键"@,
        }
    }

    pub fn message(&self) -> (r: String)
        ensures
            r@ == self.text(),
    {
        match self {
            GraphError::Reserved { name } => {
                let mut t = "'".to_owned();
                t.append(name.as_str());
                t.append("' 是保留名");
                t
            },
            GraphError::UnknownNode { name } => {
                let mut t = "未知节点 '".to_owned();
                t.append(name.as_str());
                t.append("'");
                t
            },
            GraphError::UnknownRouterTarget { label, target } => {
                let mut t = "路由目标 '".to_owned();
                t.append(target.as_str());
                t.append("'（标签 '");
                t.append(label.as_str());
                t.append("'）未知");
                t
            },
            GraphError::Collision { key, nodes } => {
                let mut t = "'".to_owned();
                if nodes.len() > 0 {
                    t.append(nodes[0].as_str());
                } else {
                    t.append("?");
                }
                t.append("' 和 '");
                if nodes.len() > 1 {
                    t.append(nodes[1].as_str());
                } else {
                    t.append("?");
                }
                t.append("' 都写了 '");
                t.append(key.as_str());
                t.append("' —— 并行分支必须写不相交的键");
                t
            },
        }
    }
}

pub open spec fn link_views(links: Seq<TopologyEdge>) -> Seq<LinkV> {
    links.map_values(|l: TopologyEdge| l@)
}

pub open spec fn plain_links(edges: Seq<EdgeV>) -> Seq<LinkV> {
    edges.map_values(|e: EdgeV| LinkV { src: e.src, dst: e.dst, conditional: false })
}

/// Conditional edges from `src` to each of `targets`.
pub open spec fn fan(src: Seq<char>, targets: Seq<Seq<char>>) -> Seq<LinkV> {
    targets.map_values(|t: Seq<char>| LinkV { src, dst: t, conditional: true })
}

/// The targets of the first `n` labels, each once, in the order of the labels.
pub open spec fn distinct(pairs: Seq<(Seq<char>, String)>, n: int) -> Seq<Seq<char>>
    decreases n,
{
    if n <= 0 {
        Seq::empty()
    } else {
        let before = distinct(pairs, n - 1);
        if before.contains(pairs[n - 1].1@) {
            before
        } else {
            before.push(pairs[n - 1].1@)
        }
    }
}

/// The conditional edges of the first `k` routers.
pub open spec fn router_links(pairs: Seq<(Seq<char>, Table<String>)>, k: int) -> Seq<LinkV>
    decreases k,
{
    if k <= 0 {
        Seq::empty()
    } else {
        let table = pairs[k - 1].1.pairs();
        router_links(pairs, k - 1) + fan(pairs[k - 1].0, distinct(table, table.len() as int))
    }
}

fn distinct_targets(table: &Table<String>) -> (r: Vec<String>)
    ensures
        views(r@) == distinct(table.pairs(), table.pairs().len() as int),
{
    let ghost pairs = table.pairs();
    let mut r: Vec<String> = Vec::new();
    let mut i: usize = 0;
    assert(views(r@) =~= Seq::<Seq<char>>::empty());
    while i < table.len()
        invariant
            i <= pairs.len(),
            pairs == table.pairs(),
            views(r@) == distinct(pairs, i as int),
        decreases pairs.len() - i,
    {
        let (_, target) = table.entry(i);
        let ghost before = views(r@);
        if !is_among(&r, target.as_str()) {
            r.push(target.clone());
            assert(views(r@) =~= before.push(target@));
        }
        i += 1;
    }
    r
}

pub struct Graph {
    pub name: String,
    pub nodes: Vec<Node>,
    pub edges: Vec<Edge>,
    pub routers: Table<Table<String>>,
}

pub open spec fn node_views(nodes: Seq<Node>) -> Seq<NodeV> {
    nodes.map_values(|n: Node| n@)
}

pub open spec fn edge_views(edges: Seq<Edge>) -> Seq<EdgeV> {
    edges.map_values(|e: Edge| e@)
}

/// The node of this name that was added last.
pub open spec fn node_at(nodes: Seq<NodeV>, name: Seq<char>) -> Option<NodeV>
    decreases nodes.len(),
{
    if nodes.len() == 0 {
        None
    } else if nodes.last().name == name {
        Some(nodes.last())
    } else {
        node_at(nodes.drop_last(), name)
    }
}

/// A node that was added is known by its name.
pub proof fn lemma_node_known(nodes: Seq<NodeV>, i: int)
    requires
        0 <= i < nodes.len(),
    ensures
        node_at(nodes, nodes[i].name) is Some,
    decreases nodes.len(),
{
    if nodes.last().name != nodes[i].name {
        assert(nodes.drop_last()[i] == nodes[i]);
        lemma_node_known(nodes.drop_last(), i);
    }
}

/// The targets that labels lead to; of equal labels the last counts.
pub open spec fn target_map(targets: Seq<(String, String)>) -> Map<Seq<char>, Seq<char>>
    decreases targets.len(),
{
    if targets.len() == 0 {
        Map::empty()
    } else {
        target_map(targets.drop_last()).insert(targets.last().0@, targets.last().1@)
    }
}

/// A map of strings by their contents.
pub open spec fn texts(m: Map<Seq<char>, String>) -> Map<Seq<char>, Seq<char>> {
    Map::new(|k: Seq<char>| m.contains_key(k), |k: Seq<char>| m[k]@)
}

pub proof fn lemma_texts_insert(m: Map<Seq<char>, String>, k: Seq<char>, v: String)
    ensures
        texts(m.insert(k, v)) == texts(m).insert(k, v@),
{
    assert(texts(m.insert(k, v)) =~= texts(m).insert(k, v@));
}

/// The edges from the start to these nodes.
pub open spec fn start_edges(nodes: Seq<String>) -> Seq<EdgeV> {
    nodes.map_values(|n: String| EdgeV { src: START@, dst: n@ })
}

impl Graph {
    pub open spec fn node_seq(self) -> Seq<NodeV> {
        node_views(self.nodes@)
    }

    pub open spec fn edge_seq(self) -> Seq<EdgeV> {
        edge_views(self.edges@)
    }

    pub open spec fn knows(self, name: Seq<char>) -> bool {
        node_at(self.node_seq(), name) is Some
    }

    /// Where `label` leads from the router at `name`.
    pub open spec fn target_of(self, name: Seq<char>, label: Seq<char>) -> Option<Seq<char>> {
        if self.routers@.contains_key(name) && self.routers@[name]@.contains_key(label) {
            Some(self.routers@[name]@[label]@)
        } else {
            None
        }
    }

    pub fn new(name: &str) -> (r: Graph)
        ensures
            r.name@ == name@,
            r.node_seq() == Seq::<NodeV>::empty(),
            r.edge_seq() == Seq::<EdgeV>::empty(),
            r.routers@ == Map::<Seq<char>, Table<String>>::empty(),
            r.routers.pairs().len() == 0,
    {
        let r = Graph {
            name: name.to_owned(),
            nodes: Vec::new(),
            edges: Vec::new(),
            routers: Table::new(),
        };
        assert(r.node_seq() =~= Seq::<NodeV>::empty());
        assert(r.edge_seq() =~= Seq::<EdgeV>::empty());
        r
    }

    pub fn name(&self) -> (r: &str)
        ensures
            r@ == self.name@,
    {
        self.name.as_str()
    }

    /// The index of the node of this name that was added last.
    pub fn find(&self, name: &str) -> (r: Option<usize>)
        ensures
            match r {
                Some(i) => i < self.nodes@.len() && node_at(self.node_seq(), name@) == Some(
                    self.nodes@[i as int]@,
                ),
                None => !self.knows(name@),
            },
    {
        let ghost all = self.node_seq();
        let mut i: usize = self.nodes.len();
        assert(all.take(all.len() as int) =~= all);
        while i > 0
            invariant
                i <= self.nodes@.len(),
                all == self.node_seq(),
                node_at(all, name@) == node_at(all.take(i as int), name@),
            decreases i,
        {
            assert(all.take(i as int).drop_last() =~= all.take(i - 1));
            if same(self.nodes[i - 1].name.as_str(), name) {
                return Some(i - 1);
            }
            i -= 1;
        }
        None
    }

    pub fn has(&self, name: &str) -> (r: bool)
        ensures
            r == self.knows(name@),
    {
        match self.find(name) {
            Some(_) => true,
            None => false,
        }
    }

    pub fn add_node(&mut self, node: Node) -> (r: Result<(), GraphError>)
        ensures
            ({
                let reserved = node.name@ == START@ || node.name@ == END@;
                match r {
                    Ok(_) => !reserved && final(self).node_seq() == old(self).node_seq().push(node@)
                        && final(self).edges == old(self).edges
                        && final(self).routers == old(self).routers
                        && final(self).name == old(self).name,
                    Err(e) => reserved && *final(self) == *old(self) && (e matches GraphError::Reserved {
                        name,
                    } && name@ == node.name@),
                }
            }),
    {
        if same(node.name.as_str(), START) || same(node.name.as_str(), END) {
            return Err(GraphError::Reserved { name: node.name });
        }
        let ghost before = self.node_seq();
        self.nodes.push(node);
        assert(self.node_seq() =~= before.push(node@));
        Ok(())
    }

    pub open spec fn end_point(self, name: Seq<char>) -> bool {
        self.knows(name) || name == START@ || name == END@
    }

    fn is_end_point(&self, name: &str) -> (r: bool)
        ensures
            r == self.end_point(name@),
    {
        self.has(name) || same(name, START) || same(name, END)
    }

    pub fn add_edge(&mut self, src: &str, dst: &str) -> (r: Result<(), GraphError>)
        ensures
            match r {
                Ok(_) => old(self).end_point(src@) && old(self).end_point(dst@)
                    && final(self).edge_seq() == old(self).edge_seq().push(EdgeV { src: src@, dst: dst@ })
                    && final(self).nodes == old(self).nodes
                    && final(self).routers == old(self).routers
                    && final(self).name == old(self).name,
                Err(e) => {
                    let unknown = if !old(self).end_point(src@) {
                        src@
                    } else {
                        dst@
                    };
                    &&& !old(self).end_point(src@) || !old(self).end_point(dst@)
                    &&& *final(self) == *old(self)
                    &&& e matches GraphError::UnknownNode { name }
                    &&& name@ == unknown
                },
            },
    {
        if !self.is_end_point(src) {
            return Err(GraphError::UnknownNode { name: src.to_owned() });
        }
        if !self.is_end_point(dst) {
            return Err(GraphError::UnknownNode { name: dst.to_owned() });
        }
        let ghost before = self.edge_seq();
        let edge = Edge { src: src.to_owned(), dst: dst.to_owned() };
        self.edges.push(edge);
        assert(self.edge_seq() =~= before.push(EdgeV { src: src@, dst: dst@ }));
        Ok(())
    }

    /// The first target that is neither a node nor the end.
    pub open spec fn bad_target(self, targets: Seq<(String, String)>, i: int) -> int
        decreases targets.len() - i,
    {
        if i < 0 || i >= targets.len() {
            -1
        } else if !self.knows(targets[i].1@) && targets[i].1@ != END@ {
            i
        } else {
            self.bad_target(targets, i + 1)
        }
    }

    /// A router takes the place of the edges out of `src`: it is asked for a
    /// label once `src` is done, and the label leads to a target.
    pub fn add_router(&mut self, src: &str, targets: Vec<(String, String)>) -> (r: Result<
        (),
        GraphError,
    >)
        ensures
            ({
                let bad = old(self).bad_target(targets@, 0);
                match r {
                    Ok(_) => {
                        &&& old(self).knows(src@)
                        &&& bad < 0
                        &&& final(self).nodes == old(self).nodes
                        &&& final(self).edges == old(self).edges
                        &&& final(self).name == old(self).name
                        &&& final(self).routers@.contains_key(src@)
                        &&& texts(final(self).routers@[src@]@) == target_map(targets@)
                        &&& final(self).routers@ == old(self).routers@.insert(
                            src@,
                            final(self).routers@[src@],
                        )
                    },
                    Err(e) => {
                        &&& *final(self) == *old(self)
                        &&& !old(self).knows(src@) ==> (e matches GraphError::UnknownNode { name }
                            && name@ == src@)
                        &&& old(self).knows(src@) ==> bad >= 0 && (e matches GraphError::UnknownRouterTarget {
                            label,
                            target,
                        } && label@ == targets@[bad].0@ && target@ == targets@[bad].1@)
                    },
                }
            }),
    {
        if !self.has(src) {
            return Err(GraphError::UnknownNode { name: src.to_owned() });
        }
        let mut map: Table<String> = Table::new();
        let mut i: usize = 0;
        assert(targets@.take(0) =~= Seq::<(String, String)>::empty());
        assert(texts(map@) =~= Map::<Seq<char>, Seq<char>>::empty());
        while i < targets.len()
            invariant
                i <= targets@.len(),
                *self == *old(self),
                self.knows(src@),
                self.bad_target(targets@, i as int) == self.bad_target(targets@, 0),
                texts(map@) == target_map(targets@.take(i as int)),
            decreases targets@.len() - i,
        {
            let label = &targets[i].0;
            let dst = &targets[i].1;
            if !self.has(dst.as_str()) && !same(dst.as_str(), END) {
                return Err(
                    GraphError::UnknownRouterTarget { label: label.clone(), target: dst.clone() },
                );
            }
            assert(targets@.take(i + 1).drop_last() =~= targets@.take(i as int));
            proof {
                lemma_texts_insert(map@, label@, *dst);
            }
            map.insert(label.clone(), dst.clone());
            i += 1;
        }
        assert(targets@.take(i as int) =~= targets@);
        self.routers.insert(src.to_owned(), map);
        Ok(())
    }

    /// The first of the names from `i` on that no edge can lead to.
    pub open spec fn bad_entry(self, nodes: Seq<String>, i: int) -> int
        decreases nodes.len() - i,
    {
        if i < 0 || i >= nodes.len() {
            -1
        } else if !self.end_point(nodes[i]@) {
            i
        } else {
            self.bad_entry(nodes, i + 1)
        }
    }

    /// Lets the walk begin at these nodes. Where one of them is unknown, the walk
    /// begins at those before it.
    pub fn entry(&mut self, nodes: &Vec<String>) -> (r: Result<(), GraphError>)
        ensures
            final(self).nodes == old(self).nodes,
            final(self).routers == old(self).routers,
            final(self).name == old(self).name,
            r is Ok <==> forall|i: int|
                0 <= i < nodes@.len() ==> old(self).end_point((#[trigger] nodes@[i])@),
            ({
                let bad = old(self).bad_entry(nodes@, 0);
                match r {
                    Ok(_) => bad < 0 && final(self).edge_seq() == old(self).edge_seq()
                        + start_edges(nodes@),
                    Err(e) => {
                        &&& 0 <= bad < nodes@.len()
                        &&& e matches GraphError::UnknownNode { name } && name@ == nodes@[bad]@
                        &&& final(self).edge_seq() == old(self).edge_seq() + start_edges(
                            nodes@.take(bad),
                        )
                    },
                }
            }),
    {
        let mut i: usize = 0;
        let ghost before = self.edge_seq();
        assert(before + start_edges(nodes@.take(0)) =~= before);
        while i < nodes.len()
            invariant
                i <= nodes@.len(),
                self.nodes == old(self).nodes,
                self.routers == old(self).routers,
                self.name == old(self).name,
                forall|k: int| 0 <= k < i ==> old(self).end_point((#[trigger] nodes@[k])@),
                old(self).bad_entry(nodes@, 0) == old(self).bad_entry(nodes@, i as int),
                before == old(self).edge_seq(),
                self.edge_seq() == before + start_edges(nodes@.take(i as int)),
            decreases nodes@.len() - i,
        {
            match self.add_edge(START, nodes[i].as_str()) {
                Ok(_) => {},
                Err(e) => {
                    assert(!old(self).end_point(nodes@[i as int]@));
                    assert(old(self).bad_entry(nodes@, i as int) == i);
                    return Err(e);
                },
            }
            i += 1;
            assert(self.edge_seq() =~= before + start_edges(nodes@.take(i as int)));
        }
        assert(nodes@.take(i as int) =~= nodes@);
        Ok(())
    }

    /// The graph with one more plain node.
    pub fn with_node(self, name: &str, kind: &str) -> (r: Graph)
        requires
            name@ != START@,
            name@ != END@,
        ensures
            r.node_seq() == self.node_seq().push(plain_node(name@, kind@)),
            r.edges == self.edges,
            r.routers == self.routers,
            r.name == self.name,
    {
        let mut g = self;
        let _ = g.add_node(Node::new(name, kind));
        g
    }

    /// The graph with one more edge.
    pub fn with_edge(self, src: &str, dst: &str) -> (r: Graph)
        requires
            self.end_point(src@),
            self.end_point(dst@),
        ensures
            r.edge_seq() == self.edge_seq().push(EdgeV { src: src@, dst: dst@ }),
            r.nodes == self.nodes,
            r.routers == self.routers,
            r.name == self.name,
    {
        let mut g = self;
        let _ = g.add_edge(src, dst);
        g
    }

    /// The drawing shows the nodes and the edges, then a conditional edge for
    /// each distinct target of each router.
    pub open spec fn is_drawn(self, t: Topology) -> bool {
        &&& t.name@ == self.name@
        &&& t.nodes@.len() == self.nodes@.len()
        &&& forall|i: int|
            0 <= i < t.nodes@.len() ==> (#[trigger] t.nodes@[i]).name@ == self.nodes@[i].name@
                && t.nodes@[i].kind@ == self.nodes@[i].kind@
        &&& link_views(t.edges@) == plain_links(self.edge_seq()) + router_links(
            self.routers.pairs(),
            self.routers.pairs().len() as int,
        )
    }

    /// The graph as a drawing.
    pub fn describe(&self) -> (r: Topology)
        ensures
            self.is_drawn(r),
    {
        let mut nodes: Vec<TopologyNode> = Vec::new();
        let mut i: usize = 0;
        while i < self.nodes.len()
            invariant
                i <= self.nodes@.len(),
                nodes@.len() == i,
                forall|k: int|
                    0 <= k < i ==> (#[trigger] nodes@[k]).name@ == self.nodes@[k].name@
                        && nodes@[k].kind@ == self.nodes@[k].kind@,
            decreases self.nodes@.len() - i,
        {
            nodes.push(
                TopologyNode { name: self.nodes[i].name.clone(), kind: self.nodes[i].kind.clone() },
            );
            i += 1;
        }
        let mut edges: Vec<TopologyEdge> = Vec::new();
        let mut e: usize = 0;
        let ghost plain = plain_links(self.edge_seq());
        assert(link_views(edges@) =~= plain.take(0));
        while e < self.edges.len()
            invariant
                e <= self.edges@.len(),
                plain == plain_links(self.edge_seq()),
                link_views(edges@) == plain.take(e as int),
            decreases self.edges@.len() - e,
        {
            let ghost before = link_views(edges@);
            let edge = TopologyEdge {
                src: self.edges[e].src.clone(),
                dst: self.edges[e].dst.clone(),
                conditional: false,
            };
            edges.push(edge);
            assert(link_views(edges@) =~= before.push(edge@));
            assert(edge@ == plain[e as int]);
            assert(plain.take(e + 1) =~= plain.take(e as int).push(plain[e as int]));
            e += 1;
        }
        assert(plain.take(e as int) =~= plain);
        let mut k: usize = 0;
        let ghost pairs = self.routers.pairs();
        assert(link_views(edges@) =~= plain + router_links(pairs, 0));
        while k < self.routers.len()
            invariant
                k <= pairs.len(),
                pairs == self.routers.pairs(),
                link_views(edges@) == plain + router_links(pairs, k as int),
            decreases pairs.len() - k,
        {
            let (src, table) = self.routers.entry(k);
            let fresh = distinct_targets(table);
            let ghost before = link_views(edges@);
            let ghost add_on = fan(src@, views(fresh@));
            let mut f: usize = 0;
            assert(before + add_on.take(0) =~= before);
            while f < fresh.len()
                invariant
                    f <= fresh@.len(),
                    add_on == fan(src@, views(fresh@)),
                    link_views(edges@) == before + add_on.take(f as int),
                decreases fresh@.len() - f,
            {
                let ghost now = link_views(edges@);
                let edge = TopologyEdge {
                    src: src.clone(),
                    dst: fresh[f].clone(),
                    conditional: true,
                };
                edges.push(edge);
                assert(link_views(edges@) =~= now.push(edge@));
                assert(add_on[f as int] == edge@);
                assert(link_views(edges@) =~= before + add_on.take(f + 1));
                f += 1;
            }
            assert(add_on.take(f as int) =~= add_on);
            k += 1;
            assert(plain + router_links(pairs, k as int) =~= before + add_on);
        }
        Topology { name: self.name.clone(), nodes, edges }
    }

    pub fn node_names(&self) -> (r: Vec<String>)
        ensures
            r@.len() == self.nodes@.len(),
            forall|i: int| 0 <= i < r@.len() ==> (#[trigger] r@[i])@ == self.nodes@[i].name@,
    {
        let mut r: Vec<String> = Vec::new();
        let mut i: usize = 0;
        while i < self.nodes.len()
            invariant
                i <= self.nodes@.len(),
                r@.len() == i,
                forall|k: int| 0 <= k < i ==> (#[trigger] r@[k])@ == self.nodes@[k].name@,
            decreases self.nodes@.len() - i,
        {
            r.push(self.nodes[i].name.clone());
            i += 1;
        }
        r
    }
}

// ---- what a state and a graph promise --------------------------------------

/// A merge shows what was written last under every key that is not hidden, and
/// leaves all other keys as they were.
pub proof fn a_merge_shows_what_was_written(
    before: Map<Seq<char>, Json>,
    writes: Map<Seq<char>, Json>,
    key: Seq<char>,
)
    ensures
        writes.contains_key(key) && !"_"@.is_prefix_of(key) ==> merged(
            before,
            writes,
        ).contains_key(key) && merged(before, writes)[key] == writes[key],
        !writes.contains_key(key) || "_"@.is_prefix_of(key) ==> merged(
            before,
            writes,
        ).contains_key(key) == before.contains_key(key) && (before.contains_key(key) ==> merged(
            before,
            writes,
        )[key] == before[key]),
{
    lemma_hidden(key);
}

proof fn lemma_hidden(key: Seq<char>)
    ensures
        hidden(key) <==> "_"@.is_prefix_of(key),
{
    reveal_strlit("_");
    let p = "_"@;
    if hidden(key) {
        assert(key.subrange(0, 1) == p);
        assert(p =~= key.take(1));
    }
    if p.is_prefix_of(key) {
        assert(key.subrange(0, 1) =~= p);
    }
}

/// Of several members of one name the last one counts, and no member is left out.
pub proof fn the_last_member_counts(fields: Seq<(String, Json)>, name: String, value: Json, key: Seq<char>)
    ensures
        members(Seq::empty()) == Map::<Seq<char>, Json>::empty(),
        members(fields.push((name, value))).contains_key(name@),
        members(fields.push((name, value)))[name@] == value,
        key != name@ ==> members(fields.push((name, value))).contains_key(key) == members(
            fields,
        ).contains_key(key) && (members(fields).contains_key(key) ==> members(
            fields.push((name, value)),
        )[key] == members(fields)[key]),
{
    assert(fields.push((name, value)).drop_last() =~= fields);
}

/// A text is read as a text and a whole number as a number; nothing else is read as
/// either, and what is not there is not read.
pub proof fn a_state_reads_by_kind(state: State, key: Seq<char>)
    ensures
        !state@.contains_key(key) ==> state.text_at(key) is None && state.int_at(key) is None,
        state@.contains_key(key) ==> match state@[key] {
            Json::Text(t) => state.text_at(key) == Some(t@) && state.int_at(key) is None,
            Json::Int(n) => state.int_at(key) == Some(n) && state.text_at(key) is None,
            _ => state.text_at(key) is None && state.int_at(key) is None,
        },
{
}

/// A node is found under its name, the one that was added last before all others.
pub proof fn the_last_node_of_a_name_counts(nodes: Seq<NodeV>, node: NodeV, name: Seq<char>)
    ensures
        node_at(Seq::empty(), name) is None,
        node_at(nodes.push(node), node.name) == Some(node),
        name != node.name ==> node_at(nodes.push(node), name) == node_at(nodes, name),
        node_at(nodes, name) matches Some(n) ==> n.name == name && nodes.contains(n),
    decreases nodes.len(),
{
    assert(nodes.push(node).drop_last() =~= nodes);
    if nodes.len() > 0 {
        the_last_node_of_a_name_counts(nodes.drop_last(), node, name);
        if nodes.last().name == name {
            assert(nodes[nodes.len() - 1] == nodes.last());
        } else if node_at(nodes, name) is Some {
            let n = node_at(nodes, name)->0;
            let less = nodes.drop_last();
            let i = choose|i: int| 0 <= i < less.len() && less[i] == n;
            assert(nodes[i] == n);
        }
    }
}

/// A new node runs once, and an error in it leads nowhere.
pub proof fn a_new_node_runs_once(name: Seq<char>, kind: Seq<char>)
    ensures
        plain_node(name, kind).name == name,
        plain_node(name, kind).kind == kind,
        plain_node(name, kind).max_visits == 1,
        plain_node(name, kind).on_error is None,
{
}

/// Edges may lead to and from nodes, the start and the end, and nothing else.
pub proof fn an_edge_needs_its_ends(graph: Graph, name: Seq<char>)
    ensures
        graph.end_point(name) <==> name == START@ || name == END@ || exists|i: int|
            0 <= i < graph.node_seq().len() && (#[trigger] graph.node_seq()[i]).name == name,
{
    let all = graph.node_seq();
    if exists|i: int| 0 <= i < all.len() && (#[trigger] all[i]).name == name {
        let i = choose|i: int| 0 <= i < all.len() && (#[trigger] all[i]).name == name;
        lemma_node_known(all, i);
    }
    if node_at(all, name) is Some {
        the_last_node_of_a_name_counts(all, all[0], name);
        let n = node_at(all, name)->0;
        let i = choose|i: int| 0 <= i < all.len() && all[i] == n;
        assert(all[i].name == name);
    }
}

/// The first router target that leads nowhere is the one that is told.
pub proof fn the_first_bad_target_is_told(graph: Graph, targets: Seq<(String, String)>, from: int, i: int)
    requires
        0 <= from <= i < targets.len(),
    ensures
        ({
            let bad = graph.bad_target(targets, from);
            &&& bad < 0 ==> graph.knows(targets[i].1@) || targets[i].1@ == END@
            &&& bad >= 0 ==> from <= bad < targets.len() && !graph.knows(targets[bad].1@)
                && targets[bad].1@ != END@
            &&& bad >= 0 && i < bad ==> graph.knows(targets[i].1@) || targets[i].1@ == END@
        }),
    decreases targets.len() - from,
{
    if graph.knows(targets[from].1@) || targets[from].1@ == END@ {
        if from < i {
            the_first_bad_target_is_told(graph, targets, from + 1, i);
        } else if from + 1 < targets.len() {
            the_first_bad_target_is_told(graph, targets, from + 1, from + 1);
        }
    }
}

/// The first entry that is no end point is the one that is told.
pub proof fn the_first_bad_entry_is_told(graph: Graph, nodes: Seq<String>, from: int, i: int)
    requires
        0 <= from <= i < nodes.len(),
    ensures
        ({
            let bad = graph.bad_entry(nodes, from);
            &&& bad < 0 ==> graph.end_point(nodes[i]@)
            &&& bad >= 0 ==> from <= bad < nodes.len() && !graph.end_point(nodes[bad]@)
            &&& bad >= 0 && i < bad ==> graph.end_point(nodes[i]@)
        }),
    decreases nodes.len() - from,
{
    if graph.end_point(nodes[from]@) {
        if from < i {
            the_first_bad_entry_is_told(graph, nodes, from + 1, i);
        } else if from + 1 < nodes.len() {
            the_first_bad_entry_is_told(graph, nodes, from + 1, from + 1);
        }
    }
}

/// A walk begins at each entry, in their order.
pub proof fn a_walk_begins_at_its_entries(nodes: Seq<String>, i: int)
    requires
        0 <= i < nodes.len(),
    ensures
        start_edges(nodes).len() == nodes.len(),
        start_edges(nodes)[i].src == START@,
        start_edges(nodes)[i].dst == nodes[i]@,
{
}

/// Of several targets of one label the last one counts.
pub proof fn the_last_target_of_a_label_counts(
    targets: Seq<(String, String)>,
    label: String,
    target: String,
    other: Seq<char>,
)
    ensures
        target_map(targets.push((label, target))).contains_key(label@),
        target_map(targets.push((label, target)))[label@] == target@,
        other != label@ ==> target_map(targets.push((label, target))).contains_key(other)
            == target_map(targets).contains_key(other) && (target_map(targets).contains_key(other)
            ==> target_map(targets.push((label, target)))[other] == target_map(targets)[other]),
{
    assert(targets.push((label, target)).drop_last() =~= targets);
}

/// A drawing shows every edge as it is, and for each router one conditional edge to
/// each of its targets.
pub proof fn a_drawing_shows_every_edge(
    edges: Seq<EdgeV>,
    i: int,
    src: Seq<char>,
    targets: Seq<Seq<char>>,
    j: int,
)
    requires
        0 <= i < edges.len(),
        0 <= j < targets.len(),
    ensures
        plain_links(edges).len() == edges.len(),
        plain_links(edges)[i].src == edges[i].src,
        plain_links(edges)[i].dst == edges[i].dst,
        !plain_links(edges)[i].conditional,
        fan(src, targets).len() == targets.len(),
        fan(src, targets)[j].src == src,
        fan(src, targets)[j].dst == targets[j],
        fan(src, targets)[j].conditional,
{
}

/// Each target of a router is drawn once, however many labels lead to it.
pub proof fn a_target_is_drawn_once(pairs: Seq<(Seq<char>, String)>, n: int, i: int)
    requires
        0 <= i < n <= pairs.len(),
    ensures
        distinct(pairs, n).no_duplicates(),
        distinct(pairs, n).contains(pairs[i].1@),
        distinct(pairs, n).len() <= n,
    decreases n,
{
    let before = distinct(pairs, n - 1);
    let now = distinct(pairs, n);
    if n == 1 {
        assert(distinct(pairs, 0) =~= Seq::<Seq<char>>::empty());
        assert(now[0] == pairs[0].1@);
    } else {
        a_target_is_drawn_once(pairs, n - 1, if i < n - 1 {
            i
        } else {
            0
        });
        if i < n - 1 {
            let k = choose|k: int| 0 <= k < before.len() && before[k] == pairs[i].1@;
            assert(now[k] == pairs[i].1@);
        } else if !before.contains(pairs[n - 1].1@) {
            assert(now[before.len() as int] == pairs[n - 1].1@);
        }
    }
}

/// What went wrong is told with the names that it is about.
pub proof fn an_error_names_its_culprit(error: GraphError)
    ensures
        match error {
            GraphError::Reserved { name } => occurs(error.text(), name@),
            GraphError::UnknownNode { name } => occurs(error.text(), name@),
            GraphError::UnknownRouterTarget { label, target } => occurs(error.text(), label@)
                && occurs(error.text(), target@),
            GraphError::Collision { key, nodes } => occurs(error.text(), key@) && (nodes@.len() >= 2
                ==> occurs(error.text(), nodes@[0]@) && occurs(error.text(), nodes@[1]@)),
        },
{
    let all = error.text();
    match error {
        GraphError::Reserved { name } => lemma_occurs("'"@, name@, "' 是保留名"@),
        GraphError::UnknownNode { name } => lemma_occurs("未知节点 '"@, name@, "'"@),
        GraphError::UnknownRouterTarget { label, target } => {
            let a = "路由目标 '"@;
            let b = "'（标签 '"@;
            let c = "'）未知"@;
            lemma_occurs(a, target@, b + label@ + c);
            assert(all =~= a + target@ + (b + label@ + c));
            lemma_occurs(a + target@ + b, label@, c);
        },
        GraphError::Collision { key, nodes } => {
            let x = or_mark(nodes@, 0);
            let y = or_mark(nodes@, 1);
            let a = "'"@;
            let b = "' 和 '"@;
            let c = "' 都写了 '"@;
            let d = "' —— 并行分支必须写不相交的键"@;
            lemma_occurs(a, x, b + y + c + key@ + d);
            assert(all =~= a + x + (b + y + c + key@ + d));
            lemma_occurs(a + x + b, y, c + key@ + d);
            assert(all =~= (a + x + b) + y + (c + key@ + d));
            lemma_occurs(a + x + b + y + c, key@, d);
        },
    }
}

/// A drawing shows every node, every edge as a plain one, and for every router a
/// conditional edge from it to each of its targets; it shows no other plain edge.
pub proof fn a_drawing_shows_the_graph(graph: Graph, t: Topology, i: int, r: int, l: int)
    requires
        graph.is_drawn(t),
    ensures
        t.name@ == graph.name@,
        t.nodes@.len() == graph.nodes@.len(),
        0 <= i < graph.nodes@.len() ==> t.nodes@[i].name@ == graph.nodes@[i].name@
            && t.nodes@[i].kind@ == graph.nodes@[i].kind@,
        t.edges@.len() >= graph.edge_seq().len(),
        0 <= i < graph.edge_seq().len() ==> link_views(t.edges@)[i] == (LinkV {
            src: graph.edge_seq()[i].src,
            dst: graph.edge_seq()[i].dst,
            conditional: false,
        }),
        graph.edge_seq().len() <= i < t.edges@.len() ==> link_views(t.edges@)[i].conditional,
        0 <= r < graph.routers.pairs().len() && 0 <= l < graph.routers.pairs()[r].1.pairs().len()
            ==> link_views(t.edges@).contains(
            LinkV {
                src: graph.routers.pairs()[r].0,
                dst: graph.routers.pairs()[r].1.pairs()[l].1@,
                conditional: true,
            },
        ),
{
    let pairs = graph.routers.pairs();
    let n = pairs.len() as int;
    let plain = plain_links(graph.edge_seq());
    let routed = router_links(pairs, n);
    let all = link_views(t.edges@);
    assert(all.len() == t.edges@.len());
    lemma_router_links(pairs, n, r, l);
    if graph.edge_seq().len() <= i < t.edges@.len() {
        assert(all[i] == routed[i - plain.len()]);
    }
    if 0 <= r < n && 0 <= l < pairs[r].1.pairs().len() {
        let link = LinkV { src: pairs[r].0, dst: pairs[r].1.pairs()[l].1@, conditional: true };
        let k = choose|k: int| 0 <= k < routed.len() && routed[k] == link;
        assert(all[plain.len() + k] == link);
    }
}

proof fn lemma_router_links(pairs: Seq<(Seq<char>, Table<String>)>, k: int, r: int, l: int)
    requires
        0 <= k <= pairs.len(),
    ensures
        forall|i: int|
            0 <= i < router_links(pairs, k).len() ==> (
            #[trigger] router_links(pairs, k)[i]).conditional,
        0 <= r < k && 0 <= l < pairs[r].1.pairs().len() ==> router_links(pairs, k).contains(
            LinkV { src: pairs[r].0, dst: pairs[r].1.pairs()[l].1@, conditional: true },
        ),
    decreases k,
{
    if k > 0 {
        lemma_router_links(pairs, k - 1, r, l);
        let before = router_links(pairs, k - 1);
        let now = router_links(pairs, k);
        let table = pairs[k - 1].1.pairs();
        let targets = distinct(table, table.len() as int);
        let added = fan(pairs[k - 1].0, targets);
        assert(now == before + added);
        assert forall|i: int| 0 <= i < now.len() implies (#[trigger] now[i]).conditional by {
            if i < before.len() {
                assert(now[i] == before[i]);
            } else {
                assert(now[i] == added[i - before.len()]);
            }
        }
        if 0 <= r < k && 0 <= l < pairs[r].1.pairs().len() {
            let link = LinkV { src: pairs[r].0, dst: pairs[r].1.pairs()[l].1@, conditional: true };
            if r < k - 1 {
                let j = choose|j: int| 0 <= j < before.len() && before[j] == link;
                assert(now[j] == link);
            } else {
                a_target_is_drawn_once(table, table.len() as int, l);
                let j = choose|j: int| 0 <= j < targets.len() && targets[j] == table[l].1@;
                assert(added[j] == link);
                assert(now[before.len() + j] == link);
            }
        }
    }
}

} // verus!
