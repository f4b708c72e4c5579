//! Graphs, and how the engine walks them.

use joy::agent::LoopEvent;
use joy::engine::{existing_errors, Engine, GraphEvent, RunReport};
use joy::graph::{
    kind_of, Graph, GraphError, Node, NodeWrites, State, DEFAULT_MAX_STEPS, END, START,
};
use joy::json::Json;
use joy::text::is_among;
use joy::triage::key_router;

fn writes(pairs: Vec<(&str, Json)>) -> NodeWrites {
    let mut out = NodeWrites::new();
    for (key, value) in pairs {
        out.insert(key.to_string(), value);
    }
    out
}

fn object(pairs: Vec<(&str, Json)>) -> Json {
    Json::Object(
        pairs
            .into_iter()
            .map(|(k, v)| (k.to_string(), v))
            .collect(),
    )
}

fn state(pairs: Vec<(&str, Json)>) -> State {
    State::from_value(object(pairs)).expect("an object")
}

fn names(list: &[&str]) -> Vec<String> {
    list.iter().map(|n| n.to_string()).collect()
}

fn targets(list: &[(&str, &str)]) -> Vec<(String, String)> {
    list.iter()
        .map(|(l, t)| (l.to_string(), t.to_string()))
        .collect()
}

/// Walks the graph to its end. `node` runs a node, `router` answers for one.
fn walk(
    graph: Graph,
    start: State,
    max_steps: usize,
    node: impl Fn(&str, &State) -> Result<NodeWrites, String>,
    router: impl Fn(&str, &State) -> String,
) -> Result<RunReport, GraphError> {
    let mut engine = Engine::start(graph, start, max_steps);
    while engine.open_wave() {
        let outcomes: Vec<Result<NodeWrites, String>> = engine
            .wave
            .iter()
            .map(|name| node(name, &engine.state))
            .collect();
        for outcome in outcomes {
            match outcome {
                Err(why) => engine.node_failed(why, 1),
                Ok(wrote) => {
                    if engine.node_wrote(wrote, 1)? {
                        let name = engine.routing.clone().expect("a router waits");
                        let label = router(&name, &engine.state);
                        engine.route(&label);
                    }
                }
            }
        }
        engine.close_wave();
    }
    Ok(engine.finish(9))
}

fn error<'a>(report: &'a RunReport, node: &str) -> &'a str {
    report.errors.get(node).map(|e| e.as_str()).unwrap_or("")
}

fn linear_graph() -> Graph {
    let mut g = Graph::new("linear");
    g.add_node(Node::new("a", "fn")).unwrap();
    g.add_node(Node::new("b", "fn")).unwrap();
    g.add_node(Node::new("c", "fn")).unwrap();
    g.entry(&names(&["a"])).unwrap();
    g.add_edge("a", "b").unwrap();
    g.add_edge("b", "c").unwrap();
    g.add_edge("c", END).unwrap();
    g
}

fn linear_node(name: &str, s: &State) -> Result<NodeWrites, String> {
    Ok(match name {
        "a" => writes(vec![("a", Json::Int(1))]),
        "b" => writes(vec![("b", Json::Int(s.i64("a").unwrap() + 1))]),
        _ => writes(vec![("c", Json::Int(s.i64("b").unwrap() + 1))]),
    })
}

fn no_router(_: &str, _: &State) -> String {
    unreachable!("this graph has no router")
}

fn routed_graph() -> Graph {
    let mut g = Graph::new("routed");
    g.add_node(Node::new("decide", "fn")).unwrap();
    g.add_node(Node::new("quick", "fn")).unwrap();
    g.add_node(Node::new("full", "fn")).unwrap();
    g.entry(&names(&["decide"])).unwrap();
    g.add_router("decide", targets(&[("quick", "quick"), ("full", "full")]))
        .unwrap();
    g.add_edge("quick", END).unwrap();
    g.add_edge("full", END).unwrap();
    g
}

fn routed(want: &str) -> RunReport {
    walk(
        routed_graph(),
        state(vec![("want", Json::of_text(want))]),
        DEFAULT_MAX_STEPS,
        |name, s| {
            Ok(match name {
                "decide" => writes(vec![("route", Json::of_text(s.str("want").unwrap()))]),
                other => writes(vec![("took", Json::of_text(other))]),
            })
        },
        |_, s| key_router(s, "route", "full"),
    )
    .expect("能跑")
}

fn cycle(max_visits: i32, max_steps: usize) -> RunReport {
    let mut g = Graph::new("cycle");
    g.add_node(Node::new("work", "fn").max_visits(max_visits))
        .unwrap();
    g.entry(&names(&["work"])).unwrap();
    g.add_router("work", targets(&[("again", "work"), ("done", END)]))
        .unwrap();
    walk(
        g,
        State::new(),
        max_steps,
        |_, s| {
            Ok(writes(vec![(
                "count",
                Json::Int(s.i64("count").unwrap_or(0) + 1),
            )]))
        },
        |_, s| {
            if s.i64("count").unwrap_or(0) < 99 {
                "again".to_string()
            } else {
                "done".to_string()
            }
        },
    )
    .expect("能跑")
}

#[test]
fn linear_topology_runs_in_edge_order() {
    let report = walk(
        linear_graph(),
        State::new(),
        DEFAULT_MAX_STEPS,
        linear_node,
        no_router,
    )
    .expect("能跑");
    assert_eq!(
        (
            report.state.i64("a"),
            report.state.i64("b"),
            report.state.i64("c")
        ),
        (Some(1), Some(2), Some(3))
    );
    assert_eq!(report.path, vec!["a", "b", "c"]);
    assert_eq!(report.first_error(), None);
}

#[test]
fn fanout_runs_concurrently_and_fanin_waits_for_all() {
    let mut g = Graph::new("fan");
    for key in ["x", "y", "z"] {
        g.add_node(Node::new(key, "fn")).unwrap();
        g.entry(&names(&[key])).unwrap();
    }
    g.add_node(Node::new("join", "fn")).unwrap();
    for key in ["x", "y", "z"] {
        g.add_edge(key, "join").unwrap();
    }
    let first = Engine::start(g, State::new(), DEFAULT_MAX_STEPS);
    assert_eq!(first.wave, vec!["x", "y", "z"]);
    let report = walk(
        first.graph,
        State::new(),
        DEFAULT_MAX_STEPS,
        |name, s| {
            Ok(match name {
                "join" => writes(vec![(
                    "joined",
                    Json::Text(format!(
                        "{}{}{}",
                        s.str("x").unwrap_or("?"),
                        s.str("y").unwrap_or("?"),
                        s.str("z").unwrap_or("?")
                    )),
                )]),
                key => writes(vec![(key, Json::of_text(key))]),
            })
        },
        no_router,
    )
    .expect("能跑");
    assert_eq!(report.state.str("joined"), Some("xyz"));
    assert_eq!(report.path, vec!["x", "y", "z", "join"]);
}

#[test]
fn router_picks_the_target_from_state() {
    let report = routed("quick");
    assert_eq!(report.state.str("took"), Some("quick"));
    assert_eq!(report.path, vec!["decide", "quick"]);
    assert_eq!(routed("full").state.str("took"), Some("full"));
}

#[test]
fn router_unknown_label_records_error_and_drains() {
    let report = routed("sideways");
    assert!(!report.state.has("took"));
    assert!(error(&report, "decide").contains("unknown label"));
    assert!(report.first_error().is_some());
}

#[test]
fn unknown_edge_and_router_targets_error_at_build_time() {
    let mut g = Graph::new("bad");
    g.add_node(Node::new("a", "fn")).unwrap();
    assert!(matches!(
        g.add_edge("a", "ghost"),
        Err(GraphError::UnknownNode { .. })
    ));
    assert!(matches!(
        g.add_router("a", targets(&[("x", "ghost")])),
        Err(GraphError::UnknownRouterTarget { .. })
    ));
    assert!(matches!(
        g.add_node(Node::new(START, "fn")),
        Err(GraphError::Reserved { .. })
    ));
}

#[test]
fn parallel_key_collision_is_fatal() {
    let mut g = Graph::new("collide");
    g.add_node(Node::new("left", "fn")).unwrap();
    g.add_node(Node::new("right", "fn")).unwrap();
    g.entry(&names(&["left", "right"])).unwrap();
    let error = match walk(
        g,
        State::new(),
        DEFAULT_MAX_STEPS,
        |_, _| Ok(writes(vec![("same", Json::Int(1))])),
        no_router,
    ) {
        Ok(_) => panic!("两个节点撞键必须报错"),
        Err(error) => error,
    };
    assert!(error.message().contains("same"));
    assert_eq!(
        error,
        GraphError::Collision {
            key: "same".to_string(),
            nodes: names(&["left", "right"]),
        }
    );
}

#[test]
fn sequential_overwrite_is_allowed() {
    let report = walk(
        linear_graph(),
        state(vec![("a", Json::Int(99))]),
        DEFAULT_MAX_STEPS,
        linear_node,
        no_router,
    )
    .expect("能跑");
    assert_eq!(report.state.i64("a"), Some(1));
}

#[test]
fn cycle_stops_at_max_visits() {
    let report = cycle(3, DEFAULT_MAX_STEPS);
    assert_eq!(report.state.i64("count"), Some(3));
    assert!(error(&report, "work").contains("max_visits=3"));
}

#[test]
fn max_steps_is_the_global_hard_stop() {
    let report = cycle(99, 5);
    assert_eq!(report.state.i64("count"), Some(5));
    assert!(error(&report, "engine").contains("max_steps=5"));
    assert_eq!(report.path.len(), 5);
    let visits: Vec<i32> = report
        .events
        .iter()
        .filter_map(|e| match e {
            GraphEvent::NodeStarted { visit, .. } => Some(*visit),
            _ => None,
        })
        .collect();
    assert_eq!(visits, vec![1, 2, 3, 4, 5]);
}

#[test]
fn node_error_routes_to_on_error_and_never_escapes() {
    let mut g = Graph::new("boom");
    g.add_node(Node::new("explode", "fn").on_error("fallback"))
        .unwrap();
    g.add_node(Node::new("fallback", "fn")).unwrap();
    g.entry(&names(&["explode"])).unwrap();
    g.add_edge("fallback", END).unwrap();
    let report = walk(
        g,
        State::new(),
        DEFAULT_MAX_STEPS,
        |name, _| match name {
            "explode" => Err("ZeroDivisionError: division by zero".to_string()),
            _ => Ok(writes(vec![("saved", Json::Bool(true))])),
        },
        no_router,
    )
    .expect("节点出错不该把 run 掀了");
    assert_eq!(report.state.get("saved"), Some(&Json::Bool(true)));
    assert!(error(&report, "explode").contains("ZeroDivisionError"));
    assert_eq!(report.path, vec!["explode", "fallback"]);
}

#[test]
fn node_error_without_on_error_drains_to_end() {
    let mut g = Graph::new("boom2");
    g.add_node(Node::new("explode", "fn")).unwrap();
    g.add_node(Node::new("after", "fn")).unwrap();
    g.entry(&names(&["explode"])).unwrap();
    g.add_edge("explode", "after").unwrap();
    let report = walk(
        g,
        State::new(),
        DEFAULT_MAX_STEPS,
        |name, _| match name {
            "explode" => Err("boom".to_string()),
            _ => Ok(writes(vec![("ran", Json::Bool(true))])),
        },
        no_router,
    )
    .expect("能跑");
    assert!(!report.state.has("ran"));
    assert_eq!(report.first_error(), Some("boom"));
}

#[test]
fn observer_event_sequence_is_pinned() {
    let report = routed("quick");
    let kinds: Vec<&str> = report
        .events
        .iter()
        .map(|e| match e {
            GraphEvent::Started { .. } => "graph_start",
            GraphEvent::NodeStarted { .. } => "node_start",
            GraphEvent::NodeEnded { .. } => "node_end",
            GraphEvent::Route { .. } => "route",
            GraphEvent::Inner { .. } => "inner",
            GraphEvent::Ended { .. } => "graph_end",
        })
        .collect();
    assert_eq!(
        kinds,
        vec![
            "graph_start",
            "node_start",
            "node_end",
            "route",
            "node_start",
            "node_end",
            "graph_end"
        ]
    );
    assert_eq!(
        report.events[0],
        GraphEvent::Started {
            workflow: "routed".to_string(),
            nodes: names(&["decide", "quick", "full"]),
        }
    );
    assert_eq!(
        report.events[3],
        GraphEvent::Route {
            workflow: "routed".to_string(),
            router: "decide".to_string(),
            target: "quick".to_string(),
            reason: "quick".to_string(),
        }
    );
    assert_eq!(
        report.events[6],
        GraphEvent::Ended {
            workflow: "routed".to_string(),
            ms: 9,
            steps: 2,
            path: names(&["decide", "quick"]),
            error: None,
        }
    );
}

#[test]
fn describe_reports_every_node_and_edge() {
    let topology = routed_graph().describe();
    assert_eq!(topology.name, "routed");
    let found: Vec<&str> = topology.nodes.iter().map(|n| n.name.as_str()).collect();
    assert_eq!(found, vec!["decide", "quick", "full"]);
    let mut conditional: Vec<(&str, &str)> = topology
        .edges
        .iter()
        .filter(|e| e.conditional)
        .map(|e| (e.src.as_str(), e.dst.as_str()))
        .collect();
    conditional.sort_unstable();
    let fixed: Vec<(&str, &str)> = topology
        .edges
        .iter()
        .filter(|e| !e.conditional)
        .map(|e| (e.src.as_str(), e.dst.as_str()))
        .collect();
    assert_eq!(conditional, vec![("decide", "full"), ("decide", "quick")]);
    assert_eq!(
        fixed,
        vec![(START, "decide"), ("quick", END), ("full", END)]
    );
}

#[test]
fn reserved_underscore_keys_never_merge_or_leak() {
    let mut g = Graph::new("private");
    g.add_node(Node::new("sneaky", "fn")).unwrap();
    g.entry(&names(&["sneaky"])).unwrap();
    let report = walk(
        g,
        State::new(),
        DEFAULT_MAX_STEPS,
        |_, _| {
            Ok(writes(vec![
                ("_secret", Json::Int(1)),
                ("open", Json::Int(2)),
            ]))
        },
        no_router,
    )
    .expect("能跑");
    assert!(!report.state.has("_secret"));
    assert_eq!(report.state.i64("open"), Some(2));
    let keys = report
        .events
        .iter()
        .find_map(|e| match e {
            GraphEvent::NodeEnded { keys, .. } => Some(keys.clone()),
            _ => None,
        })
        .expect("有 node_end");
    assert_eq!(keys, vec!["open"]);
}

#[test]
fn state_round_trips_through_json() {
    let both = || object(vec![("a", Json::Int(1)), ("b", Json::of_text("x"))]);
    let state = State::from_value(both()).unwrap();
    assert_eq!(state.i64("a"), Some(1));
    assert_eq!(state.str("b"), Some("x"));
    assert_eq!(state.into_value(), both());
    assert!(State::from_value(Json::List(vec![
        Json::Int(1),
        Json::Int(2),
        Json::Int(3)
    ]))
    .is_err());
}

#[test]
fn errors_from_a_previous_run_are_kept() {
    let earlier = || object(vec![("old", Json::of_text("earlier"))]);
    let report = walk(
        linear_graph(),
        state(vec![("errors", earlier())]),
        DEFAULT_MAX_STEPS,
        linear_node,
        no_router,
    )
    .expect("能跑");
    assert_eq!(error(&report, "old"), "earlier");
    assert_eq!(report.state.get("errors"), Some(&earlier()));
}

#[test]
fn a_state_without_errors_starts_clean() {
    assert_eq!(existing_errors(&State::new()).len(), 0);
    let odd = state(vec![("errors", Json::Int(3))]);
    assert_eq!(existing_errors(&odd).len(), 0);
}

#[test]
fn the_kind_of_a_value_has_a_name() {
    assert_eq!(kind_of(&Json::Null), "null");
    assert_eq!(kind_of(&Json::Bool(true)), "boolean");
    assert_eq!(kind_of(&Json::Int(1)), "number");
    assert_eq!(kind_of(&Json::of_text("x")), "string");
    assert_eq!(kind_of(&Json::List(vec![])), "array");
    assert_eq!(kind_of(&Json::Object(vec![])), "object");
}

#[test]
fn nodes_and_edges_are_added_by_name() {
    let mut g = Graph::new("g").with_node("a", "fn").with_edge(START, "a");
    assert_eq!(g.name(), "g");
    assert!(g.has("a") && !g.has("b"));
    assert_eq!(g.find("a"), Some(0));
    assert_eq!(g.find("b"), None);
    assert_eq!(g.node_names(), vec!["a"]);
    assert!(g.entry(&names(&["b"])).is_err());
    assert!(is_among(&names(&["a", "b"]), "b"));
    assert!(!is_among(&names(&["a"]), "b"));
    assert!(GraphError::UnknownNode {
        name: "ghost".to_string()
    }
    .message()
    .contains("ghost"));
}

#[test]
fn a_state_lists_its_keys_in_order() {
    let mut s = State::new();
    s.set("b", Json::Int(2));
    s.set("a", Json::Int(1));
    s.set("b", Json::Int(3));
    assert_eq!(s.keys(), vec!["a", "b"]);
    assert_eq!(s.i64("b"), Some(3));
    s.merge(writes(vec![("_x", Json::Null), ("c", Json::Null)]));
    assert_eq!(s.keys(), vec!["a", "b", "c"]);
    assert_eq!(s.i64("c"), None);
    assert_eq!(s.str("a"), None);
}

#[test]
fn nodes_of_a_wave_may_be_merged_in_either_order() {
    let a = || writes(vec![("a", Json::Int(1)), ("_note", Json::Int(9))]);
    let b = || writes(vec![("b", Json::Int(2)), ("_note", Json::Int(8))]);
    let mut one = State::new();
    one.set("kept", Json::Int(0));
    one.merge(a());
    one.merge(b());
    let mut other = State::new();
    other.set("kept", Json::Int(0));
    other.merge(b());
    other.merge(a());
    assert_eq!(one.keys(), vec!["a", "b", "kept"]);
    assert_eq!(one.keys(), other.keys());
    for key in one.keys() {
        assert_eq!(one.get(&key), other.get(&key));
    }
}

#[test]
fn a_state_reads_back_as_it_was() {
    let mut state = State::new();
    state.set("b", Json::of_text("x"));
    state.set("a", Json::Int(1));
    let again = State::from_value(state.into_value()).expect("an object");
    assert_eq!(again.keys(), vec!["a", "b"]);
    assert_eq!(again.str("b"), Some("x"));
    assert_eq!(again.i64("a"), Some(1));
}

#[test]
fn inner_events_come_out_tagged_with_their_node() {
    let mut g = Graph::new("tagged");
    g.add_node(Node::new("agent", "agent")).unwrap();
    g.entry(&names(&["agent"])).unwrap();
    let mut engine = Engine::start(g, State::new(), DEFAULT_MAX_STEPS);
    assert!(engine.open_wave());
    let said = LoopEvent::Text {
        delta: "hi".to_string(),
    };
    engine.node_told(0, said.clone());
    engine
        .node_wrote(writes(vec![("out", Json::of_text("ok"))]), 1)
        .expect("no collision");
    engine.close_wave();
    assert!(!engine.open_wave());
    let report = engine.finish(1);
    assert_eq!(
        report.events[2],
        GraphEvent::Inner {
            node: "agent".to_string(),
            event: said,
        }
    );
    assert_eq!(report.path, vec!["agent"]);
}

#[test]
fn entries_before_an_unknown_one_are_kept() {
    let mut g = Graph::new("g").with_node("a", "fn").with_node("b", "fn");
    let failed = g.entry(&names(&["a", "ghost", "b"])).unwrap_err();
    assert_eq!(
        failed,
        GraphError::UnknownNode {
            name: "ghost".to_string()
        }
    );
    let starts: Vec<&str> = g
        .edges
        .iter()
        .filter(|edge| edge.src == START)
        .map(|edge| edge.dst.as_str())
        .collect();
    assert_eq!(starts, vec!["a"], "what came before it was added");
    assert_eq!(g.name(), "g");
    assert!(g.entry(&names(&["b"])).is_ok());
}

#[test]
fn a_path_holds_a_node_at_most_as_often_as_it_may_be_visited() {
    let report = cycle(3, DEFAULT_MAX_STEPS);
    let times = report.path.iter().filter(|name| *name == "work").count();
    assert_eq!(times, 3, "{:?}", report.path);
}
