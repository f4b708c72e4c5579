//! The triage workflow: small talk gets a quick reply, all else a full turn.

use vstd::prelude::*;

use crate::gate::{brace_span, outer_braces};
use crate::graph::{
    EdgeV, END, Graph, GraphError, lemma_node_known, NodeWrites, plain_node, START, State,
    target_map, texts, Topology,
};
use crate::json::{check_json, Json, json_error, json_text_at, text_at};
use crate::model::CreateRequest;
use crate::table::Table;
use crate::text::{
    a_joined_text_holds_its_parts, begins, chars_of, contains, join, joined, lemma_occurs,
    line_views, lines, occurs, piece, replace, replaced, same, starts_with, views,
};

verus! {

pub const TRIAGE_PROMPT: &'static str =
    "You are a triage gate for a personal assistant. Given the user's message,\ndecide which brain should answer it.\n\nReply with ONLY this JSON, nothing else:\n{\"route\": \"quick\" or \"full\", \"reason\": \"<5 words>\"}\n\nquick — greetings, thanks, acknowledgements, pure small talk: nothing to do,\n        nothing to look up.\nfull  — anything mentioning tasks, schedules, people, notes, memory, or that\n        needs a tool. When unsure, choose full.\n\nUser message: {message}";

pub const QUICK_REPLY_PROMPT: &'static str =
    "You are Joy, a warm, concise personal assistant. The user's message needs no\ntools or memory — reply in one or two short, natural sentences. If today's\ncalendar (below) is clearly relevant, you may mention it; otherwise ignore it.\n\nToday's calendar: {calendar}\n\nUser message: {message}";

pub fn classify_request(small_model: &str, message: &str) -> (r: CreateRequest)
    ensures
        r.asks(small_model@, None, replaced(TRIAGE_PROMPT@, "{message}"@, message@), 600),
{
    proof {
        reveal_strlit("{message}");
    }
    CreateRequest::question(small_model, None, replace(TRIAGE_PROMPT, "{message}", message), 600)
}

/// The route and the reason that an answer's fields spell: only the two known
/// routes are taken, and anything else means a full turn.
pub open spec fn routed(route: Option<Seq<char>>, reason: Option<Seq<char>>) -> (
    Seq<char>,
    Seq<char>,
) {
    let name = match route {
        Some(r) => r,
        None => ""@,
    };
    if name != "quick"@ && name != "full"@ {
        ("full"@, "bad route '"@ + name + "' — failing open"@)
    } else {
        (
            name,
            match reason {
                Some(r) => r,
                None => ""@,
            },
        )
    }
}

pub open spec fn triage_reads(answer: Seq<char>) -> (Seq<char>, Seq<char>) {
    match brace_span(answer) {
        None => ("full"@, "no JSON — failing open"@),
        Some(json) => if json_error(json) is Some {
            ("full"@, "triage failed open (ParseError)"@)
        } else {
            routed(json_text_at(json, "/route"@), json_text_at(json, "/reason"@))
        },
    }
}

pub fn route_of_fields(route: Option<String>, reason: Option<String>) -> (r: (String, String))
    ensures
        (r.0@, r.1@) == routed(
            match route {
                Some(x) => Some(x@),
                None => None,
            },
            match reason {
                Some(x) => Some(x@),
                None => None,
            },
        ),
{
    let name = match route {
        Some(x) => x,
        None => "".to_owned(),
    };
    if !same(name.as_str(), "quick") && !same(name.as_str(), "full") {
        let mut why = "bad route '".to_owned();
        why.append(name.as_str());
        why.append("' — failing open");
        ("full".to_owned(), why)
    } else {
        let reason = match reason {
            Some(x) => x,
            None => "".to_owned(),
        };
        (name, reason)
    }
}

/// Which way a message goes, and why. `None` stands for a model that failed.
pub fn classify_message(answer: Option<String>) -> (r: (String, String))
    ensures
        (r.0@, r.1@) == match answer {
            None => ("full"@, "triage failed open (ProviderError)"@),
            Some(text) => triage_reads(text@),
        },
{
    let text = match answer {
        None => {
            return ("full".to_owned(), "triage failed open (ProviderError)".to_owned());
        },
        Some(text) => text,
    };
    match outer_braces(text.as_str()) {
        None => ("full".to_owned(), "no JSON — failing open".to_owned()),
        Some(json) => match check_json(json.as_str()) {
            Err(_) => ("full".to_owned(), "triage failed open (ParseError)".to_owned()),
            Ok(_) => route_of_fields(
                text_at(json.as_str(), "/route"),
                text_at(json.as_str(), "/reason"),
            ),
        },
    }
}

/// Triage knows two routes, and takes the quick one only on the model's word.
pub proof fn triage_fails_open(answer: Seq<char>)
    ensures
        triage_reads(answer).0 == "quick"@ || triage_reads(answer).0 == "full"@,
        triage_reads(answer).0 != "full"@ ==> brace_span(answer) is Some && json_text_at(
            brace_span(answer)->0,
            "/route"@,
        ) == Some("quick"@),
{
    reveal_strlit("");
    reveal_strlit("quick");
}

pub fn quick_request(small_model: &str, state: &State) -> (r: CreateRequest)
    ensures
        r.asks(
            small_model@,
            None,
            replaced(
                replaced(QUICK_REPLY_PROMPT@, "{calendar}"@, or_empty(state.text_at("calendar"@))),
                "{message}"@,
                or_empty(state.text_at("message"@)),
            ),
            600,
        ),
{
    proof {
        reveal_strlit("{calendar}");
        reveal_strlit("{message}");
    }
    let calendar = fill(state, "calendar");
    let message = fill(state, "message");
    let half = replace(QUICK_REPLY_PROMPT, "{calendar}", calendar.as_str());
    let prompt = replace(half.as_str(), "{message}", message.as_str());
    CreateRequest::question(small_model, None, prompt, 600)
}

pub open spec fn or_empty(text: Option<Seq<char>>) -> Seq<char> {
    match text {
        Some(t) => t,
        None => ""@,
    }
}

/// The text under `key`, or nothing.
pub fn fill(state: &State, key: &str) -> (r: String)
    ensures
        r@ == or_empty(state.text_at(key@)),
{
    match state.str(key) {
        Some(t) => t.to_owned(),
        None => "".to_owned(),
    }
}

// ---- today's calendar ------------------------------------------------------

#[verifier::ext_equal]
pub struct AgendaV {
    pub title: Seq<char>,
    pub events: Seq<Seq<char>>,
}

/// One line of a calendar file: a summary names the event at hand, a start on
/// this day lists it.
pub open spec fn agenda_step(st: AgendaV, line: Seq<char>, today: Seq<char>) -> AgendaV {
    if begins(line, "SUMMARY:"@) {
        AgendaV { title: line.subrange("SUMMARY:"@.len() as int, line.len() as int), ..st }
    } else if begins(line, "DTSTART"@) && occurs(line, today) && st.title.len() > 0 {
        AgendaV { events: st.events.push(st.title), ..st }
    } else {
        st
    }
}

pub open spec fn agenda(lines: Seq<Seq<char>>, today: Seq<char>, k: int) -> AgendaV
    decreases k,
{
    if k <= 0 {
        AgendaV { title: Seq::empty(), events: Seq::empty() }
    } else {
        agenda_step(agenda(lines, today, k - 1), lines[k - 1], today)
    }
}

pub open spec fn events_text(calendar: Option<Seq<char>>, today: Seq<char>) -> Seq<char> {
    match calendar {
        None => "(no calendar)"@,
        Some(text) => {
            let ls = line_views(text);
            let events = agenda(ls, today, ls.len() as int).events;
            if events.len() == 0 {
                "(nothing today)"@
            } else {
                joined(events, "; "@)
            }
        },
    }
}

/// What the calendar file lists for `today`, written as `YYYYMMDD`.
pub fn todays_events(calendar: Option<&str>, today: &str) -> (r: String)
    ensures
        r@ == events_text(
            match calendar {
                Some(t) => Some(t@),
                None => None,
            },
            today@,
        ),
{
    let text = match calendar {
        None => {
            return "(no calendar)".to_owned();
        },
        Some(t) => t,
    };
    let all = lines(text);
    let ghost ls = line_views(text@);
    let mut title = String::new();
    let mut events: Vec<String> = Vec::new();
    let mut i: usize = 0;
    assert(title@ =~= Seq::<char>::empty());
    assert(views(events@) =~= Seq::<Seq<char>>::empty());
    while i < all.len()
        invariant
            i <= all@.len(),
            views(all@) == ls,
            title@ == agenda(ls, today@, i as int).title,
            views(events@) == agenda(ls, today@, i as int).events,
        decreases all@.len() - i,
    {
        let line = &all[i];
        assert(line@ == ls[i as int]);
        let ghost before = views(events@);
        if starts_with(line.as_str(), "SUMMARY:") {
            let v = chars_of(line.as_str());
            proof {
                reveal_strlit("SUMMARY:");
            }
            let n: usize = v.len();
            title = piece(&v, 8, n);
        } else if starts_with(line.as_str(), "DTSTART") && contains(line.as_str(), today)
            && title.as_str().unicode_len() > 0 {
            events.push(title.clone());
            assert(views(events@) =~= before.push(title@));
        }
        i += 1;
    }
    if events.len() == 0 {
        "(nothing today)".to_owned()
    } else {
        join(&events, "; ")
    }
}

// ---- the graph -------------------------------------------------------------

/// The label of a router that reads its route off the blackboard.
pub open spec fn key_route(state: State, key: Seq<char>, default_label: Seq<char>) -> Seq<char> {
    match state.text_at(key) {
        Some(t) if t.len() > 0 => t,
        _ => default_label,
    }
}

pub fn key_router(state: &State, key: &str, default_label: &str) -> (r: String)
    ensures
        r@ == key_route(*state, key@, default_label@),
{
    match state.str(key) {
        Some(t) => {
            if t.unicode_len() > 0 {
                t.to_owned()
            } else {
                default_label.to_owned()
            }
        },
        None => default_label.to_owned(),
    }
}

// ---- what the nodes write --------------------------------------------------

/// What the classifier puts on the blackboard.
pub fn classify_writes(route: String, reason: String) -> (r: NodeWrites)
    ensures
        r@.dom() =~= set!["route"@, "triage_reason"@],
        r@["route"@].text() == Some(route@),
        r@["triage_reason"@].text() == Some(reason@),
{
    proof {
        reveal_strlit("route");
        reveal_strlit("triage_reason");
        assert("route"@.len() == 5);
        assert("triage_reason"@.len() == 13);
    }
    let mut w: NodeWrites = Table::new();
    w.insert("route".to_owned(), Json::Text(route));
    w.insert("triage_reason".to_owned(), Json::Text(reason));
    w
}

/// What a look at the calendar puts there.
pub fn calendar_writes(events: String) -> (r: NodeWrites)
    ensures
        r@.dom() =~= set!["calendar"@],
        r@["calendar"@].text() == Some(events@),
{
    let mut w: NodeWrites = Table::new();
    w.insert("calendar".to_owned(), Json::Text(events));
    w
}

/// What a quick reply puts there.
pub fn quick_writes(reply: String) -> (r: NodeWrites)
    ensures
        r@.dom() =~= set!["reply"@],
        r@["reply"@].text() == Some(reply@),
{
    let mut w: NodeWrites = Table::new();
    w.insert("reply".to_owned(), Json::Text(reply));
    w
}

/// The two that run side by side write different keys, so neither can undo what
/// the other wrote.
pub proof fn branches_write_apart(a: NodeWrites, b: NodeWrites, key: Seq<char>)
    requires
        a@.dom() == set!["route"@, "triage_reason"@],
        b@.dom() == set!["calendar"@],
    ensures
        !(a@.contains_key(key) && b@.contains_key(key)),
{
    reveal_strlit("route");
    reveal_strlit("triage_reason");
    reveal_strlit("calendar");
    assert("route"@.len() == 5);
    assert("triage_reason"@.len() == 13);
    assert("calendar"@.len() == 8);
}

/// Which way the blackboard points: without a word on it, the full way.
pub fn triage_label(state: &State) -> (r: String)
    ensures
        r@ == key_route(*state, "route"@, "full"@),
{
    key_router(state, "route", "full")
}

pub open spec fn edge(src: Seq<char>, dst: Seq<char>) -> EdgeV {
    EdgeV { src, dst }
}

/// The shape of the triage graph: classify and look at the calendar side by
/// side, then reply quickly or in full.
pub open spec fn is_triage(g: Graph) -> bool {
    &&& g.name@ == "triage"@
    &&& g.node_seq() == seq![
        plain_node("classify"@, "llm"@),
        plain_node("check_calendar"@, "tool"@),
        plain_node("quick_reply"@, "llm"@),
        plain_node("full_agent"@, "agent"@),
        plain_node("gather"@, "fn"@),
    ]
    &&& g.edge_seq() == seq![
        edge(START@, "classify"@),
        edge(START@, "check_calendar"@),
        edge("classify"@, "gather"@),
        edge("check_calendar"@, "gather"@),
        edge("quick_reply"@, END@),
        edge("full_agent"@, END@),
    ]
    &&& g.routers@.dom() =~= set!["gather"@]
    &&& texts(g.routers@["gather"@]@) == map!["quick"@ => "quick_reply"@, "full"@ => "full_agent"@]
}

/// Builds the triage graph.
pub fn build_triage_graph() -> (r: Result<Graph, GraphError>)
    ensures
        r is Ok,
        is_triage(r->Ok_0),
{
    proof {
        reveal_strlit("START");
        reveal_strlit("END");
        reveal_strlit("classify");
        reveal_strlit("check_calendar");
        reveal_strlit("quick_reply");
        reveal_strlit("full_agent");
        reveal_strlit("gather");
        assert(START@.len() == 5);
        assert(END@.len() == 3);
        assert("classify"@.len() == 8);
        assert("check_calendar"@.len() == 14);
        assert("quick_reply"@.len() == 11);
        assert("full_agent"@.len() == 10);
        assert("gather"@.len() == 6);
    }
    let g = Graph::new("triage").with_node("classify", "llm").with_node(
        "check_calendar",
        "tool",
    ).with_node("quick_reply", "llm").with_node("full_agent", "agent").with_node("gather", "fn");
    let ghost nodes = g.node_seq();
    proof {
        lemma_node_known(nodes, 0);
        lemma_node_known(nodes, 1);
        lemma_node_known(nodes, 2);
        lemma_node_known(nodes, 3);
        lemma_node_known(nodes, 4);
    }
    let g = g.with_edge(START, "classify").with_edge(START, "check_calendar").with_edge(
        "classify",
        "gather",
    ).with_edge("check_calendar", "gather");
    let mut targets: Vec<(String, String)> = Vec::new();
    targets.push(("quick".to_owned(), "quick_reply".to_owned()));
    targets.push(("full".to_owned(), "full_agent".to_owned()));
    proof {
        reveal_with_fuel(Graph::bad_target, 3);
        reveal_with_fuel(target_map, 3);
        assert(targets@.drop_last().drop_last() =~= Seq::<(String, String)>::empty());
    }
    let mut g = g;
    match g.add_router("gather", targets) {
        Ok(_) => {},
        Err(e) => {
            return Err(e);
        },
    }
    let g = g.with_edge("quick_reply", END).with_edge("full_agent", END);
    proof {
        assert(g.node_seq() =~= seq![
            plain_node("classify"@, "llm"@),
            plain_node("check_calendar"@, "tool"@),
            plain_node("quick_reply"@, "llm"@),
            plain_node("full_agent"@, "agent"@),
            plain_node("gather"@, "fn"@),
        ]);
        assert(g.edge_seq() =~= seq![
            edge(START@, "classify"@),
            edge(START@, "check_calendar"@),
            edge("classify"@, "gather"@),
            edge("check_calendar"@, "gather"@),
            edge("quick_reply"@, END@),
            edge("full_agent"@, END@),
        ]);
        assert(g.routers@.dom() =~= set!["gather"@]);
        assert(texts(g.routers@["gather"@]@)
            =~= map!["quick"@ => "quick_reply"@, "full"@ => "full_agent"@]);
    }
    Ok(g)
}

/// The drawing of the graph.
pub fn triage_topology() -> (r: Option<Topology>)
    ensures
        r is Some,
        exists|g: Graph| is_triage(g) && #[trigger] g.is_drawn(r->0),
{
    match build_triage_graph() {
        Ok(g) => {
            let drawing = Some(g.describe());
            assert(is_triage(g) && g.is_drawn(drawing->0));
            drawing
        },
        Err(_) => None,
    }
}

// ---- what the front door promises ------------------------------------------

/// The quick way is taken only where it was asked for by name; the full way is
/// taken otherwise. A known route keeps its reason, and an unknown one is named.
pub proof fn only_quick_is_quick(route: Option<Seq<char>>, reason: Option<Seq<char>>)
    ensures
        routed(route, reason).0 == "quick"@ <==> route == Some("quick"@),
        routed(route, reason).0 == "quick"@ || routed(route, reason).0 == "full"@,
        (route == Some("quick"@) || route == Some("full"@)) && reason is Some ==> routed(
            route,
            reason,
        ).1 == reason->0,
        route is Some && route != Some("quick"@) && route != Some("full"@) ==> occurs(
            routed(route, reason).1,
            route->0,
        ),
{
    reveal_strlit("quick");
    reveal_strlit("full");
    assert("quick"@.len() == 5 && "full"@.len() == 4);
    reveal_strlit("");
    if route is Some && route != Some("quick"@) && route != Some("full"@) {
        lemma_occurs("bad route '"@, route->0, "' — failing open"@);
    }
}

/// A label of the state leads the way where it says anything; the default does
/// otherwise.
pub proof fn a_label_leads_the_way(state: State, key: Seq<char>, default_label: Seq<char>)
    ensures
        state.text_at(key) is Some && state.text_at(key)->0.len() > 0 ==> key_route(
            state,
            key,
            default_label,
        ) == state.text_at(key)->0,
        state.text_at(key) is None || state.text_at(key)->0.len() == 0 ==> key_route(
            state,
            key,
            default_label,
        ) == default_label,
{
}

/// An event is listed where its start names the day, under the title that was read
/// last before it; a line that says neither changes nothing.
pub proof fn an_event_of_the_day_is_listed(
    lines: Seq<Seq<char>>,
    today: Seq<char>,
    title: Seq<char>,
    start: Seq<char>,
    other: Seq<char>,
    k: int,
)
    requires
        lines.len() == k,
        title.len() > 0,
        !begins(start, "SUMMARY:"@),
        !begins(other, "SUMMARY:"@),
        !begins(other, "DTSTART"@) || !occurs(other, today),
    ensures
        ({
            let before = agenda(lines, today, k);
            let named = lines.push("SUMMARY:"@ + title);
            let after = agenda(named.push(start), today, k + 2);
            &&& agenda(named, today, k + 1).events == before.events
            &&& begins(start, "DTSTART"@) && occurs(start, today) ==> after.events
                == before.events.push(title)
            &&& !begins(start, "DTSTART"@) || !occurs(start, today) ==> after.events
                == before.events
            &&& agenda(lines.push(other), today, k + 1) == before
        }),
{
    let line = "SUMMARY:"@ + title;
    let named = lines.push(line);
    let both = named.push(start);
    lemma_agenda_front(lines, named, today, k);
    lemma_agenda_front(named, both, today, k + 1);
    lemma_agenda_front(lines, lines.push(other), today, k);
    assert(line.subrange(0, "SUMMARY:"@.len() as int) =~= "SUMMARY:"@);
    assert(line.subrange("SUMMARY:"@.len() as int, line.len() as int) =~= title);
    assert(named[k] == line);
    assert(both[k + 1] == start);
    assert(lines.push(other)[k] == other);
    let st = agenda(named, today, k + 1);
    assert(st.title == title);
    assert(agenda(both, today, k + 1) == st);
    assert(agenda(both, today, k + 2) == agenda_step(st, start, today));
}

proof fn lemma_agenda_front(a: Seq<Seq<char>>, b: Seq<Seq<char>>, today: Seq<char>, k: int)
    requires
        0 <= k <= a.len() <= b.len(),
        forall|i: int| 0 <= i < a.len() ==> #[trigger] a[i] == b[i],
    ensures
        agenda(a, today, k) == agenda(b, today, k),
    decreases k,
{
    if k > 0 {
        lemma_agenda_front(a, b, today, k - 1);
        assert(a[k - 1] == b[k - 1]);
    }
}

/// What is told of a day holds every event of it; a day without events, and a
/// missing calendar, are told as such.
pub proof fn every_event_is_told(text: Seq<char>, today: Seq<char>, i: int)
    ensures
        ({
            let ls = line_views(text);
            let events = agenda(ls, today, ls.len() as int).events;
            &&& 0 <= i < events.len() ==> occurs(events_text(Some(text), today), events[i])
            &&& events.len() == 0 ==> events_text(Some(text), today) == "(nothing today)"@
        }),
        events_text(None, today) == "(no calendar)"@,
{
    let ls = line_views(text);
    let events = agenda(ls, today, ls.len() as int).events;
    if 0 <= i < events.len() {
        assert(events =~= events.take(i) + seq![events[i]] + events.skip(i + 1));
        a_joined_text_holds_its_parts(events.take(i), events[i], events.skip(i + 1), "; "@);
    }
}

/// Classifying and looking at the calendar start at once, and the way parts when both
/// are done: to the quick reply or to the full one, each of which ends the walk.
pub proof fn the_way_parts_when_both_are_done(g: Graph)
    requires
        is_triage(g),
    ensures
        g.edge_seq().contains(edge(START@, "classify"@)),
        g.edge_seq().contains(edge(START@, "check_calendar"@)),
        g.edge_seq().contains(edge("classify"@, "gather"@)),
        g.edge_seq().contains(edge("check_calendar"@, "gather"@)),
        g.edge_seq().contains(edge("quick_reply"@, END@)),
        g.edge_seq().contains(edge("full_agent"@, END@)),
        g.routers@.contains_key("gather"@),
        texts(g.routers@["gather"@]@)["quick"@] == "quick_reply"@,
        texts(g.routers@["gather"@]@)["full"@] == "full_agent"@,
{
    let e = g.edge_seq();
    assert(e[0] == edge(START@, "classify"@));
    assert(e[1] == edge(START@, "check_calendar"@));
    assert(e[2] == edge("classify"@, "gather"@));
    assert(e[3] == edge("check_calendar"@, "gather"@));
    assert(e[4] == edge("quick_reply"@, END@));
    assert(e[5] == edge("full_agent"@, END@));
    reveal_strlit("quick");
    reveal_strlit("full");
    assert("quick"@.len() == 5 && "full"@.len() == 4);
}

/// A start that comes before any title, or behind an empty one, lists nothing.
pub proof fn an_event_needs_a_title(lines: Seq<Seq<char>>, today: Seq<char>, start: Seq<char>)
    requires
        begins(start, "DTSTART"@),
        !begins(start, "SUMMARY:"@),
    ensures
        agenda(seq![start], today, 1).events.len() == 0,
        ({
            let n = lines.len() as int;
            let untitled = lines.push("SUMMARY:"@);
            agenda(untitled.push(start), today, n + 2).events == agenda(lines, today, n).events
        }),
{
    let n = lines.len() as int;
    let line = "SUMMARY:"@;
    let untitled = lines.push(line);
    let both = untitled.push(start);
    lemma_agenda_front(lines, untitled, today, n);
    lemma_agenda_front(untitled, both, today, n + 1);
    assert(line.subrange(0, line.len() as int) =~= line);
    assert(line.subrange(line.len() as int, line.len() as int).len() == 0);
    assert(untitled[n] == line);
    assert(both[n + 1] == start);
    assert(agenda(both, today, n + 1) == agenda(untitled, today, n + 1));
    assert(agenda(seq![start], today, 0).events.len() == 0);
    assert(seq![start][0] == start);
}

} // verus!
