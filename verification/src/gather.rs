//! The morning briefing: four scans side by side, one digest, and a draft where
//! something waits for a person.

use vstd::prelude::*;

use crate::graph::{
    END, Graph, GraphError, lemma_node_known, NodeWrites, plain_node, START, State, target_map,
    texts, Topology,
};
use crate::json::Json;
use crate::memory::{entry_views, wrapped};
use crate::model::CreateRequest;
use crate::table::Table;
use crate::text::{
    a_field_ends_at_its_mark, a_joined_text_holds_its_parts, a_replacement_takes_its_place, begins,
    fields, find_text, is_blank_text, join, joined, lemma_find_text, lemma_occurs,
    lemma_occurs_within, line_views, lines, occurs, occurs_at, opt_text, replace, replaced, same,
    split, starts_with, trimmed, views,
};
use crate::triage::{edge, fill, or_empty};

verus! {

pub const DIGEST_PROMPT: &'static str =
    "You are preparing a morning briefing for the maintainer of an\nopen-source project. Below is everything gathered a moment ago.\n\nOPEN PULL REQUESTS AND ISSUES:\n{gh_text}\n\nWHAT THE WEB SAYS:\n{web_text}\n\nTODAY'S CALENDAR:\n{cal_text}\n\nWHAT YOU ALREADY KNOW:\n{mem_text}\n\nWrite a short briefing in markdown:\n- Lead with the two or three things that actually matter today, and say why.\n- Then anything waiting on the maintainer, grouped, one line each.\n- End with a single suggested focus for the day.\n\nYou are DRAFTING A PROPOSAL for a human to act on. You have not done anything\nand cannot do anything — never write as if you have replied, merged, or sent.\nBe brief. If a section gathered nothing, say so in a few words and move on.";

pub open spec fn positive(n: Option<i64>) -> bool {
    n is Some && n->0 > 0
}

/// Something waits: an open request or issue, or an event today.
pub open spec fn pending(state: State) -> bool {
    positive(state.int_at("gh_open_prs"@)) || positive(state.int_at("gh_open_issues"@)) || positive(
        state.int_at("cal_event_count"@),
    )
}

fn is_positive(n: Option<i64>) -> (r: bool)
    ensures
        r == positive(n),
{
    match n {
        Some(k) => k > 0,
        None => false,
    }
}

/// The router reads counts, never prose.
pub fn needs_action(state: &State) -> (r: String)
    ensures
        r@ == if pending(*state) {
            "propose"@
        } else {
            "quiet"@
        },
{
    if is_positive(state.i64("gh_open_prs")) || is_positive(state.i64("gh_open_issues"))
        || is_positive(state.i64("cal_event_count")) {
        "propose".to_owned()
    } else {
        "quiet".to_owned()
    }
}

pub open spec fn unavailable_text(why: Seq<char>) -> Seq<char> {
    "unavailable ("@ + why + ")"@
}

pub fn unavailable(why: &str) -> (r: String)
    ensures
        r@ == unavailable_text(why@),
{
    let mut t = "unavailable (".to_owned();
    t.append(why);
    t.append(")");
    t
}

/// What a text and two counts put on the blackboard.
pub fn github_writes(found: Result<(String, i64, i64), String>) -> (r: NodeWrites)
    ensures
        r@.dom() =~= owned("scan_github"@),
        r@["gh_text"@].text() == Some(
            match found {
                Ok(f) => f.0@,
                Err(why) => unavailable_text(why@),
            },
        ),
        r@["gh_open_prs"@] == Json::Int(
            match found {
                Ok(f) => f.1,
                Err(_) => 0,
            },
        ),
        r@["gh_open_issues"@] == Json::Int(
            match found {
                Ok(f) => f.2,
                Err(_) => 0,
            },
        ),
{
    proof {
        lemma_keys_differ();
    }
    let mut w: NodeWrites = Table::new();
    match found {
        Ok((text, prs, issues)) => {
            w.insert("gh_text".to_owned(), Json::Text(text));
            w.insert("gh_open_prs".to_owned(), Json::Int(prs));
            w.insert("gh_open_issues".to_owned(), Json::Int(issues));
        },
        Err(why) => {
            w.insert("gh_text".to_owned(), Json::Text(unavailable(why.as_str())));
            w.insert("gh_open_prs".to_owned(), Json::Int(0));
            w.insert("gh_open_issues".to_owned(), Json::Int(0));
        },
    }
    w
}

pub fn calendar_writes(found: Result<(String, i64), String>) -> (r: NodeWrites)
    ensures
        r@.dom() =~= owned("scan_calendar"@),
        r@["cal_text"@].text() == Some(
            match found {
                Ok(f) => f.0@,
                Err(why) => unavailable_text(why@),
            },
        ),
        r@["cal_event_count"@] == Json::Int(
            match found {
                Ok(f) => f.1,
                Err(_) => 0,
            },
        ),
{
    proof {
        lemma_keys_differ();
    }
    let mut w: NodeWrites = Table::new();
    match found {
        Ok((text, count)) => {
            w.insert("cal_text".to_owned(), Json::Text(text));
            w.insert("cal_event_count".to_owned(), Json::Int(count));
        },
        Err(why) => {
            w.insert("cal_text".to_owned(), Json::Text(unavailable(why.as_str())));
            w.insert("cal_event_count".to_owned(), Json::Int(0));
        },
    }
    w
}

/// What a scan of plain text puts under `key`.
pub fn text_writes(key: &str, found: Result<String, String>) -> (r: NodeWrites)
    ensures
        r@.dom() =~= set![key@],
        r@[key@].text() == Some(
            match found {
                Ok(t) => t@,
                Err(why) => unavailable_text(why@),
            },
        ),
{
    let mut w: NodeWrites = Table::new();
    let text = match found {
        Ok(t) => t,
        Err(why) => unavailable(why.as_str()),
    };
    w.insert(key.to_owned(), Json::Text(text));
    w
}

// ---- who writes what -------------------------------------------------------

/// The keys that a scan may write.
pub open spec fn owned(scan: Seq<char>) -> Set<Seq<char>> {
    if scan == "scan_github"@ {
        set!["gh_text"@, "gh_open_prs"@, "gh_open_issues"@]
    } else if scan == "scan_web"@ {
        set!["web_text"@]
    } else if scan == "scan_calendar"@ {
        set!["cal_text"@, "cal_event_count"@]
    } else if scan == "scan_memory"@ {
        set!["mem_text"@]
    } else {
        set![]
    }
}

proof fn lemma_keys_differ()
    ensures
        "scan_github"@ != "scan_calendar"@,
        "scan_web"@ != "scan_calendar"@,
        "gh_text"@ != "gh_open_prs"@,
        "gh_text"@ != "gh_open_issues"@,
        "gh_open_prs"@ != "gh_open_issues"@,
        "cal_text"@ != "cal_event_count"@,
{
    reveal_strlit("scan_github");
    reveal_strlit("scan_web");
    reveal_strlit("scan_calendar");
    reveal_strlit("gh_text");
    reveal_strlit("gh_open_prs");
    reveal_strlit("gh_open_issues");
    reveal_strlit("cal_text");
    reveal_strlit("cal_event_count");
    assert("scan_github"@.len() == 11);
    assert("scan_web"@.len() == 8);
    assert("scan_calendar"@.len() == 13);
    assert("gh_text"@.len() == 7);
    assert("gh_open_prs"@.len() == 11);
    assert("gh_open_issues"@.len() == 14);
    assert("cal_text"@.len() == 8);
    assert("cal_event_count"@.len() == 15);
}

/// No two scans own a common key, so scans may run side by side.
pub proof fn scans_own_disjoint_keys(a: Seq<char>, b: Seq<char>, key: Seq<char>)
    requires
        a != b,
        owned(a).contains(key),
    ensures
        !owned(b).contains(key),
{
    reveal_strlit("gh_text");
    reveal_strlit("gh_open_prs");
    reveal_strlit("gh_open_issues");
    reveal_strlit("web_text");
    reveal_strlit("cal_text");
    reveal_strlit("cal_event_count");
    reveal_strlit("mem_text");
    assert("gh_text"@.len() == 7);
    assert("gh_open_prs"@.len() == 11);
    assert("gh_open_issues"@.len() == 14);
    assert("web_text"@.len() == 8);
    assert("cal_text"@.len() == 8);
    assert("cal_event_count"@.len() == 15);
    assert("mem_text"@.len() == 8);
    assert("web_text"@[0] != "cal_text"@[0]);
    assert("web_text"@[0] != "mem_text"@[0]);
    assert("cal_text"@[0] != "mem_text"@[0]);
}

pub fn scan_owns(scan: &str) -> (r: Vec<&'static str>)
    ensures
        forall|key: Seq<char>|
            owned(scan@).contains(key) <==> exists|i: int|
                0 <= i < r@.len() && #[trigger] r@[i]@ == key,
{
    let mut r: Vec<&'static str> = Vec::new();
    if same(scan, "scan_github") {
        r.push("gh_text");
        r.push("gh_open_prs");
        r.push("gh_open_issues");
        assert(r@[0]@ == "gh_text"@ && r@[1]@ == "gh_open_prs"@ && r@[2]@ == "gh_open_issues"@);
    } else if same(scan, "scan_web") {
        r.push("web_text");
        assert(r@[0]@ == "web_text"@);
    } else if same(scan, "scan_calendar") {
        r.push("cal_text");
        r.push("cal_event_count");
        assert(r@[0]@ == "cal_text"@ && r@[1]@ == "cal_event_count"@);
    } else if same(scan, "scan_memory") {
        r.push("mem_text");
        assert(r@[0]@ == "mem_text"@);
    }
    r
}

// ---- the digest ------------------------------------------------------------

pub open spec fn digest_prompt(state: State) -> Seq<char> {
    replaced(
        replaced(
            replaced(
                replaced(DIGEST_PROMPT@, "{gh_text}"@, or_empty(state.text_at("gh_text"@))),
                "{web_text}"@,
                or_empty(state.text_at("web_text"@)),
            ),
            "{cal_text}"@,
            or_empty(state.text_at("cal_text"@)),
        ),
        "{mem_text}"@,
        or_empty(state.text_at("mem_text"@)),
    )
}

/// The one question of a briefing. It carries no tools: a briefing proposes and
/// cannot act.
pub fn synth_request(model: &str, state: &State) -> (r: CreateRequest)
    ensures
        r.asks(model@, None, digest_prompt(*state), 1500),
{
    proof {
        reveal_strlit("{gh_text}");
        reveal_strlit("{web_text}");
        reveal_strlit("{cal_text}");
        reveal_strlit("{mem_text}");
    }
    let gh = fill(state, "gh_text");
    let web = fill(state, "web_text");
    let cal = fill(state, "cal_text");
    let mem = fill(state, "mem_text");
    let a = replace(DIGEST_PROMPT, "{gh_text}", gh.as_str());
    let b = replace(a.as_str(), "{web_text}", web.as_str());
    let c = replace(b.as_str(), "{cal_text}", cal.as_str());
    let d = replace(c.as_str(), "{mem_text}", mem.as_str());
    CreateRequest::question(model, None, d, 1500)
}

/// The shape of the briefing: every scan leads to the digest, and the digest to
/// a draft or to the end.
pub open spec fn is_gather(g: Graph) -> bool {
    &&& g.name@ == "gather"@
    &&& g.node_seq() == seq![
        plain_node("scan_github"@, "tool"@),
        plain_node("scan_web"@, "tool"@),
        plain_node("scan_calendar"@, "tool"@),
        plain_node("scan_memory"@, "tool"@),
        plain_node("synthesize"@, "llm"@),
        plain_node("draft_digest"@, "tool"@),
    ]
    &&& g.edge_seq() == seq![
        edge(START@, "scan_github"@),
        edge("scan_github"@, "synthesize"@),
        edge(START@, "scan_web"@),
        edge("scan_web"@, "synthesize"@),
        edge(START@, "scan_calendar"@),
        edge("scan_calendar"@, "synthesize"@),
        edge(START@, "scan_memory"@),
        edge("scan_memory"@, "synthesize"@),
        edge("draft_digest"@, END@),
    ]
    &&& g.routers@.dom() =~= set!["synthesize"@]
    &&& texts(g.routers@["synthesize"@]@) == map!["propose"@ => "draft_digest"@, "quiet"@ => END@]
}

pub fn build_gather_graph() -> (r: Result<Graph, GraphError>)
    ensures
        r is Ok,
        is_gather(r->Ok_0),
{
    proof {
        reveal_strlit("START");
        reveal_strlit("END");
        reveal_strlit("scan_github");
        reveal_strlit("scan_web");
        reveal_strlit("scan_calendar");
        reveal_strlit("scan_memory");
        reveal_strlit("synthesize");
        reveal_strlit("draft_digest");
        assert(START@.len() == 5);
        assert(END@.len() == 3);
        assert("scan_github"@.len() == 11);
        assert("scan_web"@.len() == 8);
        assert("scan_calendar"@.len() == 13);
        assert("scan_memory"@.len() == 11);
        assert("synthesize"@.len() == 10);
        assert("draft_digest"@.len() == 12);
    }
    let g = Graph::new("gather").with_node("scan_github", "tool").with_node(
        "scan_web",
        "tool",
    ).with_node("scan_calendar", "tool").with_node("scan_memory", "tool").with_node(
        "synthesize",
        "llm",
    ).with_node("draft_digest", "tool");
    let ghost nodes = g.node_seq();
    proof {
        lemma_node_known(nodes, 0);
        lemma_node_known(nodes, 1);
        lemma_node_known(nodes, 2);
        lemma_node_known(nodes, 3);
        lemma_node_known(nodes, 4);
        lemma_node_known(nodes, 5);
    }
    let g = g.with_edge(START, "scan_github").with_edge("scan_github", "synthesize").with_edge(
        START,
        "scan_web",
    ).with_edge("scan_web", "synthesize").with_edge(START, "scan_calendar").with_edge(
        "scan_calendar",
        "synthesize",
    ).with_edge(START, "scan_memory").with_edge("scan_memory", "synthesize");
    let mut targets: Vec<(String, String)> = Vec::new();
    targets.push(("propose".to_owned(), "draft_digest".to_owned()));
    targets.push(("quiet".to_owned(), END.to_owned()));
    proof {
        reveal_with_fuel(Graph::bad_target, 3);
        reveal_with_fuel(target_map, 3);
        assert(targets@.drop_last().drop_last() =~= Seq::<(String, String)>::empty());
    }
    let mut g = g;
    match g.add_router("synthesize", targets) {
        Ok(_) => {},
        Err(e) => {
            return Err(e);
        },
    }
    let g = g.with_edge("draft_digest", END);
    proof {
        assert(g.node_seq() =~= seq![
            plain_node("scan_github"@, "tool"@),
            plain_node("scan_web"@, "tool"@),
            plain_node("scan_calendar"@, "tool"@),
            plain_node("scan_memory"@, "tool"@),
            plain_node("synthesize"@, "llm"@),
            plain_node("draft_digest"@, "tool"@),
        ]);
        assert(g.edge_seq() =~= seq![
            edge(START@, "scan_github"@),
            edge("scan_github"@, "synthesize"@),
            edge(START@, "scan_web"@),
            edge("scan_web"@, "synthesize"@),
            edge(START@, "scan_calendar"@),
            edge("scan_calendar"@, "synthesize"@),
            edge(START@, "scan_memory"@),
            edge("scan_memory"@, "synthesize"@),
            edge("draft_digest"@, END@),
        ]);
        assert(g.routers@.dom() =~= set!["synthesize"@]);
        assert(texts(g.routers@["synthesize"@]@)
            =~= map!["propose"@ => "draft_digest"@, "quiet"@ => END@]);
    }
    Ok(g)
}

/// The drawing of the graph.
pub fn gather_topology() -> (r: Option<Topology>)
    ensures
        r is Some,
        exists|g: Graph| is_gather(g) && #[trigger] g.is_drawn(r->0),
{
    match build_gather_graph() {
        Ok(g) => {
            let drawing = Some(g.describe());
            assert(is_gather(g) && g.is_drawn(drawing->0));
            drawing
        },
        Err(_) => None,
    }
}

// ---- what the scans find ---------------------------------------------------

/// How many events a day's list has: they stand between semicolons, and a word
/// in brackets says that there are none.
pub open spec fn listed_events(text: Seq<char>) -> int {
    if begins(text, "("@) {
        0
    } else {
        fields(text, ';').len() as int
    }
}

pub fn count_events(text: &str) -> (r: i64)
    requires
        fields(text@, ';').len() <= i64::MAX,
    ensures
        r == listed_events(text@),
{
    if starts_with(text, "(") {
        return 0;
    }
    let parts = split(text, ';');
    assert(views(parts@).len() == parts@.len());
    parts.len() as i64
}

pub open spec fn open_list(title: Seq<char>, items: Seq<Seq<char>>) -> Seq<char> {
    if items.len() == 0 {
        title + " (none)"@
    } else {
        title + "\n"@ + joined(items, "\n"@)
    }
}

fn write_open(title: &str, items: &Vec<String>) -> (r: String)
    ensures
        r@ == open_list(title@, views(items@)),
{
    assert(views(items@).len() == items@.len());
    let mut t = title.to_owned();
    if items.len() == 0 {
        t.append(" (none)");
    } else {
        t.append("\n");
        t.append(join(items, "\n").as_str());
    }
    t
}

/// What is open in a repository: in words, and counted.
pub fn github_report(prs: &Vec<String>, issues: &Vec<String>) -> (r: (String, i64, i64))
    requires
        prs@.len() <= i64::MAX,
        issues@.len() <= i64::MAX,
    ensures
        r.0@ == open_list("Open PRs:"@, views(prs@)) + "\n\n"@ + open_list(
            "Open issues:"@,
            views(issues@),
        ),
        r.1 == prs@.len(),
        r.2 == issues@.len(),
{
    let mut t = write_open("Open PRs:", prs);
    t.append("\n\n");
    t.append(write_open("Open issues:", issues).as_str());
    (t, prs.len() as i64, issues.len() as i64)
}

/// The lines among the first `k` that say something.
pub open spec fn filled_lines(lines: Seq<Seq<char>>, k: int) -> Seq<Seq<char>>
    decreases k,
{
    if k <= 0 {
        Seq::empty()
    } else if trimmed(lines[k - 1]).len() > 0 {
        filled_lines(lines, k - 1).push(lines[k - 1])
    } else {
        filled_lines(lines, k - 1)
    }
}

/// The entries of a list that a program wrote, one to a line.
pub fn listed_lines(output: &str) -> (r: Vec<String>)
    ensures
        views(r@) == filled_lines(line_views(output@), line_views(output@).len() as int),
{
    let all = lines(output);
    let n: usize = all.len();
    let ghost seen = views(all@);
    assert(seen.len() == n);
    let mut r: Vec<String> = Vec::new();
    let mut i: usize = 0;
    assert(views(r@) =~= Seq::<Seq<char>>::empty());
    while i < n
        invariant
            i <= n,
            n == all@.len(),
            seen == views(all@),
            views(r@) == filled_lines(seen, i as int),
        decreases n - i,
    {
        let ghost before = views(r@);
        assert(seen[i as int] == all@[i as int]@);
        if !is_blank_text(all[i].as_str()) {
            r.push(all[i].clone());
            assert(views(r@) =~= before.push(all@[i as int]@));
        }
        i += 1;
    }
    r
}

/// What is remembered of the project, in words.
pub fn memory_report(facts: &Vec<(String, String)>) -> (r: String)
    ensures
        r@ == if facts@.len() == 0 {
            "(nothing relevant)"@
        } else {
            joined(wrapped(entry_views(facts@), "- "@, ": "@), "\n"@)
        },
{
    if facts.len() == 0 {
        return "(nothing relevant)".to_owned();
    }
    let ghost all = wrapped(entry_views(facts@), "- "@, ": "@);
    let mut parts: Vec<String> = Vec::new();
    let mut i: usize = 0;
    assert(views(parts@) =~= all.take(0));
    while i < facts.len()
        invariant
            i <= facts@.len(),
            all == wrapped(entry_views(facts@), "- "@, ": "@),
            views(parts@) == all.take(i as int),
        decreases facts@.len() - i,
    {
        let ghost before = views(parts@);
        let mut t = "- ".to_owned();
        t.append(facts[i].0.as_str());
        t.append(": ");
        t.append(facts[i].1.as_str());
        assert(t@ == all[i as int]);
        parts.push(t);
        assert(views(parts@) =~= before.push(t@));
        assert(all.take(i + 1) =~= before.push(t@));
        i += 1;
    }
    assert(all.take(facts@.len() as int) =~= all);
    join(&parts, "\n")
}

pub const DEFAULT_TOPICS: &'static str = "AI agent harness loop memory eval";

/// What is looked for on the web; `repo` is the repository, where one is set.
pub fn web_query(repo: &Option<String>) -> (r: String)
    ensures
        r@ == (match opt_text(*repo) {
            Some(t) => t,
            None => DEFAULT_TOPICS@,
        }) + " "@ + DEFAULT_TOPICS@ + " this week"@,
{
    let mut t = match repo {
        Some(x) => x.clone(),
        None => DEFAULT_TOPICS.to_owned(),
    };
    t.append(" ");
    t.append(DEFAULT_TOPICS);
    t.append(" this week");
    t
}

/// The file of a day's draft.
pub fn draft_name(date: &str) -> (r: String)
    ensures
        r@ == "gather-"@ + date@ + ".md"@,
{
    let mut t = "gather-".to_owned();
    t.append(date);
    t.append(".md");
    t
}

// ---- what is gathered ------------------------------------------------------

/// Something is to be done exactly where a request, an issue or an event is there.
pub proof fn any_finding_calls_for_action(state: State, n: i64)
    requires
        n > 0,
    ensures
        state.int_at("gh_open_prs"@) == Some(n) ==> pending(state),
        state.int_at("gh_open_issues"@) == Some(n) ==> pending(state),
        state.int_at("cal_event_count"@) == Some(n) ==> pending(state),
        (state.int_at("gh_open_prs"@) is None || state.int_at("gh_open_prs"@)->0 <= 0) && (
        state.int_at("gh_open_issues"@) is None || state.int_at("gh_open_issues"@)->0 <= 0) && (
        state.int_at("cal_event_count"@) is None || state.int_at("cal_event_count"@)->0 <= 0)
            ==> !pending(state),
{
}

/// What could not be had is told with the reason.
pub proof fn a_failure_is_told(why: Seq<char>)
    ensures
        occurs(unavailable_text(why), why),
        begins(unavailable_text(why), "unavailable"@),
{
    reveal_strlit("unavailable (");
    reveal_strlit("unavailable");
    lemma_occurs("unavailable ("@, why, ")"@);
    assert(unavailable_text(why).subrange(0, 11) =~= "unavailable"@);
}

/// Events are counted by what parts them; word that there is none counts as none.
pub proof fn events_are_counted(first: Seq<char>, rest: Seq<char>)
    requires
        !first.contains(';'),
        !begins(first, "("@),
        !begins(rest, "("@),
        first.len() > 0,
    ensures
        listed_events(first) == 1,
        listed_events(first + seq![';'] + rest) == 1 + listed_events(rest),
        listed_events("(nothing today)"@) == 0,
{
    a_field_ends_at_its_mark(first, ';', rest);
    reveal_strlit("(");
    reveal_strlit("(nothing today)");
    let s = first + seq![';'] + rest;
    assert(!begins(s, "("@)) by {
        if begins(s, "("@) {
            assert(s.subrange(0, 1) =~= first.subrange(0, 1));
        }
    }
    assert("(nothing today)"@.subrange(0, 1) =~= "("@);
}

/// A list stands under its title with all of its items, and says so where there is
/// none.
pub proof fn a_list_holds_its_items(title: Seq<char>, items: Seq<Seq<char>>, i: int)
    ensures
        begins(open_list(title, items), title),
        0 <= i < items.len() ==> occurs(open_list(title, items), items[i]),
        items.len() == 0 ==> open_list(title, items) == title + " (none)"@,
{
    let all = open_list(title, items);
    let none = Seq::<char>::empty();
    if items.len() == 0 {
        lemma_occurs(none, title, " (none)"@);
        assert(all =~= none + title + " (none)"@);
    } else {
        let list = joined(items, "\n"@);
        lemma_occurs(none, title, "\n"@ + list);
        assert(all =~= none + title + ("\n"@ + list));
        if 0 <= i < items.len() {
            lemma_occurs(title + "\n"@, list, none);
            assert(all =~= (title + "\n"@) + list + none);
            assert(items =~= items.take(i) + seq![items[i]] + items.skip(i + 1));
            a_joined_text_holds_its_parts(items.take(i), items[i], items.skip(i + 1), "\n"@);
            lemma_occurs_within(all, list, items[i]);
        }
    }
}

/// Every line that says something is listed, in its order, and no blank one is.
pub proof fn blank_lines_are_left_out(lines: Seq<Seq<char>>, line: Seq<char>)
    ensures
        filled_lines(Seq::empty(), 0).len() == 0,
        trimmed(line).len() > 0 ==> filled_lines(lines.push(line), lines.len() as int + 1)
            == filled_lines(lines, lines.len() as int).push(line),
        trimmed(line).len() == 0 ==> filled_lines(lines.push(line), lines.len() as int + 1)
            == filled_lines(lines, lines.len() as int),
{
    lemma_filled_front(lines, lines.push(line), lines.len() as int);
}

proof fn lemma_filled_front(a: Seq<Seq<char>>, b: Seq<Seq<char>>, k: int)
    requires
        0 <= k <= a.len() <= b.len(),
        forall|i: int| 0 <= i < a.len() ==> #[trigger] a[i] == b[i],
    ensures
        filled_lines(a, k) == filled_lines(b, k),
    decreases k,
{
    if k > 0 {
        lemma_filled_front(a, b, k - 1);
        assert(a[k - 1] == b[k - 1]);
    }
}

/// The scans run side by side from the start, and the synthesis waits for all of
/// them; what it comes to is drafted or left alone.
pub proof fn the_synthesis_waits_for_every_scan(g: Graph, i: int)
    requires
        is_gather(g),
        0 <= i < 4,
    ensures
        ({
            let scan = g.node_seq()[i].name;
            &&& g.edge_seq().contains(edge(START@, scan))
            &&& g.edge_seq().contains(edge(scan, "synthesize"@))
            &&& g.node_seq()[i].max_visits == 1
        }),
        g.routers@.contains_key("synthesize"@),
        texts(g.routers@["synthesize"@]@)["propose"@] == "draft_digest"@,
        texts(g.routers@["synthesize"@]@)["quiet"@] == END@,
        g.edge_seq().contains(edge("draft_digest"@, END@)),
{
    let e = g.edge_seq();
    assert(e[2 * i] == edge(START@, g.node_seq()[i].name));
    assert(e[2 * i + 1] == edge(g.node_seq()[i].name, "synthesize"@));
    assert(e[8] == edge("draft_digest"@, END@));
    reveal_strlit("propose");
    reveal_strlit("quiet");
    assert("propose"@.len() == 7 && "quiet"@.len() == 5);
}

/// A template with a place for a text holds the text, whatever it says.
pub proof fn a_template_holds_what_is_put_in(template: Seq<char>, mark: Seq<char>, text: Seq<char>)
    requires
        mark.len() > 0,
        occurs(template, mark),
    ensures
        occurs(replaced(template, mark, text), text),
{
    lemma_find_text(template, mark, 0);
    let some = choose|k: int| occurs_at(template, mark, k);
    let at = find_text(template, mark, 0);
    if at < 0 {
        assert(!occurs_at(template, mark, some));
    }
    a_replacement_takes_its_place(template, mark, text, at);
}

/// The briefing is asked for with what the memory scan found, wherever the prompt has
/// its place for it.
pub proof fn a_briefing_holds_the_memory(state: State, before: Seq<char>)
    requires
        before == replaced(
            replaced(
                replaced(DIGEST_PROMPT@, "{gh_text}"@, or_empty(state.text_at("gh_text"@))),
                "{web_text}"@,
                or_empty(state.text_at("web_text"@)),
            ),
            "{cal_text}"@,
            or_empty(state.text_at("cal_text"@)),
        ),
        occurs(before, "{mem_text}"@),
    ensures
        occurs(digest_prompt(state), or_empty(state.text_at("mem_text"@))),
{
    reveal_strlit("{mem_text}");
    a_template_holds_what_is_put_in(before, "{mem_text}"@, or_empty(state.text_at("mem_text"@)));
}

/// Each scan writes keys of its own: what was found, and how much of it.
pub proof fn a_scan_owns_its_keys(key: Seq<char>)
    ensures
        owned("scan_github"@).contains(key) <==> key == "gh_text"@ || key == "gh_open_prs"@ || key
            == "gh_open_issues"@,
        owned("scan_web"@).contains(key) <==> key == "web_text"@,
        owned("scan_calendar"@).contains(key) <==> key == "cal_text"@ || key == "cal_event_count"@,
        owned("scan_memory"@).contains(key) <==> key == "mem_text"@,
{
    reveal_strlit("scan_github");
    reveal_strlit("scan_web");
    reveal_strlit("scan_calendar");
    reveal_strlit("scan_memory");
    assert("scan_github"@.len() == 11 && "scan_web"@.len() == 8 && "scan_calendar"@.len() == 13
        && "scan_memory"@.len() == 11);
    assert("scan_github"@[5] == 'g' && "scan_memory"@[5] == 'm');
}

} // verus!
