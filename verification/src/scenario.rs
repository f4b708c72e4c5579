//! Scripted cases: what a model is made to say, and what is expected to come of
//! it.

use vstd::prelude::*;

use crate::config::{chosen, default_settings, Settings, SettingsV};
use crate::text::{
    begins, contains, decimal, is_blank_text, lemma_decimal, line_views, lines, occurs, opt_text,
    replace, replaced, starts_with, to_decimal, trim, trimmed, views,
};

verus! {

/// What the model says next: a text, or a call of a tool with arguments that are
/// rendered JSON.
#[derive(Debug, Clone, PartialEq, Eq)]
pub enum ScriptedResponse {
    Text(String),
    ToolUse { name: String, args: String },
}

/// The script of one turn.
#[derive(Debug, Clone, PartialEq, Eq)]
pub struct TurnScript {
    pub message: String,
    pub session_id: Option<String>,
    /// What the memory gate says, as rendered JSON.
    pub gate: Option<String>,
    pub responses: Vec<ScriptedResponse>,
    /// A change of configuration that follows the turn, as rendered JSON.
    pub apply_patch: Option<String>,
    pub interrupt_after_deltas: Option<usize>,
}

/// Settings that a case sets for itself.
#[derive(Debug, Clone, PartialEq, Eq)]
pub struct SettingsOverrides {
    pub history_turns: Option<i32>,
    pub consolidate_every: Option<i32>,
    pub retrieval_top_k: Option<i32>,
    pub max_iterations: Option<i32>,
    pub graph_workflows: Option<bool>,
}

impl Default for SettingsOverrides {
    fn default() -> (r: SettingsOverrides)
        ensures
            r.history_turns is None,
            r.consolidate_every is None,
            r.retrieval_top_k is None,
            r.max_iterations is None,
            r.graph_workflows is None,
    {
        SettingsOverrides {
            history_turns: None,
            consolidate_every: None,
            retrieval_top_k: None,
            max_iterations: None,
            graph_workflows: None,
        }
    }
}

/// What is expected of a case. An empty list expects nothing.
#[derive(Debug, Clone, PartialEq, Eq)]
pub struct Expectations {
    pub reply_contains: Vec<String>,
    pub reply_not_contains: Vec<String>,
    /// The tools, in the order of their use.
    pub tools_used: Vec<String>,
    /// What some tool has to have put out.
    pub tool_output_contains: Vec<String>,
    pub gate: Option<String>,
    pub iterations: Option<i32>,
    pub consolidation_new_facts: Option<i32>,
    pub interrupted: Option<bool>,
    pub prompt_contains: Vec<String>,
    pub prompt_not_contains: Vec<String>,
    pub last_prompt_contains: Vec<String>,
    pub last_prompt_not_contains: Vec<String>,
}

impl Expectations {
    /// Nothing is expected.
    pub open spec fn is_open(self) -> bool {
        &&& self.reply_contains@.len() == 0
        &&& self.reply_not_contains@.len() == 0
        &&& self.tools_used@.len() == 0
        &&& self.tool_output_contains@.len() == 0
        &&& self.gate is None
        &&& self.iterations is None
        &&& self.consolidation_new_facts is None
        &&& self.interrupted is None
        &&& self.prompt_contains@.len() == 0
        &&& self.prompt_not_contains@.len() == 0
        &&& self.last_prompt_contains@.len() == 0
        &&& self.last_prompt_not_contains@.len() == 0
    }
}

impl Default for Expectations {
    fn default() -> (r: Expectations)
        ensures
            r.is_open(),
    {
        Expectations {
            reply_contains: Vec::new(),
            reply_not_contains: Vec::new(),
            tools_used: Vec::new(),
            tool_output_contains: Vec::new(),
            gate: None,
            iterations: None,
            consolidation_new_facts: None,
            interrupted: None,
            prompt_contains: Vec::new(),
            prompt_not_contains: Vec::new(),
            last_prompt_contains: Vec::new(),
            last_prompt_not_contains: Vec::new(),
        }
    }
}

/// A case: the script of one turn in its own fields, or of several in `turns`.
#[derive(Debug, Clone, PartialEq, Eq)]
pub struct Scenario {
    pub id: String,
    pub description: String,
    pub message: Option<String>,
    pub gate: Option<String>,
    pub responses: Vec<ScriptedResponse>,
    pub interrupt_after_deltas: Option<usize>,
    pub turns: Option<Vec<TurnScript>>,
    pub expect: Expectations,
    pub settings: SettingsOverrides,
    /// Files that are there when the case starts, by relative path.
    pub files: Vec<(String, String)>,
    /// A program without which the case is skipped.
    pub prereq: Option<String>,
}

/// A case that a judge marks.
#[derive(Debug, Clone, PartialEq, Eq)]
pub struct JudgeScenario {
    pub id: String,
    pub description: String,
    pub message: String,
    pub judge: JudgeSpec,
}

#[derive(Debug, Clone, PartialEq, Eq)]
pub struct JudgeSpec {
    /// What counts most in this case.
    pub criteria: String,
}

// ---- copies ----------------------------------------------------------------

fn copy_opt(t: &Option<String>) -> (r: Option<String>)
    ensures
        r == *t,
{
    match t {
        Some(s) => Some(s.clone()),
        None => None,
    }
}

fn copy_response(s: &ScriptedResponse) -> (r: ScriptedResponse)
    ensures
        r == *s,
{
    match s {
        ScriptedResponse::Text(t) => ScriptedResponse::Text(t.clone()),
        ScriptedResponse::ToolUse { name, args } => ScriptedResponse::ToolUse {
            name: name.clone(),
            args: args.clone(),
        },
    }
}

fn copy_responses(s: &Vec<ScriptedResponse>) -> (r: Vec<ScriptedResponse>)
    ensures
        r@ == s@,
{
    let mut r: Vec<ScriptedResponse> = Vec::new();
    let mut i: usize = 0;
    while i < s.len()
        invariant
            i <= s@.len(),
            r@ == s@.take(i as int),
        decreases s@.len() - i,
    {
        r.push(copy_response(&s[i]));
        assert(r@ =~= s@.take(i + 1));
        i += 1;
    }
    assert(s@.take(s@.len() as int) =~= s@);
    r
}

/// Two scripts of one turn that say the same.
pub open spec fn same_script(a: TurnScript, b: TurnScript) -> bool {
    &&& a.message == b.message
    &&& a.session_id == b.session_id
    &&& a.gate == b.gate
    &&& a.responses@ == b.responses@
    &&& a.apply_patch == b.apply_patch
    &&& a.interrupt_after_deltas == b.interrupt_after_deltas
}

fn copy_turn(t: &TurnScript) -> (r: TurnScript)
    ensures
        same_script(r, *t),
{
    TurnScript {
        message: t.message.clone(),
        session_id: copy_opt(&t.session_id),
        gate: copy_opt(&t.gate),
        responses: copy_responses(&t.responses),
        apply_patch: copy_opt(&t.apply_patch),
        interrupt_after_deltas: t.interrupt_after_deltas,
    }
}

// ---- the script ------------------------------------------------------------

/// Something that the scripted model says.
#[derive(Debug, Clone, PartialEq, Eq)]
pub enum Line {
    Text(String),
    ToolUse { id: String, name: String, args: String },
}

pub enum LineV {
    Text(Seq<char>),
    ToolUse { id: Seq<char>, name: Seq<char>, args: Seq<char> },
}

impl View for Line {
    type V = LineV;

    open spec fn view(&self) -> LineV {
        match self {
            Line::Text(t) => LineV::Text(t@),
            Line::ToolUse { id, name, args } => LineV::ToolUse { id: id@, name: name@, args: args@ },
        }
    }
}

pub open spec fn script_views(lines: Seq<Line>) -> Seq<LineV> {
    lines.map_values(|l: Line| l@)
}

/// What a memory gate without a script says. It is no JSON, so it opens.
pub const NO_GATE: &'static str = "（场景没给 gate 脚本 —— 门会失败开放）";

pub open spec fn gate_line(gate: Option<Seq<char>>) -> LineV {
    match gate {
        Some(g) => LineV::Text(g),
        None => LineV::Text(NO_GATE@),
    }
}

pub open spec fn response_line(response: ScriptedResponse, index: nat) -> LineV {
    match response {
        ScriptedResponse::Text(t) => LineV::Text(t@),
        ScriptedResponse::ToolUse { name, args } => LineV::ToolUse {
            id: "tu_"@ + decimal(index),
            name: name@,
            args: args@,
        },
    }
}

pub open spec fn response_lines(responses: Seq<ScriptedResponse>) -> Seq<LineV> {
    Seq::new(responses.len(), |i: int| response_line(responses[i], i as nat))
}

/// What the model says in the first `k` turns: in each, the memory gate, then the rest.
pub open spec fn script_of(turns: Seq<TurnScript>, k: int) -> Seq<LineV>
    decreases k,
{
    if k <= 0 {
        Seq::empty()
    } else {
        script_of(turns, k - 1).push(gate_line(opt_text(turns[k - 1].gate))) + response_lines(
            turns[k - 1].responses@,
        )
    }
}

fn line_of(response: &ScriptedResponse, index: usize) -> (r: Line)
    ensures
        r@ == response_line(*response, index as nat),
{
    match response {
        ScriptedResponse::Text(t) => Line::Text(t.clone()),
        ScriptedResponse::ToolUse { name, args } => {
            let mut id = "tu_".to_owned();
            id.append(to_decimal(index as u64).as_str());
            Line::ToolUse { id, name: name.clone(), args: args.clone() }
        },
    }
}

fn push_turn(script: &mut Vec<Line>, turn: &TurnScript)
    ensures
        script_views(final(script)@) == script_views(old(script)@).push(
            gate_line(opt_text(turn.gate)),
        ) + response_lines(turn.responses@),
{
    let ghost front = script_views(script@).push(gate_line(opt_text(turn.gate)));
    let ghost all = response_lines(turn.responses@);
    let first = match &turn.gate {
        Some(g) => Line::Text(g.clone()),
        None => Line::Text(NO_GATE.to_owned()),
    };
    script.push(first);
    assert(script_views(script@) =~= front);
    let mut i: usize = 0;
    assert(script_views(script@) =~= front + all.take(0));
    while i < turn.responses.len()
        invariant
            i <= turn.responses@.len(),
            all == response_lines(turn.responses@),
            script_views(script@) == front + all.take(i as int),
        decreases turn.responses@.len() - i,
    {
        let ghost before = script_views(script@);
        let line = line_of(&turn.responses[i], i);
        assert(line@ == all[i as int]);
        script.push(line);
        assert(script_views(script@) =~= before.push(line@));
        assert(front + all.take(i + 1) =~= before.push(line@));
        i += 1;
    }
    assert(all.take(turn.responses@.len() as int) =~= all);
}

impl Scenario {
    /// The scripts of the turns: those of `turns`, or the one that the case
    /// itself holds.
    pub fn effective_turns(&self) -> (r: Vec<TurnScript>)
        ensures
            match self.turns {
                Some(turns) => r@.len() == turns@.len() && forall|i: int|
                    0 <= i < turns@.len() ==> same_script(#[trigger] r@[i], turns@[i]),
                None => {
                    &&& r@.len() == 1
                    &&& r@[0].message@ == match self.message {
                        Some(m) => m@,
                        None => ""@,
                    }
                    &&& r@[0].session_id is None
                    &&& r@[0].gate == self.gate
                    &&& r@[0].responses@ == self.responses@
                    &&& r@[0].apply_patch is None
                    &&& r@[0].interrupt_after_deltas == self.interrupt_after_deltas
                },
            },
    {
        let mut r: Vec<TurnScript> = Vec::new();
        match &self.turns {
            Some(turns) => {
                let mut i: usize = 0;
                while i < turns.len()
                    invariant
                        i <= turns@.len(),
                        r@.len() == i,
                        forall|k: int| 0 <= k < i ==> same_script(#[trigger] r@[k], turns@[k]),
                    decreases turns@.len() - i,
                {
                    r.push(copy_turn(&turns[i]));
                    i += 1;
                }
            },
            None => {
                r.push(
                    TurnScript {
                        message: match &self.message {
                            Some(m) => m.clone(),
                            None => "".to_owned(),
                        },
                        session_id: None,
                        gate: copy_opt(&self.gate),
                        responses: copy_responses(&self.responses),
                        apply_patch: None,
                        interrupt_after_deltas: self.interrupt_after_deltas,
                    },
                );
            },
        }
        r
    }
}

/// Everything that the scripted model says, in order.
pub fn build_script(turns: &Vec<TurnScript>) -> (r: Vec<Line>)
    ensures
        script_views(r@) == script_of(turns@, turns@.len() as int),
{
    let mut r: Vec<Line> = Vec::new();
    let mut i: usize = 0;
    assert(script_views(r@) =~= Seq::<LineV>::empty());
    while i < turns.len()
        invariant
            i <= turns@.len(),
            script_views(r@) == script_of(turns@, i as int),
        decreases turns@.len() - i,
    {
        push_turn(&mut r, &turns[i]);
        i += 1;
    }
    r
}

// ---- the setting -----------------------------------------------------------

pub open spec fn case_settings(home: Seq<char>, o: SettingsOverrides) -> SettingsV {
    SettingsV {
        home,
        api_key: Some("eval-dummy"@),
        history_turns: chosen(o.history_turns, 12),
        consolidate_every: chosen(o.consolidate_every, 6),
        retrieval_top_k: chosen(o.retrieval_top_k, 4),
        max_iterations: chosen(o.max_iterations, 10),
        graph_workflows: chosen(o.graph_workflows, false),
        ..default_settings()
    }
}

fn or_number(v: Option<i32>, other: i32) -> (r: i32)
    ensures
        r == chosen(v, other),
{
    match v {
        Some(n) => n,
        None => other,
    }
}

/// The settings under which a case runs.
pub fn settings_for(home: &str, o: &SettingsOverrides) -> (r: Settings)
    ensures
        r.values() == case_settings(home@, *o),
{
    let mut s = Settings::default();
    s.home = home.to_owned();
    s.api_key = Some("eval-dummy".to_owned());
    s.history_turns = or_number(o.history_turns, 12);
    s.consolidate_every = or_number(o.consolidate_every, 6);
    s.retrieval_top_k = or_number(o.retrieval_top_k, 4);
    s.max_iterations = or_number(o.max_iterations, 10);
    s.graph_workflows = match o.graph_workflows {
        Some(b) => b,
        None => false,
    };
    s
}

/// The contents of a file that a case brings; a path that may lead out of the
/// home is refused.
pub fn case_file(home: &str, relative: &str, content: &str) -> (r: Result<String, String>)
    ensures
        if occurs(relative@, ".."@) {
            r matches Err(e) && e@ == "用例文件路径不允许越出 home："@ + relative@
        } else {
            r matches Ok(t) && t@ == replaced(content@, "{{home}}"@, home@)
        },
{
    if contains(relative, "..") {
        let mut why = "用例文件路径不允许越出 home：".to_owned();
        why.append(relative);
        return Err(why);
    }
    proof {
        reveal_strlit("{{home}}");
    }
    Ok(replace(content, "{{home}}", home))
}

// ---- files of cases --------------------------------------------------------

/// A line that holds a case: it is neither blank nor a comment.
pub open spec fn holds_case(line: Seq<char>) -> bool {
    trimmed(line).len() > 0 && !begins(trimmed(line), "#"@)
}

/// The cases among the first `k` lines, each with the number of its line.
pub open spec fn cases_among(lines: Seq<Seq<char>>, k: int) -> Seq<(int, Seq<char>)>
    decreases k,
{
    if k <= 0 {
        Seq::empty()
    } else if holds_case(lines[k - 1]) {
        cases_among(lines, k - 1).push((k, trimmed(lines[k - 1])))
    } else {
        cases_among(lines, k - 1)
    }
}

pub open spec fn case_views(cases: Seq<(usize, String)>) -> Seq<(int, Seq<char>)> {
    cases.map_values(|c: (usize, String)| (c.0 as int, c.1@))
}

/// The lines of a file that hold cases.
pub fn case_lines(text: &str) -> (r: Vec<(usize, String)>)
    ensures
        case_views(r@) == cases_among(line_views(text@), line_views(text@).len() as int),
{
    let all = lines(text);
    let n: usize = all.len();
    let ghost seen = views(all@);
    let mut r: Vec<(usize, String)> = Vec::new();
    let mut i: usize = 0;
    assert(case_views(r@) =~= Seq::<(int, Seq<char>)>::empty());
    while i < n
        invariant
            i <= n,
            n == all@.len(),
            seen == views(all@),
            case_views(r@) == cases_among(seen, i as int),
        decreases n - i,
    {
        let ghost before = case_views(r@);
        assert(seen[i as int] == all@[i as int]@);
        let line = trim(all[i].as_str());
        if !is_blank_text(all[i].as_str()) && !starts_with(line.as_str(), "#") {
            r.push((i + 1, line));
            assert(case_views(r@) =~= before.push(((i + 1) as int, line@)));
        }
        i += 1;
    }
    assert(seen.len() == n);
    r
}

pub fn bad_case(file: &str, line: usize, why: &str) -> (r: String)
    ensures
        r@ == file@ + " 第 "@ + decimal(line as nat) + " 行不是合法用例："@ + why@,
{
    let mut t = file.to_owned();
    t.append(" 第 ");
    t.append(to_decimal(line as u64).as_str());
    t.append(" 行不是合法用例：");
    t.append(why);
    t
}

// ---- what a case runs on ---------------------------------------------------

/// The script of a turn is what triage says, and then each response in its order; a
/// turn's script follows those of the turns before it.
pub proof fn a_script_follows_its_turns(turns: Seq<TurnScript>, turn: TurnScript, i: int)
    ensures
        ({
            let n = turns.len() as int;
            let before = script_of(turns, n);
            let now = script_of(turns.push(turn), n + 1);
            &&& script_of(turns, 0).len() == 0
            &&& before.is_prefix_of(now)
            &&& now.len() == before.len() + 1 + turn.responses@.len()
            &&& turn.gate matches Some(g) ==> now[before.len() as int] == LineV::Text(g@)
            &&& 0 <= i < turn.responses@.len() ==> match turn.responses@[i] {
                ScriptedResponse::Text(t) => now[before.len() + 1 + i] == LineV::Text(t@),
                ScriptedResponse::ToolUse { name, args } => {
                    &&& now[before.len() + 1 + i] is ToolUse
                    &&& now[before.len() + 1 + i]->name == name@
                    &&& now[before.len() + 1 + i]->args == args@
                },
            }
        }),
{
    let n = turns.len() as int;
    lemma_script_front(turns, turns.push(turn), n);
    let before = script_of(turns, n);
    let now = script_of(turns.push(turn), n + 1);
    assert(now == before.push(gate_line(opt_text(turn.gate))) + response_lines(turn.responses@));
    assert(now.take(before.len() as int) =~= before);
}

proof fn lemma_script_front(a: Seq<TurnScript>, b: Seq<TurnScript>, k: int)
    requires
        0 <= k <= a.len() <= b.len(),
        forall|i: int| 0 <= i < a.len() ==> #[trigger] a[i] == b[i],
    ensures
        script_of(a, k) == script_of(b, k),
    decreases k,
{
    if k > 0 {
        lemma_script_front(a, b, k - 1);
        assert(a[k - 1] == b[k - 1]);
    }
}

/// The tool calls of a turn have ids that differ.
pub proof fn scripted_calls_have_ids_of_their_own(
    name: String,
    args: String,
    m: nat,
    n: nat,
)
    requires
        m != n,
    ensures
        response_line(ScriptedResponse::ToolUse { name, args }, m) != response_line(
            ScriptedResponse::ToolUse { name, args },
            n,
        ),
{
    lemma_decimal(m);
    lemma_decimal(n);
    let p = "tu_"@;
    if p + decimal(m) == p + decimal(n) {
        assert(decimal(m) =~= (p + decimal(m)).skip(p.len() as int));
        assert(decimal(n) =~= (p + decimal(n)).skip(p.len() as int));
    }
}

/// A case runs on the defaults, in a home of its own, but for what it overrides.
pub proof fn a_case_overrides_what_it_names(home: Seq<char>, o: SettingsOverrides)
    ensures
        ({
            let s = case_settings(home, o);
            let d = default_settings();
            &&& s.home == home
            &&& o.history_turns matches Some(n) ==> s.history_turns == n
            &&& o.history_turns is None ==> s.history_turns == d.history_turns
            &&& o.consolidate_every matches Some(n) ==> s.consolidate_every == n
            &&& o.consolidate_every is None ==> s.consolidate_every == d.consolidate_every
            &&& o.retrieval_top_k matches Some(n) ==> s.retrieval_top_k == n
            &&& o.retrieval_top_k is None ==> s.retrieval_top_k == d.retrieval_top_k
            &&& o.max_iterations matches Some(n) ==> s.max_iterations == n
            &&& o.max_iterations is None ==> s.max_iterations == d.max_iterations
            &&& o.graph_workflows matches Some(b) ==> s.graph_workflows == b
            &&& o.graph_workflows is None ==> !s.graph_workflows
            &&& !s.exec_enabled && s.exec_allow.len() == 0
            &&& s.max_tokens == d.max_tokens && s.provider == d.provider
        }),
{
}

/// Every line of a file is a case, but for blank ones and remarks; each is found under
/// its own line number, counted from one.
pub proof fn every_line_is_a_case(lines: Seq<Seq<char>>, line: Seq<char>)
    ensures
        ({
            let n = lines.len() as int;
            let before = cases_among(lines, n);
            let now = cases_among(lines.push(line), n + 1);
            &&& cases_among(lines, 0).len() == 0
            &&& trimmed(line).len() > 0 && trimmed(line)[0] != '#' ==> now == before.push(
                (n + 1, trimmed(line)),
            )
            &&& trimmed(line).len() == 0 ==> now == before
            &&& trimmed(line).len() > 0 && trimmed(line)[0] == '#' ==> now == before
        }),
{
    lemma_cases_front(lines, lines.push(line), lines.len() as int);
    reveal_strlit("#");
    let t = trimmed(line);
    if begins(t, "#"@) {
        assert(t.subrange(0, 1)[0] == t[0]);
    }
    if t.len() > 0 && t[0] == '#' {
        assert(t.subrange(0, 1) =~= "#"@);
    }
}

proof fn lemma_cases_front(a: Seq<Seq<char>>, b: Seq<Seq<char>>, k: int)
    requires
        0 <= k <= a.len() <= b.len(),
        forall|i: int| 0 <= i < a.len() ==> #[trigger] a[i] == b[i],
    ensures
        cases_among(a, k) == cases_among(b, k),
    decreases k,
{
    if k > 0 {
        lemma_cases_front(a, b, k - 1);
        assert(a[k - 1] == b[k - 1]);
    }
}

} // verus!
