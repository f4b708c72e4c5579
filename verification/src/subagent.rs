//! A task handed to a subagent: what it may use, and how its conclusion is put.

use vstd::prelude::*;

use crate::agent::ToolOutcome;
use crate::gate::{braced, extract_json};
use crate::json::{check_json, json_error, json_written_at, written_at};
use crate::model::Message;
use crate::text::{
    a_joined_text_holds_its_parts, begins, decimal, finishes, head, join, joined, lemma_occurs,
    lemma_occurs_within, occurs, same, signed, take_chars, to_decimal, to_signed, trim, trimmed,
    views,
};
use crate::turn::{build_system, Clock, system_parts};

verus! {

pub const DEFAULT_ITERATIONS: i32 = 5;

pub const MAX_ITERATIONS: i32 = 10;

pub const SUBAGENT_MAX_TOKENS: i32 = 2048;

/// How much of a task its announcement shows.
pub const PREVIEW_CHARS: usize = 400;

pub const SUBAGENT_RULES: &'static str =
    "\n\nYou are a subagent: do the one task below and answer with the conclusion only. Whoever asked cannot see your steps, and you cannot ask follow-up questions.";

pub const DELEGATE_TOOL: &'static str = "delegate_task";

pub const TODO_TOOL: &'static str = "todo_write";

pub open spec fn iterations_for(asked: Option<i32>) -> int {
    let n = match asked {
        Some(n) => n as int,
        None => DEFAULT_ITERATIONS as int,
    };
    if n < 1 {
        1
    } else if n > MAX_ITERATIONS {
        MAX_ITERATIONS as int
    } else {
        n
    }
}

/// What a subagent is told: who it is, and that it does this one task. It gets
/// no memory, no skills, no summary and no to-do list.
pub fn child_system(soul: &str, clock: &Clock, model: &str, provider: &str) -> (r: String)
    ensures
        r@ == joined(
            system_parts(soul@, *clock, model@, provider@, ""@, ""@, None, None),
            "\n"@,
        ) + SUBAGENT_RULES@,
{
    let mut t = build_system(soul, clock, model, provider, "", "", &None, &None);
    t.append(SUBAGENT_RULES);
    t
}

/// How many iterations a subagent gets.
pub fn iterations(asked: Option<i32>) -> (r: i32)
    ensures
        r == iterations_for(asked),
{
    let n: i32 = match asked {
        Some(n) => n,
        None => DEFAULT_ITERATIONS,
    };
    if n < 1 {
        1
    } else if n > MAX_ITERATIONS {
        MAX_ITERATIONS
    } else {
        n
    }
}

pub fn task_preview(task: &str) -> (r: String)
    ensures
        r@ == head(task@, PREVIEW_CHARS as nat),
{
    take_chars(task, PREVIEW_CHARS)
}

/// A session of the subagent's own; `millis` is the time.
pub fn child_session(millis: u64) -> (r: String)
    ensures
        r@ == "subagent:"@ + decimal(millis as nat),
{
    let mut t = "subagent:".to_owned();
    t.append(to_decimal(millis).as_str());
    t
}

pub open spec fn for_children(name: Seq<char>) -> bool {
    name != DELEGATE_TOOL@ && name != TODO_TOOL@
}

/// The tools among the first `k` that a subagent gets.
pub open spec fn child_names(names: Seq<Seq<char>>, k: int) -> Seq<Seq<char>>
    decreases k,
{
    if k <= 0 {
        Seq::empty()
    } else if for_children(names[k - 1]) {
        child_names(names, k - 1).push(names[k - 1])
    } else {
        child_names(names, k - 1)
    }
}

/// The tools of a subagent: those of its parent, but it can neither delegate nor
/// write the parent's list of things to do.
pub fn child_tools(names: &Vec<String>) -> (r: Vec<String>)
    ensures
        views(r@) == child_names(views(names@), names@.len() as int),
{
    let mut r: Vec<String> = Vec::new();
    let mut i: usize = 0;
    assert(views(r@) =~= Seq::<Seq<char>>::empty());
    while i < names.len()
        invariant
            i <= names@.len(),
            views(r@) == child_names(views(names@), i as int),
        decreases names@.len() - i,
    {
        let ghost before = views(r@);
        let name = &names[i];
        assert(views(names@)[i as int] == name@);
        if !same(name.as_str(), DELEGATE_TOOL) && !same(name.as_str(), TODO_TOOL) {
            r.push(name.clone());
            assert(views(r@) =~= before.push(name@));
        }
        i += 1;
    }
    r
}

/// A subagent has no way to hand work on, nor to write its parent's list of
/// things to do, whatever its parent has.
pub proof fn subagents_do_not_delegate(names: Seq<Seq<char>>, k: int)
    ensures
        forall|i: int|
            0 <= i < child_names(names, k).len() ==> {
                &&& (#[trigger] child_names(names, k)[i]) != DELEGATE_TOOL@
                &&& child_names(names, k)[i] != TODO_TOOL@
            },
    decreases k,
{
    if k > 0 {
        subagents_do_not_delegate(names, k - 1);
        let before = child_names(names, k - 1);
        let now = child_names(names, k);
        assert forall|i: int| 0 <= i < now.len() implies (#[trigger] now[i]) != DELEGATE_TOOL@
            && now[i] != TODO_TOOL@ by {
            if i < before.len() {
                assert(now[i] == before[i]);
            }
        }
    }
}

// ---- a result that has to fit a schema -------------------------------------

/// The JSON that a reply holds.
pub open spec fn candidate(reply: Seq<char>) -> Result<Seq<char>, Seq<char>> {
    match braced(reply) {
        None => Err("回复里没找到 JSON 对象"@),
        Some(json) => if json_error(json) is Some {
            Err("那段 JSON 解析不了"@)
        } else {
            Ok(json)
        },
    }
}

pub open spec fn text_result(r: Result<String, String>) -> Result<Seq<char>, Seq<char>> {
    match r {
        Ok(t) => Ok(t@),
        Err(e) => Err(e@),
    }
}

pub fn candidate_json(reply: &str) -> (r: Result<String, String>)
    ensures
        text_result(r) == candidate(reply@),
{
    match extract_json(reply) {
        None => Err("回复里没找到 JSON 对象".to_owned()),
        Some(json) => match check_json(json.as_str()) {
            Ok(_) => Ok(json),
            Err(_) => Err("那段 JSON 解析不了".to_owned()),
        },
    }
}

/// What a reply comes to as a result: its JSON, without white space, where it
/// has some and that fits. `fits` says whether the JSON that it holds fits.
pub open spec fn coerced(
    reply: Seq<char>,
    fits: Result<(), Seq<char>>,
    written: Option<Seq<char>>,
) -> Result<Seq<char>, Seq<char>> {
    match candidate(reply) {
        Err(why) => Err(why),
        Ok(json) => match fits {
            Err(why) => Err(why),
            Ok(_) => match written {
                Some(t) => Ok(t),
                None => Ok(json),
            },
        },
    }
}

pub open spec fn unit_result(r: Result<(), String>) -> Result<(), Seq<char>> {
    match r {
        Ok(_) => Ok(()),
        Err(e) => Err(e@),
    }
}

pub fn coerce_structured(reply: &str, fits: &Result<(), String>) -> (r: Result<String, String>)
    ensures
        text_result(r) == coerced(
            reply@,
            unit_result(*fits),
            match candidate(reply@) {
                Ok(json) => json_written_at(json, ""@),
                Err(_) => None,
            },
        ),
{
    let json = match candidate_json(reply) {
        Ok(j) => j,
        Err(why) => {
            return Err(why);
        },
    };
    match fits {
        Err(why) => Err(why.clone()),
        Ok(_) => match written_at(json.as_str(), "") {
            Some(t) => Ok(t),
            None => Ok(json),
        },
    }
}

pub open spec fn nudge_text(why: Seq<char>, schema: Seq<char>) -> Seq<char> {
    "上一次的结论不能用作结构化结果："@ + why
        + "\n请**只**回复符合下面 schema 的 JSON（不要代码块、不要多余解释）：\n"@ + schema
}

/// What the subagent is told when its result does not fit.
pub fn nudge(why: &str, schema: &str) -> (r: String)
    ensures
        r@ == nudge_text(why@, schema@),
{
    let mut t = "上一次的结论不能用作结构化结果：".to_owned();
    t.append(why);
    t.append("\n请**只**回复符合下面 schema 的 JSON（不要代码块、不要多余解释）：\n");
    t.append(schema);
    t
}

/// How a result that has to fit came out.
#[derive(Debug, Clone, PartialEq, Eq)]
pub enum Structured {
    /// No shape was asked for.
    Free,
    /// It fits, at the first or the second try.
    Fits(String),
    /// It did not fit twice; this is why the second one does not.
    Unfit(String),
    /// The second try did not come about.
    Broken(String),
}

pub enum NextTry {
    /// There is nothing more to ask.
    Settled(Structured),
    /// Ask once more, with these words, after what was said before.
    Again { history: Vec<Message>, words: String },
}

/// After the first reply. `first` is what it came to, where a schema was given;
/// `messages` is everything that was said in the first run. A second run goes on
/// from there, so that the subagent sees what it wrote.
pub fn after_first(
    first: Option<Result<String, String>>,
    messages: Vec<Message>,
    schema: &str,
) -> (r: NextTry)
    ensures
        match first {
            None => r == NextTry::Settled(Structured::Free),
            Some(Ok(json)) => r == NextTry::Settled(Structured::Fits(json)),
            Some(Err(why)) => r matches NextTry::Again { history, words } && history == messages
                && words@ == nudge_text(why@, schema@),
        },
{
    match first {
        None => NextTry::Settled(Structured::Free),
        Some(Ok(json)) => NextTry::Settled(Structured::Fits(json)),
        Some(Err(why)) => NextTry::Again { history: messages, words: nudge(why.as_str(), schema) },
    }
}

/// After the second reply, which is the last: it came to something, or it could
/// not be had.
pub fn after_second(second: Result<Result<String, String>, String>) -> (r: Structured)
    ensures
        r == match second {
            Ok(Ok(json)) => Structured::Fits(json),
            Ok(Err(again)) => Structured::Unfit(again),
            Err(e) => Structured::Broken(e),
        },
{
    match second {
        Ok(Ok(json)) => Structured::Fits(json),
        Ok(Err(again)) => Structured::Unfit(again),
        Err(e) => Structured::Broken(e),
    }
}

// ---- the conclusion --------------------------------------------------------

pub open spec fn tool_notes(calls: Seq<ToolOutcome>) -> Seq<Seq<char>> {
    calls.map_values(
        |c: ToolOutcome|
            if c.succeeded() {
                c.name@
            } else {
                c.name@ + "（失败）"@
            },
    )
}

pub open spec fn finding(reply: Seq<char>, structured: Structured) -> Seq<char> {
    let text = match structured {
        Structured::Free => trimmed(reply),
        Structured::Fits(json) => json@,
        Structured::Unfit(again) => trimmed(reply) + "\n（结构化结果两次都没通过校验："@ + again@
            + "；上面是它的原始文字）"@,
        Structured::Broken(e) => trimmed(reply) + "\n（结构化重试没跑成："@ + e@ + "）"@,
    };
    if text.len() == 0 {
        "（子代理没有给出结论。）"@
    } else {
        text
    }
}

/// What the parent gets: the finding, and what it rests on.
pub open spec fn conclusion(
    reply: Seq<char>,
    structured: Structured,
    calls: Seq<ToolOutcome>,
    iterations: int,
) -> Seq<char> {
    finding(reply, structured) + if calls.len() == 0 {
        Seq::empty()
    } else {
        "\n（子代理跑了 "@ + signed(iterations) + " 轮，用了："@ + joined(tool_notes(calls), "、"@)
            + "）"@
    }
}

fn notes_of(calls: &Vec<ToolOutcome>) -> (r: Vec<String>)
    ensures
        views(r@) == tool_notes(calls@),
{
    let ghost all = tool_notes(calls@);
    let mut r: Vec<String> = Vec::new();
    let mut i: usize = 0;
    assert(views(r@) =~= all.take(0));
    while i < calls.len()
        invariant
            i <= calls@.len(),
            all == tool_notes(calls@),
            views(r@) == all.take(i as int),
        decreases calls@.len() - i,
    {
        let ghost before = views(r@);
        let mut note = calls[i].name.clone();
        if !calls[i].ok() {
            note.append("（失败）");
        }
        assert(note@ =~= all[i as int]);
        r.push(note);
        assert(views(r@) =~= before.push(note@));
        assert(all.take(i + 1) =~= before.push(note@));
        i += 1;
    }
    assert(all.take(calls@.len() as int) =~= all);
    r
}

pub fn conclude(
    reply: &str,
    structured: &Structured,
    calls: &Vec<ToolOutcome>,
    iterations: i32,
) -> (r: String)
    ensures
        r@ == conclusion(reply@, *structured, calls@, iterations as int),
{
    let mut text = match structured {
        Structured::Free => trim(reply),
        Structured::Fits(json) => json.clone(),
        Structured::Unfit(again) => {
            let mut t = trim(reply);
            t.append("\n（结构化结果两次都没通过校验：");
            t.append(again.as_str());
            t.append("；上面是它的原始文字）");
            t
        },
        Structured::Broken(e) => {
            let mut t = trim(reply);
            t.append("\n（结构化重试没跑成：");
            t.append(e.as_str());
            t.append("）");
            t
        },
    };
    if text.as_str().unicode_len() == 0 {
        text = "（子代理没有给出结论。）".to_owned();
    }
    assert(text@ == finding(reply@, *structured));
    let ghost front = text@;
    if calls.len() > 0 {
        text.append("\n（子代理跑了 ");
        text.append(to_signed(iterations as i64).as_str());
        text.append(" 轮，用了：");
        text.append(join(&notes_of(calls), "、").as_str());
        text.append("）");
        assert(text@ =~= front + ("\n（子代理跑了 "@ + signed(iterations as int) + " 轮，用了："@
            + joined(tool_notes(calls@), "、"@) + "）"@));
    } else {
        assert(text@ =~= front + Seq::empty());
    }
    text
}

/// A conclusion always says something.
pub proof fn a_conclusion_says_something(
    reply: Seq<char>,
    structured: Structured,
    calls: Seq<ToolOutcome>,
    iterations: int,
)
    ensures
        conclusion(reply, structured, calls, iterations).len() > 0,
{
    reveal_strlit("（子代理没有给出结论。）");
    assert("（子代理没有给出结论。）"@.len() == 12);
}

// ---- what a subagent may and says ------------------------------------------

/// A subagent gets as many iterations as were asked for, within one and ten; five
/// where nothing was asked.
pub proof fn iterations_are_held_within_bounds(n: i32)
    ensures
        1 <= iterations_for(Some(n)) <= 10,
        1 <= n <= 10 ==> iterations_for(Some(n)) == n,
        n < 1 ==> iterations_for(Some(n)) == 1,
        n > 10 ==> iterations_for(Some(n)) == 10,
        iterations_for(None) == 5,
{
}

/// A subagent has every tool of its parent, in the same order, but for handing on
/// and for the to-do list.
pub proof fn a_subagent_keeps_the_other_tools(names: Seq<Seq<char>>, name: Seq<char>)
    ensures
        child_names(Seq::empty(), 0).len() == 0,
        child_names(names.push(name), names.len() as int + 1) == if name == "delegate_task"@ || name
            == "todo_write"@ {
            child_names(names, names.len() as int)
        } else {
            child_names(names, names.len() as int).push(name)
        },
{
    lemma_child_front(names, names.push(name), names.len() as int);
}

proof fn lemma_child_front(a: Seq<Seq<char>>, b: Seq<Seq<char>>, k: int)
    requires
        0 <= k <= a.len() <= b.len(),
        forall|i: int| 0 <= i < a.len() ==> #[trigger] a[i] == b[i],
    ensures
        child_names(a, k) == child_names(b, k),
    decreases k,
{
    if k > 0 {
        lemma_child_front(a, b, k - 1);
        assert(a[k - 1] == b[k - 1]);
    }
}

/// A structured conclusion is the object of the reply, and it is taken only where it
/// is JSON and fits; what does not fit is told.
pub proof fn only_what_fits_is_taken(
    reply: Seq<char>,
    fits: Result<(), Seq<char>>,
    written: Option<Seq<char>>,
)
    ensures
        coerced(reply, fits, written) is Ok <==> braced(reply) is Some && json_error(
            braced(reply)->0,
        ) is None && fits is Ok,
        candidate(reply) matches Ok(json) ==> braced(reply) == Some(json),
        candidate(reply) is Ok && fits is Err ==> coerced(reply, fits, written) == Err::<
            Seq<char>,
            Seq<char>,
        >(fits->Err_0),
        candidate(reply) is Ok && fits is Ok && written is Some ==> coerced(reply, fits, written)
            == Ok::<Seq<char>, Seq<char>>(written->0),
        candidate(reply) is Ok && fits is Ok && written is None ==> coerced(reply, fits, written)
            == candidate(reply),
        candidate(reply) is Err ==> coerced(reply, fits, written) == candidate(reply),
{
}

/// The second try is told why the first did not do, and what was asked for.
pub proof fn a_nudge_says_why(why: Seq<char>, schema: Seq<char>)
    ensures
        occurs(nudge_text(why, schema), why),
        finishes(nudge_text(why, schema), schema),
{
    let a = "上一次的结论不能用作结构化结果："@;
    let b = "\n请**只**回复符合下面 schema 的 JSON（不要代码块、不要多余解释）：\n"@;
    let all = nudge_text(why, schema);
    lemma_occurs(a, why, b + schema);
    assert(all =~= a + why + (b + schema));
    lemma_occurs(a + why + b, schema, Seq::empty());
    assert(all =~= (a + why + b) + schema + Seq::<char>::empty());
}

/// Each call has its note, in its order, and a failure is marked as one.
pub proof fn every_call_has_its_note(calls: Seq<ToolOutcome>, i: int)
    requires
        0 <= i < calls.len(),
    ensures
        tool_notes(calls).len() == calls.len(),
        calls[i].succeeded() ==> tool_notes(calls)[i] == calls[i].name@,
        !calls[i].succeeded() ==> tool_notes(calls)[i] == calls[i].name@ + "（失败）"@,
{
}

/// What a subagent found is what it replied, or the structured result where one was
/// asked for and fits; where it does not fit, the reply stands with the reason.
pub proof fn a_finding_is_what_was_said(reply: Seq<char>, json: String, why: String)
    requires
        trimmed(reply).len() > 0,
    ensures
        finding(reply, Structured::Free) == trimmed(reply),
        json@.len() > 0 ==> finding(reply, Structured::Fits(json)) == json@,
        begins(finding(reply, Structured::Unfit(why)), trimmed(reply)),
        occurs(finding(reply, Structured::Unfit(why)), why@),
        begins(finding(reply, Structured::Broken(why)), trimmed(reply)),
        occurs(finding(reply, Structured::Broken(why)), why@),
{
    let t = trimmed(reply);
    let none = Seq::<char>::empty();
    let a = "\n（结构化结果两次都没通过校验："@;
    let b = "；上面是它的原始文字）"@;
    let x = t + a + why@ + b;
    lemma_occurs(none, t, a + why@ + b);
    assert(x =~= none + t + (a + why@ + b));
    lemma_occurs(t + a, why@, b);
    let c = "\n（结构化重试没跑成："@;
    let d = "）"@;
    let y = t + c + why@ + d;
    lemma_occurs(none, t, c + why@ + d);
    assert(y =~= none + t + (c + why@ + d));
    lemma_occurs(t + c, why@, d);
}

/// A conclusion starts with the finding, and names every tool that was used and how
/// many rounds it took.
pub proof fn a_conclusion_names_its_tools(
    reply: Seq<char>,
    structured: Structured,
    calls: Seq<ToolOutcome>,
    iterations: int,
    i: int,
)
    requires
        0 <= i < calls.len(),
    ensures
        begins(conclusion(reply, structured, calls, iterations), finding(reply, structured)),
        occurs(conclusion(reply, structured, calls, iterations), signed(iterations)),
        occurs(conclusion(reply, structured, calls, iterations), tool_notes(calls)[i]),
        conclusion(reply, structured, Seq::empty(), iterations) == finding(reply, structured),
{
    let f = finding(reply, structured);
    let all = conclusion(reply, structured, calls, iterations);
    let notes = tool_notes(calls);
    let list = joined(notes, "、"@);
    let a = "\n（子代理跑了 "@;
    let n = signed(iterations);
    let b = " 轮，用了："@;
    let c = "）"@;
    lemma_occurs(Seq::empty(), f, a + n + b + list + c);
    assert(all =~= Seq::<char>::empty() + f + (a + n + b + list + c));
    lemma_occurs(f + a, n, b + list + c);
    assert(all =~= (f + a) + n + (b + list + c));
    lemma_occurs(f + a + n + b, list, c);
    assert(all =~= (f + a + n + b) + list + c);
    assert(notes =~= notes.take(i) + seq![notes[i]] + notes.skip(i + 1));
    a_joined_text_holds_its_parts(notes.take(i), notes[i], notes.skip(i + 1), "、"@);
    lemma_occurs_within(all, list, notes[i]);
    assert(conclusion(reply, structured, Seq::empty(), iterations) =~= f);
}

} // verus!
