//! Judging what a case came to: by what was expected of it, or by a judge.

use vstd::prelude::*;

use crate::gate::{braced, extract_json};
use crate::json::{
    check_json, int_at, json_error, json_int_at, json_text_at, json_written_at, text_at, written_at,
};
use crate::model::{BlockV, ContentBlock, CreateRequest, MessageV};
use crate::scenario::{Expectations, JudgeScenario};
use crate::text::{
    begins, contains, decimal, finishes, join, joined, lemma_occurs, occurs, opt_text, replace,
    replaced, same, signed, to_decimal, to_signed, views,
};
use crate::turn::GateKind;

verus! {

/// What a case came to.
#[derive(Debug, Clone, PartialEq, Eq)]
pub struct TurnOutput {
    pub reply: String,
    pub tools: Vec<String>,
    pub iterations: i32,
    /// What was decided about memory, turn by turn.
    pub gates: Vec<Option<String>>,
    pub interrupted: bool,
    pub consolidation_new_facts: i32,
    pub tool_outputs: Vec<String>,
    /// Everything that the model was asked, in order.
    pub prompts: Vec<String>,
}

impl TurnOutput {
    pub open spec fn is_blank(self) -> bool {
        &&& self.reply@ == Seq::<char>::empty()
        &&& self.tools@.len() == 0
        &&& self.iterations == 0
        &&& self.gates@.len() == 0
        &&& !self.interrupted
        &&& self.consolidation_new_facts == 0
        &&& self.tool_outputs@.len() == 0
        &&& self.prompts@.len() == 0
    }
}

impl Default for TurnOutput {
    fn default() -> (r: TurnOutput)
        ensures
            r.is_blank(),
    {
        let r = TurnOutput {
            reply: String::new(),
            tools: Vec::new(),
            iterations: 0,
            gates: Vec::new(),
            interrupted: false,
            consolidation_new_facts: 0,
            tool_outputs: Vec::new(),
            prompts: Vec::new(),
        };
        assert(r.reply@ =~= Seq::<char>::empty());
        r
    }
}

// ---- words for what differs ------------------------------------------------

/// A text as it is quoted in a message.
pub uninterp spec fn quoted(text: Seq<char>) -> Seq<char>;

/// `str` written with `{:?}`: in double quotes, with what cannot be shown
/// escaped. The result depends on the text alone.
#[verifier::external_body]
fn quote(text: &str) -> (r: String)
    ensures
        r@ == quoted(text@),
{
    format!("{text:?}")
}

/// The first `k` of a list, each on a line of its own.
pub open spec fn list_lines(items: Seq<Seq<char>>, k: int) -> Seq<char>
    decreases k,
{
    if k <= 0 {
        "[\n"@
    } else {
        list_lines(items, k - 1) + "    "@ + quoted(items[k - 1]) + ",\n"@
    }
}

pub open spec fn list_text(items: Seq<Seq<char>>) -> Seq<char> {
    if items.len() == 0 {
        "[]"@
    } else {
        list_lines(items, items.len() as int) + "]"@
    }
}

fn write_list(items: &Vec<String>) -> (r: String)
    ensures
        r@ == list_text(views(items@)),
{
    if items.len() == 0 {
        return "[]".to_owned();
    }
    let mut t = "[\n".to_owned();
    let mut i: usize = 0;
    while i < items.len()
        invariant
            i <= items@.len(),
            t@ == list_lines(views(items@), i as int),
        decreases items@.len() - i,
    {
        assert(views(items@)[i as int] == items@[i as int]@);
        t.append("    ");
        t.append(quote(items[i].as_str()).as_str());
        t.append(",\n");
        i += 1;
    }
    assert(views(items@).len() == items@.len());
    t.append("]");
    t
}

pub open spec fn option_text(t: Option<Seq<char>>) -> Seq<char> {
    match t {
        Some(s) => "Some("@ + quoted(s) + ")"@,
        None => "None"@,
    }
}

fn write_option(t: &Option<String>) -> (r: String)
    ensures
        r@ == option_text(opt_text(*t)),
{
    match t {
        Some(s) => {
            let mut r = "Some(".to_owned();
            r.append(quote(s.as_str()).as_str());
            r.append(")");
            r
        },
        None => "None".to_owned(),
    }
}

pub open spec fn switch_text(b: bool) -> Seq<char> {
    if b {
        "true"@
    } else {
        "false"@
    }
}

fn write_switch(b: bool) -> (r: &'static str)
    ensures
        r@ == switch_text(b),
{
    if b {
        "true"
    } else {
        "false"
    }
}

// ---- the verdict -----------------------------------------------------------

/// The complaints about what the first `k` should have been in a text.
pub open spec fn missing(
    place: Seq<char>,
    text: Seq<char>,
    needles: Seq<Seq<char>>,
    k: int,
) -> Seq<Seq<char>>
    decreases k,
{
    if k <= 0 {
        Seq::empty()
    } else if occurs(text, needles[k - 1]) {
        missing(place, text, needles, k - 1)
    } else {
        missing(place, text, needles, k - 1).push(
            place + "应包含 "@ + quoted(needles[k - 1]) + "，实际："@ + quoted(text),
        )
    }
}

/// The complaints about what the first `k` should not have been in a text.
pub open spec fn unwanted(
    place: Seq<char>,
    text: Seq<char>,
    banned: Seq<Seq<char>>,
    k: int,
) -> Seq<Seq<char>>
    decreases k,
{
    if k <= 0 {
        Seq::empty()
    } else if occurs(text, banned[k - 1]) {
        unwanted(place, text, banned, k - 1).push(
            place + "不应包含 "@ + quoted(banned[k - 1]) + "，实际："@ + quoted(text),
        )
    } else {
        unwanted(place, text, banned, k - 1)
    }
}

fn push_fail(fails: &mut Vec<String>, fail: String)
    ensures
        views(final(fails)@) == views(old(fails)@).push(fail@),
{
    fails.push(fail);
    assert(views(fails@) =~= views(old(fails)@).push(fail@));
}

fn complaint(place: &str, verb: &str, needle: &str, text: &str) -> (r: String)
    ensures
        r@ == place@ + verb@ + quoted(needle@) + "，实际："@ + quoted(text@),
{
    let mut t = place.to_owned();
    t.append(verb);
    t.append(quote(needle).as_str());
    t.append("，实际：");
    t.append(quote(text).as_str());
    t
}

fn check_contains(place: &str, text: &str, needles: &Vec<String>, fails: &mut Vec<String>)
    ensures
        views(final(fails)@) == views(old(fails)@) + missing(
            place@,
            text@,
            views(needles@),
            needles@.len() as int,
        ),
{
    let ghost front = views(fails@);
    let mut i: usize = 0;
    assert(views(fails@) =~= front + missing(place@, text@, views(needles@), 0));
    while i < needles.len()
        invariant
            i <= needles@.len(),
            views(fails@) == front + missing(place@, text@, views(needles@), i as int),
        decreases needles@.len() - i,
    {
        let ghost before = views(fails@);
        let needle = needles[i].as_str();
        assert(views(needles@)[i as int] == needle@);
        if !contains(text, needle) {
            let fail = complaint(place, "应包含 ", needle, text);
            push_fail(fails, fail);
            assert(before.push(fail@) =~= front + missing(
                place@,
                text@,
                views(needles@),
                i as int,
            ).push(fail@));
        }
        i += 1;
    }
}

fn check_not_contains(place: &str, text: &str, banned: &Vec<String>, fails: &mut Vec<String>)
    ensures
        views(final(fails)@) == views(old(fails)@) + unwanted(
            place@,
            text@,
            views(banned@),
            banned@.len() as int,
        ),
{
    let ghost front = views(fails@);
    let mut i: usize = 0;
    assert(views(fails@) =~= front + unwanted(place@, text@, views(banned@), 0));
    while i < banned.len()
        invariant
            i <= banned@.len(),
            views(fails@) == front + unwanted(place@, text@, views(banned@), i as int),
        decreases banned@.len() - i,
    {
        let ghost before = views(fails@);
        let needle = banned[i].as_str();
        assert(views(banned@)[i as int] == needle@);
        if contains(text, needle) {
            let fail = complaint(place, "不应包含 ", needle, text);
            push_fail(fails, fail);
            assert(before.push(fail@) =~= front + unwanted(
                place@,
                text@,
                views(banned@),
                i as int,
            ).push(fail@));
        }
        i += 1;
    }
}

pub open spec fn one_if(wrong: bool, fail: Seq<char>) -> Seq<Seq<char>> {
    if wrong {
        seq![fail]
    } else {
        Seq::empty()
    }
}

pub open spec fn tools_fail(want: Seq<Seq<char>>, got: Seq<Seq<char>>) -> Seq<Seq<char>> {
    one_if(
        want.len() > 0 && got != want,
        "工具序列应为 "@ + list_text(want) + "，实际 "@ + list_text(got),
    )
}

pub open spec fn some_holds(outputs: Seq<Seq<char>>, needle: Seq<char>) -> bool {
    exists|i: int| 0 <= i < outputs.len() && occurs(#[trigger] outputs[i], needle)
}

pub open spec fn output_fails(
    needles: Seq<Seq<char>>,
    outputs: Seq<Seq<char>>,
    k: int,
) -> Seq<Seq<char>>
    decreases k,
{
    if k <= 0 {
        Seq::empty()
    } else if some_holds(outputs, needles[k - 1]) {
        output_fails(needles, outputs, k - 1)
    } else {
        output_fails(needles, outputs, k - 1).push(
            "没有工具的输出包含 "@ + quoted(needles[k - 1]) + "（实际输出 "@ + list_text(outputs)
                + "）"@,
        )
    }
}

pub open spec fn gate_fail(want: Option<Seq<char>>, got: Option<Seq<char>>) -> Seq<Seq<char>> {
    match want {
        Some(g) => one_if(
            got != Some(g),
            "检索门应为 "@ + quoted(g) + "，实际 "@ + option_text(got),
        ),
        None => Seq::empty(),
    }
}

/// The turns among the first `k` that did not decide as wanted.
pub open spec fn turn_fails(
    want: Option<Seq<char>>,
    gates: Seq<Option<String>>,
    k: int,
) -> Seq<Seq<char>>
    decreases k,
{
    if k <= 0 {
        Seq::empty()
    } else {
        turn_fails(want, gates, k - 1) + gate_fail(want, opt_text(gates[k - 1]))
    }
}

/// Every turn is held against what is wanted. A case without a turn decided
/// nothing.
pub open spec fn gates_fail(want: Option<Seq<char>>, gates: Seq<Option<String>>) -> Seq<
    Seq<char>,
> {
    if gates.len() == 0 {
        gate_fail(want, None)
    } else {
        turn_fails(want, gates, gates.len() as int)
    }
}

pub open spec fn iterations_fail(want: Option<i32>, got: i32) -> Seq<Seq<char>> {
    match want {
        Some(n) => one_if(
            got != n,
            "应为 "@ + signed(n as int) + " 轮，实际 "@ + signed(got as int) + " 轮"@,
        ),
        None => Seq::empty(),
    }
}

pub open spec fn facts_fail(want: Option<i32>, got: i32) -> Seq<Seq<char>> {
    match want {
        Some(n) => one_if(
            got != n,
            "consolidation 应提炼 "@ + signed(n as int) + " 条，实际 "@ + signed(got as int)
                + " 条"@,
        ),
        None => Seq::empty(),
    }
}

pub open spec fn interrupted_fail(want: Option<bool>, got: bool) -> Seq<Seq<char>> {
    match want {
        Some(b) => one_if(
            got != b,
            "interrupted 应为 "@ + switch_text(b) + "，实际 "@ + switch_text(got),
        ),
        None => Seq::empty(),
    }
}

pub open spec fn all_prompts(out: TurnOutput) -> Seq<char> {
    joined(views(out.prompts@), "\n---\n"@)
}

pub open spec fn last_fails(expect: Expectations, out: TurnOutput) -> Seq<Seq<char>> {
    if out.prompts@.len() > 0 {
        let last = out.prompts@.last()@;
        missing(
            "最后请求"@,
            last,
            views(expect.last_prompt_contains@),
            expect.last_prompt_contains@.len() as int,
        ) + unwanted(
            "最后请求"@,
            last,
            views(expect.last_prompt_not_contains@),
            expect.last_prompt_not_contains@.len() as int,
        )
    } else {
        one_if(expect.last_prompt_contains@.len() > 0, "没有任何模型请求可断言"@)
    }
}

/// Everything that is wrong with what a case came to.
pub open spec fn verdict(expect: Expectations, out: TurnOutput) -> Seq<Seq<char>> {
    missing(
        "回复"@,
        out.reply@,
        views(expect.reply_contains@),
        expect.reply_contains@.len() as int,
    ) + unwanted(
        "回复"@,
        out.reply@,
        views(expect.reply_not_contains@),
        expect.reply_not_contains@.len() as int,
    ) + tools_fail(views(expect.tools_used@), views(out.tools@)) + output_fails(
        views(expect.tool_output_contains@),
        views(out.tool_outputs@),
        expect.tool_output_contains@.len() as int,
    ) + gates_fail(opt_text(expect.gate), out.gates@) + iterations_fail(
        expect.iterations,
        out.iterations,
    ) + facts_fail(expect.consolidation_new_facts, out.consolidation_new_facts) + interrupted_fail(
        expect.interrupted,
        out.interrupted,
    ) + missing(
        "模型请求"@,
        all_prompts(out),
        views(expect.prompt_contains@),
        expect.prompt_contains@.len() as int,
    ) + unwanted(
        "模型请求"@,
        all_prompts(out),
        views(expect.prompt_not_contains@),
        expect.prompt_not_contains@.len() as int,
    ) + last_fails(expect, out)
}

fn push_if(fails: &mut Vec<String>, wrong: bool, fail: String)
    ensures
        views(final(fails)@) == views(old(fails)@) + one_if(wrong, fail@),
{
    if wrong {
        push_fail(fails, fail);
        assert(views(fails@) =~= views(old(fails)@) + one_if(wrong, fail@));
    } else {
        assert(views(fails@) =~= views(old(fails)@) + one_if(wrong, fail@));
    }
}

fn same_list(a: &Vec<String>, b: &Vec<String>) -> (r: bool)
    ensures
        r == (views(a@) == views(b@)),
{
    if a.len() != b.len() {
        assert(views(a@).len() != views(b@).len());
        return false;
    }
    let mut i: usize = 0;
    while i < a.len()
        invariant
            i <= a@.len(),
            a@.len() == b@.len(),
            forall|k: int| 0 <= k < i ==> (#[trigger] a@[k])@ == b@[k]@,
        decreases a@.len() - i,
    {
        if !same(a[i].as_str(), b[i].as_str()) {
            assert(views(a@)[i as int] != views(b@)[i as int]);
            return false;
        }
        i += 1;
    }
    assert(views(a@) =~= views(b@));
    true
}

fn any_holds(outputs: &Vec<String>, needle: &str) -> (r: bool)
    ensures
        r == some_holds(views(outputs@), needle@),
{
    let mut i: usize = 0;
    while i < outputs.len()
        invariant
            i <= outputs@.len(),
            forall|k: int| 0 <= k < i ==> !occurs(#[trigger] views(outputs@)[k], needle@),
        decreases outputs@.len() - i,
    {
        assert(views(outputs@)[i as int] == outputs@[i as int]@);
        if contains(outputs[i].as_str(), needle) {
            return true;
        }
        i += 1;
    }
    false
}

fn check_outputs(needles: &Vec<String>, outputs: &Vec<String>, fails: &mut Vec<String>)
    ensures
        views(final(fails)@) == views(old(fails)@) + output_fails(
            views(needles@),
            views(outputs@),
            needles@.len() as int,
        ),
{
    let ghost front = views(fails@);
    let mut i: usize = 0;
    assert(views(fails@) =~= front + output_fails(views(needles@), views(outputs@), 0));
    while i < needles.len()
        invariant
            i <= needles@.len(),
            views(fails@) == front + output_fails(views(needles@), views(outputs@), i as int),
        decreases needles@.len() - i,
    {
        let ghost before = views(fails@);
        assert(views(needles@)[i as int] == needles@[i as int]@);
        if !any_holds(outputs, needles[i].as_str()) {
            let mut fail = "没有工具的输出包含 ".to_owned();
            fail.append(quote(needles[i].as_str()).as_str());
            fail.append("（实际输出 ");
            fail.append(write_list(outputs).as_str());
            fail.append("）");
            push_fail(fails, fail);
            assert(before.push(fail@) =~= front + output_fails(
                views(needles@),
                views(outputs@),
                i as int,
            ).push(fail@));
        }
        i += 1;
    }
}

fn check_tools(want: &Vec<String>, got: &Vec<String>, fails: &mut Vec<String>)
    ensures
        views(final(fails)@) == views(old(fails)@) + tools_fail(views(want@), views(got@)),
{
    let wrong = want.len() > 0 && !same_list(got, want);
    let mut fail = "工具序列应为 ".to_owned();
    fail.append(write_list(want).as_str());
    fail.append("，实际 ");
    fail.append(write_list(got).as_str());
    assert(views(want@).len() == want@.len());
    push_if(fails, wrong, fail);
}

fn check_gate(want: &Option<String>, got: &Option<String>, fails: &mut Vec<String>)
    ensures
        views(final(fails)@) == views(old(fails)@) + gate_fail(opt_text(*want), opt_text(*got)),
{
    match want {
        Some(g) => {
            let right = match got {
                Some(h) => same(h.as_str(), g.as_str()),
                None => false,
            };
            let mut fail = "检索门应为 ".to_owned();
            fail.append(quote(g.as_str()).as_str());
            fail.append("，实际 ");
            fail.append(write_option(got).as_str());
            push_if(fails, !right, fail);
        },
        None => {
            assert(views(fails@) =~= views(old(fails)@) + Seq::empty());
        },
    }
}

fn check_gates(want: &Option<String>, gates: &Vec<Option<String>>, fails: &mut Vec<String>)
    ensures
        views(final(fails)@) == views(old(fails)@) + gates_fail(opt_text(*want), gates@),
{
    if gates.len() == 0 {
        check_gate(want, &None, fails);
        return ;
    }
    let ghost front = views(fails@);
    let mut i: usize = 0;
    assert(views(fails@) =~= front + turn_fails(opt_text(*want), gates@, 0));
    while i < gates.len()
        invariant
            i <= gates@.len(),
            views(fails@) == front + turn_fails(opt_text(*want), gates@, i as int),
        decreases gates@.len() - i,
    {
        check_gate(want, &gates[i], fails);
        assert(views(fails@) =~= front + turn_fails(opt_text(*want), gates@, i + 1));
        i += 1;
    }
}

fn check_number(want: Option<i32>, got: i32, before: &str, after: &str, fails: &mut Vec<String>)
    ensures
        views(final(fails)@) == views(old(fails)@) + match want {
            Some(n) => one_if(
                got != n,
                before@ + signed(n as int) + after@ + "，实际 "@ + signed(got as int) + after@,
            ),
            None => Seq::empty(),
        },
{
    match want {
        Some(n) => {
            let mut fail = before.to_owned();
            fail.append(to_signed(n as i64).as_str());
            fail.append(after);
            fail.append("，实际 ");
            fail.append(to_signed(got as i64).as_str());
            fail.append(after);
            push_if(fails, got != n, fail);
        },
        None => {
            assert(views(fails@) =~= views(old(fails)@) + Seq::empty());
        },
    }
}

fn check_switch(want: Option<bool>, got: bool, fails: &mut Vec<String>)
    ensures
        views(final(fails)@) == views(old(fails)@) + interrupted_fail(want, got),
{
    match want {
        Some(b) => {
            let mut fail = "interrupted 应为 ".to_owned();
            fail.append(write_switch(b));
            fail.append("，实际 ");
            fail.append(write_switch(got));
            push_if(fails, got != b, fail);
        },
        None => {
            assert(views(fails@) =~= views(old(fails)@) + Seq::empty());
        },
    }
}

fn check_last(expect: &Expectations, out: &TurnOutput, fails: &mut Vec<String>)
    ensures
        views(final(fails)@) == views(old(fails)@) + last_fails(*expect, *out),
{
    let n: usize = out.prompts.len();
    if n > 0 {
        let last = out.prompts[n - 1].as_str();
        check_contains("最后请求", last, &expect.last_prompt_contains, fails);
        check_not_contains("最后请求", last, &expect.last_prompt_not_contains, fails);
        assert(views(fails@) =~= views(old(fails)@) + last_fails(*expect, *out));
    } else {
        push_if(
            fails,
            expect.last_prompt_contains.len() > 0,
            "没有任何模型请求可断言".to_owned(),
        );
    }
}

/// Holds what a case came to against what was expected of it. Nothing comes back
/// where all of it holds.
pub fn score(expect: &Expectations, out: &TurnOutput) -> (r: Vec<String>)
    ensures
        views(r@) == verdict(*expect, *out),
{
    let mut fails: Vec<String> = Vec::new();
    let all = join(&out.prompts, "\n---\n");
    check_contains("回复", out.reply.as_str(), &expect.reply_contains, &mut fails);
    check_not_contains("回复", out.reply.as_str(), &expect.reply_not_contains, &mut fails);
    check_tools(&expect.tools_used, &out.tools, &mut fails);
    check_outputs(&expect.tool_output_contains, &out.tool_outputs, &mut fails);
    check_gates(&expect.gate, &out.gates, &mut fails);
    let ghost front = views(fails@);
    check_number(expect.iterations, out.iterations, "应为 ", " 轮", &mut fails);
    proof {
        reveal_strlit(" 轮，实际 ");
        reveal_strlit(" 轮");
        reveal_strlit("，实际 ");
        reveal_strlit(" 条，实际 ");
        reveal_strlit(" 条");
        assert(" 轮，实际 "@ =~= " 轮"@ + "，实际 "@);
        assert(" 条，实际 "@ =~= " 条"@ + "，实际 "@);
        lemma_number_fail(expect.iterations, out.iterations);
        lemma_facts_fail(expect.consolidation_new_facts, out.consolidation_new_facts);
    }
    assert(views(fails@) == front + iterations_fail(expect.iterations, out.iterations));
    check_number(
        expect.consolidation_new_facts,
        out.consolidation_new_facts,
        "consolidation 应提炼 ",
        " 条",
        &mut fails,
    );
    assert(views(fails@) == front + iterations_fail(expect.iterations, out.iterations) + facts_fail(
        expect.consolidation_new_facts,
        out.consolidation_new_facts,
    ));
    check_switch(expect.interrupted, out.interrupted, &mut fails);
    check_contains("模型请求", all.as_str(), &expect.prompt_contains, &mut fails);
    check_not_contains("模型请求", all.as_str(), &expect.prompt_not_contains, &mut fails);
    check_last(expect, out, &mut fails);
    assert(views(fails@) =~= verdict(*expect, *out));
    fails
}

proof fn lemma_number_fail(want: Option<i32>, got: i32)
    requires
        " 轮，实际 "@ == " 轮"@ + "，实际 "@,
    ensures
        iterations_fail(want, got) == match want {
            Some(n) => one_if(
                got != n,
                "应为 "@ + signed(n as int) + " 轮"@ + "，实际 "@ + signed(got as int) + " 轮"@,
            ),
            None => Seq::empty(),
        },
{
    if want is Some {
        let n = want->0;
        assert("应为 "@ + signed(n as int) + " 轮，实际 "@ =~= "应为 "@ + signed(n as int) + " 轮"@
            + "，实际 "@);
    }
}

proof fn lemma_facts_fail(want: Option<i32>, got: i32)
    requires
        " 条，实际 "@ == " 条"@ + "，实际 "@,
    ensures
        facts_fail(want, got) == match want {
            Some(n) => one_if(
                got != n,
                "consolidation 应提炼 "@ + signed(n as int) + " 条"@ + "，实际 "@ + signed(
                    got as int,
                ) + " 条"@,
            ),
            None => Seq::empty(),
        },
{
    if want is Some {
        let n = want->0;
        assert("consolidation 应提炼 "@ + signed(n as int) + " 条，实际 "@ =~= "consolidation 应提炼 "@
            + signed(n as int) + " 条"@ + "，实际 "@);
    }
}

/// All that was expected holds.
pub open spec fn holds(expect: Expectations, out: TurnOutput) -> bool {
    &&& forall|i: int|
        0 <= i < expect.reply_contains@.len() ==> occurs(
            out.reply@,
            (#[trigger] expect.reply_contains@[i])@,
        )
    &&& forall|i: int|
        0 <= i < expect.reply_not_contains@.len() ==> !occurs(
            out.reply@,
            (#[trigger] expect.reply_not_contains@[i])@,
        )
    &&& expect.tools_used@.len() > 0 ==> views(out.tools@) == views(expect.tools_used@)
    &&& forall|i: int|
        0 <= i < expect.tool_output_contains@.len() ==> some_holds(
            views(out.tool_outputs@),
            (#[trigger] expect.tool_output_contains@[i])@,
        )
    &&& expect.gate is Some ==> {
        &&& out.gates@.len() > 0
        &&& forall|i: int|
            0 <= i < out.gates@.len() ==> opt_text(#[trigger] out.gates@[i]) == opt_text(
                expect.gate,
            )
    }
    &&& expect.iterations is Some ==> out.iterations == expect.iterations->0
    &&& expect.consolidation_new_facts is Some ==> out.consolidation_new_facts
        == expect.consolidation_new_facts->0
    &&& expect.interrupted is Some ==> out.interrupted == expect.interrupted->0
    &&& forall|i: int|
        0 <= i < expect.prompt_contains@.len() ==> occurs(
            all_prompts(out),
            (#[trigger] expect.prompt_contains@[i])@,
        )
    &&& forall|i: int|
        0 <= i < expect.prompt_not_contains@.len() ==> !occurs(
            all_prompts(out),
            (#[trigger] expect.prompt_not_contains@[i])@,
        )
    &&& expect.last_prompt_contains@.len() > 0 ==> out.prompts@.len() > 0
    &&& out.prompts@.len() > 0 ==> forall|i: int|
        0 <= i < expect.last_prompt_contains@.len() ==> occurs(
            out.prompts@.last()@,
            (#[trigger] expect.last_prompt_contains@[i])@,
        )
    &&& out.prompts@.len() > 0 ==> forall|i: int|
        0 <= i < expect.last_prompt_not_contains@.len() ==> !occurs(
            out.prompts@.last()@,
            (#[trigger] expect.last_prompt_not_contains@[i])@,
        )
}

proof fn lemma_missing(place: Seq<char>, text: Seq<char>, needles: Seq<String>, k: int)
    requires
        0 <= k <= needles.len(),
    ensures
        missing(place, text, views(needles), k).len() == 0 <==> forall|i: int|
            0 <= i < k ==> occurs(text, (#[trigger] needles[i])@),
    decreases k,
{
    if k > 0 {
        lemma_missing(place, text, needles, k - 1);
        assert(views(needles)[k - 1] == needles[k - 1]@);
    }
}

proof fn lemma_unwanted(place: Seq<char>, text: Seq<char>, banned: Seq<String>, k: int)
    requires
        0 <= k <= banned.len(),
    ensures
        unwanted(place, text, views(banned), k).len() == 0 <==> forall|i: int|
            0 <= i < k ==> !occurs(text, (#[trigger] banned[i])@),
    decreases k,
{
    if k > 0 {
        lemma_unwanted(place, text, banned, k - 1);
        assert(views(banned)[k - 1] == banned[k - 1]@);
    }
}

proof fn lemma_outputs(needles: Seq<String>, outputs: Seq<Seq<char>>, k: int)
    requires
        0 <= k <= needles.len(),
    ensures
        output_fails(views(needles), outputs, k).len() == 0 <==> forall|i: int|
            0 <= i < k ==> some_holds(outputs, (#[trigger] needles[i])@),
    decreases k,
{
    if k > 0 {
        lemma_outputs(needles, outputs, k - 1);
        assert(views(needles)[k - 1] == needles[k - 1]@);
    }
}

proof fn lemma_gates(want: Option<Seq<char>>, gates: Seq<Option<String>>, k: int)
    requires
        0 <= k <= gates.len(),
    ensures
        turn_fails(want, gates, k).len() == 0 <==> (want is Some ==> forall|i: int|
            0 <= i < k ==> opt_text(#[trigger] gates[i]) == want),
    decreases k,
{
    if k > 0 {
        lemma_gates(want, gates, k - 1);
    }
}

/// A case passes exactly where all that was expected of it holds.
pub proof fn a_pass_means_that_all_holds(expect: Expectations, out: TurnOutput)
    ensures
        verdict(expect, out).len() == 0 <==> holds(expect, out),
{
    lemma_missing(
        "回复"@,
        out.reply@,
        expect.reply_contains@,
        expect.reply_contains@.len() as int,
    );
    lemma_unwanted(
        "回复"@,
        out.reply@,
        expect.reply_not_contains@,
        expect.reply_not_contains@.len() as int,
    );
    lemma_outputs(
        expect.tool_output_contains@,
        views(out.tool_outputs@),
        expect.tool_output_contains@.len() as int,
    );
    lemma_missing(
        "模型请求"@,
        all_prompts(out),
        expect.prompt_contains@,
        expect.prompt_contains@.len() as int,
    );
    lemma_unwanted(
        "模型请求"@,
        all_prompts(out),
        expect.prompt_not_contains@,
        expect.prompt_not_contains@.len() as int,
    );
    lemma_gates(opt_text(expect.gate), out.gates@, out.gates@.len() as int);
    assert(views(expect.tools_used@).len() == expect.tools_used@.len());
    if out.prompts@.len() > 0 {
        lemma_missing(
            "最后请求"@,
            out.prompts@.last()@,
            expect.last_prompt_contains@,
            expect.last_prompt_contains@.len() as int,
        );
        lemma_unwanted(
            "最后请求"@,
            out.prompts@.last()@,
            expect.last_prompt_not_contains@,
            expect.last_prompt_not_contains@.len() as int,
        );
    }
}

// ---- watching a turn -------------------------------------------------------

/// Something that a turn tells while it runs.
#[derive(Debug, Clone, PartialEq, Eq)]
pub enum Seen {
    TextDelta,
    Consolidated { new_facts: i32 },
    ToolCompleted { output: String },
    TurnCompleted {
        reply: String,
        iterations: i32,
        interrupted: bool,
        tools: Vec<String>,
        gate: Option<GateKind>,
    },
    Other,
}

/// What the watcher does next.
#[derive(Debug, Clone, Copy, PartialEq, Eq, Structural)]
pub enum Watch {
    Continue,
    /// Interrupt the turn now.
    Interrupt,
    /// The turn is over.
    Done,
}

/// A watcher of the turns of a case. It counts the pieces of text of the turn
/// that runs.
pub struct Watcher {
    pub output: TurnOutput,
    pub deltas: usize,
}

pub open spec fn gate_word(gate: GateKind) -> Seq<char> {
    match gate {
        GateKind::Retrieve => "retrieve"@,
        GateKind::Skip => "skip"@,
    }
}

impl Watcher {
    pub fn new() -> (r: Watcher)
        ensures
            r.output.is_blank(),
            r.deltas == 0,
    {
        Watcher { output: TurnOutput::default(), deltas: 0 }
    }

    /// The next turn starts.
    pub fn next_turn(&mut self)
        ensures
            final(self).deltas == 0,
            final(self).output == old(self).output,
    {
        self.deltas = 0;
    }

    /// The parts of the outcome that only the end of a turn sets.
    pub open spec fn same_end(self, other: Watcher) -> bool {
        &&& self.output.reply == other.output.reply
        &&& self.output.iterations == other.output.iterations
        &&& self.output.interrupted == other.output.interrupted
        &&& self.output.tools@ == other.output.tools@
        &&& self.output.gates@ == other.output.gates@
    }

    /// Takes note of what a turn tells. `interrupt_after` is the piece of text at
    /// which it is to be interrupted: exactly that one, so once.
    pub fn see(&mut self, seen: Seen, interrupt_after: Option<usize>) -> (r: Watch)
        requires
            old(self).deltas < usize::MAX,
            seen matches Seen::Consolidated { new_facts } ==> i32::MIN
                <= old(self).output.consolidation_new_facts + new_facts <= i32::MAX,
        ensures
            final(self).output.prompts == old(self).output.prompts,
            final(self).deltas == old(self).deltas + if seen is TextDelta {
                1int
            } else {
                0int
            },
            match seen {
                Seen::TextDelta => {
                    &&& final(self).same_end(*old(self))
                    &&& final(self).output.tool_outputs@ == old(self).output.tool_outputs@
                    &&& final(self).output.consolidation_new_facts
                        == old(self).output.consolidation_new_facts
                    &&& r == if interrupt_after == Some(final(self).deltas) {
                        Watch::Interrupt
                    } else {
                        Watch::Continue
                    }
                },
                Seen::Consolidated { new_facts } => {
                    &&& final(self).same_end(*old(self))
                    &&& final(self).output.tool_outputs@ == old(self).output.tool_outputs@
                    &&& final(self).output.consolidation_new_facts
                        == old(self).output.consolidation_new_facts + new_facts
                    &&& r == Watch::Continue
                },
                Seen::ToolCompleted { output } => {
                    &&& final(self).same_end(*old(self))
                    &&& final(self).output.tool_outputs@ == old(self).output.tool_outputs@.push(
                        output,
                    )
                    &&& final(self).output.consolidation_new_facts
                        == old(self).output.consolidation_new_facts
                    &&& r == Watch::Continue
                },
                Seen::TurnCompleted { reply, iterations, interrupted, tools, gate } => {
                    &&& final(self).output.reply == reply
                    &&& final(self).output.iterations == iterations
                    &&& final(self).output.interrupted == interrupted
                    &&& final(self).output.tools@ == old(self).output.tools@ + tools@
                    &&& final(self).output.gates@.len() == old(self).output.gates@.len() + 1
                    &&& final(self).output.gates@.drop_last() == old(self).output.gates@
                    &&& opt_text(final(self).output.gates@.last()) == match gate {
                        Some(g) => Some(gate_word(g)),
                        None => None,
                    }
                    &&& final(self).output.tool_outputs@ == old(self).output.tool_outputs@
                    &&& final(self).output.consolidation_new_facts
                        == old(self).output.consolidation_new_facts
                    &&& r == Watch::Done
                },
                Seen::Other => {
                    &&& final(self).same_end(*old(self))
                    &&& final(self).output.tool_outputs@ == old(self).output.tool_outputs@
                    &&& final(self).output.consolidation_new_facts
                        == old(self).output.consolidation_new_facts
                    &&& r == Watch::Continue
                },
            },
    {
        match seen {
            Seen::TextDelta => {
                self.deltas = self.deltas + 1;
                match interrupt_after {
                    Some(n) => if n == self.deltas {
                        Watch::Interrupt
                    } else {
                        Watch::Continue
                    },
                    None => Watch::Continue,
                }
            },
            Seen::Consolidated { new_facts } => {
                self.output.consolidation_new_facts = self.output.consolidation_new_facts
                    + new_facts;
                Watch::Continue
            },
            Seen::ToolCompleted { output } => {
                self.output.tool_outputs.push(output);
                Watch::Continue
            },
            Seen::TurnCompleted { reply, iterations, interrupted, tools, gate } => {
                self.output.reply = reply;
                self.output.iterations = iterations;
                self.output.interrupted = interrupted;
                let mut more = tools;
                self.output.tools.append(&mut more);
                let decided = match gate {
                    Some(GateKind::Retrieve) => Some("retrieve".to_owned()),
                    Some(GateKind::Skip) => Some("skip".to_owned()),
                    None => None,
                };
                self.output.gates.push(decided);
                assert(self.output.gates@.drop_last() =~= old(self).output.gates@);
                Watch::Done
            },
            Seen::Other => Watch::Continue,
        }
    }
}

// ---- what the model was asked ----------------------------------------------

pub open spec fn block_text(block: BlockV) -> Seq<char> {
    match block {
        BlockV::Text { text } => text,
        BlockV::ToolUse { id, name, input } => "[tool_use "@ + name + " "@ + input + "]"@,
        BlockV::ToolResult { tool_use_id, content } => "[tool_result "@ + content + "]"@,
    }
}

pub open spec fn blocks_text(blocks: Seq<BlockV>, k: int) -> Seq<char>
    decreases k,
{
    if k <= 0 {
        Seq::empty()
    } else {
        blocks_text(blocks, k - 1) + block_text(blocks[k - 1])
    }
}

pub open spec fn messages_text(messages: Seq<MessageV>, k: int) -> Seq<char>
    decreases k,
{
    if k <= 0 {
        Seq::empty()
    } else {
        messages_text(messages, k - 1) + "\n"@ + blocks_text(
            messages[k - 1].content,
            messages[k - 1].content.len() as int,
        )
    }
}

fn push_blocks(text: &mut String, blocks: &Vec<ContentBlock>)
    ensures
        final(text)@ == old(text)@ + blocks_text(
            crate::model::block_views(blocks@),
            blocks@.len() as int,
        ),
{
    let ghost front = text@;
    let ghost all = crate::model::block_views(blocks@);
    let mut i: usize = 0;
    assert(text@ =~= front + blocks_text(all, 0));
    while i < blocks.len()
        invariant
            i <= blocks@.len(),
            all == crate::model::block_views(blocks@),
            text@ == front + blocks_text(all, i as int),
        decreases blocks@.len() - i,
    {
        let ghost before = text@;
        assert(all[i as int] == blocks@[i as int]@);
        match &blocks[i] {
            ContentBlock::Text { text: t } => {
                text.append(t.as_str());
            },
            ContentBlock::ToolUse { id: _, name, input } => {
                text.append("[tool_use ");
                text.append(name.as_str());
                text.append(" ");
                text.append(input.as_str());
                text.append("]");
            },
            ContentBlock::ToolResult { tool_use_id: _, content } => {
                text.append("[tool_result ");
                text.append(content.as_str());
                text.append("]");
            },
        }
        assert(text@ =~= before + block_text(all[i as int]));
        assert(text@ =~= front + blocks_text(all, i + 1));
        i += 1;
    }
}

/// The whole of a request as one text.
pub fn render(request: &CreateRequest) -> (r: String)
    ensures
        r@ == match opt_text(request.system) {
            Some(s) => s,
            None => ""@,
        } + messages_text(
            crate::model::message_views(request.messages@),
            request.messages@.len() as int,
        ),
{
    let mut text = match &request.system {
        Some(s) => s.clone(),
        None => "".to_owned(),
    };
    let ghost front = text@;
    let ghost all = crate::model::message_views(request.messages@);
    let mut i: usize = 0;
    assert(text@ =~= front + messages_text(all, 0));
    while i < request.messages.len()
        invariant
            i <= request.messages@.len(),
            all == crate::model::message_views(request.messages@),
            text@ == front + messages_text(all, i as int),
        decreases request.messages@.len() - i,
    {
        text.append("\n");
        push_blocks(&mut text, &request.messages[i].content);
        assert(all[i as int] == request.messages@[i as int]@);
        assert(text@ =~= front + messages_text(all, i + 1));
        i += 1;
    }
    text
}

// ---- the tally -------------------------------------------------------------

#[derive(Debug, Clone, Copy, PartialEq, Eq, Structural)]
pub enum CaseResult {
    Passed,
    Failed,
    Skipped,
}

pub open spec fn count_of(results: Seq<CaseResult>, what: CaseResult, k: int) -> int
    decreases k,
{
    if k <= 0 {
        0
    } else {
        count_of(results, what, k - 1) + if results[k - 1] == what {
            1int
        } else {
            0int
        }
    }
}

/// How many cases passed, failed and were skipped.
#[derive(Debug, Clone, Copy, PartialEq, Eq, Structural)]
pub struct Tally {
    pub passed: usize,
    pub failed: usize,
    pub skipped: usize,
}

impl Tally {
    pub open spec fn counts(self, results: Seq<CaseResult>) -> bool {
        let n = results.len() as int;
        &&& self.passed == count_of(results, CaseResult::Passed, n)
        &&& self.failed == count_of(results, CaseResult::Failed, n)
        &&& self.skipped == count_of(results, CaseResult::Skipped, n)
    }

    pub fn of(results: &Vec<CaseResult>) -> (r: Tally)
        ensures
            r.counts(results@),
            r.passed + r.failed + r.skipped == results@.len(),
    {
        let mut t = Tally { passed: 0, failed: 0, skipped: 0 };
        let mut i: usize = 0;
        while i < results.len()
            invariant
                i <= results@.len(),
                t.passed == count_of(results@, CaseResult::Passed, i as int),
                t.failed == count_of(results@, CaseResult::Failed, i as int),
                t.skipped == count_of(results@, CaseResult::Skipped, i as int),
                t.passed + t.failed + t.skipped == i,
            decreases results@.len() - i,
        {
            match results[i] {
                CaseResult::Passed => {
                    t.passed = t.passed + 1;
                },
                CaseResult::Failed => {
                    t.failed = t.failed + 1;
                },
                CaseResult::Skipped => {
                    t.skipped = t.skipped + 1;
                },
            }
            i += 1;
        }
        t
    }

    /// The line under the table.
    pub fn line(&self) -> (r: String)
        requires
            self.passed + self.failed + self.skipped <= usize::MAX,
        ensures
            r@ == "确定性 eval："@ + decimal(self.passed as nat) + " 通过 / "@ + decimal(
                self.failed as nat,
            ) + " 失败 / "@ + decimal(self.skipped as nat) + " 跳过 / 共 "@ + decimal(
                (self.passed + self.failed + self.skipped) as nat,
            ),
    {
        let mut t = "确定性 eval：".to_owned();
        t.append(to_decimal(self.passed as u64).as_str());
        t.append(" 通过 / ");
        t.append(to_decimal(self.failed as u64).as_str());
        t.append(" 失败 / ");
        t.append(to_decimal(self.skipped as u64).as_str());
        t.append(" 跳过 / 共 ");
        t.append(to_decimal((self.passed + self.failed + self.skipped) as u64).as_str());
        t
    }

    /// What the run exits with: the number of failures, so that nothing but a
    /// clean run lets a release through.
    pub fn exit_code(&self) -> (r: i32)
        requires
            self.failed <= i32::MAX,
        ensures
            r == self.failed,
    {
        self.failed as i32
    }
}

proof fn lemma_count_zero(results: Seq<CaseResult>, what: CaseResult, k: int)
    requires
        0 <= k <= results.len(),
    ensures
        count_of(results, what, k) >= 0,
        count_of(results, what, k) == 0 <==> forall|i: int|
            0 <= i < k ==> #[trigger] results[i] != what,
    decreases k,
{
    if k > 0 {
        lemma_count_zero(results, what, k - 1);
    }
}

/// A release goes through exactly where no case has failed.
pub proof fn only_a_clean_run_passes(tally: Tally, results: Seq<CaseResult>)
    requires
        tally.counts(results),
    ensures
        tally.failed == 0 <==> forall|i: int|
            0 <= i < results.len() ==> #[trigger] results[i] != CaseResult::Failed,
{
    lemma_count_zero(results, CaseResult::Failed, results.len() as int);
}

// ---- the judge -------------------------------------------------------------

pub const RUBRIC: &'static str =
    "You are a strict, fair judge scoring an AI assistant's reply.\n\nThe user asked:\n{task}\n\nThe assistant replied:\n{reply}\n\nScore how well the reply serves the user's request on a 0-10 scale:\n- 9-10: fully addresses the request, correct, concise, honest about any limits.\n- 5-8: mostly addresses it, minor gaps, padding, or small errors.\n- 1-4: partial, vague, or partly wrong.\n- 0: ignores the request, or fabricates an action it never took.\n\nJudge criteria for this case:\n{criteria}\n\nReply with ONLY a JSON object, no prose:\n{{\"score\": <int 0-10>, \"reason\": \"<one short sentence>\"}}";

pub const JUDGE_MAX_TOKENS: i32 = 600;

pub open spec fn rubric_for(task: Seq<char>, reply: Seq<char>, criteria: Seq<char>) -> Seq<char> {
    replaced(
        replaced(replaced(RUBRIC@, "{task}"@, task), "{reply}"@, reply),
        "{criteria}"@,
        criteria,
    )
}

/// What a judge is asked about a reply.
pub fn grade_request(model: &str, scenario: &JudgeScenario, reply: &str) -> (r: CreateRequest)
    ensures
        r.asks(
            model@,
            None,
            rubric_for(scenario.message@, reply@, scenario.judge.criteria@),
            JUDGE_MAX_TOKENS as int,
        ),
{
    proof {
        reveal_strlit("{task}");
        reveal_strlit("{reply}");
        reveal_strlit("{criteria}");
    }
    let a = replace(RUBRIC, "{task}", scenario.message.as_str());
    let b = replace(a.as_str(), "{reply}", reply);
    let prompt = replace(b.as_str(), "{criteria}", scenario.judge.criteria.as_str());
    CreateRequest::question(model, None, prompt, JUDGE_MAX_TOKENS)
}

pub open spec fn mark_view(r: Result<(i64, String), String>) -> Result<(i64, Seq<char>), Seq<char>> {
    match r {
        Ok(m) => Ok((m.0, m.1@)),
        Err(e) => Err(e@),
    }
}

/// The mark that these fields give; `whole` is the document they stand in.
pub open spec fn mark_of(
    score: Option<i64>,
    reason: Option<Seq<char>>,
    whole: Seq<char>,
) -> Result<(i64, Seq<char>), Seq<char>> {
    match score {
        Some(n) => Ok(
            (
                n,
                match reason {
                    Some(r) => r,
                    None => ""@,
                },
            ),
        ),
        None => Err("裁判的 JSON 里没有 score："@ + whole),
    }
}

pub fn mark_of_fields(score: Option<i64>, reason: Option<String>, whole: &str) -> (r: Result<
    (i64, String),
    String,
>)
    ensures
        mark_view(r) == mark_of(score, opt_text(reason), whole@),
{
    match score {
        Some(n) => {
            let reason = match reason {
                Some(t) => t,
                None => "".to_owned(),
            };
            Ok((n, reason))
        },
        None => {
            let mut why = "裁判的 JSON 里没有 score：".to_owned();
            why.append(whole);
            Err(why)
        },
    }
}

/// What a judge's answer comes to.
pub open spec fn marks(text: Seq<char>) -> Result<(i64, Seq<char>), Seq<char>> {
    match braced(text) {
        None => Err("裁判没回 JSON："@ + text),
        Some(json) => match json_error(json) {
            Some(e) => Err("裁判的 JSON 坏了："@ + e),
            None => mark_of(
                json_int_at(json, "/score"@),
                json_text_at(json, "/reason"@),
                match json_written_at(json, ""@) {
                    Some(w) => w,
                    None => json,
                },
            ),
        },
    }
}

pub fn parse_score(text: &str) -> (r: Result<(i64, String), String>)
    ensures
        mark_view(r) == marks(text@),
{
    let json = match extract_json(text) {
        Some(j) => j,
        None => {
            let mut why = "裁判没回 JSON：".to_owned();
            why.append(text);
            return Err(why);
        },
    };
    match check_json(json.as_str()) {
        Ok(_) => {},
        Err(e) => {
            let mut why = "裁判的 JSON 坏了：".to_owned();
            why.append(e.as_str());
            return Err(why);
        },
    }
    let score = int_at(json.as_str(), "/score");
    let reason = text_at(json.as_str(), "/reason");
    match written_at(json.as_str(), "") {
        Some(whole) => mark_of_fields(score, reason, whole.as_str()),
        None => mark_of_fields(score, reason, json.as_str()),
    }
}

// ---- what fails a case -----------------------------------------------------

/// Each thing that is wanted and missing is a complaint of its own, and so is each
/// that is there and unwanted; a complaint says where, what, and what was there.
pub proof fn every_shortfall_is_told(
    place: Seq<char>,
    text: Seq<char>,
    list: Seq<Seq<char>>,
    next: Seq<char>,
)
    ensures
        ({
            let n = list.len() as int;
            let lacks = missing(place, text, list.push(next), n + 1);
            let has = unwanted(place, text, list.push(next), n + 1);
            &&& occurs(text, next) ==> lacks == missing(place, text, list, n)
            &&& !occurs(text, next) ==> lacks.len() == missing(place, text, list, n).len() + 1
                && occurs(lacks.last(), quoted(next)) && occurs(lacks.last(), quoted(text))
                && begins(lacks.last(), place)
            &&& !occurs(text, next) ==> has == unwanted(place, text, list, n)
            &&& occurs(text, next) ==> has.len() == unwanted(place, text, list, n).len() + 1
                && occurs(has.last(), quoted(next)) && occurs(has.last(), quoted(text)) && begins(
                has.last(),
                place,
            )
        }),
        missing(place, text, Seq::empty(), 0).len() == 0,
        unwanted(place, text, Seq::empty(), 0).len() == 0,
{
    let n = list.len() as int;
    lemma_shortfall_front(place, text, list, list.push(next), n);
    lemma_complaint(place, "应包含 "@, next, text);
    lemma_complaint(place, "不应包含 "@, next, text);
}

proof fn lemma_complaint(place: Seq<char>, verb: Seq<char>, needle: Seq<char>, text: Seq<char>)
    ensures
        ({
            let all = place + verb + quoted(needle) + "，实际："@ + quoted(text);
            occurs(all, quoted(needle)) && occurs(all, quoted(text)) && begins(all, place)
        }),
{
    let q = quoted(needle);
    let t = quoted(text);
    let mid = "，实际："@;
    let all = place + verb + q + mid + t;
    lemma_occurs(Seq::empty(), place, verb + q + mid + t);
    assert(all =~= Seq::<char>::empty() + place + (verb + q + mid + t));
    lemma_occurs(place + verb, q, mid + t);
    assert(all =~= (place + verb) + q + (mid + t));
    lemma_occurs(place + verb + q + mid, t, Seq::empty());
    assert(all =~= (place + verb + q + mid) + t + Seq::<char>::empty());
}

proof fn lemma_shortfall_front(
    place: Seq<char>,
    text: Seq<char>,
    a: Seq<Seq<char>>,
    b: Seq<Seq<char>>,
    k: int,
)
    requires
        0 <= k <= a.len() <= b.len(),
        forall|i: int| 0 <= i < a.len() ==> #[trigger] a[i] == b[i],
    ensures
        missing(place, text, a, k) == missing(place, text, b, k),
        unwanted(place, text, a, k) == unwanted(place, text, b, k),
    decreases k,
{
    if k > 0 {
        lemma_shortfall_front(place, text, a, b, k - 1);
        assert(a[k - 1] == b[k - 1]);
    }
}

/// A case fails where a wanted word is missing from the reply, where an unwanted one
/// is in it, where other tools were used than were wanted, or where a number or a
/// switch is another.
pub proof fn a_case_fails_where_something_is_wrong(expect: Expectations, out: TurnOutput, i: int)
    ensures
        0 <= i < expect.reply_contains@.len() && !occurs(out.reply@, expect.reply_contains@[i]@)
            ==> verdict(expect, out).len() > 0,
        0 <= i < expect.reply_not_contains@.len() && occurs(
            out.reply@,
            expect.reply_not_contains@[i]@,
        ) ==> verdict(expect, out).len() > 0,
        expect.tools_used@.len() > 0 && views(out.tools@) != views(expect.tools_used@) ==> verdict(
            expect,
            out,
        ).len() > 0,
        expect.iterations matches Some(n) && out.iterations != n ==> verdict(expect, out).len() > 0,
        expect.consolidation_new_facts matches Some(n) && out.consolidation_new_facts != n
            ==> verdict(expect, out).len() > 0,
        expect.interrupted matches Some(b) && out.interrupted != b ==> verdict(expect, out).len()
            > 0,
        expect.gate is Some && 0 <= i < out.gates@.len() && opt_text(out.gates@[i]) != opt_text(
            expect.gate,
        ) ==> verdict(expect, out).len() > 0,
        expect.gate is Some && out.gates@.len() == 0 ==> verdict(expect, out).len() > 0,
        0 <= i < expect.prompt_contains@.len() && !occurs(
            all_prompts(out),
            expect.prompt_contains@[i]@,
        ) ==> verdict(expect, out).len() > 0,
        0 <= i < expect.prompt_not_contains@.len() && occurs(
            all_prompts(out),
            expect.prompt_not_contains@[i]@,
        ) ==> verdict(expect, out).len() > 0,
        0 <= i < expect.last_prompt_contains@.len() && (out.prompts@.len() == 0 || !occurs(
            out.prompts@.last()@,
            expect.last_prompt_contains@[i]@,
        )) ==> verdict(expect, out).len() > 0,
        0 <= i < expect.last_prompt_not_contains@.len() && out.prompts@.len() > 0 && occurs(
            out.prompts@.last()@,
            expect.last_prompt_not_contains@[i]@,
        ) ==> verdict(expect, out).len() > 0,
{
    a_pass_means_that_all_holds(expect, out);
}

/// What a tool was wanted to say must be in what one tool said.
pub proof fn an_output_is_looked_for_in_each(expect: Expectations, out: TurnOutput, i: int, j: int)
    requires
        0 <= i < expect.tool_output_contains@.len(),
    ensures
        (forall|k: int|
            0 <= k < out.tool_outputs@.len() ==> !occurs(
                (#[trigger] out.tool_outputs@[k])@,
                expect.tool_output_contains@[i]@,
            )) ==> verdict(expect, out).len() > 0,
        0 <= j < out.tool_outputs@.len() && occurs(
            out.tool_outputs@[j]@,
            expect.tool_output_contains@[i]@,
        ) ==> some_holds(views(out.tool_outputs@), expect.tool_output_contains@[i]@),
{
    a_pass_means_that_all_holds(expect, out);
    let all = views(out.tool_outputs@);
    let needle = expect.tool_output_contains@[i]@;
    if 0 <= j < out.tool_outputs@.len() {
        assert(all[j] == out.tool_outputs@[j]@);
    }
    if verdict(expect, out).len() == 0 {
        assert(some_holds(all, needle));
        let k = choose|k: int| 0 <= k < all.len() && occurs(#[trigger] all[k], needle);
        assert(all[k] == out.tool_outputs@[k]@);
    }
}

/// Where nothing is wanted nothing fails.
pub proof fn an_open_case_passes(expect: Expectations, out: TurnOutput)
    requires
        expect.is_open(),
    ensures
        verdict(expect, out).len() == 0,
{
    a_pass_means_that_all_holds(expect, out);
}

/// A prompt holds everything that the model was asked: every text, every tool call
/// with its input, and every result.
pub proof fn a_rendered_prompt_holds_it_all(blocks: Seq<BlockV>, b: BlockV)
    ensures
        blocks_text(blocks.push(b), blocks.len() as int + 1) == blocks_text(
            blocks,
            blocks.len() as int,
        ) + block_text(b),
        match b {
            BlockV::Text { text } => block_text(b) == text,
            BlockV::ToolUse { id, name, input } => occurs(block_text(b), name) && occurs(
                block_text(b),
                input,
            ),
            BlockV::ToolResult { tool_use_id, content } => occurs(block_text(b), content),
        },
{
    lemma_blocks_front(blocks, blocks.push(b), blocks.len() as int);
    match b {
        BlockV::ToolUse { id, name, input } => {
            let a = "[tool_use "@;
            let all = block_text(b);
            lemma_occurs(a, name, " "@ + input + "]"@);
            assert(all =~= a + name + (" "@ + input + "]"@));
            lemma_occurs(a + name + " "@, input, "]"@);
            assert(all =~= (a + name + " "@) + input + "]"@);
        },
        BlockV::ToolResult { tool_use_id, content } => {
            lemma_occurs("[tool_result "@, content, "]"@);
        },
        _ => {},
    }
}

proof fn lemma_blocks_front(a: Seq<BlockV>, b: Seq<BlockV>, k: int)
    requires
        0 <= k <= a.len() <= b.len(),
        forall|i: int| 0 <= i < a.len() ==> #[trigger] a[i] == b[i],
    ensures
        blocks_text(a, k) == blocks_text(b, k),
    decreases k,
{
    if k > 0 {
        lemma_blocks_front(a, b, k - 1);
        assert(a[k - 1] == b[k - 1]);
    }
}

/// Messages are rendered one after the other, each on lines of its own.
pub proof fn messages_are_rendered_in_order(messages: Seq<MessageV>, m: MessageV)
    ensures
        messages_text(Seq::empty(), 0).len() == 0,
        messages_text(messages.push(m), messages.len() as int + 1) == messages_text(
            messages,
            messages.len() as int,
        ) + "\n"@ + blocks_text(m.content, m.content.len() as int),
{
    lemma_messages_front(messages, messages.push(m), messages.len() as int);
}

proof fn lemma_messages_front(a: Seq<MessageV>, b: Seq<MessageV>, k: int)
    requires
        0 <= k <= a.len() <= b.len(),
        forall|i: int| 0 <= i < a.len() ==> #[trigger] a[i] == b[i],
    ensures
        messages_text(a, k) == messages_text(b, k),
    decreases k,
{
    if k > 0 {
        lemma_messages_front(a, b, k - 1);
        assert(a[k - 1] == b[k - 1]);
    }
}

/// Each case is counted once, under what became of it.
pub proof fn each_case_is_counted_once(results: Seq<CaseResult>, next: CaseResult, what: CaseResult)
    ensures
        count_of(results, what, 0) == 0,
        count_of(results.push(next), what, results.len() as int + 1) == count_of(
            results,
            what,
            results.len() as int,
        ) + if next == what {
            1int
        } else {
            0int
        },
{
    lemma_count_front(results, results.push(next), what, results.len() as int);
}

proof fn lemma_count_front(a: Seq<CaseResult>, b: Seq<CaseResult>, what: CaseResult, k: int)
    requires
        0 <= k <= a.len() <= b.len(),
        forall|i: int| 0 <= i < a.len() ==> #[trigger] a[i] == b[i],
    ensures
        count_of(a, what, k) == count_of(b, what, k),
    decreases k,
{
    if k > 0 {
        lemma_count_front(a, b, what, k - 1);
        assert(a[k - 1] == b[k - 1]);
    }
}

/// A grade is the number that the judge gave, with its reason; without a number there
/// is none, and what was said instead is shown.
pub proof fn a_grade_is_the_judges(n: i64, reason: Seq<char>, whole: Seq<char>)
    ensures
        mark_of(Some(n), Some(reason), whole) == Ok::<(i64, Seq<char>), Seq<char>>((n, reason)),
        mark_of(Some(n), None, whole) is Ok && mark_of(Some(n), None, whole)->Ok_0.0 == n,
        mark_of(None, Some(reason), whole) is Err && finishes(
            mark_of(None, Some(reason), whole)->Err_0,
            whole,
        ),
        braced(whole) is None ==> marks(whole) is Err && finishes(marks(whole)->Err_0, whole),
        braced(whole) matches Some(json) && json_error(json) is None && json_int_at(
            json,
            "/score"@,
        ) == Some(n) ==> marks(whole) is Ok && marks(whole)->Ok_0.0 == n,
{
    let a = "裁判的 JSON 里没有 score："@;
    let b = "裁判没回 JSON："@;
    lemma_occurs(a, whole, Seq::empty());
    assert(a + whole =~= a + whole + Seq::<char>::empty());
    lemma_occurs(b, whole, Seq::empty());
    assert(b + whole =~= b + whole + Seq::<char>::empty());
}

/// A judge's answer counts where it holds a readable object with a score: the mark is
/// that score, with the reason that stands beside it. Any other answer is told back.
pub proof fn a_readable_judgement_counts(text: Seq<char>, json: Seq<char>)
    ensures
        braced(text) is None ==> marks(text) is Err && finishes(marks(text)->Err_0, text),
        braced(text) == Some(json) && json_error(json) is Some ==> marks(text) is Err && finishes(
            marks(text)->Err_0,
            json_error(json)->0,
        ),
        braced(text) == Some(json) && json_error(json) is None ==> {
            &&& marks(text) is Ok <==> json_int_at(json, "/score"@) is Some
            &&& marks(text) matches Ok(mark) ==> json_int_at(json, "/score"@) == Some(mark.0)
                && match json_text_at(json, "/reason"@) {
                Some(reason) => mark.1 == reason,
                None => mark.1 == ""@,
            }
        },
{
    if braced(text) is None {
        lemma_occurs("裁判没回 JSON："@, text, Seq::empty());
    } else if json_error(braced(text)->0) is Some {
        lemma_occurs("裁判的 JSON 坏了："@, json_error(braced(text)->0)->0, Seq::empty());
    }
}

} // verus!
