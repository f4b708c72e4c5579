//! What falls out of the window of a conversation is folded into a summary that
//! rolls forward: each turn is folded in once.

use vstd::prelude::*;

use crate::model::CreateRequest;
use crate::text::{
    a_tight_text_is_left_alone, a_trimmed_text_has_no_blank_ends, blank, finishes, head,
    is_blank_text, join, joined, keep_end, lemma_joined_front, lemma_occurs, no_blanks, occurs,
    opt_text, skip_blank, take_chars, trim, trimmed, trimming_takes_only_blanks, word_views, words,
    words_are_parted_by_blanks,
};

verus! {

/// How much of an excerpt is kept where no summary can be had.
pub const FALLBACK_CHARS: usize = 600;

pub const SUMMARY_MAX_TOKENS: i32 = 700;

pub const SUMMARY_SYSTEM: &'static str =
    "You are compressing the older part of a conversation between a user and their assistant, so it can stay in the context window as a short paragraph. Keep every fact, name, decision, number and open thread. Drop pleasantries and repetition. Write plain prose in the language of the conversation. No headings, no lists, no commentary about the task itself.";

/// What was said in each turn, by the user and by the assistant.
pub open spec fn pair_views(pairs: Seq<(String, String)>) -> Seq<(Seq<char>, Seq<char>)> {
    pairs.map_values(|p: (String, String)| (p.0@, p.1@))
}

// ---- the waterline ---------------------------------------------------------

/// How many turns lie outside the window.
pub open spec fn evicted(turns: int, window: int) -> int {
    if turns > window {
        turns - window
    } else {
        0
    }
}

pub open spec fn waterline(covered: int) -> int {
    if covered < 0 {
        0
    } else {
        covered
    }
}

/// The turns outside the window that no summary covers.
pub open spec fn uncovered<T>(turns: Seq<T>, window: int, covered: int) -> Seq<T> {
    let end = evicted(turns.len() as int, window);
    if end <= waterline(covered) {
        Seq::empty()
    } else {
        turns.subrange(waterline(covered), end)
    }
}

pub fn newly_evicted(pairs: &Vec<(String, String)>, window: usize, covered: i32) -> (r: Vec<
    (String, String),
>)
    ensures
        pair_views(r@) == uncovered(pair_views(pairs@), window as int, covered as int),
{
    let n: usize = pairs.len();
    let end: usize = if n > window {
        n - window
    } else {
        0
    };
    let from: usize = if covered < 0 {
        0
    } else {
        covered as usize
    };
    let mut r: Vec<(String, String)> = Vec::new();
    let mut i: usize = from;
    assert(pair_views(r@) =~= Seq::empty());
    while i < end
        invariant
            from <= i,
            from <= end ==> i <= end,
            end <= n,
            n == pairs@.len(),
            end <= from ==> r@.len() == 0,
            from < end ==> pair_views(r@) == pair_views(pairs@).subrange(from as int, i as int),
        decreases end - i,
    {
        let ghost before = pair_views(r@);
        r.push((pairs[i].0.clone(), pairs[i].1.clone()));
        assert(pair_views(r@) =~= before.push(pair_views(pairs@)[i as int]));
        assert(pair_views(pairs@).subrange(from as int, i + 1) =~= before.push(
            pair_views(pairs@)[i as int],
        ));
        i += 1;
    }
    assert(end <= from ==> pair_views(r@) =~= Seq::empty());
    r
}

/// The window holds the latest turns, and every turn lies in it or outside of
/// it: what is told to the model and what the summary covers make up the whole.
pub proof fn no_turn_is_lost<T>(turns: Seq<T>, window: int)
    requires
        0 <= window,
    ensures
        uncovered(turns, window, 0) + turns.skip(evicted(turns.len() as int, window)) == turns,
        turns.skip(evicted(turns.len() as int, window)).len() <= window,
{
    let end = evicted(turns.len() as int, window);
    assert(uncovered(turns, window, 0) + turns.skip(end) =~= turns);
}

/// Once the uncovered turns are folded in, nothing is left to fold; and when the
/// conversation has gone on, only what has newly left the window is.
pub proof fn each_turn_is_folded_once<T>(turns: Seq<T>, later: Seq<T>, window: int, covered: int)
    requires
        0 <= window,
        0 <= covered,
    ensures
        ({
            let now = covered + uncovered(turns, window, covered).len();
            &&& uncovered(turns, window, now) == Seq::<T>::empty()
            &&& covered <= evicted(turns.len() as int, window) ==> uncovered(
                turns,
                window,
                covered,
            ) + uncovered(turns + later, window, now) == uncovered(turns + later, window, covered)
        }),
{
    let now = covered + uncovered(turns, window, covered).len();
    if covered <= evicted(turns.len() as int, window) {
        assert(uncovered(turns, window, covered) + uncovered(turns + later, window, now)
            =~= uncovered(turns + later, window, covered));
    }
}

// ---- folding ---------------------------------------------------------------

/// The first `k` turns as the summarizer reads them.
pub open spec fn told(pairs: Seq<(Seq<char>, Seq<char>)>, k: int) -> Seq<char>
    decreases k,
{
    if k <= 0 {
        Seq::empty()
    } else {
        told(pairs, k - 1) + "User: "@ + pairs[k - 1].0 + "\nAssistant: "@ + pairs[k - 1].1 + "\n"@
    }
}

/// What there is to fold: the summary so far, then the turns.
pub open spec fn material(previous: Seq<char>, pairs: Seq<(Seq<char>, Seq<char>)>) -> Seq<char> {
    (if trimmed(previous).len() > 0 {
        "Earlier summary:\n"@ + previous + "\n\nNew turns to fold in:\n"@
    } else {
        Seq::empty()
    }) + told(pairs, pairs.len() as int)
}

pub open spec fn summary_so_far(previous: Option<(i32, String)>) -> Seq<char> {
    match previous {
        Some(p) => p.1@,
        None => Seq::empty(),
    }
}

pub open spec fn covered_so_far(previous: Option<(i32, String)>) -> int {
    match previous {
        Some(p) => p.0 as int,
        None => 0,
    }
}

fn previous_text(previous: &Option<(i32, String)>) -> (r: String)
    ensures
        r@ == summary_so_far(*previous),
{
    match previous {
        Some(p) => p.1.clone(),
        None => {
            let t = String::new();
            assert(t@ =~= Seq::<char>::empty());
            t
        },
    }
}

/// What the model is asked, to fold turns into the summary.
pub fn roll_request(
    model: &str,
    previous: &Option<(i32, String)>,
    fresh: &Vec<(String, String)>,
) -> (r: CreateRequest)
    ensures
        r.asks(
            model@,
            Some(SUMMARY_SYSTEM@),
            material(summary_so_far(*previous), pair_views(fresh@)),
            SUMMARY_MAX_TOKENS as int,
        ),
{
    let so_far = previous_text(previous);
    let ghost all = pair_views(fresh@);
    let mut text = String::new();
    assert(text@ =~= Seq::<char>::empty());
    if !is_blank_text(so_far.as_str()) {
        text.append("Earlier summary:\n");
        text.append(so_far.as_str());
        text.append("\n\nNew turns to fold in:\n");
        assert(text@ =~= "Earlier summary:\n"@ + so_far@ + "\n\nNew turns to fold in:\n"@);
    }
    let ghost front = text@;
    let mut i: usize = 0;
    assert(text@ =~= front + told(all, 0));
    while i < fresh.len()
        invariant
            i <= fresh@.len(),
            all == pair_views(fresh@),
            text@ == front + told(all, i as int),
        decreases fresh@.len() - i,
    {
        text.append("User: ");
        text.append(fresh[i].0.as_str());
        text.append("\nAssistant: ");
        text.append(fresh[i].1.as_str());
        text.append("\n");
        assert(all[i as int] == (fresh@[i as int].0@, fresh@[i as int].1@));
        assert(text@ =~= front + told(all, i + 1));
        i += 1;
    }
    assert(all.len() == fresh@.len());
    CreateRequest::question(model, Some(SUMMARY_SYSTEM.to_owned()), text, SUMMARY_MAX_TOKENS)
}

/// A text on one line, cut to `max` characters.
pub open spec fn clipped(text: Seq<char>, max: nat) -> Seq<char> {
    let line = joined(word_views(text), " "@);
    if line.len() <= max {
        line
    } else {
        head(line, max) + "…"@
    }
}

pub fn clip(text: &str, max: usize) -> (r: String)
    ensures
        r@ == clipped(text@, max as nat),
{
    let parts = words(text);
    let line = join(&parts, " ");
    let n: usize = line.as_str().unicode_len();
    if n <= max {
        return line;
    }
    let mut cut = take_chars(line.as_str(), max);
    cut.append("…");
    cut
}

pub open spec fn excerpts(pairs: Seq<(Seq<char>, Seq<char>)>, k: int) -> Seq<char>
    decreases k,
{
    if k <= 0 {
        Seq::empty()
    } else {
        excerpts(pairs, k - 1) + "用户："@ + clipped(pairs[k - 1].0, 120) + " ｜ 助手："@ + clipped(
            pairs[k - 1].1,
            160,
        ) + " "@
    }
}

/// What stands in for a summary: the turns themselves, cut short.
pub open spec fn fallback_of(previous: Seq<char>, pairs: Seq<(Seq<char>, Seq<char>)>) -> Seq<char> {
    let kept = if trimmed(previous).len() > 0 {
        trimmed(previous) + " … "@
    } else {
        Seq::empty()
    };
    "（模型摘要不可用，以下是原对话的截断摘录："@ + clipped(
        trimmed(kept + excerpts(pairs, pairs.len() as int)),
        FALLBACK_CHARS as nat,
    ) + "）"@
}

pub fn fallback_summary(previous: &str, fresh: &Vec<(String, String)>) -> (r: String)
    ensures
        r@ == fallback_of(previous@, pair_views(fresh@)),
{
    let ghost all = pair_views(fresh@);
    let mut text = String::new();
    assert(text@ =~= Seq::<char>::empty());
    if !is_blank_text(previous) {
        text.append(trim(previous).as_str());
        text.append(" … ");
        assert(text@ =~= trimmed(previous@) + " … "@);
    }
    let ghost front = text@;
    let mut i: usize = 0;
    assert(text@ =~= front + excerpts(all, 0));
    while i < fresh.len()
        invariant
            i <= fresh@.len(),
            all == pair_views(fresh@),
            text@ == front + excerpts(all, i as int),
        decreases fresh@.len() - i,
    {
        text.append("用户：");
        text.append(clip(fresh[i].0.as_str(), 120).as_str());
        text.append(" ｜ 助手：");
        text.append(clip(fresh[i].1.as_str(), 160).as_str());
        text.append(" ");
        assert(all[i as int] == (fresh@[i as int].0@, fresh@[i as int].1@));
        assert(text@ =~= front + excerpts(all, i + 1));
        i += 1;
    }
    assert(all.len() == fresh@.len());
    let mut r = "（模型摘要不可用，以下是原对话的截断摘录：".to_owned();
    r.append(clip(trim(text.as_str()).as_str(), FALLBACK_CHARS).as_str());
    r.append("）");
    r
}

/// What the summary says after the model's answer: a missing or blank one is
/// made up for, never taken.
pub open spec fn folded(
    previous: Seq<char>,
    pairs: Seq<(Seq<char>, Seq<char>)>,
    answer: Option<Seq<char>>,
) -> Seq<char> {
    match answer {
        Some(text) => if trimmed(text).len() > 0 {
            trimmed(text)
        } else {
            fallback_of(previous, pairs)
        },
        None => fallback_of(previous, pairs),
    }
}

/// The summary after a fold and how many turns it covers. `answer` is what the
/// model said to `roll_request`, if it said anything.
pub fn roll_forward(
    previous: &Option<(i32, String)>,
    fresh: &Vec<(String, String)>,
    answer: &Option<String>,
) -> (r: (i32, String))
    requires
        covered_so_far(*previous) + fresh@.len() <= i32::MAX,
    ensures
        r.0 == covered_so_far(*previous) + fresh@.len(),
        r.1@ == folded(summary_so_far(*previous), pair_views(fresh@), opt_text(*answer)),
{
    let so_far = previous_text(previous);
    let before: i32 = match previous {
        Some(p) => p.0,
        None => 0,
    };
    let n: usize = fresh.len();
    let covered: i32 = (before as i128 + n as i128) as i32;
    match answer {
        Some(text) => {
            if !is_blank_text(text.as_str()) {
                return (covered, trim(text.as_str()));
            }
        },
        None => {},
    }
    (covered, fallback_summary(so_far.as_str(), fresh))
}

/// A summary is never blank: whatever the model answers, what was said is not
/// lost without a trace.
pub proof fn a_summary_says_something(
    previous: Seq<char>,
    pairs: Seq<(Seq<char>, Seq<char>)>,
    answer: Option<Seq<char>>,
)
    ensures
        folded(previous, pairs, answer).len() > 0,
{
    reveal_strlit("）");
    assert("）"@.len() == 1);
}

// ---- what a turn does ------------------------------------------------------

#[derive(Debug, Clone, PartialEq, Eq)]
pub enum Refresh {
    /// Nothing has left the window: the summary stays.
    Keep(Option<String>),
    /// These turns are to be folded in.
    Fold(Vec<(String, String)>),
}

/// Whether the summary of a session has to move on. `previous` is what is
/// stored of it.
pub fn refresh(
    previous: &Option<(i32, String)>,
    pairs: &Vec<(String, String)>,
    window: usize,
) -> (r: Refresh)
    ensures
        ({
            let fresh = uncovered(pair_views(pairs@), window as int, covered_so_far(*previous));
            match r {
                Refresh::Keep(summary) => fresh.len() == 0 && opt_text(summary)
                    == match *previous {
                    Some(p) => Some(p.1@),
                    None => None,
                },
                Refresh::Fold(turns) => fresh.len() > 0 && pair_views(turns@) == fresh,
            }
        }),
{
    let covered: i32 = match previous {
        Some(p) => p.0,
        None => 0,
    };
    let fresh = newly_evicted(pairs, window, covered);
    assert(pair_views(fresh@).len() == fresh@.len());
    if fresh.len() == 0 {
        Refresh::Keep(
            match previous {
                Some(p) => Some(p.1.clone()),
                None => None,
            },
        )
    } else {
        Refresh::Fold(fresh)
    }
}

pub open spec fn section_of(summary: Seq<char>) -> Option<Seq<char>> {
    if trimmed(summary).len() > 0 {
        Some("\nEarlier in this conversation:\n"@ + trimmed(summary))
    } else {
        None
    }
}

/// The part of the system prompt that tells the summary.
pub fn summary_section(summary: &str) -> (r: Option<String>)
    ensures
        opt_text(r) == section_of(summary@),
{
    if is_blank_text(summary) {
        return None;
    }
    let mut t = "\nEarlier in this conversation:\n".to_owned();
    t.append(trim(summary).as_str());
    Some(t)
}

/// What a turn costs beside its two texts.
pub const TURN_OVERHEAD: usize = 8;

/// What turns cost, given what the two texts of each are reckoned to hold.
pub open spec fn turn_costs_of(estimates: Seq<(usize, usize)>) -> Seq<int> {
    estimates.map_values(|e: (usize, usize)| e.0 + e.1 + TURN_OVERHEAD)
}

pub open spec fn whole(costs: Seq<usize>) -> Seq<int> {
    costs.map_values(|c: usize| c as int)
}

pub fn turn_costs(estimates: &Vec<(usize, usize)>) -> (r: Vec<usize>)
    requires
        forall|i: int|
            0 <= i < estimates@.len() ==> (#[trigger] estimates@[i]).0 + estimates@[i].1
                + TURN_OVERHEAD <= usize::MAX,
    ensures
        whole(r@) == turn_costs_of(estimates@),
{
    let ghost all = turn_costs_of(estimates@);
    let mut r: Vec<usize> = Vec::new();
    let mut i: usize = 0;
    assert(whole(r@) =~= all.take(0));
    while i < estimates.len()
        invariant
            i <= estimates@.len(),
            all == turn_costs_of(estimates@),
            whole(r@) == all.take(i as int),
            forall|k: int|
                0 <= k < estimates@.len() ==> (#[trigger] estimates@[k]).0 + estimates@[k].1
                    + TURN_OVERHEAD <= usize::MAX,
        decreases estimates@.len() - i,
    {
        let ghost before = whole(r@);
        let e = estimates[i];
        let cost: usize = e.0 + e.1 + TURN_OVERHEAD;
        r.push(cost);
        assert(whole(r@) =~= before.push(cost as int));
        assert(all.take(i + 1) =~= before.push(cost as int));
        i += 1;
    }
    assert(all.take(i as int) =~= all);
    r
}

/// What the last `k` turns cost.
pub open spec fn cost_of_last(costs: Seq<usize>, k: int) -> int
    decreases k,
{
    if k <= 0 {
        0
    } else {
        cost_of_last(costs, k - 1) + costs[costs.len() - k]
    }
}

/// How many of the latest turns a budget holds, given what each costs. The very
/// latest one is always kept.
pub fn turns_that_fit(costs: &Vec<usize>, budget: usize) -> (r: usize)
    ensures
        r <= costs@.len(),
        costs@.len() > 0 ==> r >= 1,
        r > 1 ==> cost_of_last(costs@, r as int) <= budget,
        r < costs@.len() ==> cost_of_last(costs@, r + 1) > budget,
{
    let n: usize = costs.len();
    let mut used: usize = 0;
    let mut kept: usize = 0;
    while kept < n
        invariant
            kept <= n,
            n == costs@.len(),
            used == cost_of_last(costs@, kept as int),
            kept > 1 ==> used <= budget,
        decreases n - kept,
    {
        let cost: usize = costs[n - 1 - kept];
        assert(cost_of_last(costs@, kept + 1) == used + cost);
        if kept > 0 && (used > budget || cost > budget - used) {
            return kept;
        }
        used = used + cost;
        kept += 1;
    }
    kept
}

// ---- what a fold keeps -----------------------------------------------------

/// The question to the model is the summary so far followed by the turns, one
/// after the other, and a turn is put by both of its texts. A blank summary is none.
pub proof fn turns_are_told_one_after_the_other(
    previous: Seq<char>,
    before: Seq<(Seq<char>, Seq<char>)>,
    turn: (Seq<char>, Seq<char>),
    after: Seq<(Seq<char>, Seq<char>)>,
)
    ensures
        material(Seq::empty(), seq![turn]) == "User: "@ + turn.0 + "\nAssistant: "@ + turn.1 + "\n"@,
        material(previous, before + after) == material(previous, before) + material(
            Seq::empty(),
            after,
        ),
        trimmed(previous).len() == 0 ==> material(previous, before) == material(
            Seq::empty(),
            before,
        ),
{
    let one = seq![turn];
    let bare = Seq::<char>::empty();
    assert(trimmed(bare).len() == 0);
    reveal_with_fuel(told, 2);
    assert(material(bare, one) =~= "User: "@ + turn.0 + "\nAssistant: "@ + turn.1 + "\n"@);
    lemma_told_joins(before, after, after.len() as int);
    assert((before + after).len() == before.len() + after.len());
    assert(material(previous, before + after) =~= material(previous, before) + material(
        bare,
        after,
    ));
}

/// Folding loses nothing that was said: both texts of every turn stand in the
/// question to the model, and the summary so far does where there is one.
pub proof fn every_turn_is_told_in_full(
    previous: Seq<char>,
    before: Seq<(Seq<char>, Seq<char>)>,
    turn: (Seq<char>, Seq<char>),
    after: Seq<(Seq<char>, Seq<char>)>,
)
    ensures
        occurs(
            material(previous, before + seq![turn] + after),
            "User: "@ + turn.0 + "\nAssistant: "@ + turn.1 + "\n"@,
        ),
        occurs(material(previous, before + seq![turn] + after), turn.0),
        occurs(material(previous, before + seq![turn] + after), turn.1),
        trimmed(previous).len() > 0 ==> occurs(material(previous, before), previous),
{
    let one = seq![turn];
    turns_are_told_one_after_the_other(previous, before + one, turn, after);
    turns_are_told_one_after_the_other(previous, before, turn, one);
    let m = material(previous, before);
    let said = "User: "@ + turn.0 + "\nAssistant: "@ + turn.1 + "\n"@;
    let rest = material(Seq::empty(), after);
    assert(material(previous, before + one + after) == m + said + rest);
    lemma_occurs(m, said, rest);
    lemma_said(m, turn, rest);
    if trimmed(previous).len() > 0 {
        let t = told(before, before.len() as int);
        lemma_occurs("Earlier summary:\n"@, previous, "\n\nNew turns to fold in:\n"@ + t);
        assert(m =~= "Earlier summary:\n"@ + previous + ("\n\nNew turns to fold in:\n"@ + t));
    }
}

proof fn lemma_said(m: Seq<char>, turn: (Seq<char>, Seq<char>), rest: Seq<char>)
    ensures
        ({
            let said = "User: "@ + turn.0 + "\nAssistant: "@ + turn.1 + "\n"@;
            occurs(m + said + rest, turn.0) && occurs(m + said + rest, turn.1)
        }),
{
    let said = "User: "@ + turn.0 + "\nAssistant: "@ + turn.1 + "\n"@;
    let behind = "\nAssistant: "@ + turn.1 + "\n"@ + rest;
    lemma_occurs(m + "User: "@, turn.0, behind);
    assert(m + said + rest =~= (m + "User: "@) + turn.0 + behind);
    let front = m + "User: "@ + turn.0 + "\nAssistant: "@;
    lemma_occurs(front, turn.1, "\n"@ + rest);
    assert(m + said + rest =~= front + turn.1 + ("\n"@ + rest));
}

proof fn lemma_told_joins(
    a: Seq<(Seq<char>, Seq<char>)>,
    b: Seq<(Seq<char>, Seq<char>)>,
    k: int,
)
    requires
        0 <= k <= b.len(),
    ensures
        told(a + b, a.len() + k) == told(a, a.len() as int) + told(b, k),
    decreases k,
{
    if k == 0 {
        lemma_told_front(a, a + b, a.len() as int);
        assert(told(a, a.len() as int) + told(b, 0) =~= told(a, a.len() as int));
    } else {
        lemma_told_joins(a, b, k - 1);
        assert((a + b)[a.len() + k - 1] == b[k - 1]);
        assert(told(a + b, a.len() + k) =~= told(a, a.len() as int) + told(b, k));
    }
}

proof fn lemma_told_front(
    a: Seq<(Seq<char>, Seq<char>)>,
    b: Seq<(Seq<char>, Seq<char>)>,
    k: int,
)
    requires
        0 <= k <= a.len() <= b.len(),
        forall|i: int| 0 <= i < a.len() ==> #[trigger] a[i] == b[i],
    ensures
        told(a, k) == told(b, k),
    decreases k,
{
    if k > 0 {
        lemma_told_front(a, b, k - 1);
        assert(a[k - 1] == b[k - 1]);
    }
}

/// The window is used to the full: a turn leaves it only where there are more
/// turns than it holds. A waterline below zero is one at zero.
pub proof fn the_window_is_full_before_a_turn_leaves<T>(turns: Seq<T>, window: int, covered: int)
    requires
        0 <= window,
    ensures
        turns.len() <= window ==> uncovered(turns, window, covered).len() == 0,
        turns.len() > window ==> uncovered(turns, window, 0) == turns.take(turns.len() - window),
        covered <= 0 ==> uncovered(turns, window, covered) == uncovered(turns, window, 0),
        0 <= covered <= turns.len() - window ==> uncovered(turns, window, covered) == turns.subrange(
            covered,
            turns.len() - window,
        ),
{
    if turns.len() > window {
        assert(uncovered(turns, window, 0) =~= turns.take(turns.len() - window));
    }
    if 0 <= covered <= turns.len() - window {
        assert(uncovered(turns, window, covered) =~= turns.subrange(covered, turns.len() - window));
    }
}

/// What the model answers is the summary, without the white space around it; and
/// no answer is as good as a blank one.
pub proof fn an_answer_is_the_summary(
    previous: Seq<char>,
    pairs: Seq<(Seq<char>, Seq<char>)>,
    answer: Seq<char>,
)
    ensures
        (exists|k: int| 0 <= k < answer.len() && !blank(#[trigger] answer[k])) ==> folded(
            previous,
            pairs,
            Some(answer),
        ) == trimmed(answer),
        (forall|k: int| 0 <= k < answer.len() ==> blank(#[trigger] answer[k])) ==> folded(
            previous,
            pairs,
            Some(answer),
        ) == folded(previous, pairs, None),
{
    a_trimmed_text_has_no_blank_ends(answer);
}

/// A text on one line that is short enough is not cut; a longer one keeps its
/// front.
pub proof fn a_clip_is_a_front(text: Seq<char>, max: nat)
    ensures
        ({
            let line = joined(word_views(text), " "@);
            &&& line.len() <= max ==> clipped(text, max) == line
            &&& line.len() > max ==> clipped(text, max).len() == max + 1 && line.take(
                max as int,
            ).is_prefix_of(clipped(text, max)) && clipped(text, max).last() == '…'
        }),
        text.len() > 0 && text.len() <= max && no_blanks(text) ==> clipped(text, max) == text,
{
    let line = joined(word_views(text), " "@);
    reveal_strlit("…");
    if line.len() > max {
        assert(clipped(text, max).take(max as int) =~= line.take(max as int));
    }
    if text.len() > 0 && no_blanks(text) {
        words_are_parted_by_blanks(text, ' ', Seq::empty());
        assert(joined(seq![text], " "@) == text);
    }
}

/// One short turn on one line.
spec fn turn_line(user: Seq<char>, assistant: Seq<char>) -> Seq<char> {
    ("用户："@ + user) + seq![' '] + (seq!['｜'] + seq![' '] + ("助手："@ + assistant))
}

proof fn lemma_turn_excerpt(user: Seq<char>, assistant: Seq<char>)
    requires
        0 < user.len() <= 120,
        0 < assistant.len() <= 160,
        no_blanks(user),
        no_blanks(assistant),
    ensures
        excerpts(seq![(user, assistant)], 1) == turn_line(user, assistant) + seq![' '],
{
    let pairs = seq![(user, assistant)];
    a_clip_is_a_front(user, 120);
    a_clip_is_a_front(assistant, 160);
    reveal_strlit(" ｜ 助手：");
    reveal_strlit("助手：");
    reveal_strlit(" ");
    assert(" "@ =~= seq![' ']);
    assert(" ｜ 助手："@ =~= seq![' '] + seq!['｜'] + seq![' '] + "助手："@);
    reveal_with_fuel(excerpts, 2);
    assert(pairs[0] == (user, assistant));
    let got = excerpts(pairs, 1);
    assert(got =~= "用户："@ + user + " ｜ 助手："@ + assistant + " "@);
    assert(got =~= turn_line(user, assistant) + seq![' ']);
}

proof fn lemma_turn_words(user: Seq<char>, assistant: Seq<char>)
    requires
        user.len() > 0,
        assistant.len() > 0,
        no_blanks(user),
        no_blanks(assistant),
    ensures
        joined(word_views(turn_line(user, assistant)), " "@) == turn_line(user, assistant),
        trimmed(turn_line(user, assistant) + seq![' ']) == turn_line(user, assistant),
        turn_line(user, assistant).len() == user.len() + assistant.len() + 9,
{
    reveal_strlit("用户：");
    reveal_strlit("助手：");
    reveal_strlit(" ");
    let a = "用户："@ + user;
    let b = seq!['｜'];
    let c = "助手："@ + assistant;
    assert(no_blanks(a)) by {
        assert forall|k: int| 0 <= k < a.len() implies !blank(#[trigger] a[k]) by {
            if k >= 3 {
                assert(a[k] == user[k - 3]);
            }
        }
    }
    assert(no_blanks(c)) by {
        assert forall|k: int| 0 <= k < c.len() implies !blank(#[trigger] c[k]) by {
            if k >= 3 {
                assert(c[k] == assistant[k - 3]);
            }
        }
    }
    assert(no_blanks(b));
    let line = turn_line(user, assistant);
    words_are_parted_by_blanks(a, ' ', b + seq![' '] + c);
    words_are_parted_by_blanks(b, ' ', c);
    words_are_parted_by_blanks(c, ' ', Seq::empty());
    let ws = word_views(line);
    assert(ws =~= seq![a, b, c]);
    assert(joined(ws, " "@) =~= line) by {
        assert(" "@ =~= seq![' ']);
        lemma_joined_front(a, seq![b, c], " "@);
        lemma_joined_front(b, seq![c], " "@);
        assert(seq![a] + seq![b, c] =~= ws);
        assert(seq![b] + seq![c] =~= seq![b, c]);
        assert(joined(seq![c], " "@) == c);
    }
    let text = line + seq![' '];
    let n = text.len() as int;
    assert(text[n - 1] == ' ');
    assert(text[0] == a[0]);
    assert(text[n - 2] == c[c.len() - 1]);
    assert(!blank(a[0]) && !blank(c[c.len() - 1]));
    reveal_with_fuel(keep_end, 3);
    assert(keep_end(text, n) == n - 1);
    assert(skip_blank(text, 0) == 0);
    assert(text.subrange(0, n - 1) =~= line);
}

/// Where no summary can be had, what was said in a short turn still stands in what
/// is put in its place.
pub proof fn an_excerpt_holds_what_was_said(user: Seq<char>, assistant: Seq<char>)
    requires
        0 < user.len() <= 120,
        0 < assistant.len() <= 160,
        no_blanks(user),
        no_blanks(assistant),
    ensures
        occurs(folded(Seq::empty(), seq![(user, assistant)], None), user),
        occurs(folded(Seq::empty(), seq![(user, assistant)], None), assistant),
{
    let pairs = seq![(user, assistant)];
    let bare = Seq::<char>::empty();
    let line = turn_line(user, assistant);
    lemma_turn_excerpt(user, assistant);
    lemma_turn_words(user, assistant);
    assert(trimmed(bare).len() == 0);
    assert(pairs.len() == 1);
    assert(bare + (line + seq![' ']) =~= line + seq![' ']);
    assert(clipped(line, 600) == line);
    let front = "（模型摘要不可用，以下是原对话的截断摘录："@;
    let all = folded(bare, pairs, None);
    assert(all == front + line + "）"@);
    let b = seq![' '] + (seq!['｜'] + seq![' '] + ("助手："@ + assistant)) + "）"@;
    lemma_occurs(front + "用户："@, user, b);
    assert(all =~= (front + "用户："@) + user + b);
    let a = front + ("用户："@ + user) + seq![' '] + (seq!['｜'] + seq![' '] + "助手："@);
    lemma_occurs(a, assistant, "）"@);
    assert(all =~= a + assistant + "）"@);
}

/// The part of the system prompt that tells the summary holds it; a blank summary
/// has no such part.
pub proof fn a_summary_is_told(summary: Seq<char>)
    ensures
        match section_of(summary) {
            Some(section) => trimmed(summary).len() > 0 && finishes(section, trimmed(summary)),
            None => forall|k: int| 0 <= k < summary.len() ==> blank(#[trigger] summary[k]),
        },
{
    a_trimmed_text_has_no_blank_ends(summary);
    if section_of(summary) is Some {
        let front = "\nEarlier in this conversation:\n"@;
        lemma_occurs(front, trimmed(summary), Seq::empty());
        assert(section_of(summary)->0 =~= front + trimmed(summary) + Seq::<char>::empty());
    }
}

/// The latest turn is the first to be counted, whatever came before; and each turn
/// costs what its two texts hold and eight more.
pub proof fn costs_add_up(costs: Seq<usize>, latest: usize, k: int, estimates: Seq<(usize, usize)>, i: int)
    requires
        0 <= k <= costs.len(),
        0 <= i < estimates.len(),
    ensures
        cost_of_last(costs.push(latest), k + 1) == latest + cost_of_last(costs, k),
        cost_of_last(costs, 0) == 0,
        turn_costs_of(estimates).len() == estimates.len(),
        turn_costs_of(estimates)[i] == estimates[i].0 + estimates[i].1 + 8,
    decreases k,
{
    let now = costs.push(latest);
    if k == 0 {
        reveal_with_fuel(cost_of_last, 2);
    } else {
        costs_add_up(costs, latest, k - 1, estimates, i);
        assert(now[now.len() - (k + 1)] == costs[costs.len() - k]);
    }
}

/// Excerpts tell turn after turn: each adds what the user said and what was answered,
/// behind those before it.
pub proof fn excerpts_add_up(pairs: Seq<(Seq<char>, Seq<char>)>, pair: (Seq<char>, Seq<char>))
    ensures
        ({
            let before = excerpts(pairs, pairs.len() as int);
            let now = excerpts(pairs.push(pair), (pairs.len() + 1) as int);
            &&& before.is_prefix_of(now)
            &&& occurs(now.skip(before.len() as int), "用户："@ + clipped(pair.0, 120))
            &&& occurs(now.skip(before.len() as int), "助手："@ + clipped(pair.1, 160))
        }),
{
    let n = pairs.len() as int;
    let all = pairs.push(pair);
    lemma_excerpts_front(pairs, pair, n);
    let before = excerpts(pairs, n);
    let user = "用户："@ + clipped(pair.0, 120);
    let mid = " ｜ 助手："@;
    let answer = "助手："@ + clipped(pair.1, 160);
    let added = user + (mid + clipped(pair.1, 160) + " "@);
    let now = excerpts(all, n + 1);
    assert(all[n] == pair);
    assert(now =~= before + added);
    assert(now.skip(before.len() as int) =~= added);
    lemma_occurs(Seq::empty(), user, mid + clipped(pair.1, 160) + " "@);
    assert(added =~= Seq::<char>::empty() + user + (mid + clipped(pair.1, 160) + " "@));
    reveal_strlit(" ｜ 助手：");
    reveal_strlit("助手：");
    assert(mid =~= mid.take(3) + "助手："@);
    lemma_occurs(user + mid.take(3), answer, " "@);
    assert(added =~= (user + mid.take(3)) + answer + " "@);
}

proof fn lemma_excerpts_front(
    pairs: Seq<(Seq<char>, Seq<char>)>,
    pair: (Seq<char>, Seq<char>),
    k: int,
)
    requires
        0 <= k <= pairs.len(),
    ensures
        excerpts(pairs.push(pair), k) == excerpts(pairs, k),
    decreases k,
{
    if k > 0 {
        lemma_excerpts_front(pairs, pair, k - 1);
        assert(pairs.push(pair)[k - 1] == pairs[k - 1]);
    }
}

/// Where no summary can be had, what was summed up before is not lost: it stands in
/// front of the excerpts.
pub proof fn an_earlier_summary_is_kept(previous: Seq<char>, pairs: Seq<(Seq<char>, Seq<char>)>)
    requires
        0 < previous.len() <= 600,
        no_blanks(previous),
    ensures
        occurs(folded(previous, pairs, None), previous),
{
    let told = excerpts(pairs, pairs.len() as int);
    let whole = previous + " … "@ + told;
    reveal_strlit(" … ");
    assert(!blank(previous[0]) && !blank(previous.last()));
    a_tight_text_is_left_alone(previous);
    let cut = trimming_takes_only_blanks(whole);
    let n = previous.len() as int;
    assert(whole[0] == previous[0]);
    assert(whole[n + 1] == '…');
    assert(!blank('…'));
    assert(cut.0 == 0);
    assert(cut.1 > n + 1);
    let kept = trimmed(whole);
    assert(kept =~= whole.take(cut.1));
    let rest = kept.skip(n + 1);
    assert(kept =~= previous + seq![' '] + rest);
    words_are_parted_by_blanks(previous, ' ', rest);
    let line = joined(word_views(kept), " "@);
    lemma_first_word(previous, word_views(rest));
    assert(line.take(n) =~= previous);
    let shown = clipped(kept, FALLBACK_CHARS as nat);
    assert(shown.take(n) =~= previous);
    let front = "（模型摘要不可用，以下是原对话的截断摘录："@;
    lemma_occurs(front, previous, shown.skip(n) + "）"@);
    assert(fallback_of(previous, pairs) =~= front + previous + (shown.skip(n) + "）"@));
}

proof fn lemma_first_word(first: Seq<char>, rest: Seq<Seq<char>>)
    ensures
        joined(seq![first] + rest, " "@).len() >= first.len(),
        joined(seq![first] + rest, " "@).take(first.len() as int) == first,
{
    let all = joined(seq![first] + rest, " "@);
    if rest.len() > 0 {
        lemma_joined_front(first, rest, " "@);
        assert(all.take(first.len() as int) =~= first);
    } else {
        assert(seq![first] + rest =~= seq![first]);
        reveal_with_fuel(joined, 2);
        assert(all =~= first);
    }
}

} // verus!
