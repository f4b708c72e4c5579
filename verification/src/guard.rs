//! The loop guard: it notices a model that goes round in circles.
//!
//! A call is a tool's name with its arguments and its result. The same call
//! three times in a row is a repetition; a group of two to four calls that
//! comes twice in a row, and is no repetition, is a cycle.

use std::collections::hash_map::DefaultHasher;
use std::hash::Hasher;

use vstd::prelude::*;
use vstd::std_specs::hash::DefaultHasherAdditionalSpecFns;

use crate::text::{
    char_count, decimal, head, lemma_decimal, lemma_occurs, occurs, push_decimal, take_chars,
};

verus! {

pub const IDENTICAL_THRESHOLD: u32 = 3;

pub const MAX_CYCLE_PERIOD: usize = 4;

pub const STUB_MIN_CHARS: usize = 512;

pub const STUB_ARGS_PREVIEW_CHARS: usize = 120;

#[derive(Debug, Clone, PartialEq, Eq)]
struct Call {
    name: String,
    args: u64,
    result: u64,
}

/// A call as the guard remembers it.
#[verifier::ext_equal]
pub struct CallV {
    pub name: Seq<char>,
    pub args: u64,
    pub result: u64,
}

impl View for Call {
    type V = CallV;

    closed spec fn view(&self) -> CallV {
        CallV { name: self.name@, args: self.args, result: self.result }
    }
}

#[derive(Debug, Clone, Copy, PartialEq, Eq, Structural)]
pub enum GuardVerdict {
    Fine,
    Repeated { times: u32 },
    Cyclic { period: usize },
}

impl GuardVerdict {
    pub fn is_ok(&self) -> (r: bool)
        ensures
            r == (*self is Fine),
    {
        match self {
            GuardVerdict::Fine => true,
            _ => false,
        }
    }
}

/// What a hasher that was written `before` has been written after a text.
pub uninterp spec fn fed(before: Seq<Seq<u8>>, text: Seq<char>) -> Seq<Seq<u8>>;

/// `Hash::hash` of a `str`, into std's default hasher. What it writes is a
/// function of the text.
#[verifier::external_body]
fn feed(text: &str, hasher: &mut DefaultHasher)
    ensures
        final(hasher)@ == fed(old(hasher)@, text@),
{
    std::hash::Hash::hash(text, hasher);
}

/// What std's default hasher makes of a text.
pub open spec fn hash_of(text: Seq<char>) -> u64 {
    DefaultHasher::spec_finish(fed(Seq::empty(), text))
}

fn hash(text: &str) -> (r: u64)
    ensures
        r == hash_of(text@),
{
    let mut hasher = DefaultHasher::new();
    feed(text, &mut hasher);
    hasher.finish()
}

pub open spec fn call_of(name: Seq<char>, args: Seq<char>, output: Seq<char>) -> CallV {
    CallV { name, args: hash_of(args), result: hash_of(output) }
}

/// How many calls at the end of `s[..k]` equal the last call of `s`.
pub open spec fn run_back(s: Seq<CallV>, k: int) -> nat
    decreases k,
{
    if 0 < k <= s.len() && s[k - 1] == s.last() {
        1 + run_back(s, k - 1)
    } else {
        0
    }
}

/// The last `period` calls are one and the same call.
pub open spec fn flat(s: Seq<CallV>, period: int) -> bool {
    forall|i: int| s.len() - period <= i < s.len() ==> #[trigger] s[i] == s[s.len() - period]
}

/// The last `period` calls repeat the `period` calls before them.
pub open spec fn repeats(s: Seq<CallV>, period: int) -> bool {
    forall|i: int| s.len() - period <= i < s.len() ==> s[i - period] == #[trigger] s[i]
}

pub open spec fn cycles(s: Seq<CallV>, period: int) -> bool {
    s.len() >= 2 * period && !flat(s, period) && repeats(s, period)
}

/// What the calls so far amount to.
pub open spec fn verdict_of(s: Seq<CallV>) -> GuardVerdict {
    let times = run_back(s, s.len() as int);
    if times >= IDENTICAL_THRESHOLD {
        GuardVerdict::Repeated { times: times as u32 }
    } else if cycles(s, 2) {
        GuardVerdict::Cyclic { period: 2 }
    } else if cycles(s, 3) {
        GuardVerdict::Cyclic { period: 3 }
    } else if cycles(s, 4) {
        GuardVerdict::Cyclic { period: 4 }
    } else {
        GuardVerdict::Fine
    }
}

/// The calls that are kept: the last eight.
pub open spec fn kept(s: Seq<CallV>) -> Seq<CallV> {
    if s.len() <= 2 * MAX_CYCLE_PERIOD {
        s
    } else {
        s.subrange(s.len() - 2 * MAX_CYCLE_PERIOD, s.len() as int)
    }
}

/// Forgetting early changes nothing: a cycle shows in the calls that are kept as
/// it does in all the calls there ever were, and what is kept after one more call
/// is what would be kept of them all.
pub proof fn forgetting_early_is_harmless(calls: Seq<CallV>, call: CallV, period: int)
    requires
        2 <= period <= MAX_CYCLE_PERIOD,
    ensures
        kept(kept(calls).push(call)) == kept(calls.push(call)),
        cycles(kept(calls), period) == cycles(calls, period),
{
    assert(kept(kept(calls).push(call)) =~= kept(calls.push(call)));
    let s = kept(calls);
    let by = calls.len() - s.len();
    if s.len() >= 2 * period {
        assert forall|i: int| s.len() - 2 * period <= i < s.len() implies #[trigger] s[i] == calls[i
            + by] by {}
        if flat(s, period) {
            assert forall|i: int| calls.len() - period <= i < calls.len() implies #[trigger] calls[i]
                == calls[calls.len() - period] by {
                assert(s[i - by] == s[s.len() - period]);
            }
        }
        if flat(calls, period) {
            assert forall|i: int| s.len() - period <= i < s.len() implies #[trigger] s[i]
                == s[s.len() - period] by {
                assert(calls[i + by] == calls[calls.len() - period]);
            }
        }
        if repeats(s, period) {
            assert forall|i: int| calls.len() - period <= i < calls.len() implies calls[i - period]
                == #[trigger] calls[i] by {
                assert(s[i - by - period] == s[i - by]);
            }
        }
        if repeats(calls, period) {
            assert forall|i: int| s.len() - period <= i < s.len() implies s[i - period]
                == #[trigger] s[i] by {
                assert(calls[i + by - period] == calls[i + by]);
            }
        }
    }
}

/// One more call continues the run of equal calls, or starts a new one.
proof fn lemma_run_on(s: Seq<CallV>, call: CallV)
    ensures
        run_back(s.push(call), s.len() as int + 1) == if s.len() > 0 && s.last() == call {
            run_back(s, s.len() as int) + 1
        } else {
            1
        },
{
    let now = s.push(call);
    assert(now.last() == call);
    if s.len() > 0 && s.last() == call {
        lemma_run_same(s, now, s.len() as int);
    } else {
        if s.len() > 0 {
            assert(now[s.len() - 1] == s.last());
        }
        assert(run_back(now, s.len() as int) == 0);
    }
}

proof fn lemma_run_same(a: Seq<CallV>, b: Seq<CallV>, k: int)
    requires
        0 <= k <= a.len() <= b.len(),
        a.len() > 0,
        a.last() == b.last(),
        forall|i: int| 0 <= i < a.len() ==> #[trigger] a[i] == b[i],
    ensures
        run_back(a, k) == run_back(b, k),
    decreases k,
{
    if k > 0 {
        assert(a[k - 1] == b[k - 1]);
        lemma_run_same(a, b, k - 1);
    }
}

pub proof fn lemma_run_back(s: Seq<CallV>, k: int)
    requires
        0 <= k <= s.len(),
    ensures
        run_back(s, k) <= k,
        forall|i: int| k - run_back(s, k) <= i < k ==> #[trigger] s[i] == s.last(),
        run_back(s, k) < k ==> s[k - run_back(s, k) - 1] != s.last(),
    decreases k,
{
    if 0 < k && s[k - 1] == s.last() {
        lemma_run_back(s, k - 1);
    }
}

/// One call over and over is never taken for a cycle: a reported cycle holds
/// two different calls.
pub proof fn a_repetition_is_not_a_cycle(s: Seq<CallV>)
    ensures
        verdict_of(s) is Cyclic ==> exists|i: int, j: int|
            0 <= i < s.len() && 0 <= j < s.len() && #[trigger] s[i] != #[trigger] s[j],
{
    if verdict_of(s) is Cyclic {
        let p = verdict_of(s)->period as int;
        assert(!flat(s, p));
        let i = choose|i: int| s.len() - p <= i < s.len() && #[trigger] s[i] != s[s.len() - p];
        assert(s[i] != s[s.len() - p]);
    }
}

/// A call whose result differs from the one before it is progress: it is never
/// reported as a repetition.
pub proof fn a_new_result_is_progress(s: Seq<CallV>)
    requires
        s.len() >= 2,
        s.last().result != s[s.len() - 2].result,
    ensures
        !(verdict_of(s) is Repeated),
{
    reveal_with_fuel(run_back, 3);
}

/// A reported repetition is one: that many calls at the end are the same call.
pub proof fn a_repetition_is_real(s: Seq<CallV>)
    ensures
        verdict_of(s) is Repeated && s.len() <= u32::MAX ==> {
            let times = verdict_of(s)->times;
            &&& IDENTICAL_THRESHOLD <= times <= s.len()
            &&& forall|i: int| s.len() - times <= i < s.len() ==> #[trigger] s[i] == s.last()
        },
{
    lemma_run_back(s, s.len() as int);
}

proof fn lemma_run_covers(s: Seq<CallV>, k: int, m: int)
    requires
        0 <= m <= k <= s.len(),
        forall|i: int| k - m <= i < k ==> #[trigger] s[i] == s.last(),
    ensures
        run_back(s, k) >= m,
    decreases k,
{
    if m > 0 {
        assert(s[k - 1] == s.last());
        lemma_run_covers(s, k - 1, m - 1);
    }
}

/// The same call three times in a row is always noticed, whatever came before.
pub proof fn a_repetition_is_noticed(calls: Seq<CallV>)
    requires
        calls.len() >= 3,
        calls[calls.len() - 1] == calls[calls.len() - 2],
        calls[calls.len() - 2] == calls[calls.len() - 3],
    ensures
        verdict_of(calls) is Repeated,
{
    lemma_run_covers(calls, calls.len() as int, 3);
}

/// A group of two to four calls that is played twice in a row is always noticed,
/// although each of its calls differs from the one before.
pub proof fn a_cycle_is_noticed(calls: Seq<CallV>, period: int)
    requires
        2 <= period <= MAX_CYCLE_PERIOD,
        calls.len() >= 2 * period,
        repeats(calls, period),
    ensures
        !(verdict_of(calls) is Fine),
{
    let s = calls;
    if flat(s, period) {
        assert forall|i: int| s.len() - 3 <= i < s.len() implies #[trigger] s[i] == s.last() by {
            assert(s[s.len() - 1] == s[s.len() - period]);
            if i < s.len() - period {
                assert(s[i] == s[i + period]);
            }
        }
        lemma_run_covers(s, s.len() as int, 3);
    } else {
        assert(cycles(s, period));
    }
}

fn same_call(a: &Call, b: &Call) -> (r: bool)
    ensures
        r == (a@ == b@),
{
    a.args == b.args && a.result == b.result && a.name == b.name
}

pub struct StallGuard {
    recent: Vec<Call>,
    /// How many calls at the end are one and the same.
    run: u32,
    hits: i32,
    last_note: Option<String>,
    /// All the calls there ever were.
    history: Ghost<Seq<CallV>>,
}

impl StallGuard {
    /// All the calls so far, oldest first.
    pub closed spec fn calls(&self) -> Seq<CallV> {
        self.history@
    }

    pub closed spec fn hit_count(&self) -> int {
        self.hits as int
    }

    pub closed spec fn note(&self) -> Option<Seq<char>> {
        match self.last_note {
            Some(n) => Some(n@),
            None => None,
        }
    }

    spec fn seen(&self) -> Seq<CallV> {
        self.recent@.map_values(|c: Call| c@)
    }

    /// The last calls and the length of their run are remembered rightly.
    pub closed spec fn wf(&self) -> bool {
        &&& self.seen() == kept(self.history@)
        &&& self.run == run_back(self.history@, self.history@.len() as int)
        &&& 0 <= self.hits
        &&& self.run <= self.hits + 2
    }

    pub fn new() -> (r: StallGuard)
        ensures
            r.wf(),
            r.calls() == Seq::<CallV>::empty(),
            r.hit_count() == 0,
            r.note() is None,
    {
        let r = StallGuard {
            recent: Vec::new(),
            run: 0,
            hits: 0,
            last_note: None,
            history: Ghost(Seq::empty()),
        };
        assert(r.seen() =~= Seq::<CallV>::empty());
        r
    }

    pub fn hits(&self) -> (r: i32)
        ensures
            r == self.hit_count(),
    {
        self.hits
    }

    pub fn last_note(&self) -> (r: Option<String>)
        ensures
            match r {
                Some(n) => self.note() == Some(n@),
                None => self.note() is None,
            },
    {
        match &self.last_note {
            Some(n) => Some(n.clone()),
            None => None,
        }
    }

    /// Remembers a call and says what the calls so far amount to.
    pub fn observe(&mut self, name: &str, args: &str, output: &str) -> (r: GuardVerdict)
        requires
            old(self).wf(),
            old(self).hit_count() < i32::MAX,
        ensures
            final(self).wf(),
            final(self).calls() == old(self).calls().push(call_of(name@, args@, output@)),
            r == verdict_of(final(self).calls()),
            r is Fine ==> final(self).hit_count() == old(self).hit_count() && final(self).note()
                == old(self).note(),
            !(r is Fine) ==> final(self).hit_count() == old(self).hit_count() + 1
                && final(self).note() == reminder_of(r),
    {
        let ghost before = self.history@;
        let call = Call { name: name.to_owned(), args: hash(args), result: hash(output) };
        let n: usize = self.recent.len();
        assert(n == self.seen().len());
        let again: bool = n > 0 && same_call(&self.recent[n - 1], &call);
        proof {
            if n > 0 {
                assert(self.seen()[n - 1] == self.recent@[n - 1]@);
                assert(before.last() == kept(before).last());
            }
            lemma_run_on(before, call@);
        }
        self.run = if again {
            self.run + 1
        } else {
            1
        };
        let ghost held = self.recent@;
        if n >= 2 * MAX_CYCLE_PERIOD {
            self.recent.remove(0);
        }
        self.recent.push(call);
        self.history = Ghost(before.push(call@));
        proof {
            let now = self.seen();
            let want = kept(before.push(call@));
            assert(now.len() == want.len());
            assert forall|i: int| 0 <= i < now.len() implies now[i] == want[i] by {
                let drop: int = if n >= 8 {
                    1
                } else {
                    0
                };
                if i < now.len() - 1 {
                    assert(self.recent@[i] == held[i + drop]);
                    assert(old(self).seen()[i + drop] == held[i + drop]@);
                }
            }
            assert(now =~= want);
        }
        let verdict = self.classify();
        if !verdict.is_ok() {
            self.hits = self.hits + 1;
            self.last_note = reminder(&verdict);
        }
        verdict
    }

    fn classify(&self) -> (r: GuardVerdict)
        requires
            self.seen() == kept(self.history@),
            self.run == run_back(self.history@, self.history@.len() as int),
        ensures
            r == verdict_of(self.calls()),
    {
        if self.run >= IDENTICAL_THRESHOLD {
            return GuardVerdict::Repeated { times: self.run };
        }
        let n: usize = self.recent.len();
        let ghost s = self.history@;
        assert(n == self.seen().len());
        let mut period: usize = 2;
        while period <= MAX_CYCLE_PERIOD
            invariant
                2 <= period <= 5,
                n == self.recent@.len() <= 8,
                s == self.calls(),
                self.seen() == kept(s),
                run_back(s, s.len() as int) < IDENTICAL_THRESHOLD,
                period > 2 ==> !cycles(s, 2),
                period > 3 ==> !cycles(s, 3),
                period > 4 ==> !cycles(s, 4),
            decreases 5 - period,
        {
            proof {
                assert(self.seen().len() == n);
                if s.len() > 0 {
                    forgetting_early_is_harmless(s, s.last(), period as int);
                }
            }
            if n >= period * 2 && !self.is_flat(period) && self.is_repeat(period) {
                return GuardVerdict::Cyclic { period };
            }
            period += 1;
        }
        GuardVerdict::Fine
    }

    fn is_flat(&self, period: usize) -> (r: bool)
        requires
            0 < period <= self.recent@.len(),
        ensures
            r == flat(self.seen(), period as int),
    {
        let n: usize = self.recent.len();
        let ghost s = self.seen();
        let mut i: usize = n - period;
        while i < n
            invariant
                n - period <= i <= n == self.recent@.len(),
                0 < period <= n,
                s == self.seen(),
                forall|j: int| n - period <= j < i ==> #[trigger] s[j] == s[n - period],
            decreases n - i,
        {
            if !same_call(&self.recent[i], &self.recent[n - period]) {
                assert(s[i as int] != s[n - period]);
                return false;
            }
            i += 1;
        }
        true
    }

    fn is_repeat(&self, period: usize) -> (r: bool)
        requires
            0 < period,
            2 * period <= self.recent@.len(),
        ensures
            r == repeats(self.seen(), period as int),
    {
        let n: usize = self.recent.len();
        let ghost s = self.seen();
        let mut i: usize = n - period;
        while i < n
            invariant
                n - period <= i <= n == self.recent@.len(),
                0 < period,
                2 * period <= n,
                s == self.seen(),
                forall|j: int| n - period <= j < i ==> s[j - period] == #[trigger] s[j],
            decreases n - i,
        {
            if !same_call(&self.recent[i - period], &self.recent[i]) {
                assert(s[i - period] != s[i as int]);
                return false;
            }
            i += 1;
        }
        true
    }
}

/// The note that is put under a result: none while all is well.
pub open spec fn reminder_of(verdict: GuardVerdict) -> Option<Seq<char>> {
    match verdict {
        GuardVerdict::Fine => None,
        GuardVerdict::Repeated { times } => Some(
            "\n[guard] 同一个调用（同样的参数、同样的结果）已经出现 "@ + decimal(times as nat)
                + " 次。别再重复它了 —— 换一条路，或者把卡住的地方直接告诉用户。"@,
        ),
        GuardVerdict::Cyclic { period } => Some(
            "\n[guard] 你正在按 "@ + decimal(period as nat)
                + " 步的周期重复同一组调用。别再重复了 —— 换一条路，或者把卡住的地方直接告诉用户。"@,
        ),
    }
}

pub fn reminder(verdict: &GuardVerdict) -> (r: Option<String>)
    ensures
        match r {
            Some(n) => reminder_of(*verdict) == Some(n@),
            None => reminder_of(*verdict) is None,
        },
{
    match verdict {
        GuardVerdict::Fine => None,
        GuardVerdict::Repeated { times } => {
            let mut note =
                "\n[guard] 同一个调用（同样的参数、同样的结果）已经出现 ".to_owned();
            push_decimal(&mut note, *times as u64);
            note.append(
                " 次。别再重复它了 —— 换一条路，或者把卡住的地方直接告诉用户。",
            );
            Some(note)
        },
        GuardVerdict::Cyclic { period } => {
            let mut note = "\n[guard] 你正在按 ".to_owned();
            push_decimal(&mut note, *period as u64);
            note.append(
                " 步的周期重复同一组调用。别再重复了 —— 换一条路，或者把卡住的地方直接告诉用户。",
            );
            Some(note)
        },
    }
}

/// A long result that was seen before is worth a stub.
pub open spec fn stub_is_due(output: Seq<char>, times: u32) -> bool {
    times >= 2 && output.len() >= STUB_MIN_CHARS
}

pub fn should_stub(output: &str, times: u32) -> (r: bool)
    ensures
        r == stub_is_due(output@, times),
{
    times >= 2 && char_count(output) >= STUB_MIN_CHARS
}

pub open spec fn stub_of(name: Seq<char>, args: Seq<char>, times: u32) -> Seq<char> {
    "["@ + name + " 第 "@ + decimal(times as nat)
        + " 次相同调用：结果与上一次完全相同，此处省略（参数："@ + head(
        args,
        STUB_ARGS_PREVIEW_CHARS as nat,
    ) + "）]"@
}

pub fn stub(name: &str, args: &str, times: u32) -> (r: String)
    ensures
        r@ == stub_of(name@, args@, times),
{
    let mut out = "[".to_owned();
    out.append(name);
    out.append(" 第 ");
    push_decimal(&mut out, times as u64);
    out.append(" 次相同调用：结果与上一次完全相同，此处省略（参数：");
    let preview = take_chars(args, STUB_ARGS_PREVIEW_CHARS);
    out.append(preview.as_str());
    out.append("）]");
    out
}

/// A result as the model gets to see it.
pub open spec fn shown(
    output: Seq<char>,
    name: Seq<char>,
    args: Seq<char>,
    verdict: GuardVerdict,
) -> Seq<char> {
    match verdict {
        GuardVerdict::Fine => output,
        GuardVerdict::Repeated { times } if stub_is_due(output, times) => stub_of(name, args, times)
            + reminder_of(verdict)->0,
        _ => output + reminder_of(verdict)->0,
    }
}

pub fn for_model(output: &str, name: &str, args: &str, verdict: &GuardVerdict) -> (r: String)
    ensures
        r@ == shown(output@, name@, args@, *verdict),
{
    match reminder(verdict) {
        None => output.to_owned(),
        Some(note) => {
            let mut body = match verdict {
                GuardVerdict::Repeated { times } => {
                    if should_stub(output, *times) {
                        stub(name, args, *times)
                    } else {
                        output.to_owned()
                    }
                },
                _ => output.to_owned(),
            };
            body.append(note.as_str());
            body
        },
    }
}

/// How the guard fared over a whole turn.
#[derive(Debug, Clone, PartialEq, Eq)]
pub struct GuardReport {
    pub hits: i32,
    pub note: Option<String>,
}

impl GuardReport {
    pub open spec fn tells(self, guard: StallGuard) -> bool {
        &&& self.hits == guard.hit_count()
        &&& match self.note {
            Some(n) => guard.note() == Some(n@),
            None => guard.note() is None,
        }
    }

    pub fn close(guard: &StallGuard) -> (r: GuardReport)
        ensures
            r.tells(*guard),
    {
        GuardReport { hits: guard.hits(), note: guard.last_note() }
    }
}

impl Default for GuardReport {
    fn default() -> (r: GuardReport)
        ensures
            r.hits == 0,
            r.note is None,
    {
        GuardReport { hits: 0, note: None }
    }
}

// ---- what the model is left with -------------------------------------------

/// The guard never withholds a result: unless a long one came for at least the
/// second time in a row, the model gets all of it. Behind it stands nothing while
/// all is well, and otherwise a note that does not depend on the result.
pub proof fn a_result_is_handed_over_whole(
    output: Seq<char>,
    name: Seq<char>,
    args: Seq<char>,
    verdict: GuardVerdict,
)
    requires
        !(verdict is Repeated && verdict->times >= 2 && output.len() >= 512),
    ensures
        output.is_prefix_of(shown(output, name, args, verdict)),
        verdict is Fine ==> shown(output, name, args, verdict) == output,
        !(verdict is Fine) ==> shown(output, name, args, verdict).len() > output.len(),
        shown(output, name, args, verdict).skip(output.len() as int) == shown(
            Seq::empty(),
            name,
            args,
            verdict,
        ),
{
    let told = shown(output, name, args, verdict);
    let bare = shown(Seq::empty(), name, args, verdict);
    match verdict {
        GuardVerdict::Repeated { times } => lemma_decimal(times as nat),
        GuardVerdict::Cyclic { period } => lemma_decimal(period as nat),
        GuardVerdict::Fine => {},
    }
    assert(told.take(output.len() as int) =~= output);
    assert(told.skip(output.len() as int) =~= bare);
}

/// A long result that comes again in a row is not handed over again: what stands
/// for it names the tool, how often it was called and the front of its arguments,
/// and is the same whatever the result.
pub proof fn a_stub_tells_of_its_call(
    output: Seq<char>,
    other: Seq<char>,
    name: Seq<char>,
    args: Seq<char>,
    times: u32,
)
    requires
        times >= 2,
        output.len() >= 512,
        other.len() >= 512,
    ensures
        ({
            let told = shown(output, name, args, GuardVerdict::Repeated { times });
            &&& told == shown(other, name, args, GuardVerdict::Repeated { times })
            &&& occurs(told, name)
            &&& occurs(told, decimal(times as nat))
            &&& args.len() <= 120 ==> occurs(told, args)
            &&& args.len() > 120 ==> occurs(told, args.take(120))
        }),
{
    let verdict = GuardVerdict::Repeated { times };
    let note = reminder_of(verdict)->0;
    let told = shown(output, name, args, verdict);
    let many = decimal(times as nat);
    let seen = head(args, 120);
    let a = "["@;
    let b = " 第 "@;
    let c = " 次相同调用：结果与上一次完全相同，此处省略（参数："@;
    let d = "）]"@;
    lemma_occurs(a, name, b + many + c + seen + d + note);
    assert(told =~= a + name + (b + many + c + seen + d + note));
    lemma_occurs(a + name + b, many, c + seen + d + note);
    assert(told =~= (a + name + b) + many + (c + seen + d + note));
    lemma_occurs(a + name + b + many + c, seen, d + note);
    assert(told =~= (a + name + b + many + c) + seen + (d + note));
    if args.len() > 120 {
        assert(seen =~= args.take(120));
    }
}

/// A warning says how often the call came, or how long the cycle is.
pub proof fn a_warning_names_its_number(
    output: Seq<char>,
    name: Seq<char>,
    args: Seq<char>,
    n: u32,
)
    ensures
        occurs(
            shown(output, name, args, GuardVerdict::Repeated { times: n }),
            decimal(n as nat),
        ),
        occurs(
            shown(output, name, args, GuardVerdict::Cyclic { period: n as usize }),
            decimal(n as nat),
        ),
{
    let many = decimal(n as nat);
    let again = GuardVerdict::Repeated { times: n };
    let body = if stub_is_due(output, n) {
        stub_of(name, args, n)
    } else {
        output
    };
    let a = body + "\n[guard] 同一个调用（同样的参数、同样的结果）已经出现 "@;
    let b =
        " 次。别再重复它了 —— 换一条路，或者把卡住的地方直接告诉用户。"@;
    lemma_occurs(a, many, b);
    assert(shown(output, name, args, again) =~= a + many + b);
    let round = GuardVerdict::Cyclic { period: n as usize };
    let c = output + "\n[guard] 你正在按 "@;
    let d =
        " 步的周期重复同一组调用。别再重复了 —— 换一条路，或者把卡住的地方直接告诉用户。"@;
    lemma_occurs(c, many, d);
    assert(shown(output, name, args, round) =~= c + many + d);
}

/// A verdict says neither too little nor too much. A repetition counts the whole
/// run of equal calls at the end, which is at least three; a cycle has the
/// shortest period of two to four; and where all is well there is neither.
pub proof fn a_verdict_is_exact(s: Seq<CallV>)
    requires
        s.len() <= u32::MAX,
    ensures
        match verdict_of(s) {
            GuardVerdict::Repeated { times } => {
                &&& 3 <= times <= s.len()
                &&& forall|i: int| s.len() - times <= i < s.len() ==> #[trigger] s[i] == s.last()
                &&& times < s.len() ==> s[s.len() - times - 1] != s.last()
            },
            GuardVerdict::Cyclic { period } => {
                &&& 2 <= period <= 4
                &&& s.len() >= 2 * period
                &&& forall|i: int|
                    s.len() - period <= i < s.len() ==> s[i - period] == #[trigger] s[i]
                &&& period > 2 && s.len() >= 4 && s[s.len() - 1] != s[s.len() - 2] ==> s[s.len() - 1]
                    != s[s.len() - 3] || s[s.len() - 2] != s[s.len() - 4]
            },
            GuardVerdict::Fine => s.len() >= 3 ==> s[s.len() - 1] != s[s.len() - 2] || s[s.len() - 2]
                != s[s.len() - 3],
        },
{
    lemma_run_back(s, s.len() as int);
    let n = s.len() as int;
    if verdict_of(s) is Fine && n >= 3 && s[n - 1] == s[n - 2] && s[n - 2] == s[n - 3] {
        a_repetition_is_noticed(s);
    }
    if verdict_of(s) is Cyclic && verdict_of(s)->period > 2 && n >= 4 && s[n - 1] != s[n - 2] {
        assert(!cycles(s, 2));
        assert(s[n - 1] != s[n - 2]);
        assert(!flat(s, 2));
        let i = choose|i: int| n - 2 <= i < n && s[i - 2] != #[trigger] s[i];
        assert(i == n - 1 || i == n - 2);
    }
}

/// Two calls are told apart by their tool, by their arguments and by their result.
pub proof fn calls_are_told_apart(
    name: Seq<char>,
    args: Seq<char>,
    output: Seq<char>,
    name2: Seq<char>,
    args2: Seq<char>,
    output2: Seq<char>,
)
    ensures
        call_of(name, args, output) == call_of(name2, args2, output2) <==> name == name2 && hash_of(
            args,
        ) == hash_of(args2) && hash_of(output) == hash_of(output2),
{
}

} // verus!
