//! Turns that run, and the questions that wait for a person's answer.

use vstd::prelude::*;

use crate::dispatch::{narrow, narrowed};
use crate::table::Table;
use crate::text::{decimal, lemma_decimal, same, to_decimal};

verus! {

/// The name of the `n`-th question.
pub fn request_id(n: u64) -> (r: String)
    ensures
        r@ == "ap-"@ + decimal(n as nat),
{
    let mut t = "ap-".to_owned();
    t.append(to_decimal(n).as_str());
    t
}

/// Whether a command that no rule lets through is asked about. Any other mode
/// refuses it without a word.
pub fn asks(mode: &str) -> (r: bool)
    ensures
        r == (mode@ == "on-request"@),
{
    same(mode, "on-request")
}

pub open spec fn saturated(n: int) -> int {
    if n > i64::MAX {
        i64::MAX as int
    } else if n < i64::MIN {
        i64::MIN as int
    } else {
        n
    }
}

/// How long an answer is waited for, as a client is told.
pub fn expires_in_ms(timeout_secs: i64) -> (r: i32)
    ensures
        r == narrowed(saturated(timeout_secs * 1000)),
{
    let wide: i128 = timeout_secs as i128 * 1000;
    if wide > 9223372036854775807 {
        narrow(9223372036854775807)
    } else if wide < -9223372036854775808 {
        narrow(-9223372036854775808)
    } else {
        narrow(wide as i64)
    }
}

/// How many seconds are really waited: at least one.
pub fn wait_secs(timeout_secs: i64) -> (r: u64)
    ensures
        r == if timeout_secs < 1 {
            1
        } else {
            timeout_secs as int
        },
{
    if timeout_secs < 1 {
        1
    } else {
        timeout_secs as u64
    }
}

/// Silence is a refusal: only an answer that came in time and says yes is one.
pub fn is_approved(reply: Option<bool>) -> (r: bool)
    ensures
        r == (reply == Some(true)),
{
    match reply {
        Some(yes) => yes,
        None => false,
    }
}

/// The turns that run, and the questions that they wait on.
pub struct Desk {
    /// Each turn that runs, with whether it was told to stop.
    turns: Table<bool>,
    /// Each turn that waits, with the commands it asked about.
    pending: Table<Table<String>>,
}

#[verifier::ext_equal]
pub struct DeskV {
    pub turns: Map<Seq<char>, bool>,
    /// The command of each question that waits, by turn and question.
    pub waiting: Map<(Seq<char>, Seq<char>), Seq<char>>,
}

pub open spec fn waits(pending: Map<Seq<char>, Table<String>>, at: (Seq<char>, Seq<char>)) -> bool {
    pending.contains_key(at.0) && pending[at.0]@.contains_key(at.1)
}

pub open spec fn waiting_of(pending: Map<Seq<char>, Table<String>>) -> Map<
    (Seq<char>, Seq<char>),
    Seq<char>,
> {
    Map::new(
        |at: (Seq<char>, Seq<char>)| waits(pending, at),
        |at: (Seq<char>, Seq<char>)| pending[at.0]@[at.1]@,
    )
}

impl View for Desk {
    type V = DeskV;

    closed spec fn view(&self) -> DeskV {
        DeskV { turns: self.turns@, waiting: waiting_of(self.pending@) }
    }
}

/// What an answer leads to.
#[derive(Debug, Clone, PartialEq, Eq)]
pub struct Answered {
    /// What the question is told.
    pub approved: bool,
    /// The command to let through from now on.
    pub remember: Option<String>,
}

/// The questions of the other turns.
pub open spec fn without_turn(
    waiting: Map<(Seq<char>, Seq<char>), Seq<char>>,
    turn: Seq<char>,
) -> Map<(Seq<char>, Seq<char>), Seq<char>> {
    Map::new(
        |at: (Seq<char>, Seq<char>)| waiting.contains_key(at) && at.0 != turn,
        |at: (Seq<char>, Seq<char>)| waiting[at],
    )
}

impl Desk {
    pub fn new() -> (r: Desk)
        ensures
            r@.turns == Map::<Seq<char>, bool>::empty(),
            r@.waiting == Map::<(Seq<char>, Seq<char>), Seq<char>>::empty(),
    {
        let r = Desk { turns: Table::new(), pending: Table::new() };
        assert(r@.waiting =~= Map::<(Seq<char>, Seq<char>), Seq<char>>::empty());
        r
    }

    pub fn register_turn(&mut self, turn: &str)
        ensures
            final(self)@.turns == old(self)@.turns.insert(turn@, false),
            final(self)@.waiting == old(self)@.waiting,
    {
        self.turns.insert(turn.to_owned(), false);
    }

    /// A turn that is over can no longer be stopped, and what it asked is void.
    pub fn finish_turn(&mut self, turn: &str)
        ensures
            final(self)@.turns == old(self)@.turns.remove(turn@),
            final(self)@.waiting == without_turn(old(self)@.waiting, turn@),
    {
        let _ = self.turns.remove(turn);
        let _ = self.pending.remove(turn);
        assert(self@.waiting =~= without_turn(old(self)@.waiting, turn@));
    }

    /// Tells a turn to stop. False where no such turn runs.
    pub fn interrupt_turn(&mut self, turn: &str) -> (r: bool)
        ensures
            r == old(self)@.turns.contains_key(turn@),
            final(self)@.waiting == old(self)@.waiting,
            final(self)@.turns == if r {
                old(self)@.turns.insert(turn@, true)
            } else {
                old(self)@.turns
            },
    {
        if self.turns.has(turn) {
            self.turns.insert(turn.to_owned(), true);
            true
        } else {
            false
        }
    }

    /// Whether a turn was told to stop.
    pub fn is_interrupted(&self, turn: &str) -> (r: bool)
        ensures
            r == (self@.turns.contains_key(turn@) && self@.turns[turn@]),
    {
        match self.turns.get(turn) {
            Some(told) => *told,
            None => false,
        }
    }

    /// Notes a question of a turn.
    pub fn ask(&mut self, turn: &str, request: &str, command: &str)
        ensures
            final(self)@.turns == old(self)@.turns,
            final(self)@.waiting == old(self)@.waiting.insert((turn@, request@), command@),
    {
        let mut of_turn = match self.pending.remove(turn) {
            Some(t) => t,
            None => Table::new(),
        };
        of_turn.insert(request.to_owned(), command.to_owned());
        self.pending.insert(turn.to_owned(), of_turn);
        assert(self@.waiting =~= old(self)@.waiting.insert((turn@, request@), command@));
    }

    /// Takes a question off the desk; gives its command.
    fn take(&mut self, turn: &str, request: &str) -> (r: Option<String>)
        ensures
            final(self)@.turns == old(self)@.turns,
            final(self)@.waiting == old(self)@.waiting.remove((turn@, request@)),
            match r {
                Some(command) => old(self)@.waiting.contains_key((turn@, request@))
                    && old(self)@.waiting[(turn@, request@)] == command@,
                None => !old(self)@.waiting.contains_key((turn@, request@)),
            },
    {
        match self.pending.remove(turn) {
            Some(t) => {
                let mut of_turn = t;
                let command = of_turn.remove(request);
                let ghost rest = of_turn@;
                assert(rest == t@.remove(request@));
                let left: usize = of_turn.len();
                if left > 0 {
                    self.pending.insert(turn.to_owned(), of_turn);
                } else {
                    assert(rest =~= Map::<Seq<char>, String>::empty());
                }
                proof {
                    let before = old(self).pending@;
                    let now = self.pending@;
                    assert forall|at: (Seq<char>, Seq<char>)| #[trigger]
                        waits(now, at) == (waits(before, at) && at != (turn@, request@)) by {
                        if at.0 == turn@ {
                            assert(waits(before, at) == t@.contains_key(at.1));
                            assert(waits(now, at) == rest.contains_key(at.1));
                        }
                    }
                }
                assert(self@.waiting =~= old(self)@.waiting.remove((turn@, request@)));
                command
            },
            None => {
                assert(self@.waiting =~= old(self)@.waiting.remove((turn@, request@)));
                None
            },
        }
    }

    /// A person's answer. `None` where nobody waits for it any more.
    pub fn answer(&mut self, turn: &str, request: &str, approved: bool, remember: bool) -> (r:
        Option<Answered>)
        ensures
            final(self)@.turns == old(self)@.turns,
            final(self)@.waiting == old(self)@.waiting.remove((turn@, request@)),
            if old(self)@.waiting.contains_key((turn@, request@)) {
                &&& r is Some
                &&& r->0.approved == approved
                &&& if approved && remember {
                    r->0.remember matches Some(c) && c@ == old(self)@.waiting[(turn@, request@)]
                } else {
                    r->0.remember is None
                }
            } else {
                r is None
            },
    {
        match self.take(turn, request) {
            Some(command) => {
                let remembered = if approved && remember {
                    Some(command)
                } else {
                    None
                };
                Some(Answered { approved, remember: remembered })
            },
            None => None,
        }
    }

    /// Takes back a question that is no longer waited on.
    pub fn withdraw(&mut self, turn: &str, request: &str)
        ensures
            final(self)@.turns == old(self)@.turns,
            final(self)@.waiting == old(self)@.waiting.remove((turn@, request@)),
    {
        let _ = self.take(turn, request);
    }
}

/// A question is answered once: after that, and after its turn has ended, an
/// answer finds nobody.
pub proof fn an_answer_counts_once(desk: DeskV, turn: Seq<char>, request: Seq<char>)
    ensures
        !desk.waiting.remove((turn, request)).contains_key((turn, request)),
        !without_turn(desk.waiting, turn).contains_key((turn, request)),
{
}

/// Ending a turn touches no question of another turn.
pub proof fn turns_end_apart(desk: DeskV, turn: Seq<char>, other: Seq<char>, request: Seq<char>)
    requires
        other != turn,
    ensures
        without_turn(desk.waiting, turn).contains_key((other, request)) == desk.waiting.contains_key(
            (other, request),
        ),
        desk.waiting.contains_key((other, request)) ==> without_turn(desk.waiting, turn)[(
            other,
            request,
        )] == desk.waiting[(other, request)],
{
}

/// A number that fits stays as it is, and one that does not becomes the nearest
/// that does.
pub proof fn a_number_is_held_within_bounds(n: int)
    ensures
        i64::MIN <= saturated(n) <= i64::MAX,
        i64::MIN <= n <= i64::MAX ==> saturated(n) == n,
        n > i64::MAX ==> saturated(n) == i64::MAX,
        n < i64::MIN ==> saturated(n) == i64::MIN,
{
}

/// A time that fits is told in milliseconds; one that is over is told as none, and
/// a longer one is never told as a shorter.
pub proof fn a_time_is_told_in_milliseconds(secs: int, longer: int)
    requires
        secs <= longer,
    ensures
        0 <= secs <= 2_147_483 ==> narrowed(saturated(secs * 1000)) == secs * 1000,
        secs <= 0 ==> narrowed(saturated(secs * 1000)) == 0,
        narrowed(saturated(secs * 1000)) <= narrowed(saturated(longer * 1000)),
{
}

/// A question waits where its turn has it, with the command that it is about.
pub proof fn a_question_waits_in_its_turn(
    pending: Map<Seq<char>, Table<String>>,
    turn: Seq<char>,
    request: Seq<char>,
)
    ensures
        waiting_of(pending).contains_key((turn, request)) <==> pending.contains_key(turn)
            && pending[turn]@.contains_key(request),
        waiting_of(pending).contains_key((turn, request)) ==> waiting_of(pending)[(turn, request)]
            == pending[turn]@[request]@,
{
}

/// When a turn ends its questions are gone, and those of the others wait on as they
/// were.
pub proof fn only_a_turns_own_questions_go(
    waiting: Map<(Seq<char>, Seq<char>), Seq<char>>,
    turn: Seq<char>,
    other: Seq<char>,
    request: Seq<char>,
)
    ensures
        !without_turn(waiting, turn).contains_key((turn, request)),
        other != turn ==> without_turn(waiting, turn).contains_key((other, request))
            == waiting.contains_key((other, request)),
        other != turn && waiting.contains_key((other, request)) ==> without_turn(
            waiting,
            turn,
        )[(other, request)] == waiting[(other, request)],
{
}

/// Two questions never have the same id.
pub proof fn ids_of_questions_differ(m: nat, n: nat)
    requires
        m != n,
    ensures
        "ap-"@ + decimal(m) != "ap-"@ + decimal(n),
{
    lemma_decimal(m);
    lemma_decimal(n);
    let p = "ap-"@;
    if p + decimal(m) == p + decimal(n) {
        assert(decimal(m) =~= (p + decimal(m)).skip(p.len() as int));
        assert(decimal(n) =~= (p + decimal(n)).skip(p.len() as int));
    }
}

} // verus!
