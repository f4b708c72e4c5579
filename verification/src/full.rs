//! One full turn: the memory gate, what is recalled, the conversation so far, and
//! the loop.
//!
//! It is a state that the caller drives. Where the model finds the conversation
//! too long, all of it but at most the latest turn is folded into the summary, and
//! the loop is tried once more; no other failure is worth a second try.

use vstd::prelude::*;

use crate::agent::LoopResult;
use crate::compaction::{
    covered_so_far, evicted, folded, material, no_turn_is_lost, pair_views, Refresh, refresh,
    roll_forward, roll_request, SUMMARY_MAX_TOKENS, summary_so_far, SUMMARY_SYSTEM, uncovered,
    waterline,
};
use crate::dispatch::{ErrorCode, ErrorObject};
use crate::gate::{Decision, DecisionV, gate_reads, opened, should_retrieve};
use crate::model::{CreateRequest, Message, message_views, Role, text_message};
use crate::text::{joined, lemma_occurs, occurs, opt_text, trimmed};
use crate::turn::{
    a_system_prompt_holds_it_all, build_system, Clock, FullTurn, gate_decision, GateDecision,
    history_messages, latest_messages, loop_failed, Models, system_parts, tells_gate,
    the_history_is_the_latest_turns, window_of,
};

verus! {

/// How many turns are kept at most where the conversation was too long: the latest
/// one, lest the model answer a summary.
pub const TIGHT_WINDOW: i32 = 1;

/// The window of the second try, which is never wider than that of the first.
pub open spec fn tightened(window: int) -> int {
    if window < TIGHT_WINDOW {
        window
    } else {
        TIGHT_WINDOW as int
    }
}

/// Why a loop broke off.
#[derive(Debug, Clone, PartialEq, Eq)]
pub enum LoopFailure {
    /// The conversation is too long for the model.
    Overflow(String),
    Other(String),
}

impl LoopFailure {
    pub open spec fn words(self) -> Seq<char> {
        match self {
            LoopFailure::Overflow(why) => why@,
            LoopFailure::Other(why) => why@,
        }
    }

    pub fn why(self) -> (r: String)
        ensures
            r@ == self.words(),
    {
        match self {
            LoopFailure::Overflow(why) => why,
            LoopFailure::Other(why) => why,
        }
    }
}

/// What was gathered for the prompt.
#[derive(Debug, Clone, PartialEq, Eq)]
pub struct Recall {
    pub soul: String,
    pub clock: Clock,
    /// What the memory holds on the matter.
    pub memory: String,
    /// The skills that the message brings up.
    pub skills: String,
    /// The to-do list of the session, as it is put before the model.
    pub todo: Option<String>,
    /// The conversation so far: what was said and what was answered.
    pub pairs: Vec<(String, String)>,
}

#[derive(Debug, Clone, Copy, PartialEq, Eq, Structural)]
pub enum Stage {
    /// Look up what the turn needs.
    Recalling,
    /// Have turns folded into the summary.
    Folding,
    /// Run the loop.
    Looping,
    Ended,
}

/// What to do next.
pub enum Next {
    /// Ask the model for a summary.
    Fold(CreateRequest),
    /// Run the loop on this.
    Loop { system: String, history: Vec<Message> },
    Done(Result<FullTurn, ErrorObject>),
}

pub struct FullRun {
    pub stage: Stage,
    pub models: Models,
    pub gate: GateDecision,
    pub recall: Option<Recall>,
    /// How many turns the model is told word for word.
    pub window: i32,
    /// What is stored as summary: how many turns it covers, and what it says.
    pub rollup: Option<(i32, String)>,
    /// The turns that are being folded.
    pub fresh: Vec<(String, String)>,
    /// Whether the conversation was found too long.
    pub retried: bool,
    /// How often the loop was run.
    pub tries: u32,
}

/// What the memory gate decides, given its model's answer.
pub open spec fn decision_on(answer: Result<String, String>, message: Seq<char>) -> DecisionV {
    match answer {
        Err(e) => opened("gate 调用失败，失败开放（"@ + e@ + "）"@, message),
        Ok(text) => gate_reads(text@, message),
    }
}

pub open spec fn summary_of(rollup: Option<(i32, String)>) -> Option<Seq<char>> {
    match rollup {
        Some(p) => Some(p.1@),
        None => None,
    }
}

impl FullRun {
    pub open spec fn pairs(self) -> Seq<(Seq<char>, Seq<char>)> {
        pair_views(self.recall->0.pairs@)
    }

    /// The turns that have left the window and are not covered yet.
    pub open spec fn left(self) -> Seq<(Seq<char>, Seq<char>)> {
        uncovered(self.pairs(), window_of(self.window as int), covered_so_far(self.rollup))
    }

    pub open spec fn wf(self) -> bool {
        &&& self.stage == Stage::Recalling ==> !self.retried && self.tries == 0
        &&& self.stage == Stage::Folding || self.stage == Stage::Looping ==> self.recall is Some
            && self.pairs().len() <= i32::MAX
        &&& self.stage == Stage::Folding ==> {
            &&& self.tries == if self.retried {
                1int
            } else {
                0int
            }
            &&& self.left().len() > 0
            &&& pair_views(self.fresh@) == self.left()
        }
        &&& self.stage == Stage::Looping ==> self.tries == if self.retried {
            2int
        } else {
            1int
        }
        &&& self.tries <= 2
    }

    /// The same turn, with what was recalled for it.
    pub open spec fn same_turn(self, other: FullRun) -> bool {
        self.models == other.models && self.gate == other.gate && self.recall == other.recall
    }

    /// The loop is run on what the turn holds now: the prompt with its summary,
    /// and the turns of the window.
    pub open spec fn runs(self, next: Next) -> bool {
        let it = self.recall->0;
        &&& next is Loop
        &&& next->system@ == joined(
            system_parts(
                it.soul@,
                it.clock,
                self.models.model@,
                self.models.provider@,
                it.memory@,
                it.skills@,
                summary_of(self.rollup),
                opt_text(it.todo),
            ),
            "\n"@,
        )
        &&& message_views(next->history@) == latest_messages(self.pairs(), self.window as int)
    }

    /// Turns that have left the window are folded first; where there are none, the
    /// loop is run. `tries` says how often it was run before.
    pub open spec fn goes_on(self, tries: int, next: Next) -> bool {
        if self.left().len() > 0 {
            &&& self.stage == Stage::Folding
            &&& self.tries == tries
            &&& pair_views(self.fresh@) == self.left()
            &&& next is Fold
            &&& next->Fold_0.asks(
                self.models.small_model@,
                Some(SUMMARY_SYSTEM@),
                material(summary_so_far(self.rollup), self.left()),
                SUMMARY_MAX_TOKENS as int,
            )
        } else {
            &&& self.stage == Stage::Looping
            &&& self.tries == tries + 1
            &&& self.runs(next)
        }
    }

    /// Opens a full turn with what was answered on searching the memory: says what the memory
    /// is searched for, if it is.
    pub fn decided(models: Models, message: &str, answer: Result<String, String>) -> (r: (
        FullRun,
        Decision,
    ))
        ensures
            r.0.wf(),
            r.0.stage == Stage::Recalling,
            r.0.models == models,
            r.1@ == decision_on(answer, message@),
            tells_gate(r.0.gate, decision_on(answer, message@)),
    {
        let decision = should_retrieve(answer, message);
        let gate = gate_decision(&decision);
        (
            FullRun {
                stage: Stage::Recalling,
                models,
                gate,
                recall: None,
                window: 0,
                rollup: None,
                fresh: Vec::new(),
                retried: false,
                tries: 0,
            },
            decision,
        )
    }

    fn loop_on(&mut self) -> (r: Next)
        requires
            old(self).recall is Some,
            old(self).tries < 2,
        ensures
            *final(self) == (FullRun {
                stage: Stage::Looping,
                tries: (old(self).tries + 1) as u32,
                ..*old(self)
            }),
            final(self).runs(r),
    {
        self.stage = Stage::Looping;
        self.tries = self.tries + 1;
        let summary: Option<String> = match &self.rollup {
            Some(p) => Some(p.1.clone()),
            None => None,
        };
        match &self.recall {
            Some(it) => Next::Loop {
                system: build_system(
                    it.soul.as_str(),
                    &it.clock,
                    self.models.model.as_str(),
                    self.models.provider.as_str(),
                    it.memory.as_str(),
                    it.skills.as_str(),
                    &summary,
                    &it.todo,
                ),
                history: history_messages(&it.pairs, self.window),
            },
            None => Next::Loop { system: String::new(), history: Vec::new() },
        }
    }

    fn go_on(&mut self) -> (r: Next)
        requires
            old(self).recall is Some,
            old(self).pairs().len() <= i32::MAX,
            old(self).tries == if old(self).retried {
                1int
            } else {
                0int
            },
        ensures
            final(self).wf(),
            final(self).same_turn(*old(self)),
            final(self).window == old(self).window,
            final(self).rollup == old(self).rollup,
            final(self).retried == old(self).retried,
            final(self).goes_on(old(self).tries as int, r),
    {
        let width: usize = if self.window < 0 {
            0
        } else {
            self.window as usize
        };
        let step = match &self.recall {
            Some(it) => refresh(&self.rollup, &it.pairs, width),
            None => Refresh::Keep(None),
        };
        match step {
            Refresh::Keep(_) => self.loop_on(),
            Refresh::Fold(fresh) => {
                let request = roll_request(
                    self.models.small_model.as_str(),
                    &self.rollup,
                    &fresh,
                );
                self.fresh = fresh;
                self.stage = Stage::Folding;
                Next::Fold(request)
            },
        }
    }

    /// What the turn needs is at hand. `rollup` is the summary that is stored.
    pub fn recalled(
        &mut self,
        recall: Recall,
        rollup: Option<(i32, String)>,
        history_turns: i32,
    ) -> (r: Next)
        requires
            old(self).wf(),
            old(self).stage == Stage::Recalling,
            recall.pairs@.len() <= i32::MAX,
        ensures
            final(self).wf(),
            final(self).models == old(self).models,
            final(self).gate == old(self).gate,
            final(self).recall == Some(recall),
            final(self).rollup == rollup,
            final(self).window == history_turns,
            !final(self).retried,
            final(self).goes_on(0, r),
    {
        self.recall = Some(recall);
        self.rollup = rollup;
        self.window = history_turns;
        self.go_on()
    }

    /// What the model answered to the request for a summary, if it did. The first
    /// part is the summary that is to be stored from now on.
    pub fn folded(&mut self, answer: Option<String>) -> (r: ((i32, String), Next))
        requires
            old(self).wf(),
            old(self).stage == Stage::Folding,
        ensures
            final(self).wf(),
            final(self).same_turn(*old(self)),
            final(self).window == old(self).window,
            final(self).retried == old(self).retried,
            final(self).stage == Stage::Looping,
            final(self).tries == old(self).tries + 1,
            r.0.0 == covered_so_far(old(self).rollup) + old(self).left().len(),
            r.0.1@ == folded(summary_so_far(old(self).rollup), old(self).left(), opt_text(answer)),
            final(self).rollup == Some(r.0),
            final(self).runs(r.1),
    {
        proof {
            lemma_covered_fits(*self);
            assert(pair_views(self.fresh@).len() == self.fresh@.len());
        }
        let (covered, text) = roll_forward(&self.rollup, &self.fresh, &answer);
        self.rollup = Some((covered, text.clone()));
        let next = self.loop_on();
        ((covered, text), next)
    }

    /// What the loop came to.
    pub fn looped(&mut self, outcome: Result<LoopResult, LoopFailure>) -> (r: Next)
        requires
            old(self).wf(),
            old(self).stage == Stage::Looping,
        ensures
            final(self).wf(),
            final(self).models == old(self).models,
            final(self).recall == old(self).recall,
            match outcome {
                Ok(result) => {
                    &&& final(self).stage == Stage::Ended
                    &&& r matches Next::Done(Ok(turn)) && turn.result == result && turn.gate
                        == Some(old(self).gate)
                },
                Err(failure) => if failure is Overflow && !old(self).retried {
                    &&& final(self).retried
                    &&& final(self).gate == old(self).gate
                    &&& final(self).window == tightened(old(self).window as int)
                    &&& final(self).rollup == old(self).rollup
                    &&& final(self).goes_on(1, r)
                } else {
                    &&& final(self).stage == Stage::Ended
                    &&& r matches Next::Done(Err(e)) && e.says(
                        ErrorCode::ProviderError,
                        "模型调用失败："@ + failure.words(),
                    )
                },
            },
    {
        match outcome {
            Ok(result) => {
                self.stage = Stage::Ended;
                let gate = copy_gate(&self.gate);
                Next::Done(Ok(FullTurn { result, gate: Some(gate) }))
            },
            Err(failure) => {
                let overflow = match &failure {
                    LoopFailure::Overflow(_) => true,
                    LoopFailure::Other(_) => false,
                };
                if overflow && !self.retried {
                    self.retried = true;
                    if self.window > TIGHT_WINDOW {
                        self.window = TIGHT_WINDOW;
                    }
                    return self.go_on();
                }
                self.stage = Stage::Ended;
                Next::Done(Err(loop_failed(failure.why().as_str())))
            },
        }
    }
}

fn copy_gate(gate: &GateDecision) -> (r: GateDecision)
    ensures
        r == *gate,
{
    GateDecision {
        decision: gate.decision,
        reason: gate.reason.clone(),
        query: match &gate.query {
            Some(q) => Some(q.clone()),
            None => None,
        },
    }
}

proof fn lemma_covered_fits(run: FullRun)
    requires
        run.recall is Some,
        run.pairs().len() <= i32::MAX,
        run.left().len() > 0,
    ensures
        covered_so_far(run.rollup) + run.left().len() <= i32::MAX,
{
    let end = evicted(run.pairs().len() as int, window_of(run.window as int));
    assert(waterline(covered_so_far(run.rollup)) + run.left().len() == end);
}

/// Whatever the model answers, the loop is run at most twice in a turn, and a
/// second time only where the conversation was found too long.
pub proof fn a_turn_loops_at_most_twice(run: FullRun)
    requires
        run.wf(),
    ensures
        run.tries <= 2,
        run.stage == Stage::Looping && run.tries == 2 ==> run.retried,
{
}

/// An overflow leaves a summary of every turn but at most the latest: the turns that the
/// second try is told and those that its summary covers make up the whole.
pub proof fn nothing_is_lost_to_an_overflow(run: FullRun)
    requires
        run.recall is Some,
        run.window == tightened(run.window as int),
        run.rollup is None,
    ensures
        ({
            let kept = evicted(run.pairs().len() as int, window_of(run.window as int));
            run.left() + run.pairs().skip(kept) == run.pairs()
        }),
        run.left().len() + 1 >= run.pairs().len(),
{
    let kept = evicted(run.pairs().len() as int, window_of(run.window as int));
    assert(run.left() + run.pairs().skip(kept) =~= run.pairs());
}

/// The second window is the first one where that held at most one turn, and one turn
/// otherwise.
pub proof fn a_window_only_narrows(window: int)
    ensures
        tightened(window) <= window,
        tightened(window) <= 1,
        window >= 1 ==> tightened(window) == 1,
        window < 1 ==> tightened(window) == window,
{
}

/// Whether the memory is searched is decided by the answer; where there is none it
/// is searched for the message, and why there is none is told.
pub proof fn a_failed_gate_searches(error: String, text: String, message: Seq<char>)
    ensures
        decision_on(Err(error), message).retrieve,
        decision_on(Err(error), message).query == message,
        occurs(decision_on(Err(error), message).reason, error@),
        decision_on(Ok(text), message) == gate_reads(text@, message),
{
    lemma_occurs("gate 调用失败，失败开放（"@, error@, "）"@);
}

/// The turns that the model is told word for word and the turns that are folded are
/// all the turns that no summary covers.
pub proof fn told_and_folded_are_all(run: FullRun)
    requires
        run.recall is Some,
        run.rollup is None,
    ensures
        ({
            let window = window_of(run.window as int);
            let n = run.pairs().len() as int;
            let from = if n > window {
                n - window
            } else {
                0
            };
            run.left() + run.pairs().skip(from) == run.pairs()
        }),
{
    no_turn_is_lost(run.pairs(), window_of(run.window as int));
}

/// The loop is told all that the turn holds: in its prompt the soul, the model, the
/// memory, the skills, the summary and the list, and as history the latest turns of
/// the window, word for word.
pub proof fn the_loop_is_told_it_all(run: FullRun, next: Next, i: int)
    requires
        run.recall is Some,
        run.runs(next),
    ensures
        next is Loop,
        occurs(next->system@, run.recall->0.soul@),
        occurs(next->system@, run.models.model@),
        occurs(next->system@, run.models.provider@),
        run.recall->0.memory@.len() > 0 ==> occurs(next->system@, run.recall->0.memory@),
        run.recall->0.skills@.len() > 0 ==> occurs(next->system@, run.recall->0.skills@),
        run.recall->0.todo is Some && run.recall->0.todo->0@.len() > 0 ==> occurs(
            next->system@,
            run.recall->0.todo->0@,
        ),
        run.rollup matches Some(rollup) ==> trimmed(rollup.1@).len() > 0 ==> occurs(
            next->system@,
            trimmed(rollup.1@),
        ),
        ({
            let n = run.pairs().len() as int;
            let kept = if run.window < 0 {
                0
            } else if run.window < n {
                run.window as int
            } else {
                n
            };
            &&& next->history@.len() == 2 * kept
            &&& 0 <= i < kept ==> {
                &&& next->history@[2 * i]@ == text_message(Role::User, run.pairs()[n - kept + i].0)
                &&& next->history@[2 * i + 1]@ == text_message(
                    Role::Assistant,
                    run.pairs()[n - kept + i].1,
                )
            }
        }),
{
    let it = run.recall->0;
    a_system_prompt_holds_it_all(
        it.soul@,
        it.clock,
        run.models.model@,
        run.models.provider@,
        it.memory@,
        it.skills@,
        summary_of(run.rollup),
        opt_text(it.todo),
    );
    the_history_is_the_latest_turns(run.pairs(), run.window as int, i);
    let told = message_views(next->history@);
    assert(told.len() == next->history@.len());
    if 0 <= 2 * i < told.len() {
        assert(told[2 * i] == next->history@[2 * i]@);
    }
    if 0 <= 2 * i + 1 < told.len() {
        assert(told[2 * i + 1] == next->history@[2 * i + 1]@);
    }
}

/// Turns that have left the window are folded before the loop is run: the small model
/// is asked about exactly them. Otherwise the loop is run, once more than before.
pub proof fn folding_comes_before_the_loop(run: FullRun, tries: int, next: Next)
    requires
        run.goes_on(tries, next),
    ensures
        next is Fold <==> run.left().len() > 0,
        next is Loop <==> run.left().len() == 0,
        next is Fold ==> run.tries == tries && pair_views(run.fresh@) == run.left()
            && next->Fold_0.model@ == run.models.small_model@,
        next is Loop ==> run.tries == tries + 1 && run.runs(next),
{
}

} // verus!
