//! Goals: a condition that a person sets on a session, and the judge that says
//! after each round whether it is met.

use vstd::prelude::*;

use crate::compaction::pair_views;
use crate::gate::{braced, extract_json};
use crate::json::{bool_at, check_json, json_bool_at, json_error, json_text_at, text_at};
use crate::model::{block_views, BlockV, ContentBlock, CreateRequest};
use crate::table::Table;
use crate::text::{
    finishes, head, is_blank_text, join, joined, lemma_occurs, occurs, take_chars, trim, trimmed,
    views,
};

verus! {

/// How much of a conversation the judge gets to see.
pub const JUDGE_TRANSCRIPT_CHARS: usize = 8_000;

pub const JUDGE_MAX_TOKENS: i32 = 512;

pub const JUDGE_SYSTEM: &'static str =
    "你在判断一个长期目标有没有达成。只根据给你的对话记录判断 —— 你不能调工具，也不该自己动手做事。\n只回一个 JSON 对象，不要别的话：{\"ok\": bool, \"impossible\": bool, \"reason\": \"一句话\"}\nok 表示目标已经达成；impossible 表示按现有条件根本做不到。两者不能同时为真。reason 用一句话说清依据（关键证据），用中文。";

#[derive(Debug, Clone, PartialEq, Eq)]
pub struct Goal {
    pub condition: String,
    /// How many rounds were judged so far.
    pub rounds: i32,
    /// Why the goal is at rest; `None` while it is pursued.
    pub status: Option<String>,
}

#[verifier::ext_equal]
pub struct GoalV {
    pub condition: Seq<char>,
    pub rounds: int,
    pub status: Option<Seq<char>>,
}

impl View for Goal {
    type V = GoalV;

    open spec fn view(&self) -> GoalV {
        GoalV {
            condition: self.condition@,
            rounds: self.rounds as int,
            status: match self.status {
                Some(s) => Some(s@),
                None => None,
            },
        }
    }
}

impl Goal {
    fn copy(&self) -> (r: Goal)
        ensures
            r@ == self@,
    {
        Goal {
            condition: self.condition.clone(),
            rounds: self.rounds,
            status: match &self.status {
                Some(s) => Some(s.clone()),
                None => None,
            },
        }
    }
}

/// At most one goal per session.
pub type Goals = Table<Goal>;

pub open spec fn goal_of(goals: Goals, session: Seq<char>) -> Option<GoalV> {
    if goals@.contains_key(session) {
        Some(goals@[session]@)
    } else {
        None
    }
}

/// Every session but this one has the goal that it had.
pub open spec fn others_kept(now: Goals, before: Goals, session: Seq<char>) -> bool {
    forall|s: Seq<char>| s != session ==> #[trigger] goal_of(now, s) == goal_of(before, s)
}

pub open spec fn fresh(condition: Seq<char>) -> GoalV {
    GoalV { condition, rounds: 0, status: None }
}

pub fn store() -> (r: Goals)
    ensures
        forall|s: Seq<char>| #[trigger] goal_of(r, s) is None,
{
    Table::new()
}

/// Sets a session's goal; a blank condition takes it away. Gives back the goal
/// that the session then has.
pub fn set(goals: &mut Goals, session: &str, condition: Option<&str>) -> (r: Option<Goal>)
    ensures
        others_kept(*final(goals), *old(goals), session@),
        ({
            let wanted = match condition {
                Some(c) if trimmed(c@).len() > 0 => Some(fresh(trimmed(c@))),
                _ => None,
            };
            &&& goal_of(*final(goals), session@) == wanted
            &&& match r {
                Some(g) => wanted == Some(g@),
                None => wanted is None,
            }
        }),
{
    match condition {
        Some(c) => {
            if !is_blank_text(c) {
                let goal = Goal { condition: trim(c), rounds: 0, status: None };
                let given = goal.copy();
                goals.insert(session.to_owned(), goal);
                return Some(given);
            }
        },
        None => {},
    }
    let _ = goals.remove(session);
    None
}

/// The goal that is being pursued, if there is one.
pub fn active(goals: &Goals, session: &str) -> (r: Option<Goal>)
    ensures
        ({
            let g = goal_of(*goals, session@);
            match r {
                Some(x) => g == Some(x@) && x@.status is None,
                None => g is None || g->0.status is Some,
            }
        }),
{
    match goals.get(session) {
        Some(g) => match &g.status {
            None => Some(g.copy()),
            Some(_) => None,
        },
        None => None,
    }
}

/// The goal, at rest or not.
pub fn read(goals: &Goals, session: &str) -> (r: Option<Goal>)
    ensures
        match r {
            Some(x) => goal_of(*goals, session@) == Some(x@),
            None => goal_of(*goals, session@) is None,
        },
{
    match goals.get(session) {
        Some(g) => Some(g.copy()),
        None => None,
    }
}

/// Counts a round and gives the count; 0 where there is no goal.
pub fn bump(goals: &mut Goals, session: &str) -> (r: i32)
    requires
        goal_of(*old(goals), session@) is Some ==> goal_of(*old(goals), session@)->0.rounds
            < i32::MAX,
    ensures
        others_kept(*final(goals), *old(goals), session@),
        match goal_of(*old(goals), session@) {
            Some(g) => r == g.rounds + 1 && goal_of(*final(goals), session@) == Some(
                GoalV { rounds: g.rounds + 1, ..g },
            ),
            None => r == 0 && goal_of(*final(goals), session@) is None,
        },
{
    match goals.remove(session) {
        Some(g) => {
            let mut g = g;
            let n: i32 = g.rounds + 1;
            g.rounds = n;
            goals.insert(session.to_owned(), g);
            n
        },
        None => 0,
    }
}

/// Puts a goal to rest. It stays where it is, so that one can see why.
pub fn finish(goals: &mut Goals, session: &str, status: &str)
    ensures
        others_kept(*final(goals), *old(goals), session@),
        goal_of(*final(goals), session@) == match goal_of(*old(goals), session@) {
            Some(g) => Some(GoalV { status: Some(status@), ..g }),
            None => None,
        },
{
    match goals.remove(session) {
        Some(g) => {
            let mut g = g;
            g.status = Some(status.to_owned());
            goals.insert(session.to_owned(), g);
        },
        None => {},
    }
}

// ---- the judge -------------------------------------------------------------

#[derive(Debug, Clone, PartialEq, Eq)]
pub struct Judgement {
    pub ok: bool,
    pub impossible: bool,
    pub reason: String,
}

#[verifier::ext_equal]
pub struct JudgementV {
    pub ok: bool,
    pub impossible: bool,
    pub reason: Seq<char>,
}

impl View for Judgement {
    type V = JudgementV;

    open spec fn view(&self) -> JudgementV {
        JudgementV { ok: self.ok, impossible: self.impossible, reason: self.reason@ }
    }
}

pub open spec fn judge_question(condition: Seq<char>, transcript: Seq<char>) -> Seq<char> {
    "目标："@ + condition + "\n\n对话记录：\n"@ + head(
        transcript,
        JUDGE_TRANSCRIPT_CHARS as nat,
    )
}

/// What was said in the rounds of a turn, as the judge gets to read it.
pub open spec fn told_rounds(rounds: Seq<(Seq<char>, Seq<char>)>) -> Seq<char>
    decreases rounds.len(),
{
    if rounds.len() == 0 {
        Seq::empty()
    } else {
        told_rounds(rounds.drop_last()) + "user: "@ + rounds.last().0 + "\nassistant: "@
            + rounds.last().1 + "\n"@
    }
}

/// Writes down the rounds of a turn, each with its message and its reply.
pub fn transcript(rounds: &Vec<(String, String)>) -> (r: String)
    ensures
        r@ == told_rounds(pair_views(rounds@)),
{
    let ghost all = pair_views(rounds@);
    let mut t = String::new();
    let mut i: usize = 0;
    assert(all.take(0) =~= Seq::<(Seq<char>, Seq<char>)>::empty());
    while i < rounds.len()
        invariant
            i <= rounds@.len(),
            all == pair_views(rounds@),
            t@ == told_rounds(all.take(i as int)),
        decreases rounds@.len() - i,
    {
        assert(all.take(i + 1).drop_last() =~= all.take(i as int));
        t.append("user: ");
        t.append(rounds[i].0.as_str());
        t.append("\nassistant: ");
        t.append(rounds[i].1.as_str());
        t.append("\n");
        i += 1;
    }
    assert(all.take(i as int) =~= all);
    t
}

/// The question to the judge. It has no tools: a judge looks and says.
pub fn judge_request(small_model: &str, condition: &str, transcript: &str) -> (r: CreateRequest)
    ensures
        r.asks(
            small_model@,
            Some(JUDGE_SYSTEM@),
            judge_question(condition@, transcript@),
            JUDGE_MAX_TOKENS as int,
        ),
{
    let looked = take_chars(transcript, JUDGE_TRANSCRIPT_CHARS);
    let mut user = "目标：".to_owned();
    user.append(condition);
    user.append("\n\n对话记录：\n");
    user.append(looked.as_str());
    CreateRequest::question(small_model, Some(JUDGE_SYSTEM.to_owned()), user, JUDGE_MAX_TOKENS)
}

/// The texts among the blocks, in order.
pub open spec fn texts_of(blocks: Seq<BlockV>) -> Seq<Seq<char>>
    decreases blocks.len(),
{
    if blocks.len() == 0 {
        Seq::empty()
    } else {
        let before = texts_of(blocks.drop_last());
        match blocks.last() {
            BlockV::Text { text } => before.push(text),
            _ => before,
        }
    }
}

/// The texts of an answer, one under the other.
pub fn text_lines(blocks: &Vec<ContentBlock>) -> (r: String)
    ensures
        r@ == joined(texts_of(block_views(blocks@)), "\n"@),
{
    let ghost all = block_views(blocks@);
    let mut parts: Vec<String> = Vec::new();
    let mut i: usize = 0;
    assert(all.take(0) =~= Seq::<BlockV>::empty());
    assert(views(parts@) =~= Seq::<Seq<char>>::empty());
    while i < blocks.len()
        invariant
            i <= blocks@.len(),
            all == block_views(blocks@),
            views(parts@) == texts_of(all.take(i as int)),
        decreases blocks@.len() - i,
    {
        let ghost before = views(parts@);
        assert(all.take(i + 1).drop_last() =~= all.take(i as int));
        match &blocks[i] {
            ContentBlock::Text { text } => {
                parts.push(text.clone());
                assert(views(parts@) =~= before.push(text@));
            },
            _ => {},
        }
        i += 1;
    }
    assert(all.take(i as int) =~= all);
    join(&parts, "\n")
}

/// What the judge's fields come to. A judge that says both is not to be
/// believed: the goal counts as not met, and the reason says so.
pub open spec fn judged(
    ok: Option<bool>,
    impossible: Option<bool>,
    reason: Option<Seq<char>>,
) -> JudgementV {
    let yes = ok == Some(true);
    let never = impossible == Some(true);
    let why = match reason {
        Some(r) => r,
        None => "（判断器没给理由）"@,
    };
    if yes && never {
        JudgementV {
            ok: false,
            impossible: false,
            reason: "判断器自相矛盾（ok 与 impossible 同时为真），当作没达成："@ + why,
        }
    } else {
        JudgementV { ok: yes, impossible: never, reason: why }
    }
}

impl Judgement {
    pub fn from_fields(ok: Option<bool>, impossible: Option<bool>, reason: Option<String>) -> (r:
        Judgement)
        ensures
            r@ == judged(
                ok,
                impossible,
                match reason {
                    Some(x) => Some(x@),
                    None => None,
                },
            ),
    {
        let yes: bool = match ok {
            Some(b) => b,
            None => false,
        };
        let never: bool = match impossible {
            Some(b) => b,
            None => false,
        };
        let why = match reason {
            Some(x) => x,
            None => "（判断器没给理由）".to_owned(),
        };
        if yes && never {
            let mut t =
                "判断器自相矛盾（ok 与 impossible 同时为真），当作没达成：".to_owned();
            t.append(why.as_str());
            Judgement { ok: false, impossible: false, reason: t }
        } else {
            Judgement { ok: yes, impossible: never, reason: why }
        }
    }
}

/// A judgement never says both that the goal is met and that it cannot be.
pub proof fn a_judgement_is_consistent(
    ok: Option<bool>,
    impossible: Option<bool>,
    reason: Option<Seq<char>>,
)
    ensures
        !(judged(ok, impossible, reason).ok && judged(ok, impossible, reason).impossible),
        judged(ok, impossible, reason).ok <==> ok == Some(true) && impossible != Some(true),
{
}

pub open spec fn judge_reads(answer: Seq<char>) -> Result<JudgementV, Seq<char>> {
    match braced(answer) {
        None => Err("判断器没给出 JSON："@ + head(answer, 200)),
        Some(json) => match json_error(json) {
            Some(e) => Err("判断器的 JSON 读不了："@ + e + "（"@ + json + "）"@),
            None => Ok(
                judged(
                    json_bool_at(json, "/ok"@),
                    json_bool_at(json, "/impossible"@),
                    json_text_at(json, "/reason"@),
                ),
            ),
        },
    }
}

/// Reads the judge's answer. An error leaves the goal as it is.
pub fn judge(answer: Result<String, String>) -> (r: Result<Judgement, String>)
    ensures
        ({
            let read = match answer {
                Err(e) => Err("判断器调用失败："@ + e@),
                Ok(text) => judge_reads(text@),
            };
            match r {
                Ok(j) => read == Ok::<JudgementV, Seq<char>>(j@),
                Err(e) => read == Err::<JudgementV, Seq<char>>(e@),
            }
        }),
{
    let text = match answer {
        Err(e) => {
            let mut why = "判断器调用失败：".to_owned();
            why.append(e.as_str());
            return Err(why);
        },
        Ok(text) => text,
    };
    match extract_json(text.as_str()) {
        None => {
            let mut why = "判断器没给出 JSON：".to_owned();
            let shown = take_chars(text.as_str(), 200);
            why.append(shown.as_str());
            Err(why)
        },
        Some(json) => match check_json(json.as_str()) {
            Err(e) => {
                let mut why = "判断器的 JSON 读不了：".to_owned();
                why.append(e.as_str());
                why.append("（");
                why.append(json.as_str());
                why.append("）");
                Err(why)
            },
            Ok(_) => Ok(
                Judgement::from_fields(
                    bool_at(json.as_str(), "/ok"),
                    bool_at(json.as_str(), "/impossible"),
                    text_at(json.as_str(), "/reason"),
                ),
            ),
        },
    }
}

// ---- rounds ----------------------------------------------------------------

/// How a judged round ends. `go_on` is the message for the next round.
#[derive(Debug, Clone, PartialEq, Eq)]
pub struct RoundEnd {
    pub status: String,
    pub reason: String,
    pub go_on: Option<String>,
}

#[verifier::ext_equal]
pub struct RoundV {
    pub status: Seq<char>,
    pub reason: Seq<char>,
    pub go_on: bool,
}

impl RoundEnd {
    /// The next round is told why this one was not enough.
    pub open spec fn tells(self, end: RoundV) -> bool {
        &&& self.status@ == end.status
        &&& self.reason@ == end.reason
        &&& match self.go_on {
            Some(m) => end.go_on && m@ == end.reason,
            None => !end.go_on,
        }
    }
}

pub open spec fn judgement_view(judged: Result<Judgement, String>) -> Result<JudgementV, Seq<char>> {
    match judged {
        Ok(j) => Ok(j@),
        Err(w) => Err(w@),
    }
}

/// The end of round number `round`, counted from 1: only an unmet goal with
/// rounds to spare goes on.
pub open spec fn round_ends(
    round: int,
    max_rounds: int,
    judged: Result<JudgementV, Seq<char>>,
) -> RoundV {
    match judged {
        Err(why) => RoundV { status: "blocked"@, reason: why, go_on: false },
        Ok(j) => if j.ok {
            RoundV { status: "satisfied"@, reason: j.reason, go_on: false }
        } else if j.impossible {
            RoundV { status: "impossible"@, reason: j.reason, go_on: false }
        } else if round >= max_rounds {
            RoundV { status: "round-limit"@, reason: j.reason, go_on: false }
        } else {
            RoundV { status: "continuing"@, reason: j.reason, go_on: true }
        },
    }
}

pub fn after_round(round: i32, max_rounds: i32, judged: Result<Judgement, String>) -> (r: RoundEnd)
    ensures
        r.tells(round_ends(round as int, max_rounds as int, judgement_view(judged))),
{
    match judged {
        Err(why) => RoundEnd { status: "blocked".to_owned(), reason: why, go_on: None },
        Ok(j) => {
            if j.ok {
                RoundEnd { status: "satisfied".to_owned(), reason: j.reason, go_on: None }
            } else if j.impossible {
                RoundEnd { status: "impossible".to_owned(), reason: j.reason, go_on: None }
            } else if round >= max_rounds {
                RoundEnd { status: "round-limit".to_owned(), reason: j.reason, go_on: None }
            } else {
                let next = j.reason.clone();
                RoundEnd { status: "continuing".to_owned(), reason: j.reason, go_on: Some(next) }
            }
        },
    }
}

/// A round of a goal, as it is told.
#[derive(Debug, Clone, PartialEq, Eq)]
pub struct GoalRound {
    /// Counted from 1 over all turns.
    pub round: i32,
    pub end: RoundEnd,
}

/// A goal once a round of it was judged: the round is counted, and unless it goes
/// on, the goal is at rest and says why. A goal at rest is not judged again.
pub open spec fn round_closed(
    goal: Option<GoalV>,
    max_rounds: int,
    judged: Result<JudgementV, Seq<char>>,
) -> Option<GoalV> {
    match goal {
        Some(g) => if g.status is Some {
            goal
        } else {
            let end = round_ends(g.rounds + 1, max_rounds, judged);
            Some(
                GoalV {
                    rounds: g.rounds + 1,
                    status: if end.go_on {
                        None
                    } else {
                        Some(end.status)
                    },
                    ..g
                },
            )
        },
        None => None,
    }
}

/// Closes a round of a session's goal with what the judge said of it. `None`
/// where no goal is being pursued.
pub fn close_round(
    goals: &mut Goals,
    session: &str,
    max_rounds: i32,
    judged: Result<Judgement, String>,
) -> (r: Option<GoalRound>)
    requires
        goal_of(*old(goals), session@) is Some ==> goal_of(*old(goals), session@)->0.rounds
            < i32::MAX,
    ensures
        others_kept(*final(goals), *old(goals), session@),
        goal_of(*final(goals), session@) == round_closed(
            goal_of(*old(goals), session@),
            max_rounds as int,
            judgement_view(judged),
        ),
        match r {
            Some(told) => {
                let g = goal_of(*old(goals), session@);
                &&& g is Some && g->0.status is None
                &&& told.round == g->0.rounds + 1
                &&& told.end.tells(
                    round_ends(told.round as int, max_rounds as int, judgement_view(judged)),
                )
            },
            None => {
                let g = goal_of(*old(goals), session@);
                g is None || g->0.status is Some
            },
        },
{
    match active(goals, session) {
        Some(_) => {
            let round: i32 = bump(goals, session);
            let end = after_round(round, max_rounds, judged);
            if end.go_on.is_none() {
                finish(goals, session, end.status.as_str());
            }
            Some(GoalRound { round, end })
        },
        None => None,
    }
}

/// Rounds run out: a goal that is still pursued after a round has rounds to spare.
pub proof fn rounds_are_bounded(
    goal: GoalV,
    max_rounds: int,
    judged: Result<JudgementV, Seq<char>>,
)
    requires
        goal.status is None,
    ensures
        round_closed(Some(goal), max_rounds, judged)->0.status is None ==> round_closed(
            Some(goal),
            max_rounds,
            judged,
        )->0.rounds < max_rounds,
{
}

/// However a round ends, the goal is still there to be looked at, with the
/// condition that it had.
pub proof fn a_judged_goal_is_kept(
    goal: GoalV,
    max_rounds: int,
    judged: Result<JudgementV, Seq<char>>,
)
    ensures
        round_closed(Some(goal), max_rounds, judged) is Some,
        round_closed(Some(goal), max_rounds, judged)->0.condition == goal.condition,
{
}

// ---- what a judgement and a round promise ----------------------------------

/// A goal counts as met only where the judge says so and does not say the contrary,
/// and what the judge gives for a reason is in the reason.
pub proof fn a_goal_is_met_only_by_a_clear_yes(
    ok: Option<bool>,
    impossible: Option<bool>,
    reason: Option<Seq<char>>,
)
    ensures
        judged(ok, impossible, reason).ok <==> ok == Some(true) && impossible != Some(true),
        judged(ok, impossible, reason).impossible <==> impossible == Some(true) && ok != Some(true),
        reason matches Some(r) ==> finishes(judged(ok, impossible, reason).reason, r),
        reason is Some && !(ok == Some(true) && impossible == Some(true)) ==> judged(
            ok,
            impossible,
            reason,
        ).reason == reason->0,
{
    if reason is Some {
        let why = reason->0;
        let front = "判断器自相矛盾（ok 与 impossible 同时为真），当作没达成："@;
        lemma_occurs(front, why, Seq::empty());
        assert(front + why + Seq::<char>::empty() =~= front + why);
        assert(why.subrange(0, why.len() as int) =~= why);
    }
}

/// An answer of the judge that can be read is judged by its own fields; one that
/// cannot be read is an error that shows what was said.
pub proof fn a_judge_is_taken_at_its_word(answer: Seq<char>)
    ensures
        match judge_reads(answer) {
            Ok(j) => {
                &&& braced(answer) matches Some(json) && json_error(json) is None
                &&& j.ok <==> json_bool_at(braced(answer)->0, "/ok"@) == Some(true) && json_bool_at(
                    braced(answer)->0,
                    "/impossible"@,
                ) != Some(true)
            },
            Err(why) => {
                &&& braced(answer) is None ==> finishes(why, head(answer, 200))
                &&& braced(answer) matches Some(json) ==> json_error(json) is Some && occurs(
                    why,
                    json_error(json)->0,
                ) && occurs(why, json)
            },
        },
{
    match braced(answer) {
        None => {
            let front = "判断器没给出 JSON："@;
            let said = head(answer, 200);
            lemma_occurs(front, said, Seq::empty());
            assert(front + said + Seq::<char>::empty() =~= front + said);
        },
        Some(json) => if json_error(json) is Some {
            let e = json_error(json)->0;
            let a = "判断器的 JSON 读不了："@;
            let b = "（"@;
            let c = "）"@;
            lemma_occurs(a, e, b + json + c);
            assert(a + e + b + json + c =~= a + e + (b + json + c));
            lemma_occurs(a + e + b, json, c);
        },
    }
}

/// The judge is told the goal, and reads the front of what was said: all of it
/// where it is short enough.
pub proof fn the_judge_reads_the_goal_and_the_talk(condition: Seq<char>, transcript: Seq<char>)
    ensures
        occurs(judge_question(condition, transcript), condition),
        transcript.len() <= 8_000 ==> finishes(judge_question(condition, transcript), transcript),
        transcript.len() > 8_000 ==> finishes(
            judge_question(condition, transcript),
            transcript.take(8_000),
        ),
{
    let q = judge_question(condition, transcript);
    let seen = head(transcript, 8_000);
    let a = "目标："@;
    let b = "\n\n对话记录：\n"@;
    lemma_occurs(a, condition, b + seen);
    assert(q =~= a + condition + (b + seen));
    lemma_occurs(a + condition + b, seen, Seq::empty());
    assert(q =~= (a + condition + b) + seen + Seq::<char>::empty());
    if transcript.len() > 8_000 {
        assert(seen =~= transcript.take(8_000));
    }
}

/// A round is written down by its message and by its reply, behind the rounds before
/// it.
pub proof fn every_round_is_written_down(
    rounds: Seq<(Seq<char>, Seq<char>)>,
    message: Seq<char>,
    reply: Seq<char>,
)
    ensures
        told_rounds(Seq::empty()).len() == 0,
        told_rounds(rounds.push((message, reply))) == told_rounds(rounds) + "user: "@ + message
            + "\nassistant: "@ + reply + "\n"@,
        occurs(told_rounds(rounds.push((message, reply))), message),
        occurs(told_rounds(rounds.push((message, reply))), reply),
        told_rounds(rounds).is_prefix_of(told_rounds(rounds.push((message, reply)))),
{
    let before = told_rounds(rounds);
    let now = told_rounds(rounds.push((message, reply)));
    assert(rounds.push((message, reply)).drop_last() =~= rounds);
    let a = "user: "@;
    let b = "\nassistant: "@;
    let c = "\n"@;
    lemma_occurs(before + a, message, b + reply + c);
    assert(now =~= (before + a) + message + (b + reply + c));
    lemma_occurs(before + a + message + b, reply, c);
    assert(now.take(before.len() as int) =~= before);
}

/// The texts of an answer are all of its text blocks, in their order.
pub proof fn texts_are_the_text_blocks(a: Seq<BlockV>, block: BlockV)
    ensures
        texts_of(Seq::empty()).len() == 0,
        block matches BlockV::Text { text } ==> texts_of(a.push(block)) == texts_of(a).push(text),
        !(block is Text) ==> texts_of(a.push(block)) == texts_of(a),
{
    assert(a.push(block).drop_last() =~= a);
}

/// A round goes on only where the goal is open and a round is left. It ends with the
/// word for what became of it, and the judge's reason is handed on as it is.
pub proof fn a_round_ends_as_it_was_judged(
    round: int,
    max_rounds: int,
    j: JudgementV,
    why: Seq<char>,
)
    ensures
        ({
            let end = round_ends(round, max_rounds, Ok(j));
            &&& end.go_on <==> !j.ok && !j.impossible && round < max_rounds
            &&& end.reason == j.reason
            &&& j.ok ==> end.status == "satisfied"@
            &&& !j.ok && j.impossible ==> end.status == "impossible"@
            &&& !j.ok && !j.impossible && round >= max_rounds ==> end.status == "round-limit"@
            &&& end.go_on ==> end.status == "continuing"@
        }),
        ({
            let end = round_ends(round, max_rounds, Err(why));
            !end.go_on && end.reason == why && end.status == "blocked"@
        }),
{
}

/// A new goal is open and has seen no round.
pub proof fn a_new_goal_is_open(condition: Seq<char>)
    ensures
        fresh(condition).condition == condition,
        fresh(condition).rounds == 0,
        fresh(condition).status is None,
{
}

/// Closing a round counts it, keeps the goal's condition, and puts the goal to rest
/// exactly where the round does not go on; a goal at rest stays as it is.
pub proof fn a_closed_round_is_counted(
    g: GoalV,
    max_rounds: int,
    judged: Result<JudgementV, Seq<char>>,
)
    ensures
        round_closed(None, max_rounds, judged) is None,
        g.status is Some ==> round_closed(Some(g), max_rounds, judged) == Some(g),
        g.status is None ==> ({
            let now = round_closed(Some(g), max_rounds, judged);
            let end = round_ends(g.rounds + 1, max_rounds, judged);
            &&& now is Some
            &&& now->0.condition == g.condition
            &&& now->0.rounds == g.rounds + 1
            &&& end.go_on <==> now->0.status is None
            &&& !end.go_on ==> now->0.status == Some(end.status)
        }),
{
}

/// What a round goes on with is the judge's reason.
pub proof fn a_round_goes_on_with_the_reason(told: RoundEnd, end: RoundV)
    requires
        told.tells(end),
    ensures
        told.status@ == end.status,
        told.reason@ == end.reason,
        told.go_on is Some <==> end.go_on,
        told.go_on matches Some(m) ==> m@ == told.reason@,
{
}

} // verus!
