//! Consolidation: now and then, what was said is distilled into facts and an
//! episode that stay.

use vstd::prelude::*;

use crate::gate::{braced, extract_json};
use crate::json::{
    check_json, count_at, json_count_at, json_error, json_text_at, list_len, place, place_of,
    text_at,
};
use crate::model::CreateRequest;
use crate::text::{
    a_joined_text_holds_its_parts, a_replacement_takes_its_place, a_trimmed_text_has_no_blank_ends,
    blank, contains, decimal, find_text, is_blank_text, join, joined, lemma_find_text,
    lemma_occurs_within, lower, lowercased, occurs, occurs_at, opt_text, replace, replaced, trim,
    trimmed, views,
};

verus! {

pub const SUMMARIZER_PROMPT: &'static str =
    "You distill a personal assistant's recent conversation into long-term memory.\n\nFrom the exchanges below, extract:\n1. durable facts about the user, their people, projects, or preferences —\n   only things worth remembering in a month; skip chit-chat and one-offs.\n2. one single-sentence episode summarizing what happened in this conversation.\n\nFor each fact also pick a kind:\n  - \"user\"      who the user is (role, people, preferences, habits)\n  - \"project\"   what is being worked on (state, decisions, deadlines)\n  - \"feedback\"  how they want you to work (corrections, style, rules)\n  - \"reference\"  pointers worth keeping (links, ids, commands, file paths)\n  - \"fact\"      anything else\n\nReply with ONLY this JSON:\n{\"facts\": [{\"subject\": \"<who/what>\", \"content\": \"<one sentence>\", \"kind\": \"user|project|feedback|reference|fact\"}], \"episode\": \"<one sentence>\"}\n\nExchanges:\n{log}";

pub const DISTILL_MAX_TOKENS: i32 = 4096;

// ---- when ------------------------------------------------------------------

/// How many rows make it worth while: two for each of `every` turns.
pub open spec fn rows_due(every: int) -> int {
    2 * if every < 1 {
        1
    } else {
        every
    }
}

pub fn is_due(rows: usize, every: i32) -> (r: bool)
    ensures
        r == (rows >= rows_due(every as int)),
{
    let n: u64 = if every < 1 {
        1
    } else {
        every as u64
    };
    rows as u64 >= n * 2
}

/// A row of the log: its number, who spoke, and what was said.
#[derive(Debug, Clone, PartialEq, Eq)]
pub struct LogRow {
    pub id: i64,
    pub role: String,
    pub content: String,
}

pub open spec fn row_lines(rows: Seq<LogRow>) -> Seq<Seq<char>> {
    rows.map_values(|r: LogRow| r.role@ + ": "@ + r.content@)
}

/// What the model is asked to distill.
pub fn distill_request(rows: &Vec<LogRow>, small_model: &str) -> (r: CreateRequest)
    ensures
        r.asks(
            small_model@,
            None,
            replaced(SUMMARIZER_PROMPT@, "{log}"@, joined(row_lines(rows@), "\n"@)),
            DISTILL_MAX_TOKENS as int,
        ),
{
    let mut parts: Vec<String> = Vec::new();
    let mut i: usize = 0;
    assert(views(parts@) =~= row_lines(rows@).take(0));
    while i < rows.len()
        invariant
            i <= rows@.len(),
            views(parts@) == row_lines(rows@).take(i as int),
        decreases rows@.len() - i,
    {
        let ghost before = views(parts@);
        let mut line = rows[i].role.clone();
        line.append(": ");
        line.append(rows[i].content.as_str());
        parts.push(line);
        assert(views(parts@) =~= before.push(line@));
        assert(row_lines(rows@).take(i + 1) =~= before.push(line@));
        i += 1;
    }
    assert(row_lines(rows@).take(rows@.len() as int) =~= row_lines(rows@));
    let log = join(&parts, "\n");
    proof {
        reveal_strlit("{log}");
    }
    let prompt = replace(SUMMARIZER_PROMPT, "{log}", log.as_str());
    CreateRequest::question(small_model, None, prompt, DISTILL_MAX_TOKENS)
}

// ---- what is worth keeping -------------------------------------------------

/// The marks of something said for the moment, not for good.
pub fn temporary_markers() -> (r: Vec<&'static str>)
    ensures
        r@.len() == 19,
        forall|i: int| 0 <= i < 19 ==> (#[trigger] r@[i])@ == marker_at(i),
{
    let r: Vec<&'static str> = vec![
        "本次会话",
        "这次会话",
        "本次对话",
        "这次对话",
        "当前对话",
        "暂时",
        "临时",
        "先这样",
        "就这一次",
        "仅限今天",
        "this session",
        "this conversation",
        "in this chat",
        "for now",
        "for the time being",
        "temporarily",
        "just for today",
        "only for today",
        "as a one-off",
    ];
    r
}

pub open spec fn marker_at(i: int) -> Seq<char> {
    if i == 0 {
        "本次会话"@
    } else if i == 1 {
        "这次会话"@
    } else if i == 2 {
        "本次对话"@
    } else if i == 3 {
        "这次对话"@
    } else if i == 4 {
        "当前对话"@
    } else if i == 5 {
        "暂时"@
    } else if i == 6 {
        "临时"@
    } else if i == 7 {
        "先这样"@
    } else if i == 8 {
        "就这一次"@
    } else if i == 9 {
        "仅限今天"@
    } else if i == 10 {
        "this session"@
    } else if i == 11 {
        "this conversation"@
    } else if i == 12 {
        "in this chat"@
    } else if i == 13 {
        "for now"@
    } else if i == 14 {
        "for the time being"@
    } else if i == 15 {
        "temporarily"@
    } else if i == 16 {
        "just for today"@
    } else if i == 17 {
        "only for today"@
    } else {
        "as a one-off"@
    }
}

/// The first of the marks that a text holds.
pub open spec fn first_marker(lowered: Seq<char>, i: int) -> Option<Seq<char>>
    decreases 19 - i,
{
    if i >= 19 {
        None
    } else if occurs(lowered, marker_at(i)) {
        Some(marker_at(i))
    } else {
        first_marker(lowered, i + 1)
    }
}

pub open spec fn opt_str(t: Option<&str>) -> Option<Seq<char>> {
    match t {
        Some(s) => Some(s@),
        None => None,
    }
}

/// The mark that a text in lower case holds.
pub fn marker_in(lowered: &str) -> (r: Option<&'static str>)
    ensures
        opt_str(r) == first_marker(lowered@, 0),
{
    let marks = temporary_markers();
    let mut i: usize = 0;
    while i < 19
        invariant
            i <= 19,
            marks@.len() == 19,
            forall|k: int| 0 <= k < 19 ==> (#[trigger] marks@[k])@ == marker_at(k),
            first_marker(lowered@, 0) == first_marker(lowered@, i as int),
        decreases 19 - i,
    {
        if contains(lowered, marks[i]) {
            return Some(marks[i]);
        }
        i += 1;
    }
    None
}

/// The mark of the moment that a statement holds, in whatever case.
pub fn temporary_marker(content: &str) -> (r: Option<&'static str>)
    ensures
        opt_str(r) == first_marker(lowercased(content@), 0),
{
    let lowered = lower(content);
    marker_in(lowered.as_str())
}

#[derive(Debug, Clone, PartialEq, Eq)]
pub struct NewFact {
    pub subject: String,
    pub content: String,
    pub category: String,
}

#[verifier::ext_equal]
pub struct NewFactV {
    pub subject: Seq<char>,
    pub content: Seq<char>,
    pub category: Seq<char>,
}

impl View for NewFact {
    type V = NewFactV;

    open spec fn view(&self) -> NewFactV {
        NewFactV { subject: self.subject@, content: self.content@, category: self.category@ }
    }
}

pub open spec fn fact_views(facts: Seq<NewFact>) -> Seq<NewFactV> {
    facts.map_values(|f: NewFact| f@)
}

pub open spec fn opt_fact(f: Option<NewFact>) -> Option<NewFactV> {
    match f {
        Some(x) => Some(x@),
        None => None,
    }
}

/// The fact that these fields tell, unless it lacks a part or holds a mark of
/// the moment. `marked` says whether it does.
pub open spec fn fact_of(
    subject: Option<Seq<char>>,
    content: Option<Seq<char>>,
    category: Option<Seq<char>>,
    marked: bool,
) -> Option<NewFactV> {
    if subject is Some && content is Some && trimmed(subject->0).len() > 0 && trimmed(
        content->0,
    ).len() > 0 && !marked {
        Some(
            NewFactV {
                subject: trimmed(subject->0),
                content: trimmed(content->0),
                category: match category {
                    Some(k) => k,
                    None => "fact"@,
                },
            },
        )
    } else {
        None
    }
}

pub fn fact_of_fields(
    subject: Option<String>,
    content: Option<String>,
    category: Option<String>,
    marked: bool,
) -> (r: Option<NewFact>)
    ensures
        opt_fact(r) == fact_of(opt_text(subject), opt_text(content), opt_text(category), marked),
{
    match (subject, content) {
        (Some(s), Some(c)) => {
            if is_blank_text(s.as_str()) || is_blank_text(c.as_str()) || marked {
                None
            } else {
                let category = match category {
                    Some(k) => k,
                    None => "fact".to_owned(),
                };
                Some(
                    NewFact { subject: trim(s.as_str()), content: trim(c.as_str()), category },
                )
            }
        },
        _ => None,
    }
}

pub open spec fn is_marked(content: Option<Seq<char>>) -> bool {
    content is Some && first_marker(lowercased(trimmed(content->0)), 0) is Some
}

fn is_momentary(content: &Option<String>) -> (r: bool)
    ensures
        r == is_marked(opt_text(*content)),
{
    match content {
        Some(c) => temporary_marker(trim(c.as_str()).as_str()).is_some(),
        None => false,
    }
}

/// The fact at place `k` of a distillate.
pub open spec fn distilled_fact(json: Seq<char>, k: nat) -> Option<NewFactV> {
    let content = json_text_at(json, place_of("/facts"@, k, "content"@));
    fact_of(
        json_text_at(json, place_of("/facts"@, k, "subject"@)),
        content,
        json_text_at(json, place_of("/facts"@, k, "kind"@)),
        is_marked(content),
    )
}

/// The facts among the first `k` places.
pub open spec fn distilled_facts(json: Seq<char>, k: nat) -> Seq<NewFactV>
    decreases k,
{
    if k == 0 {
        Seq::empty()
    } else {
        let before = distilled_facts(json, (k - 1) as nat);
        match distilled_fact(json, (k - 1) as nat) {
            Some(f) => before.push(f),
            None => before,
        }
    }
}

pub open spec fn episode_of(text: Option<Seq<char>>) -> Option<Seq<char>> {
    match text {
        Some(t) => if trimmed(t).len() > 0 {
            Some(trimmed(t))
        } else {
            None
        },
        None => None,
    }
}

/// What came of asking the model.
#[derive(Debug, Clone, PartialEq, Eq)]
pub enum Distilled {
    /// Nothing could be made of the answer: the rows stay for another time.
    Failed,
    Memory { facts: Vec<NewFact>, episode: Option<String> },
}

pub open spec fn json_of(answer: Option<Seq<char>>) -> Option<Seq<char>> {
    match answer {
        Some(a) => match braced(a) {
            Some(json) => if json_error(json) is None {
                Some(json)
            } else {
                None
            },
            None => None,
        },
        None => None,
    }
}

/// Reads what the model distilled. `answer` is `None` where it gave none.
pub fn distill(answer: &Option<String>) -> (r: Distilled)
    ensures
        match json_of(opt_text(*answer)) {
            Some(json) => r matches Distilled::Memory { facts, episode } && fact_views(facts@)
                == distilled_facts(json, list_len(json_count_at(json, "/facts"@))) && opt_text(
                episode,
            ) == episode_of(json_text_at(json, "/episode"@)),
            None => r is Failed,
        },
{
    let text = match answer {
        Some(t) => t,
        None => {
            return Distilled::Failed;
        },
    };
    let json = match extract_json(text.as_str()) {
        Some(j) => j,
        None => {
            return Distilled::Failed;
        },
    };
    if check_json(json.as_str()).is_err() {
        return Distilled::Failed;
    }
    let n: usize = match count_at(json.as_str(), "/facts") {
        Some(n) => n,
        None => 0,
    };
    let mut facts: Vec<NewFact> = Vec::new();
    let mut k: usize = 0;
    assert(fact_views(facts@) =~= Seq::<NewFactV>::empty());
    while k < n
        invariant
            k <= n,
            fact_views(facts@) == distilled_facts(json@, k as nat),
        decreases n - k,
    {
        let ghost before = fact_views(facts@);
        let content = text_at(json.as_str(), place("/facts", k, "content").as_str());
        let marked = is_momentary(&content);
        let found = fact_of_fields(
            text_at(json.as_str(), place("/facts", k, "subject").as_str()),
            content,
            text_at(json.as_str(), place("/facts", k, "kind").as_str()),
            marked,
        );
        match found {
            Some(f) => {
                facts.push(f);
                assert(fact_views(facts@) =~= before.push(f@));
            },
            None => {},
        }
        k += 1;
    }
    let episode = match text_at(json.as_str(), "/episode") {
        Some(t) => if is_blank_text(t.as_str()) {
            None
        } else {
            Some(trim(t.as_str()))
        },
        None => None,
    };
    Distilled::Memory { facts, episode }
}

/// Whatever is distilled, no fact is kept that lacks a subject or a content, or
/// that was said for the moment only.
pub proof fn only_lasting_facts_are_kept(json: Seq<char>, k: nat)
    ensures
        forall|i: int|
            0 <= i < distilled_facts(json, k).len() ==> {
                let f = #[trigger] distilled_facts(json, k)[i];
                &&& f.subject.len() > 0
                &&& f.content.len() > 0
                &&& first_marker(lowercased(f.content), 0) is None
            },
    decreases k,
{
    if k > 0 {
        only_lasting_facts_are_kept(json, (k - 1) as nat);
    }
}

/// How many facts were new to the store.
pub open spec fn count_true(flags: Seq<bool>, k: int) -> int
    decreases k,
{
    if k <= 0 {
        0
    } else {
        count_true(flags, k - 1) + if flags[k - 1] {
            1int
        } else {
            0int
        }
    }
}

pub fn count_new(flags: &Vec<bool>) -> (r: usize)
    ensures
        r == count_true(flags@, flags@.len() as int),
{
    let mut r: usize = 0;
    let mut i: usize = 0;
    while i < flags.len()
        invariant
            i <= flags@.len(),
            r <= i,
            r == count_true(flags@, i as int),
        decreases flags@.len() - i,
    {
        if flags[i] {
            r += 1;
        }
        i += 1;
    }
    r
}

// ---- the course of a consolidation -----------------------------------------

pub open spec fn row_ids(rows: Seq<LogRow>) -> Seq<i64> {
    rows.map_values(|r: LogRow| r.id)
}

fn ids_of(rows: &Vec<LogRow>) -> (r: Vec<i64>)
    ensures
        r@ == row_ids(rows@),
{
    let mut r: Vec<i64> = Vec::new();
    let mut i: usize = 0;
    while i < rows.len()
        invariant
            i <= rows@.len(),
            r@ == row_ids(rows@).take(i as int),
        decreases rows@.len() - i,
    {
        r.push(rows[i].id);
        assert(row_ids(rows@).take(i + 1) =~= row_ids(rows@).take(i as int).push(rows@[i as int].id));
        i += 1;
    }
    assert(row_ids(rows@).take(i as int) =~= row_ids(rows@));
    r
}

/// What is to be done next.
#[derive(Debug, Clone, Copy, PartialEq, Eq, Structural)]
pub enum Step {
    /// Write this fact.
    Fact(usize),
    Episode,
    /// Mark the rows as done.
    Mark,
}

/// Facts and an episode on their way into the store, from these rows.
pub struct Consolidation {
    pub ids: Vec<i64>,
    pub facts: Vec<NewFact>,
    pub episode: Option<String>,
    /// For each fact that is written, whether it was new to the store.
    pub written: Vec<bool>,
    pub episode_written: bool,
}

impl Consolidation {
    pub open spec fn wf(self) -> bool {
        self.written@.len() <= self.facts@.len()
    }

    pub open spec fn step(self) -> Step {
        if self.written@.len() < self.facts@.len() {
            Step::Fact(self.written@.len() as usize)
        } else if self.episode is Some && !self.episode_written {
            Step::Episode
        } else {
            Step::Mark
        }
    }

    /// Starts from what the model answered. In the other case nothing could be
    /// made of the answer: these rows are put off.
    pub fn open(rows: &Vec<LogRow>, answer: &Option<String>) -> (r: Result<
        Consolidation,
        Vec<i64>,
    >)
        ensures
            match json_of(opt_text(*answer)) {
                Some(json) => r matches Ok(c) && c.wf() && c.ids@ == row_ids(rows@) && fact_views(
                    c.facts@,
                ) == distilled_facts(json, list_len(json_count_at(json, "/facts"@))) && opt_text(
                    c.episode,
                ) == episode_of(json_text_at(json, "/episode"@)) && c.written@.len() == 0
                    && !c.episode_written,
                None => r matches Err(ids) && ids@ == row_ids(rows@),
            },
    {
        let ids = ids_of(rows);
        match distill(answer) {
            Distilled::Failed => Err(ids),
            Distilled::Memory { facts, episode } => Ok(
                Consolidation {
                    ids,
                    facts,
                    episode,
                    written: Vec::new(),
                    episode_written: false,
                },
            ),
        }
    }

    pub fn next_step(&self) -> (r: Step)
        requires
            self.wf(),
        ensures
            r == self.step(),
    {
        if self.written.len() < self.facts.len() {
            Step::Fact(self.written.len())
        } else if self.episode.is_some() && !self.episode_written {
            Step::Episode
        } else {
            Step::Mark
        }
    }

    /// The fact at hand is in the store. One that was there before is not counted.
    pub fn fact_written(&mut self, is_new: bool)
        requires
            old(self).wf(),
            old(self).step() is Fact,
        ensures
            final(self).wf(),
            *final(self) == (Consolidation { written: final(self).written, ..*old(self) }),
            final(self).written@ == old(self).written@.push(is_new),
    {
        self.written.push(is_new);
    }

    pub fn episode_done(&mut self)
        requires
            old(self).wf(),
            old(self).step() is Episode,
        ensures
            final(self).wf(),
            *final(self) == (Consolidation { episode_written: true, ..*old(self) }),
    {
        self.episode_written = true;
    }

    /// Everything is in the store: these rows may be marked, and this many facts
    /// were new.
    pub fn close(self) -> (r: (Vec<i64>, usize))
        requires
            self.wf(),
            self.step() is Mark,
        ensures
            r.0 == self.ids,
            r.1 == count_true(self.written@, self.facts@.len() as int),
    {
        let n: usize = count_new(&self.written);
        (self.ids, n)
    }
}

/// The rows are marked only when every fact is in the store, and the episode
/// where there is one: a failure on the way loses nothing.
pub proof fn nothing_is_marked_too_early(c: Consolidation)
    requires
        c.wf(),
        c.step() is Mark,
    ensures
        c.written@.len() == c.facts@.len(),
        c.episode is Some ==> c.episode_written,
{
}

// ---- what a distillate keeps -----------------------------------------------

/// A fact is made exactly where there is something to read in its subject and in
/// its content, and it was not said for the moment. It says what its fields say,
/// and is of the kind that they give; where they give none it is a mere fact.
pub proof fn a_fact_is_what_its_fields_say(
    subject: Option<Seq<char>>,
    content: Option<Seq<char>>,
    category: Option<Seq<char>>,
    marked: bool,
)
    ensures
        match fact_of(subject, content, category, marked) {
            Some(f) => {
                &&& !marked
                &&& subject matches Some(s) && f.subject == trimmed(s) && f.subject.len() > 0
                &&& content matches Some(c) && f.content == trimmed(c) && f.content.len() > 0
                &&& category matches Some(k) ==> f.category == k
                &&& category is None ==> f.category == "fact"@
            },
            None => {
                ||| marked
                ||| subject is None
                ||| content is None
                ||| forall|i: int| 0 <= i < subject->0.len() ==> blank(#[trigger] subject->0[i])
                ||| forall|i: int| 0 <= i < content->0.len() ==> blank(#[trigger] content->0[i])
            },
        },
{
    if subject is Some {
        a_trimmed_text_has_no_blank_ends(subject->0);
    }
    if content is Some {
        a_trimmed_text_has_no_blank_ends(content->0);
    }
}

/// Facts of different kinds stay of different kinds.
pub proof fn kinds_stay_apart(subject: Seq<char>, content: Seq<char>, one: Seq<char>, other: Seq<char>)
    requires
        trimmed(subject).len() > 0,
        trimmed(content).len() > 0,
        one != other,
    ensures
        fact_of(Some(subject), Some(content), Some(one), false) != fact_of(
            Some(subject),
            Some(content),
            Some(other),
            false,
        ),
{
    assert(fact_of(Some(subject), Some(content), Some(one), false)->0.category == one);
    assert(fact_of(Some(subject), Some(content), Some(other), false)->0.category == other);
}

/// Every fact that a distillate lists and that lasts is kept, in the order in which
/// they are listed, with the subject, the content and the kind of its entry; and
/// nothing else is.
pub proof fn a_distillate_keeps_each_lasting_fact(json: Seq<char>, k: nat, i: nat)
    requires
        i < k,
    ensures
        ({
            let at = "/facts/"@ + decimal(i);
            let content = json_text_at(json, at + "/content"@);
            let entry = fact_of(
                json_text_at(json, at + "/subject"@),
                content,
                json_text_at(json, at + "/kind"@),
                is_marked(content),
            );
            let before = distilled_facts(json, i);
            let kept = distilled_facts(json, k);
            &&& before.is_prefix_of(kept)
            &&& entry matches Some(f) ==> before.push(f).is_prefix_of(kept)
            &&& entry is None ==> distilled_facts(json, i + 1) == before
            &&& kept.len() <= k
        }),
    decreases k,
{
    reveal_strlit("/facts/");
    reveal_strlit("/facts");
    reveal_strlit("/");
    reveal_strlit("/content");
    reveal_strlit("content");
    reveal_strlit("/subject");
    reveal_strlit("subject");
    reveal_strlit("/kind");
    reveal_strlit("kind");
    let at = "/facts/"@ + decimal(i);
    assert(place_of("/facts"@, i, "content"@) =~= at + "/content"@);
    assert(place_of("/facts"@, i, "subject"@) =~= at + "/subject"@);
    assert(place_of("/facts"@, i, "kind"@) =~= at + "/kind"@);
    let before = distilled_facts(json, i);
    let now = distilled_facts(json, i + 1);
    lemma_facts_grow(json, i + 1, k);
    assert(distilled_facts(json, k).take(now.len() as int) == now);
    assert(now.take(before.len() as int) =~= before);
    assert(distilled_facts(json, k).take(before.len() as int) =~= before);
}

proof fn lemma_facts_grow(json: Seq<char>, i: nat, k: nat)
    requires
        i <= k,
    ensures
        distilled_facts(json, i).len() <= distilled_facts(json, k).len() <= k,
        distilled_facts(json, k).take(distilled_facts(json, i).len() as int) == distilled_facts(
            json,
            i,
        ),
    decreases k,
{
    if k == i {
        if k > 0 {
            lemma_facts_grow(json, (k - 1) as nat, (k - 1) as nat);
        }
        assert(distilled_facts(json, k).take(distilled_facts(json, k).len() as int)
            =~= distilled_facts(json, k));
    } else {
        lemma_facts_grow(json, i, (k - 1) as nat);
        let n = distilled_facts(json, i).len() as int;
        assert(distilled_facts(json, k).take(n) =~= distilled_facts(json, (k - 1) as nat).take(n));
    }
}

/// A statement is taken for one of the moment exactly where one of these marks
/// stands in it.
pub proof fn a_mark_of_the_moment_is_seen(lowered: Seq<char>)
    ensures
        first_marker(lowered, 0) is Some <==> {
            ||| occurs(lowered, "本次会话"@)
            ||| occurs(lowered, "这次会话"@)
            ||| occurs(lowered, "本次对话"@)
            ||| occurs(lowered, "这次对话"@)
            ||| occurs(lowered, "当前对话"@)
            ||| occurs(lowered, "暂时"@)
            ||| occurs(lowered, "临时"@)
            ||| occurs(lowered, "先这样"@)
            ||| occurs(lowered, "就这一次"@)
            ||| occurs(lowered, "仅限今天"@)
            ||| occurs(lowered, "this session"@)
            ||| occurs(lowered, "this conversation"@)
            ||| occurs(lowered, "in this chat"@)
            ||| occurs(lowered, "for now"@)
            ||| occurs(lowered, "for the time being"@)
            ||| occurs(lowered, "temporarily"@)
            ||| occurs(lowered, "just for today"@)
            ||| occurs(lowered, "only for today"@)
            ||| occurs(lowered, "as a one-off"@)
        },
        first_marker(lowered, 0) matches Some(m) ==> occurs(lowered, m),
{
    reveal_with_fuel(first_marker, 20);
}

/// Two rows make a turn, and a consolidation waits for that many turns; it never
/// waits for less than one.
pub proof fn a_turn_is_two_rows(every: int)
    ensures
        rows_due(1) == 2,
        every >= 1 ==> rows_due(every + 1) == rows_due(every) + 2,
        every < 1 ==> rows_due(every) == rows_due(1),
{
}

/// Every row of the log stands in what the model is asked to distill, with who
/// spoke before what was said.
pub proof fn every_row_is_distilled(template: Seq<char>, rows: Seq<LogRow>, i: int)
    requires
        0 <= i < rows.len(),
        occurs(template, "{log}"@),
    ensures
        occurs(
            replaced(template, "{log}"@, joined(row_lines(rows), "\n"@)),
            rows[i].role@ + ": "@ + rows[i].content@,
        ),
{
    let all = row_lines(rows);
    let log = joined(all, "\n"@);
    let line = rows[i].role@ + ": "@ + rows[i].content@;
    assert(all =~= all.take(i) + seq![line] + all.skip(i + 1));
    a_joined_text_holds_its_parts(all.take(i), line, all.skip(i + 1), "\n"@);
    reveal_strlit("{log}");
    lemma_find_text(template, "{log}"@, 0);
    let some = choose|k: int| occurs_at(template, "{log}"@, k);
    let at = find_text(template, "{log}"@, 0);
    assert(at >= 0) by {
        if at < 0 {
            assert(!occurs_at(template, "{log}"@, some));
        }
    }
    a_replacement_takes_its_place(template, "{log}"@, log, at);
    lemma_occurs_within(replaced(template, "{log}"@, log), log, line);
}

/// What is read of the episode is what was written, without the white space around
/// it; a blank one is none.
pub proof fn an_episode_is_what_was_written(text: Option<Seq<char>>)
    ensures
        match episode_of(text) {
            Some(e) => text is Some && e == trimmed(text->0) && e.len() > 0,
            None => text is None || forall|i: int|
                0 <= i < text->0.len() ==> blank(#[trigger] text->0[i]),
        },
{
    if text is Some {
        a_trimmed_text_has_no_blank_ends(text->0);
    }
}

/// A fact that was new adds one to the count, and one that was not adds nothing.
pub proof fn new_facts_are_counted(flags: Seq<bool>, next: bool)
    ensures
        count_true(flags.push(next), flags.len() as int + 1) == count_true(
            flags,
            flags.len() as int,
        ) + if next {
            1int
        } else {
            0int
        },
        count_true(flags, 0) == 0,
        0 <= count_true(flags, flags.len() as int) <= flags.len(),
{
    lemma_count_front(flags, flags.push(next), flags.len() as int);
}

proof fn lemma_count_front(a: Seq<bool>, b: Seq<bool>, k: int)
    requires
        0 <= k <= a.len() <= b.len(),
        forall|i: int| 0 <= i < a.len() ==> #[trigger] a[i] == b[i],
    ensures
        count_true(a, k) == count_true(b, k),
        0 <= count_true(a, k) <= k,
    decreases k,
{
    if k > 0 {
        lemma_count_front(a, b, k - 1);
        assert(a[k - 1] == b[k - 1]);
    }
}

/// Each step of a consolidation leads on to the next: the facts in their order,
/// then the episode, then the mark. None is left out and none is done twice.
pub proof fn the_steps_of_a_consolidation(c: Consolidation, next: Consolidation)
    requires
        c.wf(),
        next.wf(),
        c.facts@.len() <= usize::MAX,
        next.facts == c.facts,
        next.episode == c.episode,
    ensures
        c.step() matches Step::Fact(i) ==> i == c.written@.len() && i < c.facts@.len(),
        c.written@.len() < c.facts@.len() ==> c.step() is Fact,
        c.step() is Episode ==> c.episode is Some && c.written@.len() == c.facts@.len()
            && !c.episode_written,
        c.step() is Episode && next.written == c.written && next.episode_written ==> next.step()
            is Mark,
        c.written@.len() == c.facts@.len() && c.episode is Some && !c.episode_written ==> c.step()
            is Episode,
{
}

/// A distillate is the object in an answer, where there is one that can be read.
pub proof fn only_a_readable_object_is_distilled(answer: Seq<char>, json: Seq<char>)
    ensures
        json_of(None) is None,
        json_of(Some(answer)) == Some(json) <==> braced(answer) == Some(json) && json_error(
            json,
        ) is None,
        json_of(Some(answer)) is None <==> braced(answer) is None || json_error(
            braced(answer)->0,
        ) is Some,
{
}

} // verus!
