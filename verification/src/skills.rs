//! Skills: instructions in files, of which a prompt gets only those that bear on
//! what is asked.

use vstd::prelude::*;

use crate::config::{below, join_path};
use crate::table::{is_less, keys_are_ordered, lemma_map_at, less, Table};
use crate::text::{
    a_line_ends_at_its_feed, a_tight_text_is_left_alone, a_trimmed_text_has_no_blank_ends,
    ascii_alnum, ascii_digit, ascii_lower, begins, blank, chars_of, fields, find_char, find_from,
    find_text, find_text_from, finishes, is_among, is_ascii_alnum, is_ascii_digit, join, joined,
    lemma_find_char, lemma_find_text, lemma_occurs, lemma_rfind_char, line_views, lines, lower,
    lowercased, occurs, occurs_at, opt_text, piece, rfind_char, rfind_from, same, split,
    starts_with, trim, trimmed, trimming_takes_only_blanks, views,
};

verus! {

#[derive(Debug, Clone, PartialEq, Eq)]
pub struct Skill {
    pub name: String,
    /// What the skill is for; its words bring it up.
    pub description: String,
    pub version: Option<String>,
    /// When the skill is to run by itself.
    pub schedule: Option<String>,
    pub body: String,
    /// The file it was read from.
    pub path: String,
}

#[verifier::ext_equal]
pub struct SkillV {
    pub name: Seq<char>,
    pub description: Seq<char>,
    pub version: Option<Seq<char>>,
    pub schedule: Option<Seq<char>>,
    pub body: Seq<char>,
    pub path: Seq<char>,
}

impl View for Skill {
    type V = SkillV;

    open spec fn view(&self) -> SkillV {
        SkillV {
            name: self.name@,
            description: self.description@,
            version: opt_text(self.version),
            schedule: opt_text(self.schedule),
            body: self.body@,
            path: self.path@,
        }
    }
}

pub open spec fn skill_views(skills: Seq<Skill>) -> Seq<SkillV> {
    skills.map_values(|s: Skill| s@)
}

// ---- reading a file --------------------------------------------------------

pub open spec fn quote(c: char) -> bool {
    c == '\'' || c == '"'
}

pub open spec fn skip_quotes(s: Seq<char>, i: int) -> int
    decreases s.len() - i,
{
    if 0 <= i < s.len() && quote(s[i]) {
        skip_quotes(s, i + 1)
    } else {
        i
    }
}

pub open spec fn keep_unquoted(s: Seq<char>, j: int) -> int
    decreases j,
{
    if 0 < j <= s.len() && quote(s[j - 1]) {
        keep_unquoted(s, j - 1)
    } else {
        j
    }
}

/// The text without the quotes around it.
pub open spec fn unquoted(s: Seq<char>) -> Seq<char> {
    let from = skip_quotes(s, 0);
    let to = keep_unquoted(s, s.len() as int);
    if from < to {
        s.subrange(from, to)
    } else {
        Seq::empty()
    }
}

fn unquote(s: &str) -> (r: String)
    ensures
        r@ == unquoted(s@),
{
    let v = chars_of(s);
    let n: usize = v.len();
    let mut from: usize = 0;
    while from < n && (v[from] == '\'' || v[from] == '"')
        invariant
            from <= n,
            n == v@.len(),
            skip_quotes(v@, 0) == skip_quotes(v@, from as int),
        decreases n - from,
    {
        from += 1;
    }
    assert(skip_quotes(v@, 0) == from);
    let mut to: usize = n;
    while to > 0 && (v[to - 1] == '\'' || v[to - 1] == '"')
        invariant
            to <= n,
            n == v@.len(),
            keep_unquoted(v@, n as int) == keep_unquoted(v@, to as int),
        decreases to,
    {
        to -= 1;
    }
    assert(keep_unquoted(v@, n as int) == to);
    if from < to {
        piece(&v, from, to)
    } else {
        let r = String::new();
        assert(r@ =~= Seq::<char>::empty());
        r
    }
}

/// The value that a line gives to `key`, if it does.
pub open spec fn line_value(line: Seq<char>, key: Seq<char>) -> Option<Seq<char>> {
    let c = find_char(line, ':', 0);
    if c < line.len() && trimmed(line.subrange(0, c)) == key {
        Some(unquoted(trimmed(line.subrange(c + 1, line.len() as int))))
    } else {
        None
    }
}

fn value_on(line: &str, key: &str) -> (r: Option<String>)
    ensures
        opt_text(r) == line_value(line@, key@),
{
    let v = chars_of(line);
    let n: usize = v.len();
    proof {
        lemma_find_char(v@, ':', 0);
    }
    let c: usize = find_from(&v, ':', 0);
    if c < n {
        let left = piece(&v, 0, c);
        if same(trim(left.as_str()).as_str(), key) {
            let right = piece(&v, c + 1, n);
            return Some(unquote(trim(right.as_str()).as_str()));
        }
    }
    None
}

/// What the first `k` lines give to `key`; the last one counts.
pub open spec fn value_among(lines: Seq<Seq<char>>, key: Seq<char>, k: int) -> Option<Seq<char>>
    decreases k,
{
    if k <= 0 {
        None
    } else {
        match line_value(lines[k - 1], key) {
            Some(v) => Some(v),
            None => value_among(lines, key, k - 1),
        }
    }
}

fn find_value(front: &Vec<String>, key: &str) -> (r: Option<String>)
    ensures
        opt_text(r) == value_among(views(front@), key@, front@.len() as int),
{
    let mut k: usize = front.len();
    while k > 0
        invariant
            k <= front@.len(),
            value_among(views(front@), key@, front@.len() as int) == value_among(
                views(front@),
                key@,
                k as int,
            ),
        decreases k,
    {
        match value_on(front[k - 1].as_str(), key) {
            Some(v) => {
                return Some(v);
            },
            None => {},
        }
        k -= 1;
    }
    None
}

/// The lines between the marks of the front matter, and what follows them.
pub open spec fn split_front(text: Seq<char>) -> Option<(Seq<char>, Seq<char>)> {
    if begins(text, "---\n"@) {
        let rest = text.subrange(4, text.len() as int);
        let end = find_text(rest, "\n---\n"@, 0);
        if end >= 0 {
            Some((rest.subrange(0, end), rest.subrange(end + 5, rest.len() as int)))
        } else {
            None
        }
    } else {
        None
    }
}

/// The skill that a text tells: one without a name or a description is none.
pub open spec fn skill_told(text: Seq<char>) -> Option<SkillV> {
    match split_front(text) {
        Some(parts) => {
            let front = line_views(parts.0);
            let n = front.len() as int;
            match (value_among(front, "name"@, n), value_among(front, "description"@, n)) {
                (Some(name), Some(description)) => Some(
                    SkillV {
                        name,
                        description,
                        version: value_among(front, "version"@, n),
                        schedule: value_among(front, "schedule"@, n),
                        body: trimmed(parts.1),
                        path: Seq::empty(),
                    },
                ),
                _ => None,
            }
        },
        None => None,
    }
}

pub open spec fn opt_skill(s: Option<Skill>) -> Option<SkillV> {
    match s {
        Some(x) => Some(x@),
        None => None,
    }
}

/// Reads the text of a skill.
pub fn parse_skill_text(text: &str) -> (r: Option<Skill>)
    ensures
        opt_skill(r) == skill_told(text@),
{
    proof {
        reveal_strlit("---\n");
        reveal_strlit("\n---\n");
    }
    if !starts_with(text, "---\n") {
        return None;
    }
    let all = chars_of(text);
    let rest_text = piece(&all, 4, all.len());
    let rest = chars_of(rest_text.as_str());
    let mark = chars_of("\n---\n");
    let end: usize = match find_text_from(&rest, &mark, 0) {
        Some(i) => i,
        None => {
            return None;
        },
    };
    let front = lines(piece(&rest, 0, end).as_str());
    let body = piece(&rest, end + 5, rest.len());
    let ghost seen = views(front@);
    assert(seen.len() == front@.len());
    match (find_value(&front, "name"), find_value(&front, "description")) {
        (Some(name), Some(description)) => {
            let path = String::new();
            assert(path@ =~= Seq::<char>::empty());
            Some(
                Skill {
                    name,
                    description,
                    version: find_value(&front, "version"),
                    schedule: find_value(&front, "schedule"),
                    body: trim(body.as_str()),
                    path,
                },
            )
        },
        _ => None,
    }
}

// ---- words -----------------------------------------------------------------

pub open spec fn run_end(s: Seq<char>, i: int) -> int
    decreases s.len() - i,
{
    if 0 <= i < s.len() && ascii_alnum(s[i]) {
        run_end(s, i + 1)
    } else {
        i
    }
}

proof fn lemma_run_end(s: Seq<char>, i: int)
    requires
        0 <= i <= s.len(),
    ensures
        i <= run_end(s, i) <= s.len(),
        i < s.len() && ascii_alnum(s[i]) ==> i < run_end(s, i),
    decreases s.len() - i,
{
    if i < s.len() && ascii_alnum(s[i]) {
        lemma_run_end(s, i + 1);
    }
}

/// The runs of at least three letters and digits in `s[i..]`.
pub open spec fn runs_from(s: Seq<char>, i: int) -> Seq<Seq<char>>
    decreases s.len() - i,
{
    if i < 0 || i >= s.len() {
        Seq::empty()
    } else if !ascii_alnum(s[i]) {
        runs_from(s, i + 1)
    } else {
        let j = run_end(s, i);
        if j <= i || j > s.len() {
            Seq::empty()
        } else if j - i >= 3 {
            seq![s.subrange(i, j)] + runs_from(s, j)
        } else {
            runs_from(s, j)
        }
    }
}

/// The words of a text that is in lower case.
pub fn words_in(lowered: &str) -> (r: Vec<String>)
    ensures
        views(r@) == runs_from(lowered@, 0),
{
    let v = chars_of(lowered);
    let n: usize = v.len();
    let mut r: Vec<String> = Vec::new();
    let mut i: usize = 0;
    assert(views(r@) + runs_from(v@, 0) =~= runs_from(v@, 0));
    while i < n
        invariant
            i <= n,
            n == v@.len(),
            views(r@) + runs_from(v@, i as int) == runs_from(v@, 0),
        decreases n - i,
    {
        let ghost before = views(r@);
        if !is_ascii_alnum(v[i]) {
            i += 1;
        } else {
            let mut j: usize = i;
            while j < n && is_ascii_alnum(v[j])
                invariant
                    i <= j <= n,
                    n == v@.len(),
                    run_end(v@, i as int) == run_end(v@, j as int),
                decreases n - j,
            {
                j += 1;
            }
            proof {
                lemma_run_end(v@, i as int);
            }
            assert(run_end(v@, i as int) == j);
            if j - i >= 3 {
                let word = piece(&v, i, j);
                r.push(word);
                assert(views(r@) =~= before.push(word@));
                assert(before + runs_from(v@, i as int) =~= views(r@) + runs_from(v@, j as int));
            }
            i = j;
        }
    }
    assert(views(r@) + runs_from(v@, i as int) =~= views(r@));
    r
}

pub open spec fn tokens_of(text: Seq<char>) -> Seq<Seq<char>> {
    runs_from(lowercased(text), 0)
}

/// The words of a text, in lower case.
pub fn tokens(text: &str) -> (r: Vec<String>)
    ensures
        views(r@) == tokens_of(text@),
{
    let lowered = lower(text);
    words_in(lowered.as_str())
}

/// How many of the first `k` words occur among the others.
pub open spec fn shared(words: Seq<Seq<char>>, others: Seq<Seq<char>>, k: int) -> int
    decreases k,
{
    if k <= 0 {
        0
    } else {
        shared(words, others, k - 1) + if others.contains(words[k - 1]) {
            1int
        } else {
            0int
        }
    }
}

pub open spec fn overlap(words: Seq<Seq<char>>, others: Seq<Seq<char>>) -> int {
    shared(words, others, words.len() as int)
}

fn count_shared(words: &Vec<String>, others: &Vec<String>) -> (r: usize)
    ensures
        r == overlap(views(words@), views(others@)),
{
    let mut r: usize = 0;
    let mut i: usize = 0;
    while i < words.len()
        invariant
            i <= words@.len(),
            r <= i,
            r == shared(views(words@), views(others@), i as int),
        decreases words@.len() - i,
    {
        assert(views(words@)[i as int] == words@[i as int]@);
        if is_among(others, words[i].as_str()) {
            r += 1;
        }
        i += 1;
    }
    r
}

// ---- which skills a message brings up --------------------------------------

/// A skill is brought up by at least this many words.
pub const MIN_OVERLAP: usize = 2;

/// How many skills go into a prompt.
pub const MAX_SKILLS: usize = 2;

/// The place for a hit of `score` words: behind every hit with as many.
pub open spec fn rank_slot(ranked: Seq<(int, int)>, score: int, i: int) -> int
    decreases ranked.len() - i,
{
    if 0 <= i < ranked.len() && ranked[i].1 >= score {
        rank_slot(ranked, score, i + 1)
    } else {
        i
    }
}

/// The hits among the first `k`, each with its score, best first.
pub open spec fn ranking(scores: Seq<int>, k: int) -> Seq<(int, int)>
    decreases k,
{
    if k <= 0 {
        Seq::empty()
    } else {
        let before = ranking(scores, k - 1);
        if scores[k - 1] >= MIN_OVERLAP {
            before.insert(rank_slot(before, scores[k - 1], 0), (k - 1, scores[k - 1]))
        } else {
            before
        }
    }
}

pub open spec fn score_views(scores: Seq<usize>) -> Seq<int> {
    scores.map_values(|s: usize| s as int)
}

pub open spec fn least(a: int, b: int) -> int {
    if a < b {
        a
    } else {
        b
    }
}

pub open spec fn hit_views(hits: Seq<(usize, usize)>) -> Seq<(int, int)> {
    hits.map_values(|h: (usize, usize)| (h.0 as int, h.1 as int))
}

/// The places of the best hits, given how many words each skill shares with the
/// message.
pub fn rank(scores: &Vec<usize>, max_skills: usize) -> (r: Vec<usize>)
    ensures
        ({
            let all = ranking(score_views(scores@), scores@.len() as int);
            &&& r@.len() == least(all.len() as int, max_skills as int)
            &&& forall|i: int| 0 <= i < r@.len() ==> #[trigger] r@[i] == all[i].0
        }),
{
    let n: usize = scores.len();
    let ghost points = score_views(scores@);
    let mut hits: Vec<(usize, usize)> = Vec::new();
    let mut k: usize = 0;
    assert(hit_views(hits@) =~= ranking(points, 0));
    while k < n
        invariant
            k <= n,
            n == scores@.len(),
            points == score_views(scores@),
            hit_views(hits@) == ranking(points, k as int),
        decreases n - k,
    {
        let score: usize = scores[k];
        let ghost before = hit_views(hits@);
        assert(points[k as int] == score);
        if score >= MIN_OVERLAP {
            let mut i: usize = 0;
            while i < hits.len() && hits[i].1 >= score
                invariant
                    i <= hits@.len(),
                    before == hit_views(hits@),
                    rank_slot(before, score as int, 0) == rank_slot(before, score as int, i as int),
                decreases hits@.len() - i,
            {
                assert(before[i as int] == (hits@[i as int].0 as int, hits@[i as int].1 as int));
                i += 1;
            }
            assert(i < hits@.len() ==> before[i as int].1 == hits@[i as int].1);
            assert(rank_slot(before, score as int, 0) == i);
            hits.insert(i, (k, score));
            assert(hit_views(hits@) =~= before.insert(i as int, (k as int, score as int)));
        }
        k += 1;
    }
    let mut r: Vec<usize> = Vec::new();
    let mut i: usize = 0;
    while i < hits.len() && i < max_skills
        invariant
            i <= hits@.len(),
            i <= max_skills,
            r@.len() == i,
            hit_views(hits@) == ranking(points, n as int),
            forall|j: int| 0 <= j < i ==> #[trigger] r@[j] == ranking(points, n as int)[j].0,
        decreases hits@.len() - i,
    {
        r.push(hits[i].0);
        assert(hit_views(hits@)[i as int].0 == hits@[i as int].0);
        i += 1;
    }
    r
}

proof fn lemma_rank_slot(ranked: Seq<(int, int)>, score: int, i: int)
    requires
        0 <= i <= ranked.len(),
    ensures
        i <= rank_slot(ranked, score, i) <= ranked.len(),
        forall|j: int|
            i <= j < rank_slot(ranked, score, i) ==> (#[trigger] ranked[j]).1 >= score,
        rank_slot(ranked, score, i) < ranked.len() ==> ranked[rank_slot(ranked, score, i)].1 < score,
    decreases ranked.len() - i,
{
    if i < ranked.len() && ranked[i].1 >= score {
        lemma_rank_slot(ranked, score, i + 1);
    }
}

/// Every skill that is ranked shares enough words; one that shares more stands
/// before one that shares fewer, and equals keep their order.
pub proof fn a_ranking_is_in_order(scores: Seq<int>, k: int)
    requires
        0 <= k <= scores.len(),
    ensures
        forall|i: int|
            0 <= i < ranking(scores, k).len() ==> {
                let hit = #[trigger] ranking(scores, k)[i];
                0 <= hit.0 < k && hit.1 == scores[hit.0] && hit.1 >= MIN_OVERLAP
            },
        forall|i: int, j: int|
            0 <= i < j < ranking(scores, k).len() ==> {
                let a = #[trigger] ranking(scores, k)[i];
                let b = #[trigger] ranking(scores, k)[j];
                a.1 > b.1 || (a.1 == b.1 && a.0 < b.0)
            },
    decreases k,
{
    if k > 0 {
        a_ranking_is_in_order(scores, k - 1);
        let before = ranking(scores, k - 1);
        if scores[k - 1] >= MIN_OVERLAP {
            lemma_rank_slot(before, scores[k - 1], 0);
            let at = rank_slot(before, scores[k - 1], 0);
            let after = ranking(scores, k);
            assert forall|i: int, j: int| 0 <= i < j < after.len() implies {
                let a = #[trigger] after[i];
                let b = #[trigger] after[j];
                a.1 > b.1 || (a.1 == b.1 && a.0 < b.0)
            } by {
                if i < at && j > at {
                    assert(after[i] == before[i] && after[j] == before[j - 1]);
                } else if i > at {
                    assert(after[i] == before[i - 1] && after[j] == before[j - 1]);
                } else if j < at {
                    assert(after[i] == before[i] && after[j] == before[j]);
                } else if i == at {
                    assert(after[j] == before[j - 1]);
                    if at < j - 1 {
                        assert(before[at].1 >= before[j - 1].1);
                    }
                } else {
                    assert(after[i] == before[i]);
                }
            }
            assert forall|i: int| 0 <= i < after.len() implies {
                let hit = #[trigger] after[i];
                0 <= hit.0 < k && hit.1 == scores[hit.0] && hit.1 >= MIN_OVERLAP
            } by {
                if i < at {
                    assert(after[i] == before[i]);
                } else if i > at {
                    assert(after[i] == before[i - 1]);
                }
            }
        }
    }
}

/// A skill that shares enough words is ranked.
pub proof fn every_hit_is_ranked(scores: Seq<int>, k: int, s: int)
    requires
        0 <= s < k <= scores.len(),
        scores[s] >= MIN_OVERLAP,
    ensures
        ranking(scores, k).contains((s, scores[s])),
    decreases k,
{
    let before = ranking(scores, k - 1);
    lemma_rank_slot(before, scores[k - 1], 0);
    let at = rank_slot(before, scores[k - 1], 0);
    let after = ranking(scores, k);
    if s == k - 1 {
        assert(after[at] == (s, scores[s]));
    } else {
        every_hit_is_ranked(scores, k - 1, s);
        let i = choose|i: int| 0 <= i < before.len() && before[i] == (s, scores[s]);
        if scores[k - 1] >= MIN_OVERLAP {
            if i < at {
                assert(after[i] == (s, scores[s]));
            } else {
                assert(after[i + 1] == (s, scores[s]));
            }
        }
    }
}

/// The words that bring a skill up: those of its name and its description.
pub open spec fn skill_words(skill: SkillV) -> Seq<Seq<char>> {
    tokens_of(skill.name) + tokens_of(skill.description)
}

pub open spec fn skill_scores(skills: Seq<SkillV>, message: Seq<char>) -> Seq<int> {
    skills.map_values(|s: SkillV| overlap(skill_words(s), tokens_of(message)))
}

/// The skills that a message brings up, best first.
pub open spec fn brought_up(skills: Seq<SkillV>, message: Seq<char>) -> Seq<(int, int)> {
    ranking(skill_scores(skills, message), skills.len() as int)
}

// ---- the loader ------------------------------------------------------------

/// Where a skill goes: behind every skill whose name does not follow its own.
pub open spec fn name_slot(skills: Seq<SkillV>, name: Seq<char>, i: int) -> int
    decreases skills.len() - i,
{
    if 0 <= i < skills.len() && !less(name, skills[i].name) {
        name_slot(skills, name, i + 1)
    } else {
        i
    }
}

/// The first `k` skills in the order of their names; equals keep their order.
pub open spec fn by_name(skills: Seq<SkillV>, k: int) -> Seq<SkillV>
    decreases k,
{
    if k <= 0 {
        Seq::empty()
    } else {
        let before = by_name(skills, k - 1);
        before.insert(name_slot(before, skills[k - 1].name, 0), skills[k - 1])
    }
}

proof fn lemma_name_slot(skills: Seq<SkillV>, name: Seq<char>, i: int)
    requires
        0 <= i <= skills.len(),
    ensures
        i <= name_slot(skills, name, i) <= skills.len(),
        forall|j: int|
            i <= j < name_slot(skills, name, i) ==> !less(name, (#[trigger] skills[j]).name),
        name_slot(skills, name, i) < skills.len() ==> less(
            name,
            skills[name_slot(skills, name, i)].name,
        ),
    decreases skills.len() - i,
{
    if i < skills.len() && !less(name, skills[i].name) {
        lemma_name_slot(skills, name, i + 1);
    }
}

/// Ordering skills by name puts none before one with a lesser name, and neither
/// adds nor drops one.
pub proof fn skills_are_ordered(skills: Seq<SkillV>, k: int)
    requires
        0 <= k <= skills.len(),
    ensures
        forall|i: int, j: int|
            0 <= i < j < by_name(skills, k).len() ==> !less(
                (#[trigger] by_name(skills, k)[j]).name,
                (#[trigger] by_name(skills, k)[i]).name,
            ),
        by_name(skills, k).to_multiset() == skills.take(k).to_multiset(),
    decreases k,
{
    broadcast use vstd::seq_lib::group_to_multiset_ensures;

    if k == 0 {
        assert(skills.take(0) =~= Seq::<SkillV>::empty());
    } else {
        skills_are_ordered(skills, k - 1);
        let before = by_name(skills, k - 1);
        let x = skills[k - 1];
        lemma_name_slot(before, x.name, 0);
        let at = name_slot(before, x.name, 0);
        let after = by_name(skills, k);
        assert forall|i: int, j: int| 0 <= i < j < after.len() implies !less(
            (#[trigger] after[j]).name,
            (#[trigger] after[i]).name,
        ) by {
            if i == at {
                assert(after[j] == before[j - 1]);
                if at < j - 1 {
                    assert(!less(before[j - 1].name, before[at].name));
                }
                if less(before[j - 1].name, x.name) {
                    keys_are_ordered(before[j - 1].name, x.name, before[at].name);
                }
            } else if j == at {
                assert(after[i] == before[i]);
            } else {
                let a = if i < at {
                    i
                } else {
                    i - 1
                };
                let b = if j < at {
                    j
                } else {
                    j - 1
                };
                assert(after[i] == before[a] && after[j] == before[b]);
            }
        }
        assert(skills.take(k) =~= skills.take(k - 1).push(x));
        assert(before.insert(at, x).to_multiset() =~= before.to_multiset().insert(x)) by {
            before.to_multiset_ensures();
            vstd::seq_lib::to_multiset_insert(before, at, x);
        }
        skills.take(k - 1).to_multiset_ensures();
    }
}

/// The skills at hand.
pub struct SkillLoader {
    skills: Vec<Skill>,
}

impl View for SkillLoader {
    type V = Seq<SkillV>;

    closed spec fn view(&self) -> Seq<SkillV> {
        skill_views(self.skills@)
    }
}

impl SkillLoader {
    /// Where skills are looked for: below the home, and in further directories
    /// that a list separated by colons names.
    pub fn dirs_for(home: &str, extra: &Option<String>) -> (r: Vec<String>)
        ensures
            views(r@) == seq![below(home@, "skills"@)] + match opt_text(*extra) {
                Some(list) => fields(list, ':'),
                None => Seq::empty(),
            },
    {
        let mut dirs: Vec<String> = Vec::new();
        dirs.push(join_path(home, "skills"));
        assert(views(dirs@) =~= seq![below(home@, "skills"@)]);
        match extra {
            Some(list) => {
                let mut more = split(list.as_str(), ':');
                let ghost front = views(dirs@);
                let ghost back = views(more@);
                dirs.append(&mut more);
                assert(views(dirs@) =~= front + back);
            },
            None => {
                assert(views(dirs@) =~= seq![below(home@, "skills"@)] + Seq::empty());
            },
        }
        dirs
    }

    /// Takes the skills that were read, in the order they were found.
    pub fn new(found: Vec<Skill>) -> (r: SkillLoader)
        ensures
            r@ == by_name(skill_views(found@), found@.len() as int),
    {
        let n: usize = found.len();
        let ghost all = skill_views(found@);
        let mut left = found;
        let mut skills: Vec<Skill> = Vec::new();
        let mut k: usize = 0;
        assert(skill_views(skills@) =~= by_name(all, 0));
        while k < n
            invariant
                k <= n,
                n == all.len(),
                left@.len() == n - k,
                forall|j: int| 0 <= j < left@.len() ==> (#[trigger] left@[j])@ == all[k + j],
                skill_views(skills@) == by_name(all, k as int),
            decreases n - k,
        {
            let skill = left.remove(0);
            assert(skill@ == all[k as int]);
            let ghost before = skill_views(skills@);
            let mut i: usize = 0;
            while i < skills.len() && !is_less(
                skill.name.as_str(),
                skills[i].name.as_str(),
            )
                invariant
                    i <= skills@.len(),
                    before == skill_views(skills@),
                    name_slot(before, skill.name@, 0) == name_slot(
                        before,
                        skill.name@,
                        i as int,
                    ),
                decreases skills@.len() - i,
            {
                assert(before[i as int].name == skills@[i as int].name@);
                i += 1;
            }
            assert(i < skills@.len() ==> before[i as int].name == skills@[i as int].name@);
            assert(name_slot(before, skill.name@, 0) == i);
            skills.insert(i, skill);
            assert(skill_views(skills@) =~= before.insert(i as int, skill@));
            k += 1;
        }
        SkillLoader { skills }
    }

    pub fn skills(&self) -> (r: &Vec<Skill>)
        ensures
            skill_views(r@) == self@,
    {
        &self.skills
    }

    /// The skills that a message brings up, at most `max_skills`, best first.
    pub fn match_message(&self, message: &str, max_skills: usize) -> (r: Vec<&Skill>)
        ensures
            ({
                let hits = brought_up(self@, message@);
                &&& r@.len() == least(hits.len() as int, max_skills as int)
                &&& forall|i: int| 0 <= i < r@.len() ==> (#[trigger] r@[i])@ == self@[hits[i].0]
            }),
    {
        let said = tokens(message);
        let n: usize = self.skills.len();
        let ghost all = skill_views(self.skills@);
        let ghost points = skill_scores(all, message@);
        let mut scores: Vec<usize> = Vec::new();
        let mut k: usize = 0;
        while k < n
            invariant
                k <= n,
                n == self.skills@.len(),
                all == skill_views(self.skills@),
                points == skill_scores(all, message@),
                views(said@) == tokens_of(message@),
                scores@.len() == k,
                forall|j: int| 0 <= j < k ==> #[trigger] scores@[j] == points[j],
            decreases n - k,
        {
            let skill = &self.skills[k];
            let mut mine = tokens(skill.name.as_str());
            let mut more = tokens(skill.description.as_str());
            let ghost a = views(mine@);
            let ghost b = views(more@);
            mine.append(&mut more);
            assert(views(mine@) =~= a + b);
            assert(all[k as int] == skill@);
            scores.push(count_shared(&mine, &said));
            k += 1;
        }
        assert(score_views(scores@) =~= points);
        let order = rank(&scores, max_skills);
        proof {
            a_ranking_is_in_order(points, n as int);
        }
        let ghost hits = brought_up(all, message@);
        let mut r: Vec<&Skill> = Vec::new();
        let mut i: usize = 0;
        while i < order.len()
            invariant
                i <= order@.len(),
                r@.len() == i,
                n == self.skills@.len(),
                all == skill_views(self.skills@),
                order@.len() <= hits.len(),
                forall|j: int|
                    0 <= j < hits.len() ==> 0 <= (#[trigger] hits[j]).0 < n,
                forall|j: int| 0 <= j < order@.len() ==> #[trigger] order@[j] == hits[j].0,
                forall|j: int| 0 <= j < i ==> (#[trigger] r@[j])@ == all[hits[j].0],
            decreases order@.len() - i,
        {
            let at: usize = order[i];
            assert(hits[i as int].0 == at);
            r.push(&self.skills[at]);
            assert(all[at as int] == self.skills@[at as int]@);
            i += 1;
        }
        r
    }

    /// What a prompt gets of the skills that a message brings up. Nothing, where
    /// it brings up none.
    pub fn matching_skills(&self, message: &str) -> (r: String)
        ensures
            r@ == joined(told_skills(self@, brought_up(self@, message@), MAX_SKILLS as int), "\n\n"@),
    {
        let matched = self.match_message(message, MAX_SKILLS);
        let ghost hits = brought_up(self@, message@);
        let ghost all = told_skills(self@, hits, MAX_SKILLS as int);
        let mut parts: Vec<String> = Vec::new();
        let mut i: usize = 0;
        assert(views(parts@) =~= all.take(0));
        while i < matched.len()
            invariant
                i <= matched@.len(),
                matched@.len() == least(hits.len() as int, MAX_SKILLS as int),
                all == told_skills(self@, hits, MAX_SKILLS as int),
                forall|j: int|
                    0 <= j < matched@.len() ==> (#[trigger] matched@[j])@ == self@[hits[j].0],
                views(parts@) == all.take(i as int),
            decreases matched@.len() - i,
        {
            let ghost before = views(parts@);
            let mut part = "### ".to_owned();
            part.append(matched[i].name.as_str());
            part.append("\n");
            part.append(matched[i].body.as_str());
            assert(matched@[i as int]@ == self@[hits[i as int].0]);
            assert(part@ =~= all[i as int]);
            parts.push(part);
            assert(views(parts@) =~= before.push(part@));
            assert(all.take(i + 1) =~= before.push(part@));
            i += 1;
        }
        assert(all.take(all.len() as int) =~= all);
        join(&parts, "\n\n")
    }
}

pub open spec fn told_skills(skills: Seq<SkillV>, hits: Seq<(int, int)>, max: int) -> Seq<Seq<char>> {
    Seq::new(
        least(hits.len() as int, max) as nat,
        |i: int| "### "@ + skills[hits[i].0].name + "\n"@ + skills[hits[i].0].body,
    )
}

// ---- names -----------------------------------------------------------------

pub open spec fn slug_char(c: char) -> bool {
    ascii_lower(c) || ascii_digit(c) || c == '-'
}

pub open spec fn slug(name: Seq<char>) -> bool {
    name.len() > 0 && forall|i: int| 0 <= i < name.len() ==> slug_char(#[trigger] name[i])
}

/// Whether a name may become the name of a directory.
pub fn is_slug(name: &str) -> (r: bool)
    ensures
        r == slug(name@),
{
    let v = chars_of(name);
    let n: usize = v.len();
    let mut i: usize = 0;
    while i < n
        invariant
            i <= n,
            n == v@.len(),
            v@ == name@,
            forall|k: int| 0 <= k < i ==> slug_char(#[trigger] v@[k]),
        decreases n - i,
    {
        let c: char = v[i];
        if !(('a' <= c && c <= 'z') || is_ascii_digit(c) || c == '-') {
            assert(!slug_char(v@[i as int]));
            return false;
        }
        i += 1;
    }
    n > 0
}

/// A slug names something directly within a directory: no part of it leads
/// elsewhere.
pub proof fn a_slug_stays_put(name: Seq<char>)
    requires
        slug(name),
    ensures
        !name.contains('/'),
        !name.contains('.'),
        name != "."@,
        name != ".."@,
{
    reveal_strlit(".");
    reveal_strlit("..");
    assert("."@[0] == '.');
    assert(".."@[0] == '.');
    assert(slug_char(name[0]));
}

// ---- what is installed -----------------------------------------------------

#[derive(Debug, Clone, PartialEq, Eq)]
pub struct LoadedSkill {
    pub name: String,
    pub description: String,
    pub version: Option<String>,
    pub schedule: Option<String>,
    pub folder: String,
}

/// A skill that was found in a directory: its folder and the directory, both in
/// full.
#[derive(Debug, Clone, PartialEq, Eq)]
pub struct FoundSkill {
    pub skill: LoadedSkill,
    pub folder: String,
    pub root: String,
}

/// The last part of a path.
pub open spec fn last_part(path: Seq<char>) -> Seq<char> {
    path.subrange(rfind_char(path, '/', path.len() as int), path.len() as int)
}

/// A skill in a folder of its own, that is not on its way in.
pub open spec fn stands_alone(found: FoundSkill) -> bool {
    found.folder@ != found.root@ && last_part(found.folder@) != "_incoming"@
}

fn is_alone(found: &FoundSkill) -> (r: bool)
    ensures
        r == stands_alone(*found),
{
    let v = chars_of(found.folder.as_str());
    let from: usize = rfind_from(&v, '/', v.len());
    let last = piece(&v, from, v.len());
    !same(found.folder.as_str(), found.root.as_str()) && !same(last.as_str(), "_incoming")
}

/// The last of the first `k` that stands alone under this name; -1 where none
/// does.
pub open spec fn last_named(found: Seq<FoundSkill>, name: Seq<char>, k: int) -> int
    decreases k,
{
    if k <= 0 {
        -1
    } else if stands_alone(found[k - 1]) && found[k - 1].skill.name@ == name {
        k - 1
    } else {
        last_named(found, name, k - 1)
    }
}

fn copy_loaded(s: &LoadedSkill) -> (r: LoadedSkill)
    ensures
        r == *s,
{
    LoadedSkill {
        name: s.name.clone(),
        description: s.description.clone(),
        version: match &s.version {
            Some(v) => Some(v.clone()),
            None => None,
        },
        schedule: match &s.schedule {
            Some(v) => Some(v.clone()),
            None => None,
        },
        folder: s.folder.clone(),
    }
}

/// The skills that are installed, one for each name, in the order of names. Of
/// two with one name the later find counts, so the home is searched last.
pub fn loaded_skills(found: &Vec<FoundSkill>) -> (r: Vec<LoadedSkill>)
    ensures
        forall|i: int, j: int|
            0 <= i < j < r@.len() ==> less((#[trigger] r@[i]).name@, (#[trigger] r@[j]).name@),
        forall|i: int|
            0 <= i < r@.len() ==> {
                let k = last_named(found@, (#[trigger] r@[i]).name@, found@.len() as int);
                0 <= k < found@.len() && r@[i] == found@[k].skill
            },
        forall|name: Seq<char>|
            #[trigger] last_named(found@, name, found@.len() as int) >= 0 ==> exists|i: int|
                0 <= i < r@.len() && (#[trigger] r@[i]).name@ == name,
{
    let mut table: Table<LoadedSkill> = Table::new();
    let n: usize = found.len();
    let mut k: usize = 0;
    while k < n
        invariant
            k <= n,
            n == found@.len(),
            forall|name: Seq<char>| #[trigger]
                table@.contains_key(name) == (last_named(found@, name, k as int) >= 0),
            forall|name: Seq<char>| #[trigger]
                table@.contains_key(name) ==> {
                    let at = last_named(found@, name, k as int);
                    0 <= at < k && table@[name] == found@[at].skill && found@[at].skill.name@ == name
                },
        decreases n - k,
    {
        if is_alone(&found[k]) {
            table.insert(found[k].skill.name.clone(), copy_loaded(&found[k].skill));
        }
        k += 1;
    }
    let ghost pairs = table.pairs();
    let ghost map = table@;
    let entries = table.into_entries();
    let ghost es = entries@;
    assert forall|i: int| 0 <= i < es.len() implies (#[trigger] pairs[i]) == (es[i].0@, es[i].1) by {
        assert(es.map_values(|e: (String, LoadedSkill)| (e.0@, e.1))[i] == (es[i].0@, es[i].1));
    }
    assert(pairs.len() == es.len());
    assert forall|i: int| 0 <= i < es.len() implies map.contains_key((#[trigger] es[i]).0@)
        && map[es[i].0@] == es[i].1 by {
        lemma_map_at(pairs, i);
        assert(pairs[i] == (es[i].0@, es[i].1));
    }
    let mut r: Vec<LoadedSkill> = Vec::new();
    let mut i: usize = 0;
    while i < entries.len()
        invariant
            i <= entries@.len(),
            es == entries@,
            r@.len() == i,
            forall|j: int| 0 <= j < i ==> #[trigger] r@[j] == es[j].1,
        decreases entries@.len() - i,
    {
        r.push(copy_loaded(&entries[i].1));
        i += 1;
    }
    proof {
        assert forall|a: int, b: int| 0 <= a < b < r@.len() implies less(
            (#[trigger] r@[a]).name@,
            (#[trigger] r@[b]).name@,
        ) by {
            assert(less(pairs[a].0, pairs[b].0));
            assert(map.contains_key(es[a].0@) && map.contains_key(es[b].0@));
        }
        assert forall|a: int| 0 <= a < r@.len() implies {
            let at = last_named(found@, (#[trigger] r@[a]).name@, found@.len() as int);
            0 <= at < found@.len() && r@[a] == found@[at].skill
        } by {
            assert(map.contains_key(es[a].0@));
        }
        assert forall|name: Seq<char>| #[trigger]
            last_named(found@, name, found@.len() as int) >= 0 implies exists|a: int|
            0 <= a < r@.len() && (#[trigger] r@[a]).name@ == name by {
            assert(map.contains_key(name));
            let a = choose|a: int| 0 <= a < pairs.len() && (#[trigger] pairs[a]).0 == name;
            assert(pairs[a] == (es[a].0@, es[a].1));
            assert(map.contains_key(es[a].0@));
            assert(r@[a].name@ == name);
        }
    }
    r
}

// ---- giving skills away ----------------------------------------------------

/// What to do with a copy of a skill that another program may hold.
#[derive(Debug, Clone, Copy, PartialEq, Eq, Structural)]
pub enum Export {
    /// The copy is the same.
    Unchanged,
    /// The copy differs, and is left to its owner.
    Kept,
    /// The skill is copied, in place of what is there where `replace` holds.
    Copy { replace: bool },
}

pub open spec fn export_of(alike: bool, exists: bool, force: bool) -> Export {
    if alike {
        Export::Unchanged
    } else if exists && !force {
        Export::Kept
    } else {
        Export::Copy { replace: exists }
    }
}

pub fn export_step(alike: bool, exists: bool, force: bool) -> (r: Export)
    ensures
        r == export_of(alike, exists, force),
{
    if alike {
        Export::Unchanged
    } else if exists && !force {
        Export::Kept
    } else {
        Export::Copy { replace: exists }
    }
}

/// A copy that its owner has changed is lost only by force, and a copy that is
/// alike is never written again.
pub proof fn a_changed_copy_is_kept(alike: bool, exists: bool, force: bool)
    ensures
        exists && export_of(alike, exists, force) is Copy ==> force && !alike,
        alike ==> export_of(alike, exists, force) == Export::Unchanged,
{
}

pub open spec fn export_text(
    step: Export,
    dest: Seq<char>,
    failure: Option<Seq<char>>,
) -> Seq<char> {
    match step {
        Export::Unchanged => "  unchanged   "@ + dest,
        Export::Kept => "  kept yours  "@ + dest + "（内容有出入；--force 覆盖）"@,
        Export::Copy { replace } => match failure {
            None => "  copied      "@ + dest,
            Some(e) => "  FAILED      "@ + dest + "："@ + e,
        },
    }
}

/// The line that tells what became of a skill.
pub fn export_line(step: Export, dest: &str, failure: &Option<String>) -> (r: String)
    ensures
        r@ == export_text(step, dest@, opt_text(*failure)),
{
    match step {
        Export::Unchanged => {
            let mut t = "  unchanged   ".to_owned();
            t.append(dest);
            t
        },
        Export::Kept => {
            let mut t = "  kept yours  ".to_owned();
            t.append(dest);
            t.append("（内容有出入；--force 覆盖）");
            t
        },
        Export::Copy { replace: _ } => match failure {
            None => {
                let mut t = "  copied      ".to_owned();
                t.append(dest);
                t
            },
            Some(e) => {
                let mut t = "  FAILED      ".to_owned();
                t.append(dest);
                t.append("：");
                t.append(e.as_str());
                t
            },
        },
    }
}

// ---- installing ------------------------------------------------------------

/// Where a new skill goes, and what is said once it is there.
#[derive(Debug, Clone, PartialEq, Eq)]
pub struct Placement {
    pub dir: String,
    pub file: String,
    pub message: String,
}

pub open spec fn skill_dir(home: Seq<char>, name: Seq<char>) -> Seq<char> {
    below(below(home, "skills"@), name)
}

pub open spec fn skill_file(home: Seq<char>, name: Seq<char>) -> Seq<char> {
    below(skill_dir(home, name), "SKILL.md"@)
}

pub open spec fn install_refusal(text: Seq<char>, taken: bool) -> Option<Seq<char>> {
    match skill_told(text) {
        None => Some(
            "不是合法的技能：SKILL.md 需要 YAML frontmatter，含 name 和 description。"@,
        ),
        Some(skill) => if !slug(skill.name) {
            Some(
                "技能名 '"@ + skill.name
                    + "' 不是小写 slug（小写字母、数字、连字符），拒绝安装 —— 它要变成目录名。"@,
            )
        } else if taken {
            Some("已有一个叫 '"@ + skill.name + "' 的技能 —— 换个名字或先删掉旧的。"@)
        } else {
            None
        },
    }
}

/// Whether the text of a skill can be installed. `taken` says whether a skill of
/// its name is there already: none is ever overwritten.
pub fn install_from_text(home: &str, text: &str, taken: bool) -> (r: Result<Placement, String>)
    ensures
        match install_refusal(text@, taken) {
            Some(why) => r matches Err(e) && e@ == why,
            None => {
                let skill = skill_told(text@)->0;
                r matches Ok(p) && p.dir@ == skill_dir(home@, skill.name) && p.file@ == skill_file(
                    home@,
                    skill.name,
                ) && p.message@ == "已安装 '"@ + skill.name + "' → "@ + skill_file(
                    home@,
                    skill.name,
                ) + "\n  "@ + skill.description
            },
        },
{
    let skill = match parse_skill_text(text) {
        Some(s) => s,
        None => {
            return Err(
                "不是合法的技能：SKILL.md 需要 YAML frontmatter，含 name 和 description。".to_owned(),
            );
        },
    };
    if !is_slug(skill.name.as_str()) {
        let mut why = "技能名 '".to_owned();
        why.append(skill.name.as_str());
        why.append("' 不是小写 slug（小写字母、数字、连字符），拒绝安装 —— 它要变成目录名。");
        return Err(why);
    }
    if taken {
        let mut why = "已有一个叫 '".to_owned();
        why.append(skill.name.as_str());
        why.append("' 的技能 —— 换个名字或先删掉旧的。");
        return Err(why);
    }
    let dir = join_path(join_path(home, "skills").as_str(), skill.name.as_str());
    let file = join_path(dir.as_str(), "SKILL.md");
    let mut message = "已安装 '".to_owned();
    message.append(skill.name.as_str());
    message.append("' → ");
    message.append(file.as_str());
    message.append("\n  ");
    message.append(skill.description.as_str());
    Ok(Placement { dir, file, message })
}

// ---- what brings a skill up ------------------------------------------------

/// Words are counted one by one: each adds one where the others hold it.
pub proof fn words_are_counted_one_by_one(
    a: Seq<Seq<char>>,
    word: Seq<char>,
    b: Seq<Seq<char>>,
    others: Seq<Seq<char>>,
)
    ensures
        overlap(Seq::empty(), others) == 0,
        overlap(seq![word], others) == if others.contains(word) {
            1int
        } else {
            0int
        },
        overlap(a + b, others) == overlap(a, others) + overlap(b, others),
        0 <= overlap(a, others) <= a.len(),
{
    reveal_with_fuel(shared, 2);
    assert(seq![word][0] == word);
    lemma_shared_joins(a, b, others, b.len() as int);
    assert((a + b).len() == a.len() + b.len());
    lemma_shared_front(a, a, others, a.len() as int);
}

proof fn lemma_shared_joins(
    a: Seq<Seq<char>>,
    b: Seq<Seq<char>>,
    others: Seq<Seq<char>>,
    k: int,
)
    requires
        0 <= k <= b.len(),
    ensures
        shared(a + b, others, a.len() + k) == shared(a, others, a.len() as int) + shared(
            b,
            others,
            k,
        ),
    decreases k,
{
    if k == 0 {
        lemma_shared_front(a, a + b, others, a.len() as int);
    } else {
        lemma_shared_joins(a, b, others, k - 1);
        assert((a + b)[a.len() + k - 1] == b[k - 1]);
    }
}

proof fn lemma_shared_front(
    a: Seq<Seq<char>>,
    b: Seq<Seq<char>>,
    others: Seq<Seq<char>>,
    k: int,
)
    requires
        0 <= k <= a.len() <= b.len(),
        forall|i: int| 0 <= i < a.len() ==> #[trigger] a[i] == b[i],
    ensures
        shared(a, others, k) == shared(b, others, k),
        0 <= shared(a, others, k) <= k,
    decreases k,
{
    if k > 0 {
        lemma_shared_front(a, b, others, k - 1);
        assert(a[k - 1] == b[k - 1]);
    }
}

proof fn lemma_two_shared(words: Seq<Seq<char>>, others: Seq<Seq<char>>, a: int, b: int, k: int)
    requires
        0 <= a < b < words.len(),
        others.contains(words[a]),
        others.contains(words[b]),
        0 <= k <= words.len(),
    ensures
        shared(words, others, k) >= if k > b {
            2int
        } else if k > a {
            1int
        } else {
            0int
        },
    decreases k,
{
    if k > 0 {
        lemma_two_shared(words, others, a, b, k - 1);
    }
}

/// The name and the description of a skill both count: its score is what the
/// message shares with the one, and what it shares with the other.
pub proof fn a_name_counts_as_a_description_does(skills: Seq<SkillV>, message: Seq<char>, i: int)
    requires
        0 <= i < skills.len(),
    ensures
        skill_scores(skills, message).len() == skills.len(),
        skill_scores(skills, message)[i] == overlap(tokens_of(skills[i].name), tokens_of(message))
            + overlap(tokens_of(skills[i].description), tokens_of(message)),
{
    words_are_counted_one_by_one(
        tokens_of(skills[i].name),
        Seq::empty(),
        tokens_of(skills[i].description),
        tokens_of(message),
    );
}

/// A skill is brought up exactly where the message shares at least two words with
/// its name and its description together.
pub proof fn two_words_bring_a_skill_up(skills: Seq<SkillV>, message: Seq<char>, i: int)
    requires
        0 <= i < skills.len(),
    ensures
        (exists|h: int|
            0 <= h < brought_up(skills, message).len() && (#[trigger] brought_up(
                skills,
                message,
            )[h]).0 == i) <==> overlap(tokens_of(skills[i].name), tokens_of(message)) + overlap(
            tokens_of(skills[i].description),
            tokens_of(message),
        ) >= 2,
{
    a_name_counts_as_a_description_does(skills, message, i);
    let scores = skill_scores(skills, message);
    let n = skills.len() as int;
    let hits = brought_up(skills, message);
    a_ranking_is_in_order(scores, n);
    if scores[i] >= 2 {
        every_hit_is_ranked(scores, n, i);
        let h = choose|h: int| 0 <= h < hits.len() && hits[h] == (i, scores[i]);
        assert(hits[h].0 == i);
    }
}

/// A skill is brought up by any two words of its name, by any two words of its
/// description, and by one of each.
pub proof fn a_skill_that_is_called_comes(
    skills: Seq<SkillV>,
    message: Seq<char>,
    i: int,
    a: int,
    b: int,
)
    requires
        0 <= i < skills.len(),
        ({
            let said = tokens_of(message);
            let name = tokens_of(skills[i].name);
            let words = tokens_of(skills[i].description);
            ||| 0 <= a < b < name.len() && said.contains(name[a]) && said.contains(name[b])
            ||| 0 <= a < b < words.len() && said.contains(words[a]) && said.contains(words[b])
            ||| 0 <= a < name.len() && 0 <= b < words.len() && said.contains(name[a])
                && said.contains(words[b])
        }),
    ensures
        exists|h: int|
            0 <= h < brought_up(skills, message).len() && (#[trigger] brought_up(
                skills,
                message,
            )[h]).0 == i,
{
    let said = tokens_of(message);
    let name = tokens_of(skills[i].name);
    let words = tokens_of(skills[i].description);
    two_words_bring_a_skill_up(skills, message, i);
    words_are_counted_one_by_one(name, Seq::empty(), words, said);
    words_are_counted_one_by_one(words, Seq::empty(), name, said);
    if 0 <= a < b < name.len() && said.contains(name[a]) && said.contains(name[b]) {
        lemma_two_shared(name, said, a, b, name.len() as int);
    } else if 0 <= a < b < words.len() && said.contains(words[a]) && said.contains(words[b]) {
        lemma_two_shared(words, said, a, b, words.len() as int);
    } else {
        lemma_one_shared(name, said, a, name.len() as int);
        lemma_one_shared(words, said, b, words.len() as int);
    }
}

proof fn lemma_one_shared(words: Seq<Seq<char>>, others: Seq<Seq<char>>, a: int, k: int)
    requires
        0 <= a < words.len(),
        others.contains(words[a]),
        0 <= k <= words.len(),
    ensures
        shared(words, others, k) >= if k > a {
            1int
        } else {
            0int
        },
    decreases k,
{
    if k > 0 {
        lemma_one_shared(words, others, a, k - 1);
    }
}

/// A text of letters and digits only.
pub open spec fn all_alnum(s: Seq<char>) -> bool {
    forall|k: int| 0 <= k < s.len() ==> ascii_alnum(#[trigger] s[k])
}

proof fn lemma_run_spans(s: Seq<char>, i: int, j: int)
    requires
        0 <= i <= j <= s.len(),
        forall|k: int| i <= k < j ==> ascii_alnum(#[trigger] s[k]),
        j < s.len() ==> !ascii_alnum(s[j]),
    ensures
        run_end(s, i) == j,
    decreases j - i,
{
    if i < j {
        assert(ascii_alnum(s[i]));
        lemma_run_spans(s, i + 1, j);
    }
}

proof fn lemma_run_end_shifts(a: Seq<char>, b: Seq<char>, i: int)
    requires
        0 <= i <= b.len(),
    ensures
        run_end(a + b, i + a.len()) == run_end(b, i) + a.len(),
    decreases b.len() - i,
{
    if i < b.len() {
        assert((a + b)[i + a.len()] == b[i]);
        if ascii_alnum(b[i]) {
            lemma_run_end_shifts(a, b, i + 1);
        }
    }
}

proof fn lemma_runs_shift(a: Seq<char>, b: Seq<char>, i: int)
    requires
        0 <= i <= b.len(),
    ensures
        runs_from(a + b, i + a.len()) == runs_from(b, i),
    decreases b.len() - i,
{
    let s = a + b;
    if i < b.len() {
        assert(s[i + a.len()] == b[i]);
        if !ascii_alnum(b[i]) {
            lemma_runs_shift(a, b, i + 1);
        } else {
            lemma_run_end_shifts(a, b, i);
            lemma_run_end(b, i);
            let j = run_end(b, i);
            lemma_runs_shift(a, b, j);
            assert(s.subrange(i + a.len(), j + a.len()) =~= b.subrange(i, j));
        }
    }
}

/// A word is a run of at least three letters and digits, and anything else parts
/// two words.
pub proof fn a_word_is_a_run(run: Seq<char>, c: char, rest: Seq<char>)
    requires
        all_alnum(run),
        !ascii_alnum(c),
    ensures
        runs_from(run, 0) == if run.len() >= 3 {
            seq![run]
        } else {
            Seq::empty()
        },
        runs_from(run + seq![c] + rest, 0) == runs_from(run, 0) + runs_from(rest, 0),
{
    let n = run.len() as int;
    assert(runs_from(run, 0) =~= if n >= 3 {
        seq![run]
    } else {
        Seq::empty()
    }) by {
        if n > 0 {
            assert(ascii_alnum(run[0]));
            lemma_run_spans(run, 0, n);
            assert(run.subrange(0, n) =~= run);
            assert(runs_from(run, n) =~= Seq::<Seq<char>>::empty());
        }
    }
    let s = run + seq![c] + rest;
    assert(s[n] == c);
    lemma_runs_shift(run + seq![c], rest, 0);
    assert(runs_from(s, n + 1) == runs_from(rest, 0));
    assert(runs_from(s, n) == runs_from(rest, 0));
    if n > 0 {
        assert forall|k: int| 0 <= k < n implies ascii_alnum(#[trigger] s[k]) by {
            assert(s[k] == run[k]);
        }
        lemma_run_spans(s, 0, n);
        assert(s.subrange(0, n) =~= run);
    }
    assert(runs_from(s, 0) =~= runs_from(run, 0) + runs_from(rest, 0));
}

/// The prompt gets the best hits, at most `max` of them and in their order, each
/// with its name above its whole body.
pub proof fn a_prompt_gets_the_best(skills: Seq<SkillV>, hits: Seq<(int, int)>, max: int, i: int)
    requires
        0 <= max,
        0 <= i < hits.len(),
    ensures
        told_skills(skills, hits, max).len() <= max,
        hits.len() <= max ==> told_skills(skills, hits, max).len() == hits.len(),
        hits.len() > max ==> told_skills(skills, hits, max).len() == max,
        i < max ==> ({
            let told = told_skills(skills, hits, max)[i];
            let skill = skills[hits[i].0];
            begins(told, "### "@ + skill.name) && finishes(told, "\n"@ + skill.body)
        }),
{
    if i < max {
        let told = told_skills(skills, hits, max)[i];
        let skill = skills[hits[i].0];
        let a = "### "@ + skill.name;
        let b = "\n"@ + skill.body;
        lemma_occurs(Seq::empty(), a, b);
        assert(told =~= Seq::<char>::empty() + a + b);
        lemma_occurs(a, b, Seq::empty());
        assert(told =~= a + b + Seq::<char>::empty());
    }
}

/// Skills are kept in the order of their names; a skill goes behind those that have
/// its name already.
pub proof fn a_skill_goes_behind_its_namesakes(skills: Seq<SkillV>, k: int) -> (at: int)
    requires
        0 <= k < skills.len(),
    ensures
        0 <= at <= by_name(skills, k).len(),
        by_name(skills, k + 1) == by_name(skills, k).insert(at, skills[k]),
        forall|j: int|
            0 <= j < at ==> !less(skills[k].name, (#[trigger] by_name(skills, k)[j]).name),
        forall|j: int|
            at <= j < by_name(skills, k).len() ==> less(
                skills[k].name,
                (#[trigger] by_name(skills, k)[j]).name,
            ),
{
    let before = by_name(skills, k);
    let name = skills[k].name;
    lemma_name_slot(before, name, 0);
    skills_are_ordered(skills, k);
    let at = name_slot(before, name, 0);
    assert forall|j: int| at <= j < before.len() implies less(name, (#[trigger] before[j]).name) by {
        if j > at {
            assert(!less(before[j].name, before[at].name));
            keys_are_ordered(name, before[at].name, before[j].name);
            keys_are_ordered(before[at].name, before[j].name, name);
        }
    }
    at
}

// ---- what a file says ------------------------------------------------------

/// Unquoting takes quotes from the two ends of a text, and nothing else.
pub proof fn unquoting_takes_only_quotes(s: Seq<char>) -> (cut: (int, int))
    ensures
        0 <= cut.0 <= cut.1 <= s.len(),
        unquoted(s) == s.subrange(cut.0, cut.1),
        forall|k: int|
            0 <= k < s.len() && !(cut.0 <= k < cut.1) ==> (#[trigger] s[k] == '"' || s[k] == '\''),
        unquoted(s).len() > 0 ==> unquoted(s)[0] != '"' && unquoted(s)[0] != '\'' && unquoted(
            s,
        ).last() != '"' && unquoted(s).last() != '\'',
{
    lemma_quotes(s);
    let a = skip_quotes(s, 0);
    let b = keep_unquoted(s, s.len() as int);
    if a < b {
        assert(!quote(s[a]));
        (a, b)
    } else {
        assert(s.subrange(0, 0) =~= Seq::<char>::empty());
        if a < s.len() {
            assert(quote(s[a]));
        }
        (0, 0)
    }
}

proof fn lemma_quotes(s: Seq<char>)
    ensures
        0 <= skip_quotes(s, 0) <= s.len(),
        forall|k: int| 0 <= k < skip_quotes(s, 0) ==> quote(#[trigger] s[k]),
        skip_quotes(s, 0) < s.len() ==> !quote(s[skip_quotes(s, 0)]),
        0 <= keep_unquoted(s, s.len() as int) <= s.len(),
        forall|k: int| keep_unquoted(s, s.len() as int) <= k < s.len() ==> quote(#[trigger] s[k]),
        keep_unquoted(s, s.len() as int) > 0 ==> !quote(s[keep_unquoted(s, s.len() as int) - 1]),
{
    lemma_skip_quotes(s, 0);
    lemma_keep_unquoted(s, s.len() as int);
}

proof fn lemma_skip_quotes(s: Seq<char>, i: int)
    requires
        0 <= i <= s.len(),
    ensures
        i <= skip_quotes(s, i) <= s.len(),
        forall|k: int| i <= k < skip_quotes(s, i) ==> quote(#[trigger] s[k]),
        skip_quotes(s, i) < s.len() ==> !quote(s[skip_quotes(s, i)]),
    decreases s.len() - i,
{
    if i < s.len() && quote(s[i]) {
        lemma_skip_quotes(s, i + 1);
    }
}

proof fn lemma_keep_unquoted(s: Seq<char>, j: int)
    requires
        0 <= j <= s.len(),
    ensures
        0 <= keep_unquoted(s, j) <= j,
        forall|k: int| keep_unquoted(s, j) <= k < j ==> quote(#[trigger] s[k]),
        keep_unquoted(s, j) > 0 ==> !quote(s[keep_unquoted(s, j) - 1]),
    decreases j,
{
    if 0 < j && quote(s[j - 1]) {
        lemma_keep_unquoted(s, j - 1);
    }
}

/// A value that can be written after a colon and read back as it is.
pub open spec fn plain_value(s: Seq<char>) -> bool {
    &&& s.len() > 0
    &&& !blank(s[0]) && !blank(s.last())
    &&& !quote(s[0]) && !quote(s.last())
    &&& !s.contains('\n')
}

/// A line gives the key before its first colon the value behind it, and gives
/// nothing to any other key.
pub proof fn a_line_gives_its_value(key: Seq<char>, value: Seq<char>, other: Seq<char>)
    requires
        key.len() > 0,
        !blank(key[0]) && !blank(key.last()),
        !key.contains(':'),
        plain_value(value),
        other != key,
    ensures
        line_value(key + ": "@ + value, key) == Some(value),
        line_value(key + ": "@ + value, other) is None,
        line_value(key, key) is None,
{
    reveal_strlit(": ");
    let line = key + ": "@ + value;
    let n = key.len() as int;
    lemma_find_char(line, ':', 0);
    lemma_find_char(key, ':', 0);
    let c = find_char(line, ':', 0);
    assert(line[n] == ':');
    assert(c == n) by {
        if c < n {
            assert(line[c] == key[c]);
        }
    }
    let d = find_char(key, ':', 0);
    if d < n {
        assert(key[d] == ':');
    }
    assert(line.subrange(0, n) =~= key);
    a_tight_text_is_left_alone(key);
    let right = line.subrange(n + 1, line.len() as int);
    assert(right =~= seq![' '] + value);
    let cut = trimming_takes_only_blanks(right);
    assert(right[0] == ' ' && right[1] == value[0] && right.last() == value.last());
    assert(trimmed(right) =~= value) by {
        a_trimmed_text_has_no_blank_ends(right);
        assert(!blank(right[1]));
        assert(!blank(right[right.len() - 1]));
        assert(cut.0 <= 1 < cut.1);
        assert(cut.1 == right.len());
        assert(trimmed(right)[0] == right[cut.0]);
        assert(cut.0 == 1);
    }
    let keep = unquoting_takes_only_quotes(value);
    assert(value[0] == value[0] && value[value.len() - 1] == value.last());
    assert(keep.0 == 0 && keep.1 == value.len());
    assert(value.subrange(0, value.len() as int) =~= value);
}

/// Of several lines for one key the last one counts.
pub proof fn the_last_line_counts(lines: Seq<Seq<char>>, line: Seq<char>, key: Seq<char>)
    ensures
        ({
            let now = value_among(lines.push(line), key, lines.len() as int + 1);
            match line_value(line, key) {
                Some(v) => now == Some(v),
                None => now == value_among(lines, key, lines.len() as int),
            }
        }),
        value_among(lines, key, 0) is None,
{
    lemma_value_front(lines, lines.push(line), key, lines.len() as int);
}

proof fn lemma_value_front(a: Seq<Seq<char>>, b: Seq<Seq<char>>, key: Seq<char>, k: int)
    requires
        0 <= k <= a.len() <= b.len(),
        forall|i: int| 0 <= i < a.len() ==> #[trigger] a[i] == b[i],
    ensures
        value_among(a, key, k) == value_among(b, key, k),
    decreases k,
{
    if k > 0 {
        lemma_value_front(a, b, key, k - 1);
        assert(a[k - 1] == b[k - 1]);
    }
}

/// The front matter stands between its two marks, and the body is all that follows;
/// the first mark that ends it does.
pub proof fn front_and_body_make_up_the_text(text: Seq<char>)
    ensures
        match split_front(text) {
            Some((front, body)) => text == "---\n"@ + front + "\n---\n"@ + body && forall|k: int|
                0 <= k < front.len() ==> !#[trigger] occurs_at(
                    front + "\n---\n"@ + body,
                    "\n---\n"@,
                    k,
                ),
            None => !begins(text, "---\n"@) || !occurs(
                text.subrange(4, text.len() as int),
                "\n---\n"@,
            ),
        },
{
    reveal_strlit("---\n");
    reveal_strlit("\n---\n");
    if begins(text, "---\n"@) {
        let rest = text.subrange(4, text.len() as int);
        lemma_find_text(rest, "\n---\n"@, 0);
        let end = find_text(rest, "\n---\n"@, 0);
        assert(text =~= "---\n"@ + rest) by {
            assert(text.subrange(0, 4) == "---\n"@);
        }
        if end >= 0 {
            let front = rest.subrange(0, end);
            let body = rest.subrange(end + 5, rest.len() as int);
            assert(rest =~= front + "\n---\n"@ + body) by {
                assert(rest.subrange(end, end + 5) == "\n---\n"@);
            }
            assert(text =~= "---\n"@ + front + "\n---\n"@ + body);
        } else {
            assert forall|k: int| !#[trigger] occurs_at(rest, "\n---\n"@, k) by {}
        }
    }
}

/// A skill with plain values reads back as it was written.
pub proof fn a_plain_skill_reads_back(name: Seq<char>, description: Seq<char>, body: Seq<char>)
    requires
        plain_value(name),
        plain_value(description),
        name.last() != '\r',
        description.last() != '\r',
    ensures
        skill_told(
            "---\n"@ + ("name: "@ + name + seq!['\n'] + ("description: "@ + description))
                + "\n---\n"@ + body,
        ) == Some(
            SkillV {
                name,
                description,
                version: None,
                schedule: None,
                body: trimmed(body),
                path: Seq::empty(),
            },
        ),
{
    reveal_strlit("---\n");
    reveal_strlit("\n---\n");
    reveal_strlit("name: ");
    reveal_strlit("description: ");
    let one = "name: "@ + name;
    let two = "description: "@ + description;
    let front = one + seq!['\n'] + two;
    let text = "---\n"@ + front + "\n---\n"@ + body;
    lemma_front_is_found(one, two, body);
    assert(split_front(text) == Some((front, body)));
    assert(!one.contains('\n')) by {
        if one.contains('\n') {
            let k = choose|k: int| 0 <= k < one.len() && one[k] == '\n';
            if k >= 6 {
                assert(name[k - 6] == '\n');
            }
        }
    }
    assert(!two.contains('\n')) by {
        if two.contains('\n') {
            let k = choose|k: int| 0 <= k < two.len() && two[k] == '\n';
            if k >= 13 {
                assert(description[k - 13] == '\n');
            }
        }
    }
    assert(one.last() == name.last());
    a_line_ends_at_its_feed(one, two);
    a_line_ends_at_its_feed(two, Seq::empty());
    let lines = line_views(front);
    assert(lines =~= seq![one, two]);
    lemma_plain_lines(name, description);
    let a = Seq::<Seq<char>>::empty().push(one);
    assert(lines =~= a.push(two));
    the_last_line_counts(Seq::empty(), one, "name"@);
    the_last_line_counts(a, two, "name"@);
    the_last_line_counts(Seq::empty(), one, "description"@);
    the_last_line_counts(a, two, "description"@);
    the_last_line_counts(Seq::empty(), one, "version"@);
    the_last_line_counts(a, two, "version"@);
    the_last_line_counts(Seq::empty(), one, "schedule"@);
    the_last_line_counts(a, two, "schedule"@);
}

proof fn lemma_plain_lines(name: Seq<char>, description: Seq<char>)
    requires
        plain_value(name),
        plain_value(description),
    ensures
        line_value("name: "@ + name, "name"@) == Some(name),
        line_value("name: "@ + name, "description"@) is None,
        line_value("name: "@ + name, "version"@) is None,
        line_value("name: "@ + name, "schedule"@) is None,
        line_value("description: "@ + description, "description"@) == Some(description),
        line_value("description: "@ + description, "name"@) is None,
        line_value("description: "@ + description, "version"@) is None,
        line_value("description: "@ + description, "schedule"@) is None,
{
    reveal_strlit("name: ");
    reveal_strlit("description: ");
    reveal_strlit("name");
    reveal_strlit("description");
    reveal_strlit("version");
    reveal_strlit("schedule");
    reveal_strlit(": ");
    let n = "name"@;
    let d = "description"@;
    assert("name: "@ + name =~= n + ": "@ + name);
    assert("description: "@ + description =~= d + ": "@ + description);
    assert(n.len() == 4 && d.len() == 11 && "version"@.len() == 7 && "schedule"@.len() == 8);
    assert(!n.contains(':'));
    assert(!d.contains(':'));
    a_line_gives_its_value(n, name, d);
    a_line_gives_its_value(n, name, "version"@);
    a_line_gives_its_value(n, name, "schedule"@);
    a_line_gives_its_value(d, description, n);
    a_line_gives_its_value(d, description, "version"@);
    a_line_gives_its_value(d, description, "schedule"@);
}

proof fn lemma_front_is_found(one: Seq<char>, two: Seq<char>, body: Seq<char>)
    requires
        forall|k: int| 0 <= k < one.len() ==> #[trigger] one[k] != '\n',
        forall|k: int| 0 <= k < two.len() ==> #[trigger] two[k] != '\n',
        two.len() > 0,
        two[0] == 'd',
    ensures
        split_front("---\n"@ + (one + seq!['\n'] + two) + "\n---\n"@ + body) == Some(
            (one + seq!['\n'] + two, body),
        ),
{
    reveal_strlit("---\n");
    reveal_strlit("\n---\n");
    let mark = "\n---\n"@;
    let front = one + seq!['\n'] + two;
    let text = "---\n"@ + front + mark + body;
    assert(text.subrange(0, 4) =~= "---\n"@);
    let rest = text.subrange(4, text.len() as int);
    assert(rest =~= front + mark + body);
    let n = front.len() as int;
    let m = one.len() as int;
    assert(rest.subrange(n, n + 5) =~= mark);
    assert(occurs_at(rest, mark, n));
    lemma_find_text(rest, mark, 0);
    let end = find_text(rest, mark, 0);
    assert(end == n) by {
        if end < n {
            assert(rest.subrange(end, end + 5)[0] == rest[end]);
            assert(rest.subrange(end, end + 5)[1] == rest[end + 1]);
            assert(rest[end] == '\n' && rest[end + 1] == '-');
            if end < m {
                assert(rest[end] == one[end]);
            } else if end > m {
                assert(rest[end] == two[end - m - 1]);
            } else {
                assert(rest[end + 1] == two[0]);
            }
        }
    }
    assert(rest.subrange(0, n) =~= front);
    assert(rest.subrange(n + 5, rest.len() as int) =~= body);
}

// ---- what is installed, and where ------------------------------------------

/// A slug is any text of small letters, digits and hyphens, but for the empty one.
pub proof fn a_slug_is_small_letters_digits_and_hyphens(name: Seq<char>)
    ensures
        slug(name) <==> name.len() > 0 && forall|i: int|
            0 <= i < name.len() ==> ('a' <= #[trigger] name[i] <= 'z' || '0' <= name[i] <= '9'
                || name[i] == '-'),
{
    if slug(name) {
        assert forall|i: int| 0 <= i < name.len() implies ('a' <= #[trigger] name[i] <= 'z' || '0'
            <= name[i] <= '9' || name[i] == '-') by {
            assert(slug_char(name[i]));
        }
    }
}

/// A text can be installed exactly where it tells a skill with a slug for a name
/// that is not taken; a refusal that knows the name says it.
pub proof fn only_a_new_skill_is_installed(text: Seq<char>, taken: bool)
    ensures
        install_refusal(text, taken) is None <==> skill_told(text) is Some && slug(
            skill_told(text)->0.name,
        ) && !taken,
        skill_told(text) is Some && install_refusal(text, taken) is Some ==> occurs(
            install_refusal(text, taken)->0,
            skill_told(text)->0.name,
        ),
{
    if skill_told(text) is Some {
        let name = skill_told(text)->0.name;
        lemma_occurs(
            "技能名 '"@,
            name,
            "' 不是小写 slug（小写字母、数字、连字符），拒绝安装 —— 它要变成目录名。"@,
        );
        lemma_occurs("已有一个叫 '"@, name, "' 的技能 —— 换个名字或先删掉旧的。"@);
    }
}

/// Skills of different names lie in different directories, all of them right below
/// the skills of the home.
pub proof fn skills_lie_apart(home: Seq<char>, name: Seq<char>, other: Seq<char>)
    requires
        home.len() > 0,
        home.last() != '/',
        slug(name),
        slug(other),
        name != other,
    ensures
        skill_dir(home, name) == home + "/skills/"@ + name,
        skill_file(home, name) == home + "/skills/"@ + name + "/SKILL.md"@,
        skill_dir(home, name) != skill_dir(home, other),
{
    reveal_strlit("skills");
    reveal_strlit("/skills/");
    reveal_strlit("/");
    reveal_strlit("SKILL.md");
    reveal_strlit("/SKILL.md");
    lemma_skill_dir(home, name);
    lemma_skill_dir(home, other);
    let front = home + "/skills/"@;
    let dir = front + name;
    assert(slug_char(name[name.len() - 1]));
    assert(dir.last() == name.last());
    assert(skill_file(home, name) =~= home + "/skills/"@ + name + "/SKILL.md"@);
    if front + name == front + other {
        assert(name =~= (front + name).skip(front.len() as int));
        assert(other =~= (front + other).skip(front.len() as int));
    }
}

proof fn lemma_skill_dir(home: Seq<char>, name: Seq<char>)
    requires
        home.len() > 0,
        home.last() != '/',
    ensures
        skill_dir(home, name) == home + "/skills/"@ + name,
{
    reveal_strlit("skills");
    reveal_strlit("/skills/");
    reveal_strlit("/");
    let up = below(home, "skills"@);
    assert(up =~= home + "/"@ + "skills"@);
    assert(up.last() == 's');
    assert(skill_dir(home, name) =~= home + "/skills/"@ + name);
}

/// The last part of a path is what follows its last slash.
pub proof fn a_last_part_has_no_slash(dir: Seq<char>, leaf: Seq<char>)
    requires
        !leaf.contains('/'),
    ensures
        last_part(dir + seq!['/'] + leaf) == leaf,
        last_part(leaf) == leaf,
{
    let path = dir + seq!['/'] + leaf;
    let n = path.len() as int;
    lemma_rfind_char(path, '/', n);
    let i = rfind_char(path, '/', n);
    let m = dir.len() as int;
    assert(path[m] == '/');
    assert(i == m + 1) by {
        if i <= m {
            assert(path[m] != '/');
        }
        if i > m + 1 {
            assert(path[i - 1] == leaf[i - 1 - m - 1]);
        }
    }
    assert(path.subrange(m + 1, n) =~= leaf);
    lemma_rfind_char(leaf, '/', leaf.len() as int);
    let j = rfind_char(leaf, '/', leaf.len() as int);
    if j > 0 {
        assert(leaf[j - 1] == '/');
    }
    assert(leaf.subrange(0, leaf.len() as int) =~= leaf);
}

/// A skill counts where it has a folder of its own that is not the one for what is
/// on its way in; of several with one name the last one does.
pub proof fn the_last_find_counts(found: Seq<FoundSkill>, name: Seq<char>, k: int, i: int)
    requires
        0 <= i < k <= found.len(),
    ensures
        stands_alone(found[i]) <==> found[i].folder@ != found[i].root@ && last_part(
            found[i].folder@,
        ) != "_incoming"@,
        -1 <= last_named(found, name, k) < k,
        stands_alone(found[i]) && found[i].skill.name@ == name ==> last_named(found, name, k) >= i,
        last_named(found, name, k) == i ==> stands_alone(found[i]) && found[i].skill.name@ == name,
    decreases k,
{
    if i < k - 1 {
        the_last_find_counts(found, name, k - 1, i);
    } else {
        lemma_last_named(found, name, k - 1);
    }
}

proof fn lemma_last_named(found: Seq<FoundSkill>, name: Seq<char>, k: int)
    requires
        0 <= k <= found.len(),
    ensures
        -1 <= last_named(found, name, k) < k || (k == 0 && last_named(found, name, k) == -1),
    decreases k,
{
    if k > 0 {
        lemma_last_named(found, name, k - 1);
    }
}

/// What is not there is copied; what is there and differs is replaced by force, and
/// kept otherwise.
pub proof fn a_copy_is_made_where_one_is_due(force: bool)
    ensures
        export_of(false, false, force) == (Export::Copy { replace: false }),
        export_of(false, true, true) == (Export::Copy { replace: true }),
        export_of(false, true, false) == Export::Kept,
{
}

/// Whatever becomes of a skill, the line on it says where it was to go, and why it
/// did not get there; a copy that was made is told otherwise than one that failed.
pub proof fn an_export_is_told(step: Export, dest: Seq<char>, why: Seq<char>)
    ensures
        occurs(export_text(step, dest, None), dest),
        occurs(export_text(step, dest, Some(why)), dest),
        step is Copy ==> finishes(export_text(step, dest, Some(why)), why),
        step is Copy ==> begins(export_text(step, dest, Some(why)), "  FAILED"@) && begins(
            export_text(step, dest, None),
            "  copied"@,
        ),
        step is Kept ==> begins(export_text(step, dest, None), "  kept"@),
        step is Unchanged ==> begins(export_text(step, dest, None), "  unchanged"@),
{
    let none = Seq::<char>::empty();
    lemma_occurs("  unchanged   "@, dest, none);
    assert("  unchanged   "@ + dest + none =~= "  unchanged   "@ + dest);
    lemma_occurs("  kept yours  "@, dest, "（内容有出入；--force 覆盖）"@);
    lemma_occurs("  copied      "@, dest, none);
    assert("  copied      "@ + dest + none =~= "  copied      "@ + dest);
    let failed = "  FAILED      "@ + dest + "："@ + why;
    lemma_occurs("  FAILED      "@, dest, "："@ + why);
    assert(failed =~= "  FAILED      "@ + dest + ("："@ + why));
    lemma_occurs("  FAILED      "@ + dest + "："@, why, none);
    assert(failed =~= ("  FAILED      "@ + dest + "："@) + why + none);
    reveal_strlit("  unchanged   ");
    reveal_strlit("  kept yours  ");
    reveal_strlit("  copied      ");
    reveal_strlit("  FAILED      ");
    reveal_strlit("  unchanged");
    reveal_strlit("  kept");
    reveal_strlit("  copied");
    reveal_strlit("  FAILED");
    assert(failed.subrange(0, 8) =~= "  FAILED"@);
    assert(("  copied      "@ + dest).subrange(0, 8) =~= "  copied"@);
    assert(("  kept yours  "@ + dest + "（内容有出入；--force 覆盖）"@).subrange(0, 6)
        =~= "  kept"@);
    assert(("  unchanged   "@ + dest).subrange(0, 11) =~= "  unchanged"@);
}

/// Words are told apart without regard to case: texts that are alike in small letters
/// hold the same words, and score a skill alike.
pub proof fn case_does_not_matter(a: Seq<char>, b: Seq<char>, skills: Seq<SkillV>)
    requires
        lowercased(a) == lowercased(b),
    ensures
        tokens_of(a) == tokens_of(b),
        skill_scores(skills, a) == skill_scores(skills, b),
        lowercased(a) == a ==> tokens_of(a) == runs_from(a, 0),
{
}

} // verus!
