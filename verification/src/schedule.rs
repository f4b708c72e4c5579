//! Declared jobs and the five-field times at which they run.

use vstd::prelude::*;

use crate::json::{
    check_json, count_at, json_count_at, json_error, json_text_at, list_len, place, place_of,
    text_at,
};
use crate::table::Table;
use crate::text::{
    a_field_ends_at_its_mark, a_number_holds_digits, a_number_reads_back,
    a_tight_text_is_left_alone, begins, blank, chars_of, decimal, fields, find_char, find_from,
    finishes, joined, lemma_find_char, lemma_occurs, no_blanks, occurs, parse_unsigned,
    parsed_unsigned, piece, same, spaced_words_read_back, split, starts_with, trim, trimmed, views,
    word_views, words,
};

verus! {

/// A job that runs at declared times.
#[derive(Debug, Clone, PartialEq, Eq)]
pub struct Job {
    pub name: String,
    /// Five fields: minute, hour, day, month, weekday.
    pub cron: String,
    /// What is said when the job runs.
    pub prompt: String,
}

#[verifier::ext_equal]
pub struct JobV {
    pub name: Seq<char>,
    pub cron: Seq<char>,
    pub prompt: Seq<char>,
}

impl View for Job {
    type V = JobV;

    open spec fn view(&self) -> JobV {
        JobV { name: self.name@, cron: self.cron@, prompt: self.prompt@ }
    }
}

pub open spec fn job_views(jobs: Seq<Job>) -> Seq<JobV> {
    jobs.map_values(|j: Job| j@)
}

// ---- the clock -------------------------------------------------------------

/// A minute of the local calendar. The weekday counts from Sunday, which is 0.
#[derive(Debug, Clone, PartialEq, Eq)]
pub struct Moment {
    pub minute: u32,
    pub hour: u32,
    pub day: u32,
    pub month: u32,
    pub weekday: u32,
    /// The minute in writing, such as `2026-09-21T08:00`.
    pub key: String,
}

/// The weekday of a calendar date, counted from Sunday; `None` for no date.
pub uninterp spec fn weekday_of(year: i32, month: u32, day: u32) -> Option<u32>;

/// `NaiveDate::from_ymd_opt`, then `weekday().num_days_from_sunday()`.
#[verifier::external_body]
fn weekday(year: i32, month: u32, day: u32) -> (r: Option<u32>)
    ensures
        r == weekday_of(year, month, day),
        r matches Some(n) ==> n < 7,
{
    let date = chrono::NaiveDate::from_ymd_opt(year, month, day)?;
    Some(chrono::Datelike::weekday(&date).num_days_from_sunday())
}

/// A minute written as `%Y-%m-%dT%H:%M`; `None` where there is no such minute.
pub uninterp spec fn minute_text(
    year: i32,
    month: u32,
    day: u32,
    hour: u32,
    minute: u32,
) -> Option<Seq<char>>;

/// `n` in `width` digits, with zeros in front.
pub open spec fn padded(n: nat, width: nat) -> Seq<char>
    decreases width,
{
    if width == 0 {
        Seq::empty()
    } else {
        padded(n / 10, (width - 1) as nat).push((('0' as nat) + n % 10) as char)
    }
}

pub open spec fn minute_form(year: nat, month: nat, day: nat, hour: nat, minute: nat) -> Seq<char> {
    padded(year, 4) + seq!['-'] + padded(month, 2) + seq!['-'] + padded(day, 2) + seq!['T']
        + padded(hour, 2) + seq![':'] + padded(minute, 2)
}

/// `NaiveDate::from_ymd_opt`, `and_hms_opt`, and `format` with `%Y-%m-%dT%H:%M`.
/// There is such a minute where there is such a date and the clock has the time.
/// A year of at most four digits is written with four; how others are written is
/// left unsaid.
#[verifier::external_body]
fn write_minute(year: i32, month: u32, day: u32, hour: u32, minute: u32) -> (r: Option<String>)
    ensures
        match r {
            Some(t) => {
                &&& minute_text(year, month, day, hour, minute) == Some(t@)
                &&& weekday_of(year, month, day) is Some && hour < 24 && minute < 60
                &&& 0 <= year <= 9999 ==> t@ == minute_form(
                    year as nat,
                    month as nat,
                    day as nat,
                    hour as nat,
                    minute as nat,
                )
            },
            None => {
                &&& minute_text(year, month, day, hour, minute) is None
                &&& weekday_of(year, month, day) is None || hour >= 24 || minute >= 60
            },
        },
{
    let date = chrono::NaiveDate::from_ymd_opt(year, month, day)?;
    let time = date.and_hms_opt(hour, minute, 0)?;
    Some(time.format("%Y-%m-%dT%H:%M").to_string())
}

impl Moment {
    /// The minute with these numbers, where the calendar has it.
    pub fn new(year: i32, month: u32, day: u32, hour: u32, minute: u32) -> (r: Option<Moment>)
        ensures
            match r {
                Some(m) => {
                    &&& m.minute == minute
                    &&& m.hour == hour
                    &&& m.day == day
                    &&& m.month == month
                    &&& weekday_of(year, month, day) == Some(m.weekday)
                    &&& minute_text(year, month, day, hour, minute) == Some(m.key@)
                    &&& hour < 24 && minute < 60
                    &&& 0 <= year <= 9999 ==> m.key@ == minute_form(
                        year as nat,
                        month as nat,
                        day as nat,
                        hour as nat,
                        minute as nat,
                    )
                },
                None => weekday_of(year, month, day) is None || hour >= 24 || minute >= 60,
            },
    {
        match (weekday(year, month, day), write_minute(year, month, day, hour, minute)) {
            (Some(w), Some(key)) => Some(Moment { minute, hour, day, month, weekday: w, key }),
            _ => None,
        }
    }
}

// ---- matching --------------------------------------------------------------

/// Whether a field counts weekdays.
pub open spec fn on_weekdays(min: u32, max: u32) -> bool {
    min == 0 && max == 6
}

/// A span of numbers. On the weekday field, 7 means Sunday too: at the end of a
/// span it is the day after 6, at the front it is the day before 1.
pub open spec fn span_hits(from: int, to: int, value: u32, min: u32, max: u32) -> bool {
    ||| from <= value <= to
    ||| on_weekdays(min, max) && value == 0 && from <= 7 <= to
    ||| on_weekdays(min, max) && from == 7 && value <= to < 7
}

/// One alternative of a field: `*/step`, `from-to`, or a number. On the weekday
/// field, 7 means Sunday too.
pub open spec fn part_hits(part: Seq<char>, value: u32, min: u32, max: u32) -> bool {
    let p = trimmed(part);
    let dash = find_char(p, '-', 0);
    if begins(p, "*/"@) {
        match parsed_unsigned(p.subrange(2, p.len() as int), u32::MAX as int) {
            Some(step) => step > 0 && value as int % step == 0,
            None => false,
        }
    } else if dash < p.len() {
        match (
            parsed_unsigned(trimmed(p.subrange(0, dash)), u32::MAX as int),
            parsed_unsigned(trimmed(p.subrange(dash + 1, p.len() as int)), u32::MAX as int),
        ) {
            (Some(from), Some(to)) => span_hits(from, to, value, min, max),
            _ => false,
        }
    } else {
        match parsed_unsigned(p, u32::MAX as int) {
            Some(n) => value == if on_weekdays(min, max) && n == 7 {
                0
            } else {
                n
            },
            None => false,
        }
    }
}

/// A field holds where it is `*`, or where one of its alternatives does.
pub open spec fn field_hits(field: Seq<char>, value: u32, min: u32, max: u32) -> bool {
    field == "*"@ || exists|i: int|
        0 <= i < fields(field, ',').len() && part_hits(
            #[trigger] fields(field, ',')[i],
            value,
            min,
            max,
        )
}

/// A time of five fields that all hold.
pub open spec fn cron_hits(cron: Seq<char>, at: Moment) -> bool {
    let f = word_views(cron);
    &&& f.len() == 5
    &&& field_hits(f[0], at.minute, 0, 59)
    &&& field_hits(f[1], at.hour, 0, 23)
    &&& field_hits(f[2], at.day, 1, 31)
    &&& field_hits(f[3], at.month, 1, 12)
    &&& field_hits(f[4], at.weekday, 0, 6)
}

fn part_matches(part: &str, value: u32, min: u32, max: u32) -> (r: bool)
    ensures
        r == part_hits(part@, value, min, max),
{
    let p = trim(part);
    let v = chars_of(p.as_str());
    let n: usize = v.len();
    proof {
        reveal_strlit("*/");
        lemma_find_char(v@, '-', 0);
    }
    if starts_with(p.as_str(), "*/") {
        let rest = piece(&v, 2, n);
        return match parse_unsigned(rest.as_str(), 4294967295) {
            Some(step) => step > 0 && value as u64 % step == 0,
            None => false,
        };
    }
    let dash: usize = find_from(&v, '-', 0);
    if dash < n {
        let left = piece(&v, 0, dash);
        let right = piece(&v, dash + 1, n);
        let from = trim(left.as_str());
        let to = trim(right.as_str());
        return match (
            parse_unsigned(from.as_str(), 4294967295),
            parse_unsigned(to.as_str(), 4294967295),
        ) {
            (Some(a), Some(b)) => {
                let v: u64 = value as u64;
                let week: bool = min == 0 && max == 6;
                (a <= v && v <= b) || (week && v == 0 && a <= 7 && 7 <= b) || (week && a == 7 && v
                    <= b && b < 7)
            },
            _ => false,
        };
    }
    match parse_unsigned(p.as_str(), 4294967295) {
        Some(k) => {
            let k: u64 = if min == 0 && max == 6 && k == 7 {
                0
            } else {
                k
            };
            k == value as u64
        },
        None => false,
    }
}

pub fn field_matches(field: &str, value: u32, min: u32, max: u32) -> (r: bool)
    ensures
        r == field_hits(field@, value, min, max),
{
    if same(field, "*") {
        return true;
    }
    let parts = split(field, ',');
    let ghost all = fields(field@, ',');
    let mut i: usize = 0;
    while i < parts.len()
        invariant
            i <= parts@.len(),
            all == fields(field@, ','),
            views(parts@) == all,
            forall|k: int| 0 <= k < i ==> !part_hits(#[trigger] all[k], value, min, max),
        decreases parts@.len() - i,
    {
        assert(parts@[i as int]@ == all[i as int]);
        if part_matches(parts[i].as_str(), value, min, max) {
            return true;
        }
        i += 1;
    }
    false
}

pub fn cron_matches(cron: &str, at: &Moment) -> (r: bool)
    ensures
        r == cron_hits(cron@, *at),
{
    let f = words(cron);
    let ghost all = word_views(cron@);
    assert(views(f@).len() == f@.len());
    if f.len() != 5 {
        return false;
    }
    assert(f@[0]@ == all[0] && f@[1]@ == all[1] && f@[2]@ == all[2] && f@[3]@ == all[3] && f@[4]@
        == all[4]);
    field_matches(f[0].as_str(), at.minute, 0, 59) && field_matches(f[1].as_str(), at.hour, 0, 23)
        && field_matches(f[2].as_str(), at.day, 1, 31) && field_matches(
        f[3].as_str(),
        at.month,
        1,
        12,
    ) && field_matches(f[4].as_str(), at.weekday, 0, 6)
}

/// Five stars hold at every minute.
pub proof fn stars_hold_always(cron: Seq<char>, at: Moment)
    requires
        word_views(cron) == seq!["*"@, "*"@, "*"@, "*"@, "*"@],
    ensures
        cron_hits(cron, at),
{
}

/// On the weekday field 7 and 0 say the same: a number, the front of a span and
/// its end.
pub proof fn seven_is_sunday_too(from: int, to: int, value: u32)
    requires
        0 <= from <= 6,
        0 <= to <= 6,
        value <= 6,
    ensures
        span_hits(from, 7, value, 0, 6) == (value == 0 || from <= value),
        span_hits(7, to, value, 0, 6) == span_hits(0, to, value, 0, 6),
        span_hits(7, 7, value, 0, 6) == (value == 0),
{
}

/// Anything but five fields never holds.
pub proof fn a_malformed_time_never_holds(cron: Seq<char>, at: Moment)
    requires
        word_views(cron).len() != 5,
    ensures
        !cron_hits(cron, at),
{
}

/// The job is due: its time holds, and it did not run in this minute yet.
pub open spec fn is_due(job: Job, at: Moment, fired: Map<Seq<char>, String>) -> bool {
    cron_hits(job.cron@, at) && !(fired.contains_key(job.name@) && fired[job.name@]@ == at.key@)
}

/// The places of the due jobs, in order. `fired` says at which minute a job ran
/// last.
pub fn due_now(jobs: &Vec<Job>, at: &Moment, fired: &Table<String>) -> (r: Vec<usize>)
    ensures
        forall|k: int|
            0 <= k < r@.len() ==> #[trigger] r@[k] < jobs@.len() && is_due(
                jobs@[r@[k] as int],
                *at,
                fired@,
            ),
        forall|i: int|
            0 <= i < jobs@.len() && is_due(#[trigger] jobs@[i], *at, fired@) ==> exists|k: int|
                0 <= k < r@.len() && #[trigger] r@[k] == i,
        forall|a: int, b: int| 0 <= a < b < r@.len() ==> #[trigger] r@[a] < #[trigger] r@[b],
{
    let mut r: Vec<usize> = Vec::new();
    let mut i: usize = 0;
    while i < jobs.len()
        invariant
            i <= jobs@.len(),
            forall|k: int|
                0 <= k < r@.len() ==> #[trigger] r@[k] < i && is_due(
                    jobs@[r@[k] as int],
                    *at,
                    fired@,
                ),
            forall|j: int|
                0 <= j < i && is_due(#[trigger] jobs@[j], *at, fired@) ==> exists|k: int|
                    0 <= k < r@.len() && #[trigger] r@[k] == j,
            forall|a: int, b: int| 0 <= a < b < r@.len() ==> #[trigger] r@[a] < #[trigger] r@[b],
        decreases jobs@.len() - i,
    {
        let ghost before = r@;
        if cron_matches(jobs[i].cron.as_str(), at) {
            let ran: bool = match fired.get(jobs[i].name.as_str()) {
                Some(key) => same(key.as_str(), at.key.as_str()),
                None => false,
            };
            if !ran {
                r.push(i);
                proof {
                    assert(r@[r@.len() - 1] == i);
                    assert forall|j: int|
                        0 <= j < i + 1 && is_due(#[trigger] jobs@[j], *at, fired@) implies exists|
                        k: int,
                    |
                        0 <= k < r@.len() && #[trigger] r@[k] == j by {
                        if j < i {
                            let k = choose|k: int|
                                0 <= k < before.len() && #[trigger] before[k] == j;
                            assert(r@[k] == j);
                        }
                    }
                }
            }
        }
        i += 1;
    }
    r
}

/// A job that ran in this minute is not due again in it.
pub proof fn a_job_runs_once_a_minute(job: Job, at: Moment, fired: Map<Seq<char>, String>, key: String)
    requires
        key@ == at.key@,
    ensures
        !is_due(job, at, fired.insert(job.name@, key)),
{
}

// ---- where jobs come from --------------------------------------------------

pub open spec fn skill_job_view(name: Seq<char>, description: Seq<char>, cron: Seq<char>) -> JobV {
    JobV {
        name,
        cron,
        prompt: "按技能 '"@ + name + "' 的做法执行一次："@ + description,
    }
}

/// The job that a skill with a schedule declares.
pub fn skill_job(name: &str, description: &str, cron: &str) -> (r: Job)
    ensures
        r@ == skill_job_view(name@, description@, cron@),
{
    let mut prompt = "按技能 '".to_owned();
    prompt.append(name);
    prompt.append("' 的做法执行一次：");
    prompt.append(description);
    Job { name: name.to_owned(), cron: cron.to_owned(), prompt }
}

pub open spec fn job_of(
    name: Option<Seq<char>>,
    cron: Option<Seq<char>>,
    prompt: Option<Seq<char>>,
) -> Option<JobV> {
    match (name, cron, prompt) {
        (Some(name), Some(cron), Some(prompt)) => Some(JobV { name, cron, prompt }),
        _ => None,
    }
}

/// A declaration needs all of its three parts.
pub fn job_of_fields(name: Option<String>, cron: Option<String>, prompt: Option<String>) -> (r:
    Option<Job>)
    ensures
        ({
            let want = job_of(
                match name {
                    Some(x) => Some(x@),
                    None => None,
                },
                match cron {
                    Some(x) => Some(x@),
                    None => None,
                },
                match prompt {
                    Some(x) => Some(x@),
                    None => None,
                },
            );
            match r {
                Some(j) => want == Some(j@),
                None => want is None,
            }
        }),
{
    match (name, cron, prompt) {
        (Some(name), Some(cron), Some(prompt)) => Some(Job { name, cron, prompt }),
        _ => None,
    }
}

pub open spec fn listed_job(text: Seq<char>, k: nat) -> Option<JobV> {
    job_of(
        json_text_at(text, place_of("/jobs"@, k, "name"@)),
        json_text_at(text, place_of("/jobs"@, k, "cron"@)),
        json_text_at(text, place_of("/jobs"@, k, "prompt"@)),
    )
}

/// The jobs among the first `k` entries of the list.
pub open spec fn listed_jobs(text: Seq<char>, k: nat) -> Seq<JobV>
    decreases k,
{
    if k == 0 {
        Seq::empty()
    } else {
        let before = listed_jobs(text, (k - 1) as nat);
        match listed_job(text, (k - 1) as nat) {
            Some(j) => before.push(j),
            None => before,
        }
    }
}

/// The jobs that a schedule file lists, and how many entries were unusable. A
/// broken entry does not spoil the others.
pub fn jobs_from_json(text: &str) -> (r: Result<(Vec<Job>, usize), String>)
    ensures
        match r {
            Err(e) => json_error(text@) == Some(e@),
            Ok((jobs, skipped)) => {
                let n = list_len(json_count_at(text@, "/jobs"@));
                &&& json_error(text@) is None
                &&& job_views(jobs@) == listed_jobs(text@, n)
                &&& skipped + jobs@.len() == n
            },
        },
{
    match check_json(text) {
        Err(e) => {
            return Err(e);
        },
        Ok(_) => {},
    }
    let n: usize = match count_at(text, "/jobs") {
        Some(n) => n,
        None => 0,
    };
    let mut jobs: Vec<Job> = Vec::new();
    let mut skipped: usize = 0;
    let mut k: usize = 0;
    assert(job_views(jobs@) =~= Seq::<JobV>::empty());
    while k < n
        invariant
            k <= n,
            job_views(jobs@) == listed_jobs(text@, k as nat),
            skipped + jobs@.len() == k,
        decreases n - k,
    {
        let ghost before = job_views(jobs@);
        let name_at = place("/jobs", k, "name");
        let cron_at = place("/jobs", k, "cron");
        let prompt_at = place("/jobs", k, "prompt");
        let found = job_of_fields(
            text_at(text, name_at.as_str()),
            text_at(text, cron_at.as_str()),
            text_at(text, prompt_at.as_str()),
        );
        match found {
            Some(j) => {
                jobs.push(j);
                assert(job_views(jobs@) =~= before.push(j@));
            },
            None => {
                skipped += 1;
            },
        }
        k += 1;
    }
    Ok((jobs, skipped))
}

// ---- running a job ---------------------------------------------------------

/// Each job has a session of its own.
pub fn session_of(job: &Job) -> (r: String)
    ensures
        r@ == "schedule:"@ + job.name@,
{
    let mut t = "schedule:".to_owned();
    t.append(job.name.as_str());
    t
}

/// The file for a job's answer; `stamp` is the minute, such as `20260921-0900`.
pub fn outbox_name(job: &Job, stamp: &str) -> (r: String)
    ensures
        r@ == "schedule-"@ + job.name@ + "-"@ + stamp@ + ".md"@,
{
    let mut t = "schedule-".to_owned();
    t.append(job.name.as_str());
    t.append("-");
    t.append(stamp);
    t.append(".md");
    t
}

pub open spec fn note_text(job: JobV, at: Seq<char>, reply: Seq<char>) -> Seq<char> {
    "# "@ + job.name + "\n\n_由 joy schedule 在 "@ + at + " 按 cron '"@ + job.cron
        + "' 触发_\n\n## 请求\n\n"@ + job.prompt + "\n\n## 回答\n\n"@ + reply + "\n"@
}

/// What is written down of a run.
pub fn outbox_note(job: &Job, at: &str, reply: &str) -> (r: String)
    ensures
        r@ == note_text(job@, at@, reply@),
{
    let mut t = "# ".to_owned();
    t.append(job.name.as_str());
    t.append("\n\n_由 joy schedule 在 ");
    t.append(at);
    t.append(" 按 cron '");
    t.append(job.cron.as_str());
    t.append("' 触发_\n\n## 请求\n\n");
    t.append(job.prompt.as_str());
    t.append("\n\n## 回答\n\n");
    t.append(reply);
    t.append("\n");
    t
}

// ---- what a time means -----------------------------------------------------

/// `*/n` holds at every multiple of `n`, zero among them, and nowhere else; `*/0`
/// never holds.
pub proof fn a_step_holds_at_its_multiples(n: u32, k: int, value: u32, min: u32, max: u32)
    ensures
        n > 0 && value == k * n ==> part_hits("*/"@ + decimal(n as nat), value, min, max),
        n > 0 && k * n < value < (k + 1) * n ==> !part_hits(
            "*/"@ + decimal(n as nat),
            value,
            min,
            max,
        ),
        n > 0 ==> part_hits("*/"@ + decimal(n as nat), 0, min, max),
        n == 0 ==> !part_hits("*/"@ + decimal(n as nat), value, min, max),
{
    let d = decimal(n as nat);
    let p = "*/"@ + d;
    reveal_strlit("*/");
    a_number_holds_digits(n as nat, '-');
    assert(!blank(d[d.len() - 1]));
    assert(p[0] == '*' && p.last() == d[d.len() - 1]);
    a_tight_text_is_left_alone(p);
    assert(p.subrange(0, 2) =~= "*/"@);
    assert(p.subrange(2, p.len() as int) =~= d);
    a_number_reads_back(n as nat, u32::MAX as int);
    let v = value as int;
    let m = n as int;
    if n > 0 && v == k * m {
        assert(v % m == 0) by (nonlinear_arith)
            requires
                m > 0,
                v == k * m,
        ;
    }
    if n > 0 && k * m < v < (k + 1) * m {
        assert(v % m != 0) by (nonlinear_arith)
            requires
                m > 0,
                k * m < v < (k + 1) * m,
        ;
    }
}

/// A number holds at itself and nowhere else; among weekdays, seven holds where
/// zero does.
pub proof fn a_number_holds_at_itself(n: u32, value: u32, min: u32, max: u32)
    ensures
        !(min == 0 && max == 6) || n != 7 ==> part_hits(decimal(n as nat), value, min, max) == (value
            == n),
        part_hits(decimal(7), value, 0, 6) == part_hits(decimal(0), value, 0, 6),
{
    lemma_number_part(n, value, min, max);
    lemma_number_part(7, value, 0, 6);
    lemma_number_part(0, value, 0, 6);
}

proof fn lemma_number_part(n: u32, value: u32, min: u32, max: u32)
    ensures
        part_hits(decimal(n as nat), value, min, max) == (value == if min == 0 && max == 6 && n == 7 {
            0
        } else {
            n as int
        }),
{
    let d = decimal(n as nat);
    reveal_strlit("*/");
    a_number_holds_digits(n as nat, '-');
    a_number_holds_digits(n as nat, '*');
    assert(!begins(d, "*/"@)) by {
        if begins(d, "*/"@) {
            assert(d.subrange(0, 2)[0] == d[0]);
            assert(d[0] == '*');
        }
    }
    lemma_find_char(d, '-', 0);
    let i = find_char(d, '-', 0);
    if i < d.len() {
        assert(d[i] == '-');
    }
    a_number_reads_back(n as nat, u32::MAX as int);
}

/// `a-b` holds from `a` to `b`, both among it. Among weekdays this is so where
/// neither is seven.
pub proof fn a_span_holds_from_end_to_end(a: u32, b: u32, value: u32, min: u32, max: u32)
    requires
        !(min == 0 && max == 6) || (a < 7 && b < 7),
    ensures
        part_hits(decimal(a as nat) + seq!['-'] + decimal(b as nat), value, min, max) == (a <= value
            <= b),
{
    let x = decimal(a as nat);
    let y = decimal(b as nat);
    let p = x + seq!['-'] + y;
    reveal_strlit("*/");
    a_number_holds_digits(a as nat, '-');
    a_number_holds_digits(b as nat, '-');
    a_number_holds_digits(a as nat, '*');
    assert(!blank(x[0]) && !blank(y[y.len() - 1]));
    assert(p[0] == x[0] && p.last() == y[y.len() - 1]);
    a_tight_text_is_left_alone(p);
    assert(!begins(p, "*/"@)) by {
        if begins(p, "*/"@) {
            assert(p.subrange(0, 2)[0] == p[0]);
            assert(x[0] == '*');
        }
    }
    lemma_find_char(p, '-', 0);
    let i = find_char(p, '-', 0);
    assert(p[x.len() as int] == '-');
    assert(i == x.len()) by {
        if i < x.len() {
            assert(p[i] == x[i]);
        }
    }
    assert(p.subrange(0, i) =~= x);
    assert(p.subrange(i + 1, p.len() as int) =~= y);
    a_number_reads_back(a as nat, u32::MAX as int);
    a_number_reads_back(b as nat, u32::MAX as int);
}

/// Alternatives add up: a list holds where its first part does, or where the rest
/// of the list does.
pub proof fn a_list_holds_where_a_part_does(
    part: Seq<char>,
    rest: Seq<char>,
    value: u32,
    min: u32,
    max: u32,
)
    requires
        !part.contains(','),
        part != "*"@,
        rest != "*"@,
    ensures
        field_hits(part, value, min, max) == part_hits(part, value, min, max),
        field_hits(part + seq![','] + rest, value, min, max) == (field_hits(part, value, min, max)
            || field_hits(rest, value, min, max)),
{
    a_field_ends_at_its_mark(part, ',', rest);
    let s = part + seq![','] + rest;
    assert(s != "*"@) by {
        reveal_strlit("*");
        if s == "*"@ {
            assert(s[part.len() as int] == ',');
        }
    }
    assert(fields(part, ',')[0] == part);
    let all = fields(s, ',');
    let more = fields(rest, ',');
    assert(all[0] == part);
    if field_hits(rest, value, min, max) {
        let i = choose|i: int|
            0 <= i < more.len() && part_hits(#[trigger] more[i], value, min, max);
        assert(all[i + 1] == more[i]);
    }
    if field_hits(s, value, min, max) {
        let i = choose|i: int| 0 <= i < all.len() && part_hits(#[trigger] all[i], value, min, max);
        if i > 0 {
            assert(more[i - 1] == all[i]);
        }
    }
}

/// Five numbers hold in the one minute that they name: minute, hour, day, month
/// and weekday, in this order.
pub proof fn five_numbers_name_a_minute(minute: u32, hour: u32, day: u32, month: u32, weekday: u32, at: Moment)
    requires
        weekday < 7,
    ensures
        cron_hits(
            joined(
                seq![
                    decimal(minute as nat),
                    decimal(hour as nat),
                    decimal(day as nat),
                    decimal(month as nat),
                    decimal(weekday as nat),
                ],
                seq![' '],
            ),
            at,
        ) == (at.minute == minute && at.hour == hour && at.day == day && at.month == month
            && at.weekday == weekday),
{
    let all = seq![
        decimal(minute as nat),
        decimal(hour as nat),
        decimal(day as nat),
        decimal(month as nat),
        decimal(weekday as nat),
    ];
    lemma_number_field(minute, at.minute, 0, 59);
    lemma_number_field(hour, at.hour, 0, 23);
    lemma_number_field(day, at.day, 1, 31);
    lemma_number_field(month, at.month, 1, 12);
    lemma_number_field(weekday, at.weekday, 0, 6);
    spaced_words_read_back(all);
}

proof fn lemma_number_field(n: u32, value: u32, min: u32, max: u32)
    requires
        !(min == 0 && max == 6) || n < 7,
    ensures
        field_hits(decimal(n as nat), value, min, max) == (value == n),
        decimal(n as nat).len() > 0,
        no_blanks(decimal(n as nat)),
{
    let d = decimal(n as nat);
    a_number_holds_digits(n as nat, ',');
    a_number_holds_digits(n as nat, '*');
    assert(d != "*"@) by {
        reveal_strlit("*");
        if d == "*"@ {
            assert(d[0] == '*');
        }
    }
    a_field_ends_at_its_mark(d, ',', Seq::empty());
    lemma_number_part(n, value, min, max);
    assert(fields(d, ',')[0] == d);
}

/// A star leaves its part of the minute open.
pub proof fn a_star_leaves_its_field_open(cron: Seq<char>, at: Moment, other: Moment, i: int)
    requires
        word_views(cron).len() == 5,
        0 <= i < 5,
        word_views(cron)[i] == "*"@,
        i != 0 ==> at.minute == other.minute,
        i != 1 ==> at.hour == other.hour,
        i != 2 ==> at.day == other.day,
        i != 3 ==> at.month == other.month,
        i != 4 ==> at.weekday == other.weekday,
    ensures
        cron_hits(cron, at) == cron_hits(cron, other),
{
}

/// A job is due in every minute that its time names, but for the one in which it
/// ran last; what other jobs did has no part in it.
pub proof fn a_job_waits_for_its_own_run_only(
    job: Job,
    at: Moment,
    fired: Map<Seq<char>, String>,
    other: Seq<char>,
    key: String,
)
    ensures
        cron_hits(job.cron@, at) && !fired.contains_key(job.name@) ==> is_due(job, at, fired),
        cron_hits(job.cron@, at) && key@ != at.key@ ==> is_due(
            job,
            at,
            fired.insert(job.name@, key),
        ),
        !cron_hits(job.cron@, at) ==> !is_due(job, at, fired),
        other != job.name@ ==> is_due(job, at, fired.insert(other, key)) == is_due(job, at, fired),
{
}

/// A job that a skill declares runs under the skill's name and at its times, and
/// says both what the skill is called and what it is for.
pub proof fn a_skill_job_speaks_of_its_skill(
    name: Seq<char>,
    description: Seq<char>,
    cron: Seq<char>,
)
    ensures
        ({
            let job = skill_job_view(name, description, cron);
            &&& job.name == name
            &&& job.cron == cron
            &&& occurs(job.prompt, name)
            &&& finishes(job.prompt, description)
        }),
{
    let prompt = skill_job_view(name, description, cron).prompt;
    let a = "按技能 '"@;
    let b = "' 的做法执行一次："@;
    lemma_occurs(a, name, b + description);
    assert(prompt =~= a + name + (b + description));
    lemma_occurs(a + name + b, description, Seq::empty());
    assert(prompt =~= (a + name + b) + description + Seq::<char>::empty());
}

/// Every entry of a schedule with its three parts is a job, in the order of the
/// list; one that lacks a part is left out.
pub proof fn every_whole_entry_is_a_job(text: Seq<char>, k: nat, i: nat)
    requires
        i < k,
    ensures
        ({
            let at = "/jobs/"@ + decimal(i);
            let name = json_text_at(text, at + "/name"@);
            let cron = json_text_at(text, at + "/cron"@);
            let prompt = json_text_at(text, at + "/prompt"@);
            let before = listed_jobs(text, i);
            let jobs = listed_jobs(text, k);
            &&& before.is_prefix_of(jobs)
            &&& name is Some && cron is Some && prompt is Some ==> before.push(
                (JobV { name: name->0, cron: cron->0, prompt: prompt->0 }),
            ).is_prefix_of(jobs)
            &&& name is None || cron is None || prompt is None ==> listed_jobs(text, i + 1) == before
        }),
{
    reveal_strlit("/jobs/");
    reveal_strlit("/jobs");
    reveal_strlit("/");
    reveal_strlit("/name");
    reveal_strlit("name");
    reveal_strlit("/cron");
    reveal_strlit("cron");
    reveal_strlit("/prompt");
    reveal_strlit("prompt");
    let at = "/jobs/"@ + decimal(i);
    assert(place_of("/jobs"@, i, "name"@) =~= at + "/name"@);
    assert(place_of("/jobs"@, i, "cron"@) =~= at + "/cron"@);
    assert(place_of("/jobs"@, i, "prompt"@) =~= at + "/prompt"@);
    let before = listed_jobs(text, i);
    let now = listed_jobs(text, i + 1);
    lemma_jobs_grow(text, i + 1, k);
    assert(now.take(before.len() as int) =~= before);
    assert(listed_jobs(text, k).take(before.len() as int) =~= before);
}

proof fn lemma_jobs_grow(text: Seq<char>, i: nat, k: nat)
    requires
        i <= k,
    ensures
        listed_jobs(text, i).len() <= listed_jobs(text, k).len(),
        listed_jobs(text, k).take(listed_jobs(text, i).len() as int) == listed_jobs(text, i),
    decreases k,
{
    if k == i {
        assert(listed_jobs(text, k).take(listed_jobs(text, k).len() as int) =~= listed_jobs(text, k));
    } else {
        lemma_jobs_grow(text, i, (k - 1) as nat);
        let n = listed_jobs(text, i).len() as int;
        assert(listed_jobs(text, k).take(n) =~= listed_jobs(text, (k - 1) as nat).take(n));
    }
}

/// A note on a run says which job it was, when and by which time it ran, what was
/// asked, and, under it, what was answered.
pub proof fn a_note_tells_the_run(job: JobV, at: Seq<char>, reply: Seq<char>)
    ensures
        begins(note_text(job, at, reply), "# "@ + job.name),
        occurs(note_text(job, at, reply), at),
        occurs(note_text(job, at, reply), job.cron),
        occurs(note_text(job, at, reply), job.prompt),
        finishes(note_text(job, at, reply), reply + "\n"@),
{
    let all = note_text(job, at, reply);
    let a = "# "@ + job.name;
    let b = a + "\n\n_由 joy schedule 在 "@;
    let c = " 按 cron '"@;
    let d = "' 触发_\n\n## 请求\n\n"@;
    let e = "\n\n## 回答\n\n"@;
    let end = reply + "\n"@;
    lemma_occurs(Seq::empty(), a, "\n\n_由 joy schedule 在 "@ + at + c + job.cron + d + job.prompt + e + end);
    assert(all =~= Seq::<char>::empty() + a + ("\n\n_由 joy schedule 在 "@ + at + c + job.cron + d
        + job.prompt + e + end));
    lemma_occurs(b, at, c + job.cron + d + job.prompt + e + end);
    assert(all =~= b + at + (c + job.cron + d + job.prompt + e + end));
    lemma_occurs(b + at + c, job.cron, d + job.prompt + e + end);
    assert(all =~= (b + at + c) + job.cron + (d + job.prompt + e + end));
    lemma_occurs(b + at + c + job.cron + d, job.prompt, e + end);
    assert(all =~= (b + at + c + job.cron + d) + job.prompt + (e + end));
    lemma_occurs(b + at + c + job.cron + d + job.prompt + e, end, Seq::empty());
    assert(all =~= (b + at + c + job.cron + d + job.prompt + e) + end + Seq::<char>::empty());
}

} // verus!
