//! Keeping skills up to date with an index: what is newer, what may be put in
//! place, and what became of it.

use vstd::prelude::*;

use crate::config::{below, join_path};
use crate::json::{
    check_json, count_at, json_count_at, json_error, json_text_at, json_written_at, place, place_of,
    text_at, written_at,
};
use crate::skills::{
    install_from_text, is_slug, parse_skill_text, skill_dir, skill_file, skill_told, slug,
};
use crate::text::{
    a_field_ends_at_its_mark, a_number_holds_digits, a_number_reads_back, decimal, fields,
    finishes, lemma_occurs, lemma_occurs_on, lemma_regroup, occurs, opt_text, parse_unsigned,
    parsed_unsigned, push_decimal, same, split, trim, trimmed, views,
};

verus! {

/// What an index offers: a skill, its version, and where to get it.
#[derive(Debug, Clone, PartialEq, Eq)]
pub struct IndexEntry {
    pub name: String,
    pub version: String,
    pub url: String,
}

#[verifier::ext_equal]
pub struct EntryV {
    pub name: Seq<char>,
    pub version: Seq<char>,
    pub url: Seq<char>,
}

impl View for IndexEntry {
    type V = EntryV;

    open spec fn view(&self) -> EntryV {
        EntryV { name: self.name@, version: self.version@, url: self.url@ }
    }
}

pub open spec fn entry_views(entries: Seq<IndexEntry>) -> Seq<EntryV> {
    entries.map_values(|e: IndexEntry| e@)
}

// ---- versions --------------------------------------------------------------

/// The numbers between the first `k` dots; `None` where one is no number.
pub open spec fn numbers_among(parts: Seq<Seq<char>>, k: int) -> Option<Seq<int>>
    decreases k,
{
    if k <= 0 {
        Some(Seq::empty())
    } else {
        match (
            numbers_among(parts, k - 1),
            parsed_unsigned(trimmed(parts[k - 1]), u32::MAX as int),
        ) {
            (Some(before), Some(n)) => Some(before.push(n)),
            _ => None,
        }
    }
}

/// A version as numbers.
pub open spec fn numbers(version: Seq<char>) -> Option<Seq<int>> {
    numbers_among(fields(version, '.'), fields(version, '.').len() as int)
}

pub open spec fn number_views(v: Seq<u32>) -> Seq<int> {
    v.map_values(|n: u32| n as int)
}

fn numeric(version: &str) -> (r: Option<Vec<u32>>)
    ensures
        match r {
            Some(v) => numbers(version@) == Some(number_views(v@)),
            None => numbers(version@) is None,
        },
{
    let parts = split(version, '.');
    let n: usize = parts.len();
    let ghost all = fields(version@, '.');
    let mut r: Vec<u32> = Vec::new();
    let mut k: usize = 0;
    assert(number_views(r@) =~= Seq::<int>::empty());
    assert(all.len() == n);
    while k < n
        invariant
            k <= n,
            n == parts@.len(),
            n == all.len(),
            all == fields(version@, '.'),
            views(parts@) == all,
            numbers_among(all, k as int) == Some(number_views(r@)),
        decreases n - k,
    {
        let ghost before = number_views(r@);
        let part = trim(parts[k].as_str());
        assert(views(parts@)[k as int] == parts@[k as int]@);
        match parse_unsigned(part.as_str(), 4294967295) {
            Some(x) => {
                r.push(x as u32);
                assert(number_views(r@) =~= before.push(x as int));
            },
            None => {
                proof {
                    lemma_no_number(all, k + 1, n as int);
                }
                return None;
            },
        }
        k += 1;
    }
    Some(r)
}

proof fn lemma_no_number(parts: Seq<Seq<char>>, k: int, n: int)
    requires
        0 <= k <= n,
        numbers_among(parts, k) is None,
    ensures
        numbers_among(parts, n) is None,
    decreases n - k,
{
    if k < n {
        lemma_no_number(parts, k + 1, n);
    }
}

/// Whether `a` stands before `b`, from place `i` on: by the first number that
/// differs, or as the shorter of the two.
pub open spec fn older_from(a: Seq<int>, b: Seq<int>, i: int) -> bool
    decreases b.len() - i,
{
    if i >= b.len() {
        false
    } else if i >= a.len() {
        true
    } else if a[i] != b[i] {
        a[i] < b[i]
    } else {
        older_from(a, b, i + 1)
    }
}

fn is_older(a: &Vec<u32>, b: &Vec<u32>) -> (r: bool)
    ensures
        r == older_from(number_views(a@), number_views(b@), 0),
{
    let ghost x = number_views(a@);
    let ghost y = number_views(b@);
    let mut i: usize = 0;
    while i < b.len()
        invariant
            i <= b@.len(),
            i <= a@.len(),
            x == number_views(a@),
            y == number_views(b@),
            older_from(x, y, 0) == older_from(x, y, i as int),
        decreases b@.len() - i,
    {
        if i >= a.len() {
            return true;
        }
        assert(x[i as int] == a@[i as int] && y[i as int] == b@[i as int]);
        if a[i] != b[i] {
            return a[i] < b[i];
        }
        i += 1;
    }
    false
}

/// Whether what is offered takes the place of what is installed.
pub open spec fn updates(installed: Option<Seq<char>>, offered: Seq<char>) -> bool {
    match installed {
        None => true,
        Some(v) => trimmed(v) != trimmed(offered) && match (
            numbers(trimmed(v)),
            numbers(trimmed(offered)),
        ) {
            (Some(a), Some(b)) => older_from(a, b, 0),
            _ => false,
        },
    }
}

pub fn needs_update(installed: Option<&str>, offered: &str) -> (r: bool)
    ensures
        r == updates(
            match installed {
                Some(v) => Some(v@),
                None => None,
            },
            offered@,
        ),
{
    let mine = match installed {
        Some(v) => trim(v),
        None => {
            return true;
        },
    };
    let theirs = trim(offered);
    if same(mine.as_str(), theirs.as_str()) {
        return false;
    }
    match (numeric(mine.as_str()), numeric(theirs.as_str())) {
        (Some(a), Some(b)) => is_older(&a, &b),
        _ => false,
    }
}

proof fn lemma_older_one_way(a: Seq<int>, b: Seq<int>, i: int)
    requires
        0 <= i,
        older_from(a, b, i),
    ensures
        !older_from(b, a, i),
    decreases b.len() - i,
{
    if i < a.len() && i < b.len() && a[i] == b[i] {
        lemma_older_one_way(a, b, i + 1);
    }
}

proof fn lemma_older_goes_on(a: Seq<int>, b: Seq<int>, c: Seq<int>, i: int)
    requires
        0 <= i,
        older_from(a, b, i),
        older_from(b, c, i),
    ensures
        older_from(a, c, i),
    decreases c.len() - i,
{
    if i < a.len() && i < b.len() && i < c.len() && a[i] == b[i] && b[i] == c[i] {
        lemma_older_goes_on(a, b, c, i + 1);
    }
}

/// No update goes back: where one version takes the place of another, the other
/// does not take its place; and where a third takes the place of the second, it
/// takes the place of the first.
pub proof fn an_update_never_downgrades(a: Seq<char>, b: Seq<char>, c: Seq<char>)
    requires
        updates(Some(a), b),
    ensures
        !updates(Some(b), a),
        updates(Some(b), c) ==> updates(Some(a), c),
{
    let x = numbers(trimmed(a))->0;
    let y = numbers(trimmed(b))->0;
    lemma_older_one_way(x, y, 0);
    if updates(Some(b), c) {
        lemma_older_goes_on(x, y, numbers(trimmed(c))->0, 0);
    }
}

/// How a version is written does not matter beyond its blanks.
pub proof fn blanks_do_not_count(a: Seq<char>, b: Seq<char>)
    requires
        trimmed(a) == trimmed(b),
    ensures
        !updates(Some(a), b),
        same_version(a, b),
{
}

/// A version never takes its own place.
pub proof fn an_update_is_a_change(a: Seq<char>)
    ensures
        !updates(Some(a), a),
{
}

// ---- the index -------------------------------------------------------------

pub open spec fn entry_of(
    name: Option<Seq<char>>,
    version: Option<Seq<char>>,
    url: Option<Seq<char>>,
) -> Option<EntryV> {
    match (name, version, url) {
        (Some(name), Some(version), Some(url)) => Some(EntryV { name, version, url }),
        _ => None,
    }
}

pub open spec fn opt_entry(e: Option<IndexEntry>) -> Option<EntryV> {
    match e {
        Some(x) => Some(x@),
        None => None,
    }
}

/// An entry needs all of its fields.
pub fn entry_of_fields(name: Option<String>, version: Option<String>, url: Option<String>) -> (r:
    Option<IndexEntry>)
    ensures
        opt_entry(r) == entry_of(opt_text(name), opt_text(version), opt_text(url)),
{
    match (name, version, url) {
        (Some(name), Some(version), Some(url)) => Some(IndexEntry { name, version, url }),
        _ => None,
    }
}

pub open spec fn listed_entry(text: Seq<char>, k: nat) -> Option<EntryV> {
    entry_of(
        json_text_at(text, place_of("/skills"@, k, "name"@)),
        json_text_at(text, place_of("/skills"@, k, "version"@)),
        json_text_at(text, place_of("/skills"@, k, "url"@)),
    )
}

/// The place of element `k` of the list of skills.
pub open spec fn item_at(k: nat) -> Seq<char> {
    "/skills/"@ + decimal(k)
}

pub open spec fn or_nothing(t: Option<Seq<char>>) -> Seq<char> {
    match t {
        Some(s) => s,
        None => Seq::empty(),
    }
}

pub open spec fn skipped(text: Seq<char>, k: nat) -> Seq<char> {
    "跳过一条缺 name/version/url 的条目："@ + or_nothing(json_written_at(text, item_at(k)))
}

/// What the first `k` items come to: entries, and a word on each of the others.
pub open spec fn index_of(text: Seq<char>, k: nat) -> (Seq<EntryV>, Seq<Seq<char>>)
    decreases k,
{
    if k == 0 {
        (Seq::empty(), Seq::empty())
    } else {
        let before = index_of(text, (k - 1) as nat);
        match listed_entry(text, (k - 1) as nat) {
            Some(e) => (before.0.push(e), before.1),
            None => (before.0, before.1.push(skipped(text, (k - 1) as nat))),
        }
    }
}

fn skip_note(text: &str, k: usize) -> (r: String)
    ensures
        r@ == skipped(text@, k as nat),
{
    let mut at = "/skills/".to_owned();
    push_decimal(&mut at, k as u64);
    let mut note = "跳过一条缺 name/version/url 的条目：".to_owned();
    match written_at(text, at.as_str()) {
        Some(item) => {
            note.append(item.as_str());
        },
        None => {
            assert(note@ =~= note@ + Seq::empty());
        },
    }
    note
}

/// Reads an index. A broken entry does not spoil the others.
pub fn parse_index(text: &str) -> (r: Result<(Vec<IndexEntry>, Vec<String>), String>)
    ensures
        match r {
            Ok(both) => json_error(text@) is None && json_count_at(text@, "/skills"@) is Some && (
                entry_views(both.0@),
                views(both.1@),
            ) == index_of(text@, json_count_at(text@, "/skills"@)->0 as nat),
            Err(why) => match json_error(text@) {
                Some(e) => why@ == "索引不是合法 JSON："@ + e,
                None => json_count_at(text@, "/skills"@) is None && why@ == "索引里没有 skills 数组"@,
            },
        },
{
    match check_json(text) {
        Ok(_) => {},
        Err(e) => {
            let mut why = "索引不是合法 JSON：".to_owned();
            why.append(e.as_str());
            return Err(why);
        },
    }
    let n: usize = match count_at(text, "/skills") {
        Some(n) => n,
        None => {
            return Err("索引里没有 skills 数组".to_owned());
        },
    };
    let mut entries: Vec<IndexEntry> = Vec::new();
    let mut notes: Vec<String> = Vec::new();
    let mut k: usize = 0;
    assert(entry_views(entries@) =~= Seq::<EntryV>::empty());
    assert(views(notes@) =~= Seq::<Seq<char>>::empty());
    while k < n
        invariant
            k <= n,
            (entry_views(entries@), views(notes@)) == index_of(text@, k as nat),
        decreases n - k,
    {
        let ghost before = entry_views(entries@);
        let ghost said = views(notes@);
        let found = entry_of_fields(
            text_at(text, place("/skills", k, "name").as_str()),
            text_at(text, place("/skills", k, "version").as_str()),
            text_at(text, place("/skills", k, "url").as_str()),
        );
        match found {
            Some(e) => {
                entries.push(e);
                assert(entry_views(entries@) =~= before.push(e@));
            },
            None => {
                let note = skip_note(text, k);
                notes.push(note);
                assert(views(notes@) =~= said.push(note@));
            },
        }
        k += 1;
    }
    Ok((entries, notes))
}

// ---- putting a version in place --------------------------------------------

/// The steps that put a skill in place.
#[derive(Debug, Clone, PartialEq, Eq)]
pub enum Steps {
    /// There is none yet: make the directory and write the file.
    Fresh { dir: String, file: String },
    /// One is there: write the new one aside, keep a copy of the old one, then
    /// put the new one in its place.
    Replace { target: String, staging: String, backup: String, file: String },
}

pub open spec fn refused(name: Seq<char>, content: Seq<char>) -> Option<Seq<char>> {
    if !slug(name) {
        Some("技能名 '"@ + name + "' 不是合法 slug"@)
    } else {
        match skill_told(content) {
            None => Some(
                "内容不是一个合法的 SKILL.md（frontmatter 缺 name 或 description）"@,
            ),
            Some(skill) => if skill.name != name {
                Some(
                    "索引说它叫 '"@ + name + "'，文件里写的是 '"@ + skill.name
                        + "' —— 拒绝装一个名不对版的技能"@,
                )
            } else {
                None
            },
        }
    }
}

/// Whether a skill may be put in place under a name, and how. Everything is
/// judged before anything is written. `exists` says whether one of that name is
/// there; `stamp` is the time, for the copy.
pub fn install(home: &str, name: &str, content: &str, exists: bool, stamp: &str) -> (r: Result<
    Steps,
    String,
>)
    ensures
        match refused(name@, content@) {
            Some(why) => r matches Err(e) && e@ == why,
            None => if exists {
                r matches Ok(Steps::Replace { target, staging, backup, file }) && target@
                    == skill_dir(home@, name@) && staging@ == below(
                    below(below(home@, "skills"@), ".staging"@),
                    name@,
                ) && backup@ == below(
                    below(below(home@, "skills"@), ".backup"@),
                    name@ + "-"@ + stamp@,
                ) && file@ == skill_file(home@, name@)
            } else {
                r matches Ok(Steps::Fresh { dir, file }) && dir@ == skill_dir(home@, name@) && file@
                    == skill_file(home@, name@)
            },
        },
{
    if !is_slug(name) {
        let mut why = "技能名 '".to_owned();
        why.append(name);
        why.append("' 不是合法 slug");
        return Err(why);
    }
    let skill = match parse_skill_text(content) {
        Some(s) => s,
        None => {
            return Err("内容不是一个合法的 SKILL.md（frontmatter 缺 name 或 description）".to_owned());
        },
    };
    if !same(skill.name.as_str(), name) {
        let mut why = "索引说它叫 '".to_owned();
        why.append(name);
        why.append("'，文件里写的是 '");
        why.append(skill.name.as_str());
        why.append("' —— 拒绝装一个名不对版的技能");
        return Err(why);
    }
    if !exists {
        return match install_from_text(home, content, false) {
            Ok(p) => Ok(Steps::Fresh { dir: p.dir, file: p.file }),
            Err(why) => Err(why),
        };
    }
    let skills = join_path(home, "skills");
    let target = join_path(skills.as_str(), name);
    let file = join_path(target.as_str(), "SKILL.md");
    let staging = join_path(join_path(skills.as_str(), ".staging").as_str(), name);
    let mut kept = name.to_owned();
    kept.append("-");
    kept.append(stamp);
    let backup = join_path(join_path(skills.as_str(), ".backup").as_str(), kept.as_str());
    Ok(Steps::Replace { target, staging, backup, file })
}

/// The version of a skill that is installed; `text` is its file.
pub fn installed_version(text: &Option<String>) -> (r: Option<String>)
    ensures
        opt_text(r) == match opt_text(*text) {
            Some(t) => match skill_told(t) {
                Some(skill) => skill.version,
                None => None,
            },
            None => None,
        },
{
    match text {
        Some(t) => match parse_skill_text(t.as_str()) {
            Some(skill) => skill.version,
            None => None,
        },
        None => None,
    }
}

// ---- what became of it -----------------------------------------------------

#[derive(Debug, Clone, PartialEq, Eq)]
pub enum Outcome {
    Installed { name: String, from: Option<String>, to: String },
    UpToDate { name: String, version: String },
    /// What is installed is newer than what is offered.
    Ahead { name: String, installed: String, offered: String },
    Failed { name: String, why: String },
}

pub open spec fn outcome_text(o: Outcome) -> Seq<char> {
    match o {
        Outcome::Installed { name, from, to } => match from {
            Some(v) => "✓ "@ + name@ + "："@ + v@ + " → "@ + to@,
            None => "✓ "@ + name@ + "：装上 "@ + to@,
        },
        Outcome::UpToDate { name, version } => "· "@ + name@ + "：已是最新（"@ + version@ + "）"@,
        Outcome::Ahead { name, installed, offered } => "· "@ + name@ + "：本地 "@ + installed@
            + " 比索引里的 "@ + offered@ + " 新，没动"@,
        Outcome::Failed { name, why } => "✗ "@ + name@ + "："@ + why@,
    }
}

impl Outcome {
    /// One line for a person.
    pub fn line(&self) -> (r: String)
        ensures
            r@ == outcome_text(*self),
    {
        match self {
            Outcome::Installed { name, from, to } => {
                let mut t = "✓ ".to_owned();
                t.append(name.as_str());
                match from {
                    Some(v) => {
                        t.append("：");
                        t.append(v.as_str());
                        t.append(" → ");
                    },
                    None => {
                        t.append("：装上 ");
                    },
                }
                t.append(to.as_str());
                t
            },
            Outcome::UpToDate { name, version } => {
                let mut t = "· ".to_owned();
                t.append(name.as_str());
                t.append("：已是最新（");
                t.append(version.as_str());
                t.append("）");
                t
            },
            Outcome::Ahead { name, installed, offered } => {
                let mut t = "· ".to_owned();
                t.append(name.as_str());
                t.append("：本地 ");
                t.append(installed.as_str());
                t.append(" 比索引里的 ");
                t.append(offered.as_str());
                t.append(" 新，没动");
                t
            },
            Outcome::Failed { name, why } => {
                let mut t = "✗ ".to_owned();
                t.append(name.as_str());
                t.append("：");
                t.append(why.as_str());
                t
            },
        }
    }

    pub fn ok(&self) -> (r: bool)
        ensures
            r == !(self is Failed),
    {
        match self {
            Outcome::Failed { .. } => false,
            _ => true,
        }
    }
}

/// Whether two texts name one version: they are the same but for blanks around
/// them, or they are the same numbers.
pub open spec fn same_version(a: Seq<char>, b: Seq<char>) -> bool {
    trimmed(a) == trimmed(b) || (numbers(trimmed(a)) is Some && numbers(trimmed(a)) == numbers(
        trimmed(b),
    ))
}

fn same_numbers(a: &Vec<u32>, b: &Vec<u32>) -> (r: bool)
    ensures
        r == (number_views(a@) == number_views(b@)),
{
    let ghost u = number_views(a@);
    let ghost v = number_views(b@);
    if a.len() != b.len() {
        assert(u.len() != v.len());
        return false;
    }
    let mut i: usize = 0;
    while i < a.len()
        invariant
            i <= a@.len() == b@.len(),
            u == number_views(a@),
            v == number_views(b@),
            forall|k: int| 0 <= k < i ==> u[k] == v[k],
        decreases a@.len() - i,
    {
        if a[i] != b[i] {
            assert(u[i as int] != v[i as int]);
            return false;
        }
        i += 1;
    }
    assert(u =~= v);
    true
}

fn is_same_version(a: &str, b: &str) -> (r: bool)
    ensures
        r == same_version(a@, b@),
{
    let x = trim(a);
    let y = trim(b);
    if same(x.as_str(), y.as_str()) {
        return true;
    }
    match (numeric(x.as_str()), numeric(y.as_str())) {
        (Some(p), Some(q)) => same_numbers(&p, &q),
        _ => false,
    }
}

/// What there is to do for an entry before anything is fetched: nothing, with
/// the outcome, or fetch it (`None`).
pub fn settle_entry(entry: &IndexEntry, installed: &Option<String>) -> (r: Option<Outcome>)
    ensures
        if updates(opt_text(*installed), entry.version@) {
            r is None
        } else {
            match opt_text(*installed) {
                Some(v) => if same_version(v, entry.version@) {
                    r matches Some(Outcome::UpToDate { name, version }) && name@ == entry.name@
                        && version@ == v
                } else {
                    r matches Some(Outcome::Ahead { name, installed, offered }) && name@
                        == entry.name@ && installed@ == v && offered@ == entry.version@
                },
                None => false,
            }
        },
{
    let mine = match installed {
        Some(v) => v,
        None => {
            return None;
        },
    };
    if needs_update(Some(mine.as_str()), entry.version.as_str()) {
        return None;
    }
    if is_same_version(mine.as_str(), entry.version.as_str()) {
        Some(Outcome::UpToDate { name: entry.name.clone(), version: mine.clone() })
    } else {
        Some(
            Outcome::Ahead {
                name: entry.name.clone(),
                installed: mine.clone(),
                offered: entry.version.clone(),
            },
        )
    }
}

/// An entry that could not be fetched.
pub fn fetch_failed(entry: &IndexEntry, why: &str) -> (r: Outcome)
    ensures
        r matches Outcome::Failed { name, why: w } && name@ == entry.name@ && w@ == "取回失败："@
            + why@,
{
    let mut text = "取回失败：".to_owned();
    text.append(why);
    Outcome::Failed { name: entry.name.clone(), why: text }
}

/// What putting an entry in place came to.
pub fn install_outcome(
    entry: &IndexEntry,
    installed: Option<String>,
    result: Result<(), String>,
) -> (r: Outcome)
    ensures
        match result {
            Ok(_) => r matches Outcome::Installed { name, from, to } && name@ == entry.name@ && from
                == installed && to@ == entry.version@,
            Err(e) => r matches Outcome::Failed { name, why } && name@ == entry.name@ && why@ == e@,
        },
{
    match result {
        Ok(_) => Outcome::Installed {
            name: entry.name.clone(),
            from: installed,
            to: entry.version.clone(),
        },
        Err(why) => Outcome::Failed { name: entry.name.clone(), why },
    }
}

/// How many of the first `k` failed.
pub open spec fn failures(outcomes: Seq<Outcome>, k: int) -> int
    decreases k,
{
    if k <= 0 {
        0
    } else {
        failures(outcomes, k - 1) + if outcomes[k - 1] is Failed {
            1int
        } else {
            0int
        }
    }
}

/// How many entries could not be brought up to date.
pub fn count_failures(outcomes: &Vec<Outcome>) -> (r: usize)
    ensures
        r == failures(outcomes@, outcomes@.len() as int),
{
    let mut r: usize = 0;
    let mut i: usize = 0;
    while i < outcomes.len()
        invariant
            i <= outcomes@.len(),
            r <= i,
            r == failures(outcomes@, i as int),
        decreases outcomes@.len() - i,
    {
        if !outcomes[i].ok() {
            r += 1;
        }
        i += 1;
    }
    r
}

// ---- what an index and an install promise ----------------------------------

/// The numbers of a version are its parts, read one by one; a part that is no number
/// leaves it without.
pub proof fn a_version_is_its_numbers(n: u32, rest: Seq<char>)
    ensures
        numbers(decimal(n as nat)) == Some(seq![n as int]),
        numbers(rest) is Some ==> numbers(decimal(n as nat) + seq!['.'] + rest) == Some(
            seq![n as int] + numbers(rest)->0,
        ),
        numbers(rest) is None ==> numbers(decimal(n as nat) + seq!['.'] + rest) is None,
{
    let d = decimal(n as nat);
    a_number_holds_digits(n as nat, '.');
    a_number_reads_back(n as nat, u32::MAX as int);
    a_field_ends_at_its_mark(d, '.', rest);
    reveal_with_fuel(numbers_among, 2);
    assert(numbers(d) == Some(seq![n as int])) by {
        assert(Seq::<int>::empty().push(n as int) =~= seq![n as int]);
    }
    let more = fields(rest, '.');
    lemma_numbers_join(d, n, more, more.len() as int);
    assert((seq![d] + more).len() == 1 + more.len());
}

proof fn lemma_numbers_join(d: Seq<char>, n: u32, b: Seq<Seq<char>>, k: int)
    requires
        0 <= k <= b.len(),
        parsed_unsigned(trimmed(d), u32::MAX as int) == Some(n as int),
    ensures
        numbers_among(b, k) is Some ==> numbers_among(seq![d] + b, k + 1) == Some(
            seq![n as int] + numbers_among(b, k)->0,
        ),
        numbers_among(b, k) is None ==> numbers_among(seq![d] + b, k + 1) is None,
    decreases k,
{
    let all = seq![d] + b;
    if k == 0 {
        reveal_with_fuel(numbers_among, 2);
        assert(all[0] == d);
        assert(numbers_among(all, 1) == Some(seq![n as int] + Seq::<int>::empty())) by {
            assert(Seq::<int>::empty().push(n as int) =~= seq![n as int] + Seq::<int>::empty());
        }
    } else {
        lemma_numbers_join(d, n, b, k - 1);
        assert(all[k] == b[k - 1]);
        if numbers_among(b, k) is Some {
            let before = numbers_among(b, k - 1)->0;
            let last = numbers_among(b, k)->0.last();
            assert((seq![n as int] + before).push(last) =~= seq![n as int] + before.push(last));
        }
    }
}

/// A version is older where its first differing number is smaller, or where it is
/// the other's front.
pub proof fn the_first_difference_decides(a: Seq<int>, b: Seq<int>, i: int, k: int)
    requires
        0 <= i <= k,
        k <= a.len(),
        k <= b.len(),
        forall|j: int| i <= j < k ==> a[j] == b[j],
    ensures
        k < a.len() && k < b.len() && a[k] < b[k] ==> older_from(a, b, i),
        k < a.len() && k < b.len() && a[k] > b[k] ==> !older_from(a, b, i),
        k == a.len() && k < b.len() ==> older_from(a, b, i),
        k == b.len() ==> !older_from(a, b, i),
    decreases k - i,
{
    if i < k {
        the_first_difference_decides(a, b, i + 1, k);
    }
}

/// A skill that is not there is installed; one that is there is replaced exactly by a
/// version that is newer number by number.
pub proof fn a_newer_version_is_an_update(v: Seq<char>, offered: Seq<char>)
    ensures
        updates(None, offered),
        trimmed(v) == trimmed(offered) ==> !updates(Some(v), offered),
        numbers(trimmed(v)) is None || numbers(trimmed(offered)) is None ==> !updates(
            Some(v),
            offered,
        ),
        trimmed(v) != trimmed(offered) && numbers(trimmed(v)) is Some && numbers(
            trimmed(offered),
        ) is Some && older_from(numbers(trimmed(v))->0, numbers(trimmed(offered))->0, 0) ==> updates(
            Some(v),
            offered,
        ),
{
}

/// Every entry with a name, a version and an address is in the index, in its order;
/// one that lacks a part is skipped, and the note shows it.
pub proof fn every_whole_entry_is_indexed(text: Seq<char>, k: nat)
    ensures
        ({
            let at = "/skills/"@ + decimal(k);
            let name = json_text_at(text, at + "/name"@);
            let version = json_text_at(text, at + "/version"@);
            let url = json_text_at(text, at + "/url"@);
            let before = index_of(text, k);
            let now = index_of(text, k + 1);
            &&& index_of(text, 0).0.len() == 0 && index_of(text, 0).1.len() == 0
            &&& name is Some && version is Some && url is Some ==> now.0 == before.0.push(
                (EntryV { name: name->0, version: version->0, url: url->0 }),
            ) && now.1 == before.1
            &&& name is None || version is None || url is None ==> now.0 == before.0 && now.1.len()
                == before.1.len() + 1 && (json_written_at(text, at) matches Some(w) ==> finishes(
                now.1.last(),
                w,
            ))
        }),
{
    reveal_strlit("/skills/");
    reveal_strlit("/skills");
    reveal_strlit("/");
    reveal_strlit("/name");
    reveal_strlit("name");
    reveal_strlit("/version");
    reveal_strlit("version");
    reveal_strlit("/url");
    reveal_strlit("url");
    let at = "/skills/"@ + decimal(k);
    assert(place_of("/skills"@, k, "name"@) =~= at + "/name"@);
    assert(place_of("/skills"@, k, "version"@) =~= at + "/version"@);
    assert(place_of("/skills"@, k, "url"@) =~= at + "/url"@);
    if json_written_at(text, at) is Some {
        let w = json_written_at(text, at)->0;
        let a = "跳过一条缺 name/version/url 的条目："@;
        lemma_occurs(a, w, Seq::empty());
        assert(a + w =~= a + w + Seq::<char>::empty());
    }
}

/// A skill is installed only under its own name, which must be a slug; a refusal
/// names what does not match.
pub proof fn only_the_right_skill_is_installed(name: Seq<char>, content: Seq<char>)
    ensures
        refused(name, content) is None <==> slug(name) && skill_told(content) is Some && skill_told(
            content,
        )->0.name == name,
        refused(name, content) is Some && skill_told(content) is Some ==> occurs(
            refused(name, content)->0,
            name,
        ),
        slug(name) && skill_told(content) is Some && skill_told(content)->0.name != name ==> occurs(
            refused(name, content)->0,
            skill_told(content)->0.name,
        ),
{
    lemma_occurs("技能名 '"@, name, "' 不是合法 slug"@);
    if skill_told(content) is Some {
        let other = skill_told(content)->0.name;
        let a = "索引说它叫 '"@;
        let b = "'，文件里写的是 '"@;
        let c = "' —— 拒绝装一个名不对版的技能"@;
        let all = a + name + b + other + c;
        lemma_occurs(a, name, b + other + c);
        assert(all =~= a + name + (b + other + c));
        lemma_occurs(a + name + b, other, c);
    }
}

/// What became of a skill is told with its name and with its versions, or with why it
/// failed.
pub proof fn an_outcome_is_told(name: String, one: String, two: String)
    ensures
        ({
            let t = outcome_text(Outcome::Installed { name, from: Some(one), to: two });
            occurs(t, name@) && occurs(t, one@ + " → "@ + two@)
        }),
        ({
            let t = outcome_text(Outcome::Installed { name, from: None, to: two });
            occurs(t, name@) && finishes(t, two@)
        }),
        ({
            let t = outcome_text(Outcome::UpToDate { name, version: one });
            occurs(t, name@) && occurs(t, one@)
        }),
        ({
            let t = outcome_text(Outcome::Ahead { name, installed: one, offered: two });
            occurs(t, name@) && occurs(t, one@ + " 比索引里的 "@ + two@)
        }),
        ({
            let t = outcome_text(Outcome::Failed { name, why: one });
            occurs(t, name@) && finishes(t, one@)
        }),
{
    let n = name@;
    lemma_versions("✓ "@, n, "："@, one@, " → "@, two@);
    lemma_told("✓ "@, n, "：装上 "@, two@);
    lemma_told("· "@, n, "：已是最新（"@, one@);
    lemma_occurs_on("· "@ + n + "：已是最新（"@ + one@, n, "）"@);
    lemma_occurs_on("· "@ + n + "：已是最新（"@ + one@, one@, "）"@);
    let ahead = "· "@ + n + "：本地 "@ + one@ + " 比索引里的 "@ + two@;
    lemma_versions("· "@, n, "：本地 "@, one@, " 比索引里的 "@, two@);
    lemma_occurs_on(ahead, n, " 新，没动"@);
    lemma_occurs_on(ahead, one@ + " 比索引里的 "@ + two@, " 新，没动"@);
    lemma_told("✗ "@, n, "："@, one@);
}

proof fn lemma_told(a: Seq<char>, name: Seq<char>, b: Seq<char>, what: Seq<char>)
    ensures
        occurs(a + name + b + what, name),
        occurs(a + name + b + what, what),
        finishes(a + name + b + what, what),
{
    lemma_occurs_on(a, name, name);
    lemma_occurs_on(a + name, name, b);
    lemma_occurs_on(a + name + b, name, what);
    lemma_occurs(a + name + b, what, Seq::empty());
    assert(a + name + b + what + Seq::<char>::empty() =~= a + name + b + what);
}

proof fn lemma_versions(
    a: Seq<char>,
    name: Seq<char>,
    b: Seq<char>,
    one: Seq<char>,
    c: Seq<char>,
    two: Seq<char>,
)
    ensures
        occurs(a + name + b + one + c + two, name),
        occurs(a + name + b + one + c + two, one + c + two),
{
    lemma_told(a, name, b, one + c + two);
    lemma_regroup(a + name + b, one, c, two);
}

/// Versions are the same where they read the same, or where their numbers do.
pub proof fn same_versions_read_the_same(a: Seq<char>, b: Seq<char>)
    ensures
        trimmed(a) == trimmed(b) ==> same_version(a, b),
        trimmed(a) != trimmed(b) && numbers(trimmed(a)) is Some && numbers(trimmed(b)) is Some ==> (
        same_version(a, b) <==> numbers(trimmed(a))->0 == numbers(trimmed(b))->0),
        same_version(a, b) == same_version(b, a),
{
}

/// Failures are counted one by one.
pub proof fn failures_are_counted(outcomes: Seq<Outcome>, next: Outcome)
    ensures
        failures(outcomes, 0) == 0,
        failures(outcomes.push(next), outcomes.len() as int + 1) == failures(
            outcomes,
            outcomes.len() as int,
        ) + if next is Failed {
            1int
        } else {
            0int
        },
{
    lemma_failures_front(outcomes, outcomes.push(next), outcomes.len() as int);
}

proof fn lemma_failures_front(a: Seq<Outcome>, b: Seq<Outcome>, k: int)
    requires
        0 <= k <= a.len() <= b.len(),
        forall|i: int| 0 <= i < a.len() ==> #[trigger] a[i] == b[i],
    ensures
        failures(a, k) == failures(b, k),
    decreases k,
{
    if k > 0 {
        lemma_failures_front(a, b, k - 1);
        assert(a[k - 1] == b[k - 1]);
    }
}

} // verus!
