//! The commands on skills: what they are asked for, and where skills come from
//! and go to.

use vstd::prelude::*;

use crate::config::{below, join_path};
use crate::skills::LoadedSkill;
use crate::text::{
    a_field_ends_at_its_mark, a_joined_text_holds_its_parts, a_replacement_takes_its_place, begins,
    chars_of, contains, ends_with, fields, finishes, is_among, join, joined, lemma_occurs,
    lemma_occurs_on, lemma_occurs_within, occurs, occurs_at, opt_text, piece, replace, replaced,
    same, split, starts_with, trim, trimmed, views,
};

verus! {

// ---- addresses -------------------------------------------------------------

pub open spec fn http(url: Seq<char>) -> bool {
    begins(url, "http://"@) || begins(url, "https://"@)
}

pub fn is_http(url: &str) -> (r: bool)
    ensures
        r == http(url@),
{
    starts_with(url, "http://") || starts_with(url, "https://")
}

pub open spec fn before_slashes(s: Seq<char>, j: int) -> int
    decreases j,
{
    if 0 < j <= s.len() && s[j - 1] == '/' {
        before_slashes(s, j - 1)
    } else {
        j
    }
}

/// The address of the text itself, where a page that shows it is named.
pub open spec fn raw_of(url: Seq<char>) -> Seq<char> {
    if occurs(url, "github.com"@) && occurs(url, "/blob/"@) {
        replaced(replaced(url, "github.com"@, "raw.githubusercontent.com"@), "/blob/"@, "/"@)
    } else if occurs(url, "gist.github.com"@) && !finishes(url, "/raw"@) {
        url.subrange(0, before_slashes(url, url.len() as int)) + "/raw"@
    } else {
        url
    }
}

pub fn raw_url(url: &str) -> (r: String)
    ensures
        r@ == raw_of(url@),
{
    if contains(url, "github.com") && contains(url, "/blob/") {
        proof {
            reveal_strlit("github.com");
            reveal_strlit("/blob/");
        }
        let host = replace(url, "github.com", "raw.githubusercontent.com");
        return replace(host.as_str(), "/blob/", "/");
    }
    if contains(url, "gist.github.com") && !ends_with(url, "/raw") {
        let v = chars_of(url);
        let n: usize = v.len();
        let mut j: usize = n;
        while j > 0 && v[j - 1] == '/'
            invariant
                j <= n,
                n == v@.len(),
                before_slashes(v@, n as int) == before_slashes(v@, j as int),
            decreases j,
        {
            j -= 1;
        }
        assert(before_slashes(v@, n as int) == j);
        let mut t = piece(&v, 0, j);
        t.append("/raw");
        return t;
    }
    url.to_owned()
}

// ---- giving skills away ----------------------------------------------------

/// What an export was asked for.
#[derive(Debug, Clone, PartialEq, Eq)]
pub struct ExportArgs {
    pub to: String,
    pub project: bool,
    pub force: bool,
    pub names: Vec<String>,
}

#[verifier::ext_equal]
pub struct ExportV {
    pub to: Seq<char>,
    pub project: bool,
    pub force: bool,
    pub names: Seq<Seq<char>>,
}

impl View for ExportArgs {
    type V = ExportV;

    open spec fn view(&self) -> ExportV {
        ExportV {
            to: self.to@,
            project: self.project,
            force: self.force,
            names: views(self.names@),
        }
    }
}

pub open spec fn trimmed_fields(list: Seq<char>) -> Seq<Seq<char>> {
    fields(list, ',').map_values(|f: Seq<char>| trimmed(f))
}

/// What the arguments from place `i` on add to what is known.
pub open spec fn export_from(args: Seq<Seq<char>>, known: ExportV, i: int) -> Result<
    ExportV,
    Seq<char>,
>
    decreases args.len() - i,
{
    if i < 0 || i >= args.len() {
        Ok(known)
    } else if args[i] == "--to"@ {
        if i + 1 < args.len() {
            export_from(args, ExportV { to: args[i + 1], ..known }, i + 2)
        } else {
            Err("--to 后面要跟目标"@)
        }
    } else if args[i] == "--project"@ {
        export_from(args, ExportV { project: true, ..known }, i + 1)
    } else if args[i] == "--force"@ {
        export_from(args, ExportV { force: true, ..known }, i + 1)
    } else if args[i] == "--names"@ {
        if i + 1 < args.len() {
            export_from(args, ExportV { names: trimmed_fields(args[i + 1]), ..known }, i + 2)
        } else {
            Err("--names 后面要跟逗号分隔的技能名"@)
        }
    } else {
        Err("不认识的参数 '"@ + args[i] + "'"@)
    }
}

/// What holds where no argument says otherwise; `fallback` is the usual target.
pub open spec fn no_export_args(fallback: Seq<char>) -> ExportV {
    ExportV { to: fallback, project: false, force: false, names: Seq::empty() }
}

pub open spec fn export_view(r: Result<ExportArgs, String>) -> Result<ExportV, Seq<char>> {
    match r {
        Ok(a) => Ok(a@),
        Err(e) => Err(e@),
    }
}

fn trim_fields(list: &str) -> (r: Vec<String>)
    ensures
        views(r@) == trimmed_fields(list@),
{
    let parts = split(list, ',');
    let ghost all = trimmed_fields(list@);
    let n: usize = parts.len();
    assert(views(parts@).len() == n);
    let mut r: Vec<String> = Vec::new();
    let mut i: usize = 0;
    assert(views(r@) =~= all.take(0));
    while i < n
        invariant
            i <= n,
            n == parts@.len(),
            n == all.len(),
            views(parts@) == fields(list@, ','),
            all == trimmed_fields(list@),
            views(r@) == all.take(i as int),
        decreases n - i,
    {
        let ghost before = views(r@);
        let part = trim(parts[i].as_str());
        assert(views(parts@)[i as int] == parts@[i as int]@);
        r.push(part);
        assert(views(r@) =~= before.push(part@));
        assert(all.take(i + 1) =~= before.push(part@));
        i += 1;
    }
    assert(all.take(n as int) =~= all);
    r
}

/// Reads the arguments of an export; `fallback` is the usual target.
pub fn parse_export(args: &Vec<String>, fallback: &str) -> (r: Result<ExportArgs, String>)
    ensures
        export_view(r) == export_from(views(args@), no_export_args(fallback@), 0),
{
    let ghost all = views(args@);
    let n: usize = args.len();
    assert(all.len() == n);
    let mut known = ExportArgs {
        to: fallback.to_owned(),
        project: false,
        force: false,
        names: Vec::new(),
    };
    assert(known@ =~= no_export_args(fallback@));
    let mut i: usize = 0;
    while i < n
        invariant
            i <= n,
            n == args@.len(),
            n == all.len(),
            all == views(args@),
            export_from(all, no_export_args(fallback@), 0) == export_from(all, known@, i as int),
        decreases n - i,
    {
        let ghost before = known@;
        let arg = args[i].as_str();
        assert(all[i as int] == arg@);
        if same(arg, "--to") {
            if i + 1 >= n {
                return Err("--to 后面要跟目标".to_owned());
            }
            assert(all[i + 1] == args@[i + 1]@);
            known.to = args[i + 1].clone();
            assert(known@ =~= (ExportV { to: all[i + 1], ..before }));
            i += 2;
        } else if same(arg, "--project") {
            known.project = true;
            assert(known@ =~= (ExportV { project: true, ..before }));
            i += 1;
        } else if same(arg, "--force") {
            known.force = true;
            assert(known@ =~= (ExportV { force: true, ..before }));
            i += 1;
        } else if same(arg, "--names") {
            if i + 1 >= n {
                return Err("--names 后面要跟逗号分隔的技能名".to_owned());
            }
            assert(all[i + 1] == args@[i + 1]@);
            known.names = trim_fields(args[i + 1].as_str());
            assert(known@ =~= (ExportV { names: trimmed_fields(all[i + 1]), ..before }));
            i += 2;
        } else {
            let mut why = "不认识的参数 '".to_owned();
            why.append(arg);
            why.append("'");
            return Err(why);
        }
    }
    Ok(known)
}

/// The directory of an agent's own below `base`.
pub open spec fn target_dir(base: Seq<char>, name: Seq<char>) -> Seq<char> {
    below(base, "."@ + name)
}

/// The directories that the first `k` targets stand for, or the first that
/// stands for none. Blank ones are passed over.
pub open spec fn targets_among(
    parts: Seq<Seq<char>>,
    base: Seq<char>,
    agents: Seq<Seq<char>>,
    k: int,
) -> Result<Seq<Seq<char>>, Seq<char>>
    decreases k,
{
    if k <= 0 {
        Ok(Seq::empty())
    } else {
        let t = trimmed(parts[k - 1]);
        match targets_among(parts, base, agents, k - 1) {
            Err(e) => Err(e),
            Ok(before) => if t.len() == 0 {
                Ok(before)
            } else if agents.contains(t) {
                Ok(before.push(target_dir(base, t)))
            } else {
                Err("未知目标 '"@ + t + "'。可选："@ + joined(agents, ", "@))
            },
        }
    }
}

pub open spec fn dirs_view(r: Result<Vec<String>, String>) -> Result<Seq<Seq<char>>, Seq<char>> {
    match r {
        Ok(v) => Ok(views(v@)),
        Err(e) => Err(e@),
    }
}

proof fn lemma_target_error(
    parts: Seq<Seq<char>>,
    base: Seq<char>,
    agents: Seq<Seq<char>>,
    k: int,
    n: int,
)
    requires
        0 <= k <= n,
        targets_among(parts, base, agents, k) is Err,
    ensures
        targets_among(parts, base, agents, n) == targets_among(parts, base, agents, k),
    decreases n - k,
{
    if k < n {
        lemma_target_error(parts, base, agents, k, n - 1);
    }
}

/// The directories that an export goes to, below `base`. `agents` are those
/// that skills can be given to: each keeps a hidden directory of its name.
pub fn export_targets(to: &str, base: &str, agents: &Vec<String>) -> (r: Result<
    Vec<String>,
    String,
>)
    ensures
        dirs_view(r) == targets_among(
            fields(to@, ','),
            base@,
            views(agents@),
            fields(to@, ',').len() as int,
        ),
{
    let parts = split(to, ',');
    let ghost all = fields(to@, ',');
    let n: usize = parts.len();
    assert(all.len() == n);
    let mut r: Vec<String> = Vec::new();
    let mut k: usize = 0;
    assert(views(r@) =~= Seq::<Seq<char>>::empty());
    while k < n
        invariant
            k <= n,
            n == parts@.len(),
            n == all.len(),
            views(parts@) == all,
            all == fields(to@, ','),
            targets_among(all, base@, views(agents@), k as int) == Ok::<
                Seq<Seq<char>>,
                Seq<char>,
            >(views(r@)),
        decreases n - k,
    {
        let ghost before = views(r@);
        assert(all[k as int] == parts@[k as int]@);
        let t = trim(parts[k].as_str());
        if t.as_str().unicode_len() > 0 {
            if is_among(agents, t.as_str()) {
                let mut hidden = ".".to_owned();
                hidden.append(t.as_str());
                let dir = join_path(base, hidden.as_str());
                r.push(dir);
                assert(views(r@) =~= before.push(target_dir(base@, t@)));
            } else {
                let mut why = "未知目标 '".to_owned();
                why.append(t.as_str());
                why.append("'。可选：");
                why.append(join(agents, ", ").as_str());
                proof {
                    lemma_target_error(all, base@, views(agents@), k + 1, n as int);
                }
                return Err(why);
            }
        }
        k += 1;
    }
    Ok(r)
}

/// Whether a line speaks of one of the names.
pub open spec fn speaks_of(line: Seq<char>, names: Seq<Seq<char>>) -> bool {
    exists|i: int| 0 <= i < names.len() && occurs(line, #[trigger] names[i])
}

fn names_one(line: &str, names: &Vec<String>) -> (r: bool)
    ensures
        r == speaks_of(line@, views(names@)),
{
    let mut i: usize = 0;
    while i < names.len()
        invariant
            i <= names@.len(),
            forall|k: int| 0 <= k < i ==> !occurs(line@, #[trigger] views(names@)[k]),
        decreases names@.len() - i,
    {
        assert(views(names@)[i as int] == names@[i as int]@);
        if contains(line, names[i].as_str()) {
            return true;
        }
        i += 1;
    }
    false
}

pub open spec fn lines_about(lines: Seq<Seq<char>>, names: Seq<Seq<char>>, k: int) -> Seq<Seq<char>>
    decreases k,
{
    if k <= 0 {
        Seq::empty()
    } else if speaks_of(lines[k - 1], names) {
        lines_about(lines, names, k - 1).push(lines[k - 1])
    } else {
        lines_about(lines, names, k - 1)
    }
}

/// The lines that are shown: those that speak of a name, or all where no name
/// was given.
pub fn shown_lines(lines: &Vec<String>, names: &Vec<String>) -> (r: Vec<String>)
    ensures
        views(r@) == if names@.len() == 0 {
            views(lines@)
        } else {
            lines_about(views(lines@), views(names@), lines@.len() as int)
        },
{
    if names.len() == 0 {
        let r = lines.clone();
        assert(r@ =~= lines@);
        return r;
    }
    let mut r: Vec<String> = Vec::new();
    let mut i: usize = 0;
    assert(views(r@) =~= Seq::<Seq<char>>::empty());
    while i < lines.len()
        invariant
            i <= lines@.len(),
            views(r@) == lines_about(views(lines@), views(names@), i as int),
        decreases lines@.len() - i,
    {
        let ghost before = views(r@);
        assert(views(lines@)[i as int] == lines@[i as int]@);
        if names_one(lines[i].as_str(), names) {
            r.push(lines[i].clone());
            assert(views(r@) =~= before.push(lines@[i as int]@));
        }
        i += 1;
    }
    r
}

/// A skill as it is listed.
pub fn skill_line(skill: &LoadedSkill) -> (r: String)
    ensures
        r@ == "- "@ + skill.name@ + (match opt_text(skill.version) {
            Some(v) => " v"@ + v,
            None => ""@,
        }) + "  "@ + skill.description@,
{
    let mut version = "".to_owned();
    match &skill.version {
        Some(v) => {
            version = " v".to_owned();
            version.append(v.as_str());
        },
        None => {},
    }
    let mut t = "- ".to_owned();
    t.append(skill.name.as_str());
    t.append(version.as_str());
    t.append("  ");
    t.append(skill.description.as_str());
    t
}

// ---- addresses, arguments and targets --------------------------------------

/// An address is one of the web where it begins like one.
pub proof fn a_web_address_begins_like_one(rest: Seq<char>)
    ensures
        http("http://"@ + rest),
        http("https://"@ + rest),
        !http("file://"@ + rest),
{
    reveal_strlit("http://");
    reveal_strlit("https://");
    reveal_strlit("file://");
    assert(("http://"@ + rest).subrange(0, 7) =~= "http://"@);
    assert(("https://"@ + rest).subrange(0, 8) =~= "https://"@);
    let f = "file://"@ + rest;
    if begins(f, "http://"@) {
        assert(f.subrange(0, 7)[0] == f[0]);
    }
    if begins(f, "https://"@) {
        assert(f.subrange(0, 8)[0] == f[0]);
    }
}

/// The address of a page with a file leads to the file itself; any other address
/// that is no gist stays as it is.
pub proof fn an_ordinary_address_stays(url: Seq<char>)
    ensures
        !occurs(url, "github.com"@) ==> raw_of(url) == url,
        !occurs(url, "/blob/"@) && !occurs(url, "gist.github.com"@) ==> raw_of(url) == url,
        !occurs(url, "/blob/"@) && occurs(url, "gist.github.com"@) && !finishes(url, "/raw"@)
            ==> finishes(raw_of(url), "/raw"@),
        !occurs(url, "/blob/"@) && finishes(url, "/raw"@) ==> raw_of(url) == url,
{
    reveal_strlit("gist.github.com");
    reveal_strlit("github.com");
    reveal_strlit("gist.");
    if occurs(url, "gist.github.com"@) {
        assert("gist.github.com"@ =~= "gist."@ + "github.com"@);
        lemma_occurs_on("gist."@, "github.com"@, "github.com"@);
        lemma_occurs_within(url, "gist.github.com"@, "github.com"@);
    }
    lemma_slashes(url, url.len() as int);
    let front = url.subrange(0, before_slashes(url, url.len() as int));
    lemma_occurs(front, "/raw"@, Seq::empty());
    assert(front + "/raw"@ + Seq::<char>::empty() =~= front + "/raw"@);
}

proof fn lemma_slashes(s: Seq<char>, j: int)
    requires
        0 <= j <= s.len(),
    ensures
        0 <= before_slashes(s, j) <= j,
        forall|k: int| before_slashes(s, j) <= k < j ==> #[trigger] s[k] == '/',
        before_slashes(s, j) > 0 ==> s[before_slashes(s, j) - 1] != '/',
    decreases j,
{
    if 0 < j && s[j - 1] == '/' {
        lemma_slashes(s, j - 1);
    }
}

/// The page of a file leads to the raw host, without the page's marker: all else of
/// the address stays.
pub proof fn a_page_leads_to_its_file(front: Seq<char>, mid: Seq<char>, path: Seq<char>)
    requires
        forall|k: int|
            0 <= k < front.len() ==> !#[trigger] occurs_at(
                front + "github.com"@ + (mid + "/blob/"@ + path),
                "github.com"@,
                k,
            ),
        !occurs(mid + "/blob/"@ + path, "github.com"@),
        forall|k: int|
            0 <= k < (front + "raw.githubusercontent.com"@ + mid).len() ==> !#[trigger] occurs_at(
                front + "raw.githubusercontent.com"@ + mid + "/blob/"@ + path,
                "/blob/"@,
                k,
            ),
        !occurs(path, "/blob/"@),
    ensures
        raw_of(front + "github.com"@ + (mid + "/blob/"@ + path)) == front
            + "raw.githubusercontent.com"@ + mid + "/"@ + path,
{
    let host = "github.com"@;
    let blob = "/blob/"@;
    let raw = "raw.githubusercontent.com"@;
    reveal_strlit("github.com");
    reveal_strlit("/blob/");
    let rest = mid + blob + path;
    let url = front + host + rest;
    let n = front.len() as int;
    lemma_occurs(front, host, rest);
    lemma_occurs(front + host + mid, blob, path);
    assert(url =~= (front + host + mid) + blob + path);
    assert(url.skip(n + host.len()) =~= rest);
    assert(url.take(n) =~= front);
    a_replacement_takes_its_place(url, host, raw, n);
    let before = front + raw + mid;
    let now = before + blob + path;
    assert(front + raw + rest =~= now);
    lemma_occurs(before, blob, path);
    let m = before.len() as int;
    assert(now.take(m) =~= before);
    assert(now.skip(m + blob.len()) =~= path);
    a_replacement_takes_its_place(now, blob, "/"@, m);
}

/// The names of an export are taken without the blanks around them.
pub proof fn names_are_taken_one_by_one(first: Seq<char>, rest: Seq<char>)
    requires
        !first.contains(','),
    ensures
        trimmed_fields(first) == seq![trimmed(first)],
        trimmed_fields(first + seq![','] + rest) == seq![trimmed(first)] + trimmed_fields(rest),
{
    a_field_ends_at_its_mark(first, ',', rest);
    assert(trimmed_fields(first) =~= seq![trimmed(first)]);
    assert(trimmed_fields(first + seq![','] + rest) =~= seq![trimmed(first)] + trimmed_fields(
        rest,
    ));
}

/// Each argument of an export sets its own part, wherever it stands, and an argument
/// that is not known is named.
pub proof fn an_argument_sets_its_part(args: Seq<Seq<char>>, known: ExportV, i: int)
    requires
        0 <= i < args.len(),
    ensures
        export_from(args, known, args.len() as int) == Ok::<ExportV, Seq<char>>(known),
        args[i] == "--force"@ ==> export_from(args, known, i) == export_from(
            args,
            ExportV { force: true, ..known },
            i + 1,
        ),
        args[i] == "--project"@ ==> export_from(args, known, i) == export_from(
            args,
            ExportV { project: true, ..known },
            i + 1,
        ),
        args[i] == "--to"@ && i + 1 < args.len() ==> export_from(args, known, i) == export_from(
            args,
            ExportV { to: args[i + 1], ..known },
            i + 2,
        ),
        args[i] == "--names"@ && i + 1 < args.len() ==> export_from(args, known, i) == export_from(
            args,
            ExportV { names: trimmed_fields(args[i + 1]), ..known },
            i + 2,
        ),
        (args[i] == "--to"@ || args[i] == "--names"@) && i + 1 == args.len() ==> export_from(
            args,
            known,
            i,
        ) is Err,
        args[i] != "--to"@ && args[i] != "--names"@ && args[i] != "--project"@ && args[i]
            != "--force"@ ==> export_from(args, known, i) is Err && occurs(
            export_from(args, known, i)->Err_0,
            args[i],
        ),
{
    reveal_strlit("--to");
    reveal_strlit("--names");
    reveal_strlit("--project");
    reveal_strlit("--force");
    assert("--to"@.len() == 4 && "--names"@.len() == 7 && "--project"@.len() == 9 && "--force"@.len()
        == 7);
    assert("--names"@[2] == 'n' && "--force"@[2] == 'f');
    lemma_occurs("不认识的参数 '"@, args[i], "'"@);
}

/// Without arguments an export goes to the fallback, to the home of the user, leaves
/// changed copies alone and takes every skill.
pub proof fn an_export_without_arguments(fallback: Seq<char>)
    ensures
        export_from(Seq::empty(), no_export_args(fallback), 0) == Ok::<ExportV, Seq<char>>(
            no_export_args(fallback),
        ),
        no_export_args(fallback).to == fallback,
        !no_export_args(fallback).project,
        !no_export_args(fallback).force,
        no_export_args(fallback).names.len() == 0,
{
}

/// Each target that is known has its own hidden directory, in their order; a blank one
/// does not count, and one that is not known is named with those that are.
pub proof fn a_target_has_its_directory(
    parts: Seq<Seq<char>>,
    base: Seq<char>,
    agents: Seq<Seq<char>>,
    k: int,
    i: int,
)
    requires
        0 <= k < parts.len(),
    ensures
        ({
            let t = trimmed(parts[k]);
            let before = targets_among(parts, base, agents, k);
            let now = targets_among(parts, base, agents, k + 1);
            &&& before is Err ==> now == before
            &&& before is Ok && t.len() == 0 ==> now == before
            &&& before is Ok && t.len() > 0 && agents.contains(t) ==> now is Ok && now->Ok_0
                == before->Ok_0.push(below(base, "."@ + t))
            &&& before is Ok && t.len() > 0 && !agents.contains(t) ==> now is Err && occurs(
                now->Err_0,
                t,
            ) && (0 <= i < agents.len() ==> occurs(now->Err_0, agents[i]))
        }),
        targets_among(parts, base, agents, 0) == Ok::<Seq<Seq<char>>, Seq<char>>(Seq::empty()),
{
    let t = trimmed(parts[k]);
    let a = "未知目标 '"@;
    let b = "'。可选："@;
    let list = joined(agents, ", "@);
    let all = a + t + b + list;
    lemma_occurs(a, t, b + list);
    assert(all =~= a + t + (b + list));
    lemma_occurs_on(a + t + b, list, list);
    if 0 <= i < agents.len() {
        assert(agents =~= agents.take(i) + seq![agents[i]] + agents.skip(i + 1));
        a_joined_text_holds_its_parts(agents.take(i), agents[i], agents.skip(i + 1), ", "@);
        lemma_occurs_within(all, list, agents[i]);
    }
}

/// Of the lines exactly those are shown that speak of one of the names, in their
/// order.
pub proof fn lines_about_a_name_are_shown(
    lines: Seq<Seq<char>>,
    line: Seq<char>,
    names: Seq<Seq<char>>,
    i: int,
)
    ensures
        0 <= i < names.len() && occurs(line, names[i]) ==> lines_about(
            lines.push(line),
            names,
            lines.len() as int + 1,
        ) == lines_about(lines, names, lines.len() as int).push(line),
        (forall|k: int| 0 <= k < names.len() ==> !occurs(line, #[trigger] names[k])) ==> lines_about(
            lines.push(line),
            names,
            lines.len() as int + 1,
        ) == lines_about(lines, names, lines.len() as int),
        lines_about(Seq::empty(), names, 0).len() == 0,
{
    lemma_about_front(lines, lines.push(line), names, lines.len() as int);
}

proof fn lemma_about_front(a: Seq<Seq<char>>, b: Seq<Seq<char>>, names: Seq<Seq<char>>, k: int)
    requires
        0 <= k <= a.len() <= b.len(),
        forall|i: int| 0 <= i < a.len() ==> #[trigger] a[i] == b[i],
    ensures
        lines_about(a, names, k) == lines_about(b, names, k),
    decreases k,
{
    if k > 0 {
        lemma_about_front(a, b, names, k - 1);
        assert(a[k - 1] == b[k - 1]);
    }
}

} // verus!
