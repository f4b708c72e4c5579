//! How memory is put into words: what a prompt gets of it, and the mirror that a
//! person reads.

use vstd::prelude::*;

use crate::text::{
    a_joined_text_holds_its_parts, begins, decimal, finishes, join, joined, lemma_occurs, occurs,
    signed, to_decimal, to_signed, views,
};

verus! {

/// A fact, by subject and content, or an episode, by day and summary.
pub open spec fn entry_views(entries: Seq<(String, String)>) -> Seq<(Seq<char>, Seq<char>)> {
    entries.map_values(|e: (String, String)| (e.0@, e.1@))
}

pub open spec fn wrapped(
    entries: Seq<(Seq<char>, Seq<char>)>,
    before: Seq<char>,
    between: Seq<char>,
) -> Seq<Seq<char>> {
    entries.map_values(|e: (Seq<char>, Seq<char>)| before + e.0 + between + e.1)
}

/// Adds a line for each entry.
fn push_entries(
    lines: &mut Vec<String>,
    entries: &Vec<(String, String)>,
    before: &str,
    between: &str,
)
    ensures
        views(final(lines)@) == views(old(lines)@) + wrapped(
            entry_views(entries@),
            before@,
            between@,
        ),
{
    let ghost front = views(lines@);
    let ghost all = wrapped(entry_views(entries@), before@, between@);
    let mut i: usize = 0;
    assert(views(lines@) =~= front + all.take(0));
    while i < entries.len()
        invariant
            i <= entries@.len(),
            all == wrapped(entry_views(entries@), before@, between@),
            views(lines@) == front + all.take(i as int),
        decreases entries@.len() - i,
    {
        let ghost now = views(lines@);
        let mut line = before.to_owned();
        line.append(entries[i].0.as_str());
        line.append(between);
        line.append(entries[i].1.as_str());
        assert(line@ == all[i as int]);
        lines.push(line);
        assert(views(lines@) =~= now.push(line@));
        assert(front + all.take(i + 1) =~= now.push(line@));
        i += 1;
    }
    assert(all.take(entries@.len() as int) =~= all);
}

fn push_line(lines: &mut Vec<String>, line: String)
    ensures
        views(final(lines)@) == views(old(lines)@).push(line@),
{
    lines.push(line);
    assert(views(lines@) =~= views(old(lines)@).push(line@));
}

/// What a prompt gets of the facts and episodes that were found.
pub fn context_of(facts: &Vec<(String, String)>, episodes: &Vec<(String, String)>) -> (r: String)
    ensures
        r@ == joined(
            wrapped(entry_views(facts@), "- **"@, "**: "@) + wrapped(
                entry_views(episodes@),
                "- ("@,
                ") "@,
            ),
            "\n"@,
        ),
{
    let mut lines: Vec<String> = Vec::new();
    push_entries(&mut lines, facts, "- **", "**: ");
    push_entries(&mut lines, episodes, "- (", ") ");
    assert(views(lines@) =~= wrapped(entry_views(facts@), "- **"@, "**: "@) + wrapped(
        entry_views(episodes@),
        "- ("@,
        ") "@,
    ));
    join(&lines, "\n")
}

/// The lines of a section: its entries, or word that there are none.
pub open spec fn section_lines(entries: Seq<(Seq<char>, Seq<char>)>) -> Seq<Seq<char>> {
    if entries.len() == 0 {
        seq!["_还没有_"@]
    } else {
        wrapped(entries, "- **"@, "** — "@)
    }
}

pub open spec fn mirror_lines(
    facts: Seq<(Seq<char>, Seq<char>)>,
    episodes: Seq<(Seq<char>, Seq<char>)>,
) -> Seq<Seq<char>> {
    seq![
        "# Joy memory"@,
        ""@,
        "_这是 Joy 记住的东西的人类可读镜像。事实来源是 `state.db`（`facts` 与 `episodes` 两张表，FTS5 关键词可检索）；本文件每轮之后重新生成。_"@,
        ""@,
        "## Facts —— 语义记忆（"@ + decimal(facts.len()) + "）"@,
        ""@,
    ] + section_lines(facts) + seq![
        ""@,
        "## Episodes —— 情景记忆（"@ + decimal(episodes.len()) + "）"@,
        ""@,
    ] + section_lines(episodes)
}

fn push_section(lines: &mut Vec<String>, entries: &Vec<(String, String)>)
    ensures
        views(final(lines)@) == views(old(lines)@) + section_lines(entry_views(entries@)),
{
    if entries.len() == 0 {
        push_line(lines, "_还没有_".to_owned());
        assert(views(lines@) =~= views(old(lines)@) + section_lines(entry_views(entries@)));
    } else {
        push_entries(lines, entries, "- **", "** — ");
    }
}

fn counted(title: &str, n: usize) -> (r: String)
    ensures
        r@ == title@ + decimal(n as nat) + "）"@,
{
    let mut t = title.to_owned();
    t.append(to_decimal(n as u64).as_str());
    t.append("）");
    t
}

/// The mirror of the memory, as Markdown.
pub fn markdown_of(facts: &Vec<(String, String)>, episodes: &Vec<(String, String)>) -> (r: String)
    ensures
        r@ == joined(mirror_lines(entry_views(facts@), entry_views(episodes@)), "\n"@) + "\n"@,
{
    let mut lines: Vec<String> = Vec::new();
    push_line(&mut lines, "# Joy memory".to_owned());
    push_line(&mut lines, "".to_owned());
    push_line(
        &mut lines,
        "_这是 Joy 记住的东西的人类可读镜像。事实来源是 `state.db`（`facts` 与 `episodes` 两张表，FTS5 关键词可检索）；本文件每轮之后重新生成。_".to_owned(),
    );
    push_line(&mut lines, "".to_owned());
    push_line(&mut lines, counted("## Facts —— 语义记忆（", facts.len()));
    push_line(&mut lines, "".to_owned());
    push_section(&mut lines, facts);
    push_line(&mut lines, "".to_owned());
    push_line(&mut lines, counted("## Episodes —— 情景记忆（", episodes.len()));
    push_line(&mut lines, "".to_owned());
    push_section(&mut lines, episodes);
    assert(views(lines@) =~= mirror_lines(entry_views(facts@), entry_views(episodes@)));
    let mut text = join(&lines, "\n");
    text.append("\n");
    text
}

/// What stands for a fact where meanings are compared.
pub fn index_text(subject: &str, content: &str) -> (r: String)
    ensures
        r@ == subject@ + ": "@ + content@,
{
    let mut t = subject.to_owned();
    t.append(": ");
    t.append(content);
    t
}

/// Why an index could not be completed, and how far it got.
pub fn reindex_failure(id: i64, why: &str, done: usize) -> (r: String)
    ensures
        r@ == "第 "@ + signed(id as int) + " 条算不出来（"@ + why@ + "）—— 已补 "@ + decimal(
            done as nat,
        ) + " 条"@,
{
    let mut t = "第 ".to_owned();
    t.append(to_signed(id).as_str());
    t.append(" 条算不出来（");
    t.append(why);
    t.append("）—— 已补 ");
    t.append(to_decimal(done as u64).as_str());
    t.append(" 条");
    t
}

/// Every entry has a line of its own, in its order, and the line holds both of its
/// parts, the first before the second.
pub proof fn every_entry_has_its_line(
    entries: Seq<(Seq<char>, Seq<char>)>,
    before: Seq<char>,
    between: Seq<char>,
    i: int,
)
    requires
        0 <= i < entries.len(),
    ensures
        wrapped(entries, before, between).len() == entries.len(),
        begins(wrapped(entries, before, between)[i], before + entries[i].0),
        finishes(wrapped(entries, before, between)[i], between + entries[i].1),
        wrapped(entries, before, between)[i].len() == before.len() + entries[i].0.len()
            + between.len() + entries[i].1.len(),
{
    let line = wrapped(entries, before, between)[i];
    let a = before + entries[i].0;
    let b = between + entries[i].1;
    lemma_occurs(Seq::empty(), a, b);
    assert(line =~= Seq::<char>::empty() + a + b);
    lemma_occurs(a, b, Seq::empty());
    assert(line =~= a + b + Seq::<char>::empty());
}

/// What a prompt gets of the memory holds every fact and every episode that was
/// found, subject and content, day and summary.
pub proof fn a_prompt_gets_all_that_was_found(
    facts: Seq<(Seq<char>, Seq<char>)>,
    episodes: Seq<(Seq<char>, Seq<char>)>,
    i: int,
)
    ensures
        ({
            let lines = wrapped(facts, "- **"@, "**: "@) + wrapped(episodes, "- ("@, ") "@);
            let told = joined(lines, "\n"@);
            &&& lines.len() == facts.len() + episodes.len()
            &&& 0 <= i < facts.len() ==> occurs(
                told,
                "- **"@ + facts[i].0 + "**: "@ + facts[i].1,
            )
            &&& 0 <= i < episodes.len() ==> occurs(
                told,
                "- ("@ + episodes[i].0 + ") "@ + episodes[i].1,
            )
        }),
{
    let a = wrapped(facts, "- **"@, "**: "@);
    let b = wrapped(episodes, "- ("@, ") "@);
    let lines = a + b;
    if 0 <= i < facts.len() {
        let line = "- **"@ + facts[i].0 + "**: "@ + facts[i].1;
        assert(lines[i] == line);
        lemma_line_occurs(lines, i);
    }
    if 0 <= i < episodes.len() {
        let line = "- ("@ + episodes[i].0 + ") "@ + episodes[i].1;
        assert(lines[facts.len() + i] == line);
        lemma_line_occurs(lines, facts.len() + i);
    }
}

proof fn lemma_line_occurs(lines: Seq<Seq<char>>, i: int)
    requires
        0 <= i < lines.len(),
    ensures
        occurs(joined(lines, "\n"@), lines[i]),
{
    assert(lines =~= lines.take(i) + seq![lines[i]] + lines.skip(i + 1));
    a_joined_text_holds_its_parts(lines.take(i), lines[i], lines.skip(i + 1), "\n"@);
}

/// The mirror says how many facts and how many episodes there are, and shows each
/// of them.
pub proof fn the_mirror_shows_everything(
    facts: Seq<(Seq<char>, Seq<char>)>,
    episodes: Seq<(Seq<char>, Seq<char>)>,
    i: int,
)
    ensures
        ({
            let told = joined(mirror_lines(facts, episodes), "\n"@);
            &&& occurs(told, "## Facts —— 语义记忆（"@ + decimal(facts.len()) + "）"@)
            &&& occurs(
                told,
                "## Episodes —— 情景记忆（"@ + decimal(episodes.len()) + "）"@,
            )
            &&& 0 <= i < facts.len() ==> occurs(
                told,
                "- **"@ + facts[i].0 + "** — "@ + facts[i].1,
            )
            &&& 0 <= i < episodes.len() ==> occurs(
                told,
                "- **"@ + episodes[i].0 + "** — "@ + episodes[i].1,
            )
        }),
{
    let lines = mirror_lines(facts, episodes);
    let f = section_lines(facts);
    let e = section_lines(episodes);
    lemma_line_occurs(lines, 4);
    assert(lines[4] == "## Facts —— 语义记忆（"@ + decimal(facts.len()) + "）"@);
    let n = 6 + f.len() as int;
    assert(lines[n + 1] == "## Episodes —— 情景记忆（"@ + decimal(episodes.len()) + "）"@);
    lemma_line_occurs(lines, n + 1);
    if 0 <= i < facts.len() {
        assert(lines[6 + i] == f[i]);
        assert(f[i] == "- **"@ + facts[i].0 + "** — "@ + facts[i].1);
        lemma_line_occurs(lines, 6 + i);
    }
    if 0 <= i < episodes.len() {
        assert(lines[n + 3 + i] == e[i]);
        assert(e[i] == "- **"@ + episodes[i].0 + "** — "@ + episodes[i].1);
        lemma_line_occurs(lines, n + 3 + i);
    }
}

/// A mirror of a memory that holds nothing yet says so, of the facts and of the
/// episodes.
pub proof fn an_empty_memory_is_told(facts: Seq<(Seq<char>, Seq<char>)>, episodes: Seq<(Seq<char>, Seq<char>)>)
    ensures
        facts.len() == 0 || episodes.len() == 0 ==> occurs(
            joined(mirror_lines(facts, episodes), "\n"@),
            "_还没有_"@,
        ),
        facts.len() == 0 ==> mirror_lines(facts, episodes)[6] == "_还没有_"@,
        episodes.len() == 0 ==> mirror_lines(facts, episodes).last() == "_还没有_"@,
{
    let lines = mirror_lines(facts, episodes);
    if facts.len() == 0 {
        assert(lines[6] == section_lines(facts)[0]);
        lemma_line_occurs(lines, 6);
    }
    if episodes.len() == 0 {
        assert(section_lines(episodes).len() == 1);
        assert(lines.last() == section_lines(episodes)[0]);
        lemma_line_occurs(lines, lines.len() - 1);
    }
}

} // verus!
