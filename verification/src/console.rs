//! The terminal: what a line asks for, and what is written while a turn runs.

use vstd::prelude::*;

use crate::memory::{entry_views, wrapped};
use crate::text::{
    a_tight_text_is_left_alone, begins, blank, chars_of, decimal, is_blank_text, lemma_occurs,
    lemma_occurs_on, lemma_occurs_within, lemma_regroup, occurs, occurs_at, opt_text, piece, same,
    signed, stands_at, starts_with, to_decimal, to_signed, trim, trimmed,
    trimming_takes_only_blanks, views,
};
use crate::turn::GateKind;

verus! {

pub const HELP: &'static str =
    "命令:\n  /memory [词]   看最近记住的东西（带词就是搜索）\n  /sessions      列出历史会话\n  /new           开一个新会话\n  /quit          退出（/exit 也行）\n其他任何输入都会作为消息发给 Joy。";

// ---- commands --------------------------------------------------------------

/// What a line asks for.
#[derive(Debug, Clone, PartialEq, Eq)]
pub enum Command {
    Nothing,
    Quit,
    Help,
    NewSession,
    Sessions,
    /// Show what is remembered; of this, where it is not empty.
    Memory(String),
    Unknown(String),
    Say(String),
}

pub enum CommandV {
    Nothing,
    Quit,
    Help,
    NewSession,
    Sessions,
    Memory(Seq<char>),
    Unknown(Seq<char>),
    Say(Seq<char>),
}

impl View for Command {
    type V = CommandV;

    open spec fn view(&self) -> CommandV {
        match self {
            Command::Nothing => CommandV::Nothing,
            Command::Quit => CommandV::Quit,
            Command::Help => CommandV::Help,
            Command::NewSession => CommandV::NewSession,
            Command::Sessions => CommandV::Sessions,
            Command::Memory(t) => CommandV::Memory(t@),
            Command::Unknown(t) => CommandV::Unknown(t@),
            Command::Say(t) => CommandV::Say(t@),
        }
    }
}

/// Where the text starts that follows all the copies of `p` at `i`.
pub open spec fn past_copies(s: Seq<char>, p: Seq<char>, i: int) -> int
    decreases s.len() - i,
{
    if p.len() > 0 && occurs_at(s, p, i) && i < s.len() {
        past_copies(s, p, i + p.len())
    } else {
        i
    }
}

pub open spec fn memory_query(input: Seq<char>) -> Seq<char> {
    trimmed(input.subrange(past_copies(input, "/memory"@, 0), input.len() as int))
}

pub open spec fn command_of(line: Seq<char>) -> CommandV {
    let input = trimmed(line);
    if input.len() == 0 {
        CommandV::Nothing
    } else if input == "/quit"@ || input == "/exit"@ || input == "/q"@ {
        CommandV::Quit
    } else if input == "/help"@ {
        CommandV::Help
    } else if input == "/new"@ {
        CommandV::NewSession
    } else if input == "/sessions"@ {
        CommandV::Sessions
    } else if begins(input, "/memory"@) {
        CommandV::Memory(memory_query(input))
    } else if begins(input, "/"@) {
        CommandV::Unknown(input)
    } else {
        CommandV::Say(input)
    }
}

fn query_of(input: &str) -> (r: String)
    ensures
        r@ == memory_query(input@),
{
    proof {
        reveal_strlit("/memory");
        assert("/memory"@.len() == 7);
    }
    let v = chars_of(input);
    let p = chars_of("/memory");
    let n: usize = v.len();
    let mut i: usize = 0;
    while i < n && stands_at(&v, &p, i)
        invariant
            i <= n,
            n == v@.len(),
            p@ == "/memory"@,
            p@.len() == 7,
            past_copies(v@, p@, 0) == past_copies(v@, p@, i as int),
        ensures
            i <= n,
            past_copies(v@, p@, 0) == i,
        decreases n - i,
    {
        i += 7;
    }
    trim(piece(&v, i, n).as_str())
}

/// Reads a line of the terminal.
pub fn read_command(line: &str) -> (r: Command)
    ensures
        r@ == command_of(line@),
{
    if is_blank_text(line) {
        return Command::Nothing;
    }
    let input = trim(line);
    let s = input.as_str();
    if same(s, "/quit") || same(s, "/exit") || same(s, "/q") {
        Command::Quit
    } else if same(s, "/help") {
        Command::Help
    } else if same(s, "/new") {
        Command::NewSession
    } else if same(s, "/sessions") {
        Command::Sessions
    } else if starts_with(s, "/memory") {
        Command::Memory(query_of(s))
    } else if starts_with(s, "/") {
        Command::Unknown(input)
    } else {
        Command::Say(input)
    }
}

pub fn unknown_command(command: &str) -> (r: String)
    ensures
        r@ == "不认识的命令 "@ + command@ + "。/help 看有哪些。"@,
{
    let mut t = "不认识的命令 ".to_owned();
    t.append(command);
    t.append("。/help 看有哪些。");
    t
}

/// A label for a session of the terminal; `millis` is the time.
pub fn new_session_id(millis: u64) -> (r: String)
    ensures
        r@ == "cli-"@ + decimal(millis as nat),
{
    let mut t = "cli-".to_owned();
    t.append(to_decimal(millis).as_str());
    t
}

// ---- a turn on the screen --------------------------------------------------

/// Something that a turn tells.
#[derive(Debug, Clone, PartialEq, Eq)]
pub enum Event {
    TextDelta { delta: String },
    GateDecided { decision: GateKind, reason: String },
    ToolStarted { tool: String },
    ToolCompleted { tool: String, succeeded: bool, duration_ms: Option<i32> },
    Consolidated { new_facts: i32 },
    TurnCompleted {
        reply: String,
        model: String,
        iterations: i32,
        latency_ms: i32,
        /// Tokens in and out.
        usage: Option<(i32, i32)>,
        interrupted: bool,
        guard_hits: i32,
    },
    Other,
}

/// What the screen remembers: whether streamed text stands on the line.
pub struct Screen {
    pub mid_line: bool,
}

pub open spec fn line_break(mid_line: bool) -> Seq<char> {
    if mid_line {
        "\n"@
    } else {
        ""@
    }
}

pub open spec fn gate_name(decision: GateKind) -> Seq<char> {
    match decision {
        GateKind::Retrieve => "检索"@,
        GateKind::Skip => "跳过"@,
    }
}

pub open spec fn usage_text(usage: Option<(i32, i32)>) -> Seq<char> {
    match usage {
        Some(u) => " · token "@ + signed(u.0 as int) + "+"@ + signed(u.1 as int),
        None => ""@,
    }
}

/// What an event writes on the screen. The reply is written at the end only
/// where it was not streamed: nothing is written twice.
pub open spec fn written(event: Event, mid_line: bool) -> Seq<char> {
    match event {
        Event::TextDelta { delta } => delta@,
        Event::GateDecided { decision, reason } => line_break(mid_line) + "…记忆门："@ + gate_name(
            decision,
        ) + "（"@ + reason@ + "）\n"@,
        Event::ToolStarted { tool } => line_break(mid_line) + "…正在调用 "@ + tool@ + "…\n"@,
        Event::ToolCompleted { tool, succeeded, duration_ms } => "…"@ + tool@ + " 完成（"@ + (
        if succeeded {
            "ok"@
        } else {
            "出错"@
        }) + "，"@ + signed(
            match duration_ms {
                Some(ms) => ms as int,
                None => 0,
            },
        ) + "ms）\n"@,
        Event::Consolidated { new_facts } => "…提炼出 "@ + signed(new_facts as int) + " 条新事实\n"@,
        Event::TurnCompleted {
            reply,
            model,
            iterations,
            latency_ms,
            usage,
            interrupted,
            guard_hits,
        } => (if mid_line {
            "\n"@
        } else {
            reply@ + "\n"@
        }) + "— "@ + model@ + " · "@ + signed(iterations as int) + " 轮 · "@ + signed(
            latency_ms as int,
        ) + "ms"@ + usage_text(usage) + "\n"@ + (if interrupted {
            "（这轮被打断了。）\n"@
        } else {
            ""@
        }) + (if guard_hits > 0 {
            "…循环护栏命中 "@ + signed(guard_hits as int) + " 次（模型在重复调用）\n"@
        } else {
            ""@
        }),
        Event::Other => ""@,
    }
}

pub open spec fn mid_line_after(event: Event, mid_line: bool) -> bool {
    match event {
        Event::TextDelta { delta } => mid_line || delta@.len() > 0,
        Event::GateDecided { .. } => false,
        Event::ToolStarted { .. } => false,
        Event::TurnCompleted { .. } => false,
        _ => mid_line,
    }
}

fn break_line(mid_line: bool) -> (r: String)
    ensures
        r@ == line_break(mid_line),
{
    if mid_line {
        "\n".to_owned()
    } else {
        "".to_owned()
    }
}

impl Screen {
    pub fn new() -> (r: Screen)
        ensures
            !r.mid_line,
    {
        Screen { mid_line: false }
    }

    /// What to write for an event.
    pub fn show(&mut self, event: &Event) -> (r: String)
        ensures
            r@ == written(*event, old(self).mid_line),
            final(self).mid_line == mid_line_after(*event, old(self).mid_line),
    {
        let mid: bool = self.mid_line;
        match event {
            Event::TextDelta { delta } => {
                self.mid_line = mid || delta.as_str().unicode_len() > 0;
                delta.clone()
            },
            Event::GateDecided { decision, reason } => {
                self.mid_line = false;
                let mut t = break_line(mid);
                t.append("…记忆门：");
                t.append(
                    match decision {
                        GateKind::Retrieve => "检索",
                        GateKind::Skip => "跳过",
                    },
                );
                t.append("（");
                t.append(reason.as_str());
                t.append("）\n");
                t
            },
            Event::ToolStarted { tool } => {
                self.mid_line = false;
                let mut t = break_line(mid);
                t.append("…正在调用 ");
                t.append(tool.as_str());
                t.append("…\n");
                t
            },
            Event::ToolCompleted { tool, succeeded, duration_ms } => {
                let mut t = "…".to_owned();
                t.append(tool.as_str());
                t.append(" 完成（");
                t.append(
                    if *succeeded {
                        "ok"
                    } else {
                        "出错"
                    },
                );
                t.append("，");
                let ms: i32 = match duration_ms {
                    Some(n) => *n,
                    None => 0,
                };
                t.append(to_signed(ms as i64).as_str());
                t.append("ms）\n");
                t
            },
            Event::Consolidated { new_facts } => {
                let mut t = "…提炼出 ".to_owned();
                t.append(to_signed(*new_facts as i64).as_str());
                t.append(" 条新事实\n");
                t
            },
            Event::TurnCompleted {
                reply,
                model,
                iterations,
                latency_ms,
                usage,
                interrupted,
                guard_hits,
            } => {
                self.mid_line = false;
                let mut t = if mid {
                    "\n".to_owned()
                } else {
                    let mut whole = reply.clone();
                    whole.append("\n");
                    whole
                };
                t.append("— ");
                t.append(model.as_str());
                t.append(" · ");
                t.append(to_signed(*iterations as i64).as_str());
                t.append(" 轮 · ");
                t.append(to_signed(*latency_ms as i64).as_str());
                t.append("ms");
                let mut spent = "".to_owned();
                match usage {
                    Some(u) => {
                        spent = " · token ".to_owned();
                        spent.append(to_signed(u.0 as i64).as_str());
                        spent.append("+");
                        spent.append(to_signed(u.1 as i64).as_str());
                    },
                    None => {},
                }
                assert(spent@ == usage_text(*usage));
                t.append(spent.as_str());
                t.append("\n");
                t.append(
                    if *interrupted {
                        "（这轮被打断了。）\n"
                    } else {
                        ""
                    },
                );
                let mut hits = "".to_owned();
                if *guard_hits > 0 {
                    hits = "…循环护栏命中 ".to_owned();
                    hits.append(to_signed(*guard_hits as i64).as_str());
                    hits.append(" 次（模型在重复调用）\n");
                }
                t.append(hits.as_str());
                t
            },
            Event::Other => "".to_owned(),
        }
    }
}

// ---- what is remembered ----------------------------------------------------

/// How many facts and episodes are shown.
pub fn memory_limits(query: &str) -> (r: (u32, u32))
    ensures
        r == if query@.len() == 0 {
            (10u32, 5u32)
        } else {
            (5u32, 3u32)
        },
{
    if query.unicode_len() == 0 {
        (10, 5)
    } else {
        (5, 3)
    }
}

/// A fact and where it comes from.
#[derive(Debug, Clone, PartialEq, Eq)]
pub struct SourcedFact {
    pub subject: String,
    pub content: String,
    pub source: String,
}

pub open spec fn sourced_lines(facts: Seq<SourcedFact>) -> Seq<Seq<char>> {
    facts.map_values(
        |f: SourcedFact| "- **"@ + f.subject@ + "**: "@ + f.content@ + "（"@ + f.source@ + "）"@,
    )
}

pub open spec fn empty_memory(query: Seq<char>) -> Seq<char> {
    "记忆"@ + (if query.len() == 0 {
        ""@
    } else {
        "里关于「"@ + query + "」的东西"@
    }) + "还是空的。告诉 Joy 一些关于你的事，它就会记住（state.db 就在 home 里）。"@
}

/// The lines that show what is remembered.
pub fn memory_lines(
    query: &str,
    facts: &Vec<SourcedFact>,
    episodes: &Vec<(String, String)>,
) -> (r: Vec<String>)
    ensures
        views(r@) == if facts@.len() == 0 && episodes@.len() == 0 {
            seq![empty_memory(query@)]
        } else {
            sourced_lines(facts@) + wrapped(entry_views(episodes@), "- ("@, ") "@)
        },
{
    let mut r: Vec<String> = Vec::new();
    if facts.len() == 0 && episodes.len() == 0 {
        let mut about = "".to_owned();
        if query.unicode_len() > 0 {
            about = "里关于「".to_owned();
            about.append(query);
            about.append("」的东西");
        }
        let mut t = "记忆".to_owned();
        t.append(about.as_str());
        t.append("还是空的。告诉 Joy 一些关于你的事，它就会记住（state.db 就在 home 里）。");
        r.push(t);
        assert(views(r@) =~= seq![empty_memory(query@)]);
        return r;
    }
    let ghost front = sourced_lines(facts@);
    let mut i: usize = 0;
    assert(views(r@) =~= front.take(0));
    while i < facts.len()
        invariant
            i <= facts@.len(),
            front == sourced_lines(facts@),
            views(r@) == front.take(i as int),
        decreases facts@.len() - i,
    {
        let ghost before = views(r@);
        let mut t = "- **".to_owned();
        t.append(facts[i].subject.as_str());
        t.append("**: ");
        t.append(facts[i].content.as_str());
        t.append("（");
        t.append(facts[i].source.as_str());
        t.append("）");
        assert(t@ == front[i as int]);
        r.push(t);
        assert(views(r@) =~= before.push(t@));
        assert(front.take(i + 1) =~= before.push(t@));
        i += 1;
    }
    assert(front.take(facts@.len() as int) =~= front);
    let ghost back = wrapped(entry_views(episodes@), "- ("@, ") "@);
    let mut k: usize = 0;
    assert(views(r@) =~= front + back.take(0));
    while k < episodes.len()
        invariant
            k <= episodes@.len(),
            back == wrapped(entry_views(episodes@), "- ("@, ") "@),
            views(r@) == front + back.take(k as int),
        decreases episodes@.len() - k,
    {
        let ghost before = views(r@);
        let mut t = "- (".to_owned();
        t.append(episodes[k].0.as_str());
        t.append(") ");
        t.append(episodes[k].1.as_str());
        assert(t@ == back[k as int]);
        r.push(t);
        assert(views(r@) =~= before.push(t@));
        assert(front + back.take(k + 1) =~= before.push(t@));
        k += 1;
    }
    assert(back.take(episodes@.len() as int) =~= back);
    r
}

/// A session as the terminal lists it.
pub fn session_line(id: &str, title: &str, messages: i64, last_at: &Option<String>) -> (r: String)
    ensures
        r@ == "- "@ + id@ + "  "@ + title@ + "（"@ + signed(messages as int) + " 条，最近 "@ + (
        match opt_text(*last_at) {
            Some(t) => t,
            None => "?"@,
        }) + "）"@,
{
    let mut t = "- ".to_owned();
    t.append(id);
    t.append("  ");
    t.append(title);
    t.append("（");
    t.append(to_signed(messages).as_str());
    t.append(" 条，最近 ");
    match last_at {
        Some(at) => {
            t.append(at.as_str());
        },
        None => {
            t.append("?");
        },
    }
    t.append("）");
    t
}

// ---- what a line and an event come to --------------------------------------

/// A line that is no command is said as it is, without the blanks around it.
pub proof fn what_is_no_command_is_said(line: Seq<char>)
    ensures
        trimmed(line).len() == 0 ==> command_of(line) == CommandV::Nothing,
        trimmed(line).len() > 0 && trimmed(line)[0] != '/' ==> command_of(line) == CommandV::Say(
            trimmed(line),
        ),
        trimmed(line).len() > 0 && trimmed(line)[0] == '/' ==> !(command_of(line) is Say)
            && !(command_of(line) is Nothing),
        command_of(line) matches CommandV::Unknown(t) ==> t == trimmed(line),
{
    let input = trimmed(line);
    lemma_command_words();
    reveal_strlit("/memory");
    if begins(input, "/"@) {
        assert(input.subrange(0, 1)[0] == input[0]);
    }
    if input.len() > 0 && input[0] == '/' {
        assert(input.subrange(0, 1) =~= "/"@);
    }
    if begins(input, "/memory"@) {
        assert(input.subrange(0, 7)[0] == input[0]);
    }
}

proof fn lemma_command_words()
    ensures
        "/"@ =~= seq!['/'],
        "/quit"@ =~= seq!['/', 'q', 'u', 'i', 't'],
        "/exit"@ =~= seq!['/', 'e', 'x', 'i', 't'],
        "/q"@ =~= seq!['/', 'q'],
        "/help"@ =~= seq!['/', 'h', 'e', 'l', 'p'],
        "/new"@ =~= seq!['/', 'n', 'e', 'w'],
        "/sessions"@ =~= seq!['/', 's', 'e', 's', 's', 'i', 'o', 'n', 's'],
{
    reveal_strlit("/");
    reveal_strlit("/quit");
    reveal_strlit("/exit");
    reveal_strlit("/q");
    reveal_strlit("/help");
    reveal_strlit("/new");
    reveal_strlit("/sessions");
}

/// Each command is read by its own words.
pub proof fn a_command_is_read_by_its_words(line: Seq<char>)
    ensures
        command_of(line) == CommandV::Quit <==> trimmed(line) == "/quit"@ || trimmed(line)
            == "/exit"@ || trimmed(line) == "/q"@,
        command_of(line) == CommandV::Help <==> trimmed(line) == "/help"@,
        command_of(line) == CommandV::NewSession <==> trimmed(line) == "/new"@,
        command_of(line) == CommandV::Sessions <==> trimmed(line) == "/sessions"@,
        command_of(line) is Memory ==> begins(trimmed(line), "/memory"@),
        begins(trimmed(line), "/memory"@) ==> command_of(line) is Memory,
{
    lemma_command_words();
    reveal_strlit("/memory");
    let input = trimmed(line);
    if begins(input, "/memory"@) {
        assert(input.subrange(0, 7)[1] == input[1]);
        assert(input[1] == 'm');
    }
}

/// What stands behind `/memory` is what is looked for.
pub proof fn memory_is_asked_for_what_follows(query: Seq<char>)
    requires
        query.len() > 0,
        !blank(query[0]) && !blank(query.last()),
    ensures
        command_of("/memory "@ + query) == CommandV::Memory(query),
        command_of("/memory"@) == CommandV::Memory(Seq::empty()),
{
    reveal_strlit("/memory");
    reveal_strlit("/memory ");
    lemma_command_words();
    let word = "/memory"@;
    let line = "/memory "@ + query;
    assert(line =~= word + seq![' '] + query);
    assert(!blank(line[0]));
    assert(line.last() == query.last());
    a_tight_text_is_left_alone(line);
    assert(line.subrange(0, 7) =~= word);
    assert(line[1] == 'm');
    assert(!occurs_at(line, word, 7)) by {
        if occurs_at(line, word, 7) {
            assert(line.subrange(7, 14)[0] == line[7]);
        }
    }
    reveal_with_fuel(past_copies, 3);
    assert(past_copies(line, word, 0) == 7);
    let rest = line.subrange(7, line.len() as int);
    assert(rest =~= seq![' '] + query);
    assert(trimmed(rest) =~= query) by {
        let cut = trimming_takes_only_blanks(rest);
        assert(rest[1] == query[0] && rest[rest.len() - 1] == query.last());
        assert(!blank(rest[1]) && !blank(rest[rest.len() - 1]));
        assert(trimmed(rest)[0] == rest[cut.0]);
        assert(blank(rest[0]));
        assert(cut.0 == 1 && cut.1 == rest.len());
    }
    a_tight_text_is_left_alone(word);
    assert(word.subrange(0, 7) =~= word);
    assert(word[1] == 'm');
    assert(past_copies(word, word, 0) == 7);
    assert(word.subrange(7, 7) =~= Seq::<char>::empty());
    a_tight_text_is_left_alone(Seq::empty());
}

/// What the model says is shown as it comes, and once: a reply that went out piece by
/// piece is not shown again at the end.
pub proof fn a_reply_is_shown_once(
    delta: String,
    reply: String,
    model: String,
    iterations: i32,
    latency_ms: i32,
    usage: Option<(i32, i32)>,
    interrupted: bool,
    guard_hits: i32,
)
    ensures
        ({
            let end = Event::TurnCompleted {
                reply,
                model,
                iterations,
                latency_ms,
                usage,
                interrupted,
                guard_hits,
            };
            &&& begins(written(end, false), reply@)
            &&& begins(written(end, true), "\n"@)
            &&& written(end, false).len() == written(end, true).len() + reply@.len()
            &&& written(end, false).skip(reply@.len() as int) == written(end, true)
            &&& !mid_line_after(end, true)
        }),
        written(Event::TextDelta { delta }, true) == delta@,
        written(Event::TextDelta { delta }, false) == delta@,
        delta@.len() > 0 ==> mid_line_after(Event::TextDelta { delta }, false),
        mid_line_after(Event::TextDelta { delta }, true),
{
    let end = Event::TurnCompleted {
        reply,
        model,
        iterations,
        latency_ms,
        usage,
        interrupted,
        guard_hits,
    };
    let a = written(end, false);
    let b = written(end, true);
    reveal_strlit("\n");
    assert(a =~= reply@ + b);
    assert(a.subrange(0, reply@.len() as int) =~= reply@);
    assert(b.subrange(0, 1) =~= "\n"@);
    assert(a.skip(reply@.len() as int) =~= b);
}

/// The end of a turn names the model and the iterations, and tells of an interruption
/// and of the guard where there was one.
pub proof fn the_end_is_told_in_full(
    reply: String,
    model: String,
    iterations: i32,
    latency_ms: i32,
    usage: Option<(i32, i32)>,
    interrupted: bool,
    guard_hits: i32,
)
    ensures
        ({
            let end = Event::TurnCompleted {
                reply,
                model,
                iterations,
                latency_ms,
                usage,
                interrupted,
                guard_hits,
            };
            let text = written(end, true);
            &&& occurs(text, model@)
            &&& occurs(text, signed(iterations as int))
            &&& occurs(text, signed(latency_ms as int))
            &&& interrupted ==> occurs(text, "（这轮被打断了。）\n"@)
            &&& guard_hits > 0 ==> occurs(text, signed(guard_hits as int))
            &&& usage matches Some(u) ==> occurs(text, signed(u.0 as int) + "+"@ + signed(
                u.1 as int,
            ))
        }),
{
    let end = Event::TurnCompleted {
        reply,
        model,
        iterations,
        latency_ms,
        usage,
        interrupted,
        guard_hits,
    };
    let all = written(end, true);
    let nl = "\n"@;
    let a = "— "@;
    let b = " · "@;
    let i = signed(iterations as int);
    let c = " 轮 · "@;
    let l = signed(latency_ms as int);
    let d = "ms"@;
    let u = usage_text(usage);
    let x = if interrupted {
        "（这轮被打断了。）\n"@
    } else {
        ""@
    };
    let g = if guard_hits > 0 {
        "…循环护栏命中 "@ + signed(guard_hits as int) + " 次（模型在重复调用）\n"@
    } else {
        ""@
    };
    lemma_end_parts(nl + a, model@, b, i, c, l, d, u, nl, x, g);
    if usage is Some {
        let tokens = usage->0;
        let p = signed(tokens.0 as int);
        let q = signed(tokens.1 as int);
        lemma_tokens(" · token "@, p, "+"@, q);
        lemma_occurs_within(all, u, p + "+"@ + q);
    }
    if guard_hits > 0 {
        let n = signed(guard_hits as int);
        lemma_occurs("…循环护栏命中 "@, n, " 次（模型在重复调用）\n"@);
        lemma_occurs_within(all, g, n);
    }
}

proof fn lemma_tokens(a: Seq<char>, p: Seq<char>, plus: Seq<char>, q: Seq<char>)
    ensures
        occurs(a + p + plus + q, p + plus + q),
{
    lemma_regroup(a, p, plus, q);
    lemma_occurs_on(a, p + plus + q, p + plus + q);
}

proof fn lemma_end_parts(
    front: Seq<char>,
    model: Seq<char>,
    b: Seq<char>,
    i: Seq<char>,
    c: Seq<char>,
    l: Seq<char>,
    d: Seq<char>,
    u: Seq<char>,
    e: Seq<char>,
    x: Seq<char>,
    g: Seq<char>,
)
    ensures
        ({
            let all = front + model + b + i + c + l + d + u + e + x + g;
            &&& occurs(all, model)
            &&& occurs(all, i)
            &&& occurs(all, l)
            &&& occurs(all, u)
            &&& occurs(all, x)
            &&& occurs(all, g)
        }),
{
    let s1 = front + model;
    let s2 = s1 + b;
    let s3 = s2 + i;
    let s4 = s3 + c;
    let s5 = s4 + l;
    let s6 = s5 + d;
    let s7 = s6 + u;
    let s8 = s7 + e;
    let s9 = s8 + x;
    lemma_occurs_on(front, model, model);
    lemma_occurs_on(s1, model, b);
    lemma_occurs_on(s2, model, i);
    lemma_occurs_on(s3, model, c);
    lemma_occurs_on(s3, i, c);
    lemma_occurs_on(s4, model, l);
    lemma_occurs_on(s4, i, l);
    lemma_occurs_on(s5, model, d);
    lemma_occurs_on(s5, i, d);
    lemma_occurs_on(s5, l, d);
    lemma_occurs_on(s6, model, u);
    lemma_occurs_on(s6, i, u);
    lemma_occurs_on(s6, l, u);
    lemma_occurs_on(s7, model, e);
    lemma_occurs_on(s7, i, e);
    lemma_occurs_on(s7, l, e);
    lemma_occurs_on(s7, u, e);
    lemma_occurs_on(s8, model, x);
    lemma_occurs_on(s8, i, x);
    lemma_occurs_on(s8, l, x);
    lemma_occurs_on(s8, u, x);
    lemma_occurs_on(s9, model, g);
    lemma_occurs_on(s9, i, g);
    lemma_occurs_on(s9, l, g);
    lemma_occurs_on(s9, u, g);
    lemma_occurs_on(s9, x, g);
}

/// What happens on the way is told by name, on a line of its own.
pub proof fn a_step_is_told_by_name(
    tool: String,
    decision: GateKind,
    reason: String,
    ms: i32,
    n: i32,
    mid_line: bool,
)
    ensures
        occurs(written(Event::ToolStarted { tool }, mid_line), tool@),
        mid_line ==> begins(written(Event::ToolStarted { tool }, mid_line), "\n"@),
        occurs(written(Event::GateDecided { decision, reason }, mid_line), reason@),
        mid_line ==> begins(written(Event::GateDecided { decision, reason }, mid_line), "\n"@),
        occurs(
            written(
                Event::ToolCompleted { tool, succeeded: true, duration_ms: Some(ms) },
                mid_line,
            ),
            tool@,
        ),
        occurs(
            written(
                Event::ToolCompleted { tool, succeeded: false, duration_ms: Some(ms) },
                mid_line,
            ),
            "出错，"@ + signed(ms as int),
        ),
        occurs(
            written(
                Event::ToolCompleted { tool, succeeded: true, duration_ms: Some(ms) },
                mid_line,
            ),
            "ok，"@ + signed(ms as int),
        ),
        occurs(written(Event::Consolidated { new_facts: n }, mid_line), signed(n as int)),
        !mid_line_after(Event::ToolStarted { tool }, mid_line),
        !mid_line_after(Event::GateDecided { decision, reason }, mid_line),
{
    let brk = line_break(mid_line);
    let none = Seq::<char>::empty();
    let s = written(Event::ToolStarted { tool }, mid_line);
    lemma_occurs(brk + "…正在调用 "@, tool@, "…\n"@);
    lemma_occurs(none, brk, "…正在调用 "@ + tool@ + "…\n"@);
    assert(s =~= none + brk + ("…正在调用 "@ + tool@ + "…\n"@));
    let g = written(Event::GateDecided { decision, reason }, mid_line);
    let front = brk + "…记忆门："@ + gate_name(decision) + "（"@;
    lemma_occurs(front, reason@, "）\n"@);
    let rest = "…记忆门："@ + gate_name(decision) + "（"@ + reason@ + "）\n"@;
    lemma_occurs(none, brk, rest);
    assert(g =~= none + brk + rest);
    let t = signed(ms as int);
    lemma_done(tool, true, ms, mid_line, "ok"@);
    lemma_done(tool, false, ms, mid_line, "出错"@);
    reveal_strlit("ok");
    reveal_strlit("出错");
    reveal_strlit("，");
    reveal_strlit("ok，");
    reveal_strlit("出错，");
    assert("ok"@ + "，"@ + t =~= "ok，"@ + t);
    assert("出错"@ + "，"@ + t =~= "出错，"@ + t);
    lemma_occurs("…提炼出 "@, signed(n as int), " 条新事实\n"@);
}

proof fn lemma_done(tool: String, succeeded: bool, ms: i32, mid_line: bool, word: Seq<char>)
    requires
        word == if succeeded {
            "ok"@
        } else {
            "出错"@
        },
    ensures
        ({
            let all = written(
                Event::ToolCompleted { tool, succeeded, duration_ms: Some(ms) },
                mid_line,
            );
            occurs(all, tool@) && occurs(all, word + "，"@ + signed(ms as int))
        }),
{
    let all = written(Event::ToolCompleted { tool, succeeded, duration_ms: Some(ms) }, mid_line);
    let a = "…"@;
    let b = " 完成（"@;
    let m = word + "，"@ + signed(ms as int);
    let c = "ms）\n"@;
    lemma_occurs(a, tool@, b + m + c);
    assert(all =~= a + tool@ + (b + m + c));
    lemma_occurs(a + tool@ + b, m, c);
    assert(all =~= (a + tool@ + b) + m + c);
}

/// Each fact is shown on its line, with where it comes from.
pub proof fn a_shown_fact_is_whole(facts: Seq<SourcedFact>, i: int)
    requires
        0 <= i < facts.len(),
    ensures
        sourced_lines(facts).len() == facts.len(),
        occurs(sourced_lines(facts)[i], facts[i].subject@),
        occurs(sourced_lines(facts)[i], facts[i].content@),
        occurs(sourced_lines(facts)[i], facts[i].source@),
{
    let f = facts[i];
    let line = sourced_lines(facts)[i];
    let a = "- **"@;
    let b = "**: "@;
    let c = "（"@;
    let d = "）"@;
    lemma_occurs(a, f.subject@, b + f.content@ + c + f.source@ + d);
    assert(line =~= a + f.subject@ + (b + f.content@ + c + f.source@ + d));
    lemma_occurs(a + f.subject@ + b, f.content@, c + f.source@ + d);
    assert(line =~= (a + f.subject@ + b) + f.content@ + (c + f.source@ + d));
    lemma_occurs(a + f.subject@ + b + f.content@ + c, f.source@, d);
    assert(line =~= (a + f.subject@ + b + f.content@ + c) + f.source@ + d);
}

/// An empty memory says what was looked for.
pub proof fn an_empty_memory_names_the_query(query: Seq<char>)
    requires
        query.len() > 0,
    ensures
        occurs(empty_memory(query), query),
{
    let a = "记忆"@;
    let b = "里关于「"@;
    let c = "」的东西"@;
    let d = "还是空的。告诉 Joy 一些关于你的事，它就会记住（state.db 就在 home 里）。"@;
    lemma_occurs(a + b, query, c + d);
    assert(empty_memory(query) =~= (a + b) + query + (c + d));
}

} // verus!
