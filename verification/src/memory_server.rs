//! The memory as a server of tools: other agents read and write the same facts.
//! Nothing but the memory is offered.

use vstd::prelude::*;

use crate::json::{
    check_json, json_error, json_text_at, json_unsigned_at, json_written_at, text_at, unsigned_at,
    written_at,
};
use crate::memory::{context_of, entry_views, wrapped};
use crate::model::ToolSchema;
use crate::text::{
    begins, decimal, finishes, is_blank_text, join, joined, lemma_occurs, occurs, opt_text, same,
    signed, to_decimal, to_signed, trim, trimmed, views,
};

verus! {

pub const SERVER_NAME: &'static str = "joy-memory";

// ---- requests --------------------------------------------------------------

#[derive(Debug, Clone, Copy, PartialEq, Eq, Structural)]
pub enum MemoryTool {
    Search,
    Remember,
    Forget,
    List,
    Episodes,
}

pub open spec fn tool_named(name: Seq<char>) -> Option<MemoryTool> {
    if name == "memory_search"@ {
        Some(MemoryTool::Search)
    } else if name == "memory_remember"@ {
        Some(MemoryTool::Remember)
    } else if name == "memory_forget"@ {
        Some(MemoryTool::Forget)
    } else if name == "memory_list"@ {
        Some(MemoryTool::List)
    } else if name == "memory_episodes"@ {
        Some(MemoryTool::Episodes)
    } else {
        None
    }
}

pub fn find_tool(name: &str) -> (r: Option<MemoryTool>)
    ensures
        r == tool_named(name@),
{
    if same(name, "memory_search") {
        Some(MemoryTool::Search)
    } else if same(name, "memory_remember") {
        Some(MemoryTool::Remember)
    } else if same(name, "memory_forget") {
        Some(MemoryTool::Forget)
    } else if same(name, "memory_list") {
        Some(MemoryTool::List)
    } else if same(name, "memory_episodes") {
        Some(MemoryTool::Episodes)
    } else {
        None
    }
}

/// What a request asks for. A request without a number is a notification and
/// gets no answer.
#[derive(Debug, Clone, PartialEq, Eq)]
pub enum ServerStep {
    Silent,
    Initialize,
    ListTools,
    Call(MemoryTool),
    Ping,
    /// The request is answered with an error.
    Refuse { code: i64, message: String },
}

pub enum StepV {
    Silent,
    Initialize,
    ListTools,
    Call(MemoryTool),
    Ping,
    Refuse { code: int, message: Seq<char> },
}

impl View for ServerStep {
    type V = StepV;

    open spec fn view(&self) -> StepV {
        match self {
            ServerStep::Silent => StepV::Silent,
            ServerStep::Initialize => StepV::Initialize,
            ServerStep::ListTools => StepV::ListTools,
            ServerStep::Call(tool) => StepV::Call(*tool),
            ServerStep::Ping => StepV::Ping,
            ServerStep::Refuse { code, message } => StepV::Refuse {
                code: *code as int,
                message: message@,
            },
        }
    }
}

pub open spec fn step_of(
    has_id: bool,
    method: Option<Seq<char>>,
    tool: Option<Seq<char>>,
) -> StepV {
    let name = match method {
        Some(m) => m,
        None => ""@,
    };
    if !has_id {
        StepV::Silent
    } else if name == "initialize"@ {
        StepV::Initialize
    } else if name == "tools/list"@ {
        StepV::ListTools
    } else if name == "tools/call"@ {
        match tool {
            None => StepV::Refuse { code: -32602, message: "tools/call 少了 name"@ },
            Some(t) => match tool_named(t) {
                Some(found) => StepV::Call(found),
                None => StepV::Refuse { code: -32602, message: "没有叫 '"@ + t + "' 的工具"@ },
            },
        }
    } else if name == "ping"@ {
        StepV::Ping
    } else {
        StepV::Refuse { code: -32601, message: "未知方法 '"@ + name + "'"@ }
    }
}

pub fn step_of_fields(has_id: bool, method: Option<String>, tool: Option<String>) -> (r: ServerStep)
    ensures
        r@ == step_of(has_id, opt_text(method), opt_text(tool)),
{
    if !has_id {
        return ServerStep::Silent;
    }
    let name = match method {
        Some(m) => m,
        None => "".to_owned(),
    };
    if same(name.as_str(), "initialize") {
        ServerStep::Initialize
    } else if same(name.as_str(), "tools/list") {
        ServerStep::ListTools
    } else if same(name.as_str(), "tools/call") {
        match tool {
            None => ServerStep::Refuse { code: -32602, message: "tools/call 少了 name".to_owned() },
            Some(t) => match find_tool(t.as_str()) {
                Some(found) => ServerStep::Call(found),
                None => {
                    let mut message = "没有叫 '".to_owned();
                    message.append(t.as_str());
                    message.append("' 的工具");
                    ServerStep::Refuse { code: -32602, message }
                },
            },
        }
    } else if same(name.as_str(), "ping") {
        ServerStep::Ping
    } else {
        let mut message = "未知方法 '".to_owned();
        message.append(name.as_str());
        message.append("'");
        ServerStep::Refuse { code: -32601, message }
    }
}

/// What a line asks for. One that is no JSON is refused, though nobody knows
/// whose it is.
pub open spec fn handled(line: Seq<char>) -> StepV {
    match json_error(line) {
        Some(e) => StepV::Refuse { code: -32700, message: "解析失败："@ + e },
        None => step_of(
            json_written_at(line, "/id"@) is Some,
            json_text_at(line, "/method"@),
            json_text_at(line, "/params/name"@),
        ),
    }
}

pub fn handle(line: &str) -> (r: ServerStep)
    ensures
        r@ == handled(line@),
{
    match check_json(line) {
        Ok(_) => {},
        Err(e) => {
            let mut message = "解析失败：".to_owned();
            message.append(e.as_str());
            return ServerStep::Refuse { code: -32700, message };
        },
    }
    step_of_fields(
        written_at(line, "/id").is_some(),
        text_at(line, "/method"),
        text_at(line, "/params/name"),
    )
}

// ---- arguments -------------------------------------------------------------

pub open spec fn required(value: Option<Seq<char>>, key: Seq<char>) -> Result<Seq<char>, Seq<char>> {
    if value is Some && trimmed(value->0).len() > 0 {
        Ok(trimmed(value->0))
    } else {
        Err("参数 '"@ + key + "' 必须是非空字符串。"@)
    }
}

pub fn require_text(value: Option<String>, key: &str) -> (r: Result<String, String>)
    ensures
        crate::subagent::text_result(r) == required(opt_text(value), key@),
{
    match value {
        Some(v) => {
            if !is_blank_text(v.as_str()) {
                return Ok(trim(v.as_str()));
            }
        },
        None => {},
    }
    let mut why = "参数 '".to_owned();
    why.append(key);
    why.append("' 必须是非空字符串。");
    Err(why)
}

pub open spec fn argument_at(key: Seq<char>) -> Seq<char> {
    "/params/arguments/"@ + key
}

fn argument(key: &str) -> (r: String)
    ensures
        r@ == argument_at(key@),
{
    let mut t = "/params/arguments/".to_owned();
    t.append(key);
    t
}

/// An argument of a call that has to be there and not blank.
pub fn require_str(line: &str, key: &str) -> (r: Result<String, String>)
    ensures
        crate::subagent::text_result(r) == required(
            json_text_at(line@, argument_at(key@)),
            key@,
        ),
{
    require_text(text_at(line, argument(key).as_str()), key)
}

/// A number as it is handed on: what does not fit is cut off at the top.
pub open spec fn low_bits(n: u64) -> int {
    n as int % 4294967296
}

pub open spec fn number_or(value: Option<u64>, fallback: u32) -> int {
    match value {
        Some(n) => low_bits(n),
        None => fallback as int,
    }
}

pub fn count_or(value: Option<u64>, fallback: u32) -> (r: u32)
    ensures
        r == number_or(value, fallback),
{
    match value {
        Some(n) => (n % 4294967296) as u32,
        None => fallback,
    }
}

/// An argument of a call that is a number.
pub fn limit_of(line: &str, key: &str, fallback: u32) -> (r: u32)
    ensures
        r == number_or(json_unsigned_at(line@, argument_at(key@)), fallback),
{
    count_or(unsigned_at(line, argument(key).as_str()), fallback)
}

pub const SEARCH_TOP_K: u32 = 5;

pub const SEARCH_EPISODES: u32 = 3;

pub const LIST_LIMIT: u32 = 10;

pub const EPISODES_LIMIT: u32 = 5;

// ---- answers ---------------------------------------------------------------

/// What a search found, in words.
pub fn search_text(
    query: &str,
    facts: &Vec<(String, String)>,
    episodes: &Vec<(String, String)>,
) -> (r: String)
    ensures
        r@ == if facts@.len() == 0 && episodes@.len() == 0 {
            "没有找到和「"@ + query@ + "」相关的记忆。"@
        } else {
            joined(
                wrapped(entry_views(facts@), "- **"@, "**: "@) + wrapped(
                    entry_views(episodes@),
                    "- ("@,
                    ") "@,
                ),
                "\n"@,
            )
        },
{
    if facts.len() == 0 && episodes.len() == 0 {
        let mut t = "没有找到和「".to_owned();
        t.append(query);
        t.append("」相关的记忆。");
        return t;
    }
    context_of(facts, episodes)
}

/// What is said of a fact that was to be stored.
pub fn remember_text(id: i64, subject: &str, content: &str, is_new: bool) -> (r: String)
    ensures
        r@ == if is_new {
            "已记住（#"@ + signed(id as int) + "）："@ + subject@ + " — "@ + content@
        } else {
            "这条已经记过了（没重复入库）：#"@ + signed(id as int) + " "@ + subject@ + " — "@
                + content@
        },
{
    let mut t = if is_new {
        "已记住（#".to_owned()
    } else {
        "这条已经记过了（没重复入库）：#".to_owned()
    };
    t.append(to_signed(id).as_str());
    if is_new {
        t.append("）：");
    } else {
        t.append(" ");
    }
    t.append(subject);
    t.append(" — ");
    t.append(content);
    t
}

pub fn forget_text(subject: &str, removed: u64) -> (r: String)
    ensures
        r@ == if removed == 0 {
            "没有关于「"@ + subject@ + "」的记忆可忘。"@
        } else {
            "已忘掉「"@ + subject@ + "」下的 "@ + decimal(removed as nat) + " 条事实。"@
        },
{
    if removed == 0 {
        let mut t = "没有关于「".to_owned();
        t.append(subject);
        t.append("」的记忆可忘。");
        t
    } else {
        let mut t = "已忘掉「".to_owned();
        t.append(subject);
        t.append("」下的 ");
        t.append(to_decimal(removed).as_str());
        t.append(" 条事实。");
        t
    }
}

/// A fact with its number.
#[derive(Debug, Clone, PartialEq, Eq)]
pub struct NumberedFact {
    pub id: i64,
    pub subject: String,
    pub content: String,
}

pub open spec fn fact_lines(facts: Seq<NumberedFact>) -> Seq<Seq<char>> {
    facts.map_values(
        |f: NumberedFact| "#"@ + signed(f.id as int) + " **"@ + f.subject@ + "**: "@ + f.content@,
    )
}

pub fn list_text(facts: &Vec<NumberedFact>) -> (r: String)
    ensures
        r@ == if facts@.len() == 0 {
            "记忆里还没有事实。"@
        } else {
            joined(fact_lines(facts@), "\n"@)
        },
{
    if facts.len() == 0 {
        return "记忆里还没有事实。".to_owned();
    }
    let ghost all = fact_lines(facts@);
    let mut parts: Vec<String> = Vec::new();
    let mut i: usize = 0;
    assert(views(parts@) =~= all.take(0));
    while i < facts.len()
        invariant
            i <= facts@.len(),
            all == fact_lines(facts@),
            views(parts@) == all.take(i as int),
        decreases facts@.len() - i,
    {
        let ghost before = views(parts@);
        let mut t = "#".to_owned();
        t.append(to_signed(facts[i].id).as_str());
        t.append(" **");
        t.append(facts[i].subject.as_str());
        t.append("**: ");
        t.append(facts[i].content.as_str());
        assert(t@ == all[i as int]);
        parts.push(t);
        assert(views(parts@) =~= before.push(t@));
        assert(all.take(i + 1) =~= before.push(t@));
        i += 1;
    }
    assert(all.take(facts@.len() as int) =~= all);
    join(&parts, "\n")
}

pub fn episodes_text(episodes: &Vec<(String, String)>) -> (r: String)
    ensures
        r@ == if episodes@.len() == 0 {
            "记忆里还没有情景。"@
        } else {
            joined(wrapped(entry_views(episodes@), "- ("@, ") "@), "\n"@)
        },
{
    if episodes.len() == 0 {
        return "记忆里还没有情景。".to_owned();
    }
    let none: Vec<(String, String)> = Vec::new();
    let r = context_of(&none, episodes);
    assert(wrapped(entry_views(none@), "- **"@, "**: "@) + wrapped(
        entry_views(episodes@),
        "- ("@,
        ") "@,
    ) =~= wrapped(entry_views(episodes@), "- ("@, ") "@));
    r
}

// ---- what is offered -------------------------------------------------------

/// Name, description and schema of the `i`-th tool.
pub open spec fn offered(i: int) -> (Seq<char>, Seq<char>, Seq<char>) {
    if i == 0 {
        (
            "memory_search"@,
            "Search Joy's long-term memory (facts and dated episodes) by keyword."@,
            "{\"properties\":{\"query\":{\"description\":\"keywords\",\"type\":\"string\"},\"top_k\":{\"description\":\"how many facts to return (default 5)\",\"type\":\"integer\"}},\"required\":[\"query\"],\"type\":\"object\"}"@,
        )
    } else if i == 1 {
        (
            "memory_remember"@,
            "Store a durable fact in Joy's memory."@,
            "{\"properties\":{\"content\":{\"description\":\"the fact itself\",\"type\":\"string\"},\"subject\":{\"description\":\"who or what it is about\",\"type\":\"string\"}},\"required\":[\"subject\",\"content\"],\"type\":\"object\"}"@,
        )
    } else if i == 2 {
        (
            "memory_forget"@,
            "Forget every fact under a subject."@,
            "{\"properties\":{\"subject\":{\"type\":\"string\"}},\"required\":[\"subject\"],\"type\":\"object\"}"@,
        )
    } else if i == 3 {
        (
            "memory_list"@,
            "List the most recent facts in Joy's memory."@,
            "{\"properties\":{\"limit\":{\"description\":\"default 10\",\"type\":\"integer\"}},\"type\":\"object\"}"@,
        )
    } else {
        (
            "memory_episodes"@,
            "List recent dated episodes (what happened, when)."@,
            "{\"properties\":{\"limit\":{\"description\":\"default 5\",\"type\":\"integer\"}},\"type\":\"object\"}"@,
        )
    }
}

fn declaration(name: &str, description: &str, schema: &str) -> (r: ToolSchema)
    ensures
        r.name@ == name@,
        r.description@ == description@,
        r.input_schema@ == schema@,
{
    ToolSchema {
        name: name.to_owned(),
        description: description.to_owned(),
        input_schema: schema.to_owned(),
    }
}

/// The tools that are offered: those of the memory, and no others.
pub fn tool_declarations() -> (r: Vec<ToolSchema>)
    ensures
        r@.len() == 5,
        forall|i: int|
            0 <= i < r@.len() ==> {
                &&& (#[trigger] r@[i]).name@ == offered(i).0
                &&& r@[i].description@ == offered(i).1
                &&& r@[i].input_schema@ == offered(i).2
            },
{
    let mut r: Vec<ToolSchema> = Vec::new();
    r.push(
        declaration(
            "memory_search",
            "Search Joy's long-term memory (facts and dated episodes) by keyword.",
            "{\"properties\":{\"query\":{\"description\":\"keywords\",\"type\":\"string\"},\"top_k\":{\"description\":\"how many facts to return (default 5)\",\"type\":\"integer\"}},\"required\":[\"query\"],\"type\":\"object\"}",
        ),
    );
    r.push(
        declaration(
            "memory_remember",
            "Store a durable fact in Joy's memory.",
            "{\"properties\":{\"content\":{\"description\":\"the fact itself\",\"type\":\"string\"},\"subject\":{\"description\":\"who or what it is about\",\"type\":\"string\"}},\"required\":[\"subject\",\"content\"],\"type\":\"object\"}",
        ),
    );
    r.push(
        declaration(
            "memory_forget",
            "Forget every fact under a subject.",
            "{\"properties\":{\"subject\":{\"type\":\"string\"}},\"required\":[\"subject\"],\"type\":\"object\"}",
        ),
    );
    r.push(
        declaration(
            "memory_list",
            "List the most recent facts in Joy's memory.",
            "{\"properties\":{\"limit\":{\"description\":\"default 10\",\"type\":\"integer\"}},\"type\":\"object\"}",
        ),
    );
    r.push(
        declaration(
            "memory_episodes",
            "List recent dated episodes (what happened, when).",
            "{\"properties\":{\"limit\":{\"description\":\"default 5\",\"type\":\"integer\"}},\"type\":\"object\"}",
        ),
    );
    r
}

/// Every tool that is offered can be called, and works on the memory.
pub proof fn what_is_offered_can_be_called(i: int)
    requires
        0 <= i < 5,
    ensures
        tool_named(offered(i).0) is Some,
{
}

// ---- what the server makes of a request ------------------------------------

/// Each tool is found under its own name, and under no other.
pub proof fn a_tool_has_one_name(name: Seq<char>)
    ensures
        tool_named(name) == Some(MemoryTool::Search) <==> name == "memory_search"@,
        tool_named(name) == Some(MemoryTool::Remember) <==> name == "memory_remember"@,
        tool_named(name) == Some(MemoryTool::Forget) <==> name == "memory_forget"@,
        tool_named(name) == Some(MemoryTool::List) <==> name == "memory_list"@,
        tool_named(name) == Some(MemoryTool::Episodes) <==> name == "memory_episodes"@,
{
    reveal_strlit("memory_search");
    reveal_strlit("memory_remember");
    reveal_strlit("memory_forget");
    reveal_strlit("memory_list");
    reveal_strlit("memory_episodes");
    assert("memory_search"@.len() == 13 && "memory_forget"@.len() == 13);
    assert("memory_search"@[7] == 's' && "memory_forget"@[7] == 'f');
    assert("memory_remember"@.len() == 15 && "memory_episodes"@.len() == 15);
    assert("memory_remember"@[7] == 'r' && "memory_episodes"@[7] == 'e');
    assert("memory_list"@.len() == 11);
}

/// A notification is never answered, and a request always is: by what it asks for,
/// or by an error that says what was not understood.
pub proof fn a_request_is_answered(method: Seq<char>, tool: Seq<char>)
    ensures
        step_of(false, Some(method), Some(tool)) == StepV::Silent,
        !(step_of(true, Some(method), Some(tool)) is Silent),
        step_of(true, Some(method), Some(tool)) is Initialize <==> method == "initialize"@,
        step_of(true, Some(method), Some(tool)) is ListTools <==> method == "tools/list"@,
        step_of(true, Some(method), Some(tool)) is Ping <==> method == "ping"@,
        step_of(true, Some("tools/call"@), Some("memory_forget"@)) == StepV::Call(
            MemoryTool::Forget,
        ),
        tool_named(tool) matches Some(found) ==> step_of(true, Some("tools/call"@), Some(tool))
            == StepV::Call(found),
        tool_named(tool) is None ==> (step_of(true, Some("tools/call"@), Some(tool)) matches
            StepV::Refuse { code, message } && code == -32602 && occurs(message, tool)),
        step_of(true, Some("tools/call"@), None) is Refuse,
        method != "initialize"@ && method != "tools/list"@ && method != "tools/call"@ && method
            != "ping"@ ==> (step_of(true, Some(method), Some(tool)) matches StepV::Refuse {
            code,
            message,
        } && code == -32601 && occurs(message, method)),
{
    reveal_strlit("initialize");
    reveal_strlit("tools/list");
    reveal_strlit("tools/call");
    reveal_strlit("ping");
    assert("initialize"@.len() == 10 && "tools/list"@.len() == 10 && "tools/call"@.len() == 10
        && "ping"@.len() == 4);
    assert("initialize"@[0] == 'i' && "tools/list"@[0] == 't' && "tools/call"@[0] == 't');
    assert("tools/list"@[6] == 'l' && "tools/call"@[6] == 'c');
    a_tool_has_one_name("memory_forget"@);
    lemma_occurs("没有叫 '"@, tool, "' 的工具"@);
    lemma_occurs("未知方法 '"@, method, "'"@);
}

/// A line that is no JSON is refused, and the refusal says why.
pub proof fn a_broken_line_is_refused(line: Seq<char>)
    ensures
        json_error(line) matches Some(e) ==> (handled(line) matches StepV::Refuse { code, message }
            && code == -32700 && finishes(message, e)),
        json_error(line) is None && json_written_at(line, "/id"@) is None ==> handled(line)
            == StepV::Silent,
        json_error(line) is None && json_written_at(line, "/id"@) is Some ==> handled(line)
            == step_of(true, json_text_at(line, "/method"@), json_text_at(line, "/params/name"@)),
{
    if json_error(line) is Some {
        let e = json_error(line)->0;
        let a = "解析失败："@;
        lemma_occurs(a, e, Seq::empty());
        assert(a + e =~= a + e + Seq::<char>::empty());
    }
}

/// What is required is taken without the blanks around it; a blank one is missing,
/// and the complaint names it.
pub proof fn what_is_required_is_named(value: Seq<char>, key: Seq<char>)
    ensures
        trimmed(value).len() > 0 ==> required(Some(value), key) == Ok::<Seq<char>, Seq<char>>(
            trimmed(value),
        ),
        trimmed(value).len() == 0 ==> required(Some(value), key) == required(None, key),
        required(None, key) is Err && occurs(required(None, key)->Err_0, key),
{
    lemma_occurs("参数 '"@, key, "' 必须是非空字符串。"@);
}

/// A number that is given counts where 32 bits hold it, and the fallback counts where
/// none is given.
pub proof fn a_given_number_counts(n: u64, fallback: u32)
    ensures
        n < 0x1_0000_0000 ==> number_or(Some(n), fallback) == n,
        number_or(None, fallback) == fallback,
{
}

/// Each fact is listed on its line, with its number, its subject and its content.
pub proof fn a_listed_fact_is_whole(facts: Seq<NumberedFact>, i: int)
    requires
        0 <= i < facts.len(),
    ensures
        fact_lines(facts).len() == facts.len(),
        occurs(fact_lines(facts)[i], signed(facts[i].id as int)),
        occurs(fact_lines(facts)[i], facts[i].subject@),
        finishes(fact_lines(facts)[i], facts[i].content@),
{
    let f = facts[i];
    let line = fact_lines(facts)[i];
    let a = "#"@;
    let n = signed(f.id as int);
    let b = " **"@;
    let c = "**: "@;
    lemma_occurs(a, n, b + f.subject@ + c + f.content@);
    assert(line =~= a + n + (b + f.subject@ + c + f.content@));
    lemma_occurs(a + n + b, f.subject@, c + f.content@);
    assert(line =~= (a + n + b) + f.subject@ + (c + f.content@));
    lemma_occurs(a + n + b + f.subject@ + c, f.content@, Seq::empty());
    assert(line =~= (a + n + b + f.subject@ + c) + f.content@ + Seq::<char>::empty());
}

/// An argument is looked for among the arguments of the call.
pub proof fn an_argument_is_found_by_its_name(key: Seq<char>)
    ensures
        begins(argument_at(key), "/params/arguments/"@),
        finishes(argument_at(key), key),
{
    let a = "/params/arguments/"@;
    lemma_occurs(Seq::empty(), a, key);
    assert(argument_at(key) =~= Seq::<char>::empty() + a + key);
    lemma_occurs(a, key, Seq::empty());
    assert(argument_at(key) =~= a + key + Seq::<char>::empty());
}

} // verus!
