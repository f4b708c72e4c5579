//! What goes over the wire to a server of tools, and what is made of its replies.

use vstd::prelude::*;

use crate::json::{
    bool_at, check_json, count_at, json_bool_at, json_count_at, json_error, json_text_at,
    json_unsigned_at, json_written_at, list_len, place, place_of, text_at, unsigned_at, written_at,
};
use crate::subagent::text_result;
use crate::text::{
    a_joined_text_holds_its_parts, a_line_ends_at_its_feed, begins, chars_of, contains, decimal,
    finishes, head, is_blank_text, join, joined, lemma_occurs, line_views, lines, occurs,
    occurs_at, opt_text, piece, push_decimal, same, starts_with, take_chars, to_decimal, trim,
    trimmed, views,
};

verus! {

pub const PROTOCOL_VERSION: &'static str = "2025-06-18";

pub const CLIENT_NAME: &'static str = "joy";

// ---- numbers of requests ---------------------------------------------------

/// Gives each request of a session its number.
pub struct RequestIds {
    next: u64,
}

impl View for RequestIds {
    type V = u64;

    closed spec fn view(&self) -> u64 {
        self.next
    }
}

impl RequestIds {
    pub fn new() -> (r: RequestIds)
        ensures
            r@ == 1,
    {
        RequestIds { next: 1 }
    }

    /// The next number: each is one more than the one before, so none comes
    /// twice.
    pub fn take(&mut self) -> (r: u64)
        requires
            old(self)@ < u64::MAX,
        ensures
            r == old(self)@,
            final(self)@ == old(self)@ + 1,
    {
        let id: u64 = self.next;
        self.next = id + 1;
        id
    }
}

// ---- replies ---------------------------------------------------------------

/// What a message says: its result, or its error in words. All is JSON text.
pub open spec fn reply_of(
    error: Option<Seq<char>>,
    message: Option<Seq<char>>,
    code: Option<Seq<char>>,
    result: Option<Seq<char>>,
) -> Result<Seq<char>, Seq<char>> {
    if error is Some && error->0 != "null"@ {
        Err(
            (match message {
                Some(m) => m,
                None => "（没有说明）"@,
            }) + " ("@ + (match code {
                Some(c) => c,
                None => ""@,
            }) + ")"@,
        )
    } else {
        Ok(
            match result {
                Some(r) => r,
                None => "null"@,
            },
        )
    }
}

pub fn reply_of_fields(
    error: Option<String>,
    message: Option<String>,
    code: Option<String>,
    result: Option<String>,
) -> (r: Result<String, String>)
    ensures
        text_result(r) == reply_of(
            opt_text(error),
            opt_text(message),
            opt_text(code),
            opt_text(result),
        ),
{
    let failed = match &error {
        Some(e) => !same(e.as_str(), "null"),
        None => false,
    };
    if failed {
        let mut t = match message {
            Some(m) => m,
            None => "（没有说明）".to_owned(),
        };
        t.append(" (");
        match code {
            Some(c) => {
                t.append(c.as_str());
            },
            None => {
                t.append("");
            },
        }
        t.append(")");
        return Err(t);
    }
    match result {
        Some(t) => Ok(t),
        None => Ok("null".to_owned()),
    }
}

/// What the message in a text says.
pub open spec fn unwrapped(message: Seq<char>) -> Result<Seq<char>, Seq<char>> {
    reply_of(
        json_written_at(message, "/error"@),
        json_text_at(message, "/error/message"@),
        json_written_at(message, "/error/code"@),
        json_written_at(message, "/result"@),
    )
}

pub fn unwrap_message(message: &str) -> (r: Result<String, String>)
    ensures
        text_result(r) == unwrapped(message@),
{
    reply_of_fields(
        written_at(message, "/error"),
        text_at(message, "/error/message"),
        written_at(message, "/error/code"),
        written_at(message, "/result"),
    )
}

/// What a line from a server means to the request that waits.
#[derive(Debug, PartialEq, Eq)]
pub enum LineVerdict {
    /// It is not for this request.
    Skip,
    Reply(Result<String, String>),
}

/// A line answers a request where it is JSON and carries its number. A line that
/// is something else, or for someone else, is passed over.
pub open spec fn answers_request(line: Seq<char>, id: u64) -> bool {
    trimmed(line).len() > 0 && json_error(trimmed(line)) is None && json_unsigned_at(
        trimmed(line),
        "/id"@,
    ) == Some(id)
}

pub fn judge_line(line: &str, id: u64) -> (r: LineVerdict)
    ensures
        if answers_request(line@, id) {
            r matches LineVerdict::Reply(reply) && text_result(reply) == unwrapped(trimmed(line@))
        } else {
            r is Skip
        },
{
    if is_blank_text(line) {
        return LineVerdict::Skip;
    }
    let text = trim(line);
    if check_json(text.as_str()).is_err() {
        return LineVerdict::Skip;
    }
    match unsigned_at(text.as_str(), "/id") {
        Some(n) => if n == id {
            LineVerdict::Reply(unwrap_message(text.as_str()))
        } else {
            LineVerdict::Skip
        },
        None => LineVerdict::Skip,
    }
}

// ---- HTTP ------------------------------------------------------------------

pub open spec fn first_text(text: Seq<char>) -> Seq<char> {
    let all = line_views(text);
    head(
        trimmed(
            if all.len() > 0 {
                all[0]
            } else {
                ""@
            },
        ),
        200,
    )
}

/// The first line of a reply, cut short: it may be a whole page.
pub fn first_line(text: &str) -> (r: String)
    ensures
        r@ == first_text(text@),
{
    let all = lines(text);
    assert(views(all@).len() == all@.len());
    if all.len() > 0 {
        assert(views(all@)[0] == all@[0]@);
        take_chars(trim(all[0].as_str()).as_str(), 200)
    } else {
        take_chars(trim("").as_str(), 200)
    }
}

pub open spec fn http_error(status: u16, text: Seq<char>) -> Seq<char> {
    "HTTP "@ + decimal(status as nat) + "："@ + first_text(text)
}

fn http_failure(status: u16, text: &str) -> (r: String)
    ensures
        r@ == http_error(status, text@),
{
    let mut t = "HTTP ".to_owned();
    t.append(to_decimal(status as u64).as_str());
    t.append("：");
    t.append(first_line(text).as_str());
    t
}

pub open spec fn status_is_fine(status: u16) -> bool {
    200 <= status < 300
}

/// What the reply to a notification means. An empty one means that it arrived.
pub fn notify_outcome(status: u16, text: &str) -> (r: Result<(), String>)
    ensures
        if status == 202 || trimmed(text@).len() == 0 || status_is_fine(status) {
            r is Ok
        } else {
            r matches Err(e) && e@ == http_error(status, text@)
        },
{
    if status == 202 || is_blank_text(text) {
        return Ok(());
    }
    if !(200 <= status && status < 300) {
        return Err(http_failure(status, text));
    }
    Ok(())
}

/// What a line of a stream carries, if it carries anything.
pub open spec fn data_of(line: Seq<char>) -> Option<Seq<char>> {
    if begins(line, "data:"@) {
        Some(trimmed(line.subrange(5, line.len() as int)))
    } else {
        None
    }
}

pub open spec fn carries(line: Seq<char>, id: u64) -> bool {
    match data_of(line) {
        Some(data) => json_error(data) is None && json_unsigned_at(data, "/id"@) == Some(id),
        None => false,
    }
}

/// The first message with this number from line `i` on.
pub open spec fn found_from(lines: Seq<Seq<char>>, id: u64, i: int) -> Option<Seq<char>>
    decreases lines.len() - i,
{
    if i < 0 || i >= lines.len() {
        None
    } else if carries(lines[i], id) {
        data_of(lines[i])
    } else {
        found_from(lines, id, i + 1)
    }
}

fn data_on(line: &str) -> (r: Option<String>)
    ensures
        opt_text(r) == data_of(line@),
{
    proof {
        reveal_strlit("data:");
        assert("data:"@.len() == 5);
    }
    if !starts_with(line, "data:") {
        return None;
    }
    let v = chars_of(line);
    let rest = piece(&v, 5, v.len());
    Some(trim(rest.as_str()))
}

/// The message with this number in a stream.
pub fn find_in_stream(text: &str, id: u64) -> (r: Option<String>)
    ensures
        opt_text(r) == found_from(line_views(text@), id, 0),
{
    let all = lines(text);
    let n: usize = all.len();
    let ghost seen = views(all@);
    assert(seen.len() == n);
    let mut i: usize = 0;
    while i < n
        invariant
            i <= n,
            n == all@.len(),
            n == seen.len(),
            seen == views(all@),
            seen == line_views(text@),
            found_from(seen, id, 0) == found_from(seen, id, i as int),
        decreases n - i,
    {
        assert(seen[i as int] == all@[i as int]@);
        match data_on(all[i].as_str()) {
            Some(data) => {
                if check_json(data.as_str()).is_ok() {
                    match unsigned_at(data.as_str(), "/id") {
                        Some(k) => {
                            if k == id {
                                return Some(data);
                            }
                        },
                        None => {},
                    }
                }
            },
            None => {},
        }
        i += 1;
    }
    None
}

/// The place of the first message with this number in a list, from `k` on.
pub open spec fn listed_from(text: Seq<char>, n: nat, id: u64, k: nat) -> Option<nat>
    decreases n - k,
{
    if k >= n {
        None
    } else if json_unsigned_at(text, place_of(""@, k, "id"@)) == Some(id) {
        Some(k)
    } else {
        listed_from(text, n, id, k + 1)
    }
}

/// The place of element `k` of a list that is the whole document.
pub open spec fn element_at(k: nat) -> Seq<char> {
    "/"@ + decimal(k)
}

/// What the reply to a request means.
pub open spec fn http_reply(
    status: u16,
    content_type: Seq<char>,
    text: Seq<char>,
    id: u64,
) -> Result<Seq<char>, Seq<char>> {
    if !status_is_fine(status) {
        Err(http_error(status, text))
    } else if occurs(content_type, "text/event-stream"@) {
        match found_from(line_views(text), id, 0) {
            Some(message) => unwrapped(message),
            None => Err("SSE 流里没有我们要的那个应答"@),
        }
    } else if trimmed(text).len() == 0 {
        Err("服务器回了个空身体"@)
    } else if json_error(text) is Some {
        Err("回话不是 JSON："@ + json_error(text)->0)
    } else {
        match json_count_at(text, ""@) {
            Some(n) => match listed_from(text, n as nat, id, 0) {
                Some(k) => match json_written_at(text, element_at(k)) {
                    Some(message) => unwrapped(message),
                    None => Err("回话里没有我们要的那个应答"@),
                },
                None => Err("回话里没有我们要的那个应答"@),
            },
            None => unwrapped(text),
        }
    }
}

fn find_in_list(text: &str, n: usize, id: u64) -> (r: Option<usize>)
    ensures
        match r {
            Some(k) => listed_from(text@, n as nat, id, 0) == Some(k as nat),
            None => listed_from(text@, n as nat, id, 0) is None,
        },
{
    let mut k: usize = 0;
    while k < n
        invariant
            k <= n,
            listed_from(text@, n as nat, id, 0) == listed_from(text@, n as nat, id, k as nat),
        decreases n - k,
    {
        match unsigned_at(text, place("", k, "id").as_str()) {
            Some(m) => {
                if m == id {
                    return Some(k);
                }
            },
            None => {},
        }
        k += 1;
    }
    None
}

pub fn request_outcome(status: u16, content_type: &str, text: &str, id: u64) -> (r: Result<
    String,
    String,
>)
    ensures
        text_result(r) == http_reply(status, content_type@, text@, id),
{
    if !(200 <= status && status < 300) {
        return Err(http_failure(status, text));
    }
    if contains(content_type, "text/event-stream") {
        return match find_in_stream(text, id) {
            Some(message) => unwrap_message(message.as_str()),
            None => Err("SSE 流里没有我们要的那个应答".to_owned()),
        };
    }
    if is_blank_text(text) {
        return Err("服务器回了个空身体".to_owned());
    }
    match check_json(text) {
        Ok(_) => {},
        Err(e) => {
            let mut why = "回话不是 JSON：".to_owned();
            why.append(e.as_str());
            return Err(why);
        },
    }
    match count_at(text, "") {
        Some(n) => match find_in_list(text, n, id) {
            Some(k) => {
                let mut at = "/".to_owned();
                push_decimal(&mut at, k as u64);
                match written_at(text, at.as_str()) {
                    Some(message) => unwrap_message(message.as_str()),
                    None => Err("回话里没有我们要的那个应答".to_owned()),
                }
            },
            None => Err("回话里没有我们要的那个应答".to_owned()),
        },
        None => unwrap_message(text),
    }
}

// ---- tools -----------------------------------------------------------------

/// A tool as a server reports it. The schema is rendered JSON.
#[derive(Debug, Clone, PartialEq, Eq)]
pub struct ToolMeta {
    pub name: String,
    pub description: Option<String>,
    /// The schema, where it is an object.
    pub input_schema: Option<String>,
}

/// The schema of a tool that takes nothing.
pub const NO_ARGUMENTS: &'static str = "{\"properties\":{},\"type\":\"object\"}";

impl ToolMeta {
    /// The schema that a model is told.
    pub fn schema(&self) -> (r: String)
        ensures
            r@ == match self.input_schema {
                Some(s) => s@,
                None => NO_ARGUMENTS@,
            },
    {
        match &self.input_schema {
            Some(s) => s.clone(),
            None => NO_ARGUMENTS.to_owned(),
        }
    }
}

/// What is shown of a piece of a tool's output.
pub open spec fn shown_piece(text: Option<Seq<char>>) -> Seq<char> {
    match text {
        Some(t) => if t.len() > 0 {
            t
        } else {
            "[非文本内容]"@
        },
        None => "[非文本内容]"@,
    }
}

pub open spec fn opt_texts(pieces: Seq<Option<String>>) -> Seq<Option<Seq<char>>> {
    pieces.map_values(|p: Option<String>| opt_text(p))
}

pub open spec fn shown_pieces(pieces: Seq<Option<Seq<char>>>) -> Seq<Seq<char>> {
    pieces.map_values(|p: Option<Seq<char>>| shown_piece(p))
}

/// What a tool's output comes to: its pieces, or word that there are none, as a
/// result or as a failure.
pub open spec fn output_of(pieces: Seq<Option<Seq<char>>>, failed: bool) -> Result<
    Seq<char>,
    Seq<char>,
> {
    let text = joined(shown_pieces(pieces), "\n"@);
    let said = if text.len() == 0 {
        "(没有输出)"@
    } else {
        text
    };
    if failed {
        Err(said)
    } else {
        Ok(said)
    }
}

pub fn output_of_pieces(pieces: &Vec<Option<String>>, failed: bool) -> (r: Result<String, String>)
    ensures
        text_result(r) == output_of(opt_texts(pieces@), failed),
{
    let ghost all = shown_pieces(opt_texts(pieces@));
    let mut parts: Vec<String> = Vec::new();
    let mut i: usize = 0;
    assert(views(parts@) =~= all.take(0));
    while i < pieces.len()
        invariant
            i <= pieces@.len(),
            all == shown_pieces(opt_texts(pieces@)),
            views(parts@) == all.take(i as int),
        decreases pieces@.len() - i,
    {
        let ghost before = views(parts@);
        let part = match &pieces[i] {
            Some(t) => if t.as_str().unicode_len() > 0 {
                t.clone()
            } else {
                "[非文本内容]".to_owned()
            },
            None => "[非文本内容]".to_owned(),
        };
        assert(opt_texts(pieces@)[i as int] == opt_text(pieces@[i as int]));
        assert(part@ == all[i as int]);
        parts.push(part);
        assert(views(parts@) =~= before.push(part@));
        assert(all.take(i + 1) =~= before.push(part@));
        i += 1;
    }
    assert(all.take(pieces@.len() as int) =~= all);
    let text = join(&parts, "\n");
    let said = if text.as_str().unicode_len() == 0 {
        "(没有输出)".to_owned()
    } else {
        text
    };
    if failed {
        Err(said)
    } else {
        Ok(said)
    }
}

/// The pieces of text that a result holds.
pub open spec fn result_pieces(result: Seq<char>) -> Seq<Option<Seq<char>>> {
    Seq::new(
        list_len(json_count_at(result, "/content"@)),
        |i: int| json_text_at(result, place_of("/content"@, i as nat, "text"@)),
    )
}

/// What a tool gave back, for a model to read. `result` is the result of the
/// call, as JSON.
pub fn tool_text(result: &str) -> (r: Result<String, String>)
    ensures
        text_result(r) == output_of(
            result_pieces(result@),
            json_bool_at(result@, "/isError"@) == Some(true),
        ),
{
    let n: usize = match count_at(result, "/content") {
        Some(n) => n,
        None => 0,
    };
    let ghost all = result_pieces(result@);
    let mut pieces: Vec<Option<String>> = Vec::new();
    let mut i: usize = 0;
    assert(opt_texts(pieces@) =~= all.take(0));
    while i < n
        invariant
            i <= n,
            n == all.len(),
            all == result_pieces(result@),
            opt_texts(pieces@) == all.take(i as int),
        decreases n - i,
    {
        let ghost before = opt_texts(pieces@);
        let piece = text_at(result, place("/content", i, "text").as_str());
        assert(opt_text(piece) == all[i as int]);
        pieces.push(piece);
        assert(opt_texts(pieces@) =~= before.push(opt_text(piece)));
        assert(all.take(i + 1) =~= before.push(opt_text(piece)));
        i += 1;
    }
    assert(all.take(n as int) =~= all);
    let failed = match bool_at(result, "/isError") {
        Some(b) => b,
        None => false,
    };
    output_of_pieces(&pieces, failed)
}

// ---- what is read of an answer ---------------------------------------------

/// An answer with an error is an error, which says what the server said and its
/// code; one without is its result.
pub proof fn an_error_is_an_error(
    error: Option<Seq<char>>,
    message: Seq<char>,
    code: Seq<char>,
    result: Seq<char>,
)
    ensures
        error is Some && error->0 != "null"@ ==> ({
            let r = reply_of(error, Some(message), Some(code), Some(result));
            r is Err && occurs(r->Err_0, message) && occurs(r->Err_0, code)
        }),
        error is None || error->0 == "null"@ ==> reply_of(
            error,
            Some(message),
            Some(code),
            Some(result),
        ) == Ok::<Seq<char>, Seq<char>>(result),
        error is None ==> reply_of(error, Some(message), Some(code), None) is Ok,
{
    let a = " ("@;
    let b = ")"@;
    lemma_occurs(Seq::empty(), message, a + code + b);
    assert(message + a + code + b =~= Seq::<char>::empty() + message + (a + code + b));
    lemma_occurs(message + a, code, b);
}

/// A line of a stream is data where it says so, without the blanks around it.
pub proof fn a_data_line_is_its_data(data: Seq<char>, line: Seq<char>)
    ensures
        data_of("data:"@ + data) == Some(trimmed(data)),
        !begins(line, "data:"@) ==> data_of(line) is None,
{
    reveal_strlit("data:");
    let whole = "data:"@ + data;
    assert(whole.subrange(0, 5) =~= "data:"@);
    assert(whole.subrange(5, whole.len() as int) =~= data);
}

/// Of a stream the first message with the id counts, wherever it stands.
pub proof fn the_first_message_of_the_id_counts(lines: Seq<Seq<char>>, id: u64, from: int, i: int)
    requires
        0 <= from <= i < lines.len(),
        forall|k: int| from <= k < i ==> !carries(#[trigger] lines[k], id),
    ensures
        carries(lines[i], id) ==> found_from(lines, id, from) == data_of(lines[i]) && found_from(
            lines,
            id,
            from,
        ) is Some,
        !carries(lines[i], id) ==> found_from(lines, id, from) == found_from(lines, id, i + 1),
        found_from(lines, id, lines.len() as int) is None,
    decreases i - from,
{
    if from < i {
        assert(!carries(lines[from], id));
        the_first_message_of_the_id_counts(lines, id, from + 1, i);
    }
}

/// A message is for a request where it is JSON and bears the id of the request.
pub proof fn a_message_bears_its_id(line: Seq<char>, id: u64, other: u64)
    requires
        id != other,
    ensures
        carries(line, id) ==> !carries(line, other),
        answers_request(line, id) ==> !answers_request(line, other),
        carries(line, id) ==> data_of(line) is Some && json_unsigned_at(data_of(line)->0, "/id"@)
            == Some(id),
        answers_request(line, id) ==> json_unsigned_at(trimmed(line), "/id"@) == Some(id),
{
}

/// Of a list the first answer with the id counts.
pub proof fn the_first_answer_of_the_id_counts(text: Seq<char>, n: nat, id: u64, k: nat)
    requires
        k <= n,
    ensures
        match listed_from(text, n, id, k) {
            Some(at) => k <= at < n && json_unsigned_at(text, place_of(""@, at, "id"@)) == Some(id),
            None => forall|j: nat|
                k <= j < n ==> json_unsigned_at(text, #[trigger] place_of(""@, j, "id"@)) != Some(
                    id,
                ),
        },
        forall|j: nat|
            k <= j < n && (listed_from(text, n, id, k) matches Some(at) ==> j < at)
                ==> json_unsigned_at(text, #[trigger] place_of(""@, j, "id"@)) != Some(id),
    decreases n - k,
{
    if k < n && json_unsigned_at(text, place_of(""@, k, "id"@)) != Some(id) {
        the_first_answer_of_the_id_counts(text, n, id, k + 1);
    }
}

/// A status is fine from 200 to 299, and an error names it with the first line of
/// what came.
pub proof fn a_bad_status_is_told(status: u16, content_type: Seq<char>, text: Seq<char>, id: u64)
    ensures
        status_is_fine(status) <==> status / 100 == 2,
        !status_is_fine(status) ==> http_reply(status, content_type, text, id) == Err::<
            Seq<char>,
            Seq<char>,
        >(http_error(status, text)),
        occurs(http_error(status, text), decimal(status as nat)),
        finishes(http_error(status, text), first_text(text)),
{
    let a = "HTTP "@;
    let n = decimal(status as nat);
    let b = "："@;
    let t = first_text(text);
    let all = http_error(status, text);
    lemma_occurs(a, n, b + t);
    assert(all =~= a + n + (b + t));
    lemma_occurs(a + n + b, t, Seq::empty());
    assert(all =~= (a + n + b) + t + Seq::<char>::empty());
}

/// A plain answer is read as it is, one of a stream from the message that bears the
/// id; what cannot be read says why.
pub proof fn an_answer_is_read_by_its_kind(content_type: Seq<char>, text: Seq<char>, id: u64)
    ensures
        ({
            let r = http_reply(200, content_type, text, id);
            let stream = occurs(content_type, "text/event-stream"@);
            &&& stream && found_from(line_views(text), id, 0) is Some ==> r == unwrapped(
                found_from(line_views(text), id, 0)->0,
            )
            &&& stream && found_from(line_views(text), id, 0) is None ==> r is Err
            &&& !stream && trimmed(text).len() == 0 ==> r is Err
            &&& !stream && trimmed(text).len() > 0 && json_error(text) is Some ==> r is Err
                && finishes(r->Err_0, json_error(text)->0)
            &&& !stream && trimmed(text).len() > 0 && json_error(text) is None && json_count_at(
                text,
                ""@,
            ) is None ==> r == unwrapped(text)
        }),
{
    if json_error(text) is Some {
        let a = "回话不是 JSON："@;
        let e = json_error(text)->0;
        lemma_occurs(a, e, Seq::empty());
        assert(a + e =~= a + e + Seq::<char>::empty());
    }
}

/// What an answer unwraps to is its own result, unless it bears an error.
pub proof fn a_result_is_unwrapped(message: Seq<char>)
    ensures
        json_written_at(message, "/error"@) is None && json_written_at(message, "/result"@) is Some
            ==> unwrapped(message) == Ok::<Seq<char>, Seq<char>>(
            json_written_at(message, "/result"@)->0,
        ),
        json_written_at(message, "/error"@) is Some && json_written_at(message, "/error"@)->0
            != "null"@ ==> unwrapped(message) is Err,
{
}

/// The first line of a text is what is told of it, without the blanks around it and
/// cut to 200 characters.
pub proof fn the_first_line_is_told(line: Seq<char>, rest: Seq<char>)
    requires
        !line.contains('\n'),
        line.len() > 0,
        line.last() != '\r',
        trimmed(line).len() <= 200,
    ensures
        first_text(line + seq!['\n'] + rest) == trimmed(line),
        first_text(line) == trimmed(line),
{
    a_line_ends_at_its_feed(line, rest);
    let more = line_views(line + seq!['\n'] + rest);
    assert(more[0] == line);
}

/// The output of a tool is all of its pieces, each on lines of its own and in their
/// order; a piece without text is marked.
pub proof fn every_piece_is_shown(pieces: Seq<Option<Seq<char>>>, failed: bool, i: int)
    requires
        0 <= i < pieces.len(),
    ensures
        ({
            let r = output_of(pieces, failed);
            let text = match r {
                Ok(t) => t,
                Err(t) => t,
            };
            &&& r is Err <==> failed
            &&& pieces[i] matches Some(t) ==> occurs(text, t)
            &&& pieces[i] is None ==> occurs(text, "[非文本内容]"@)
        }),
{
    reveal_strlit("[非文本内容]");
    let shown = shown_pieces(pieces);
    let text = joined(shown, "\n"@);
    assert(shown[i].len() > 0);
    assert(shown =~= shown.take(i) + seq![shown[i]] + shown.skip(i + 1));
    a_joined_text_holds_its_parts(shown.take(i), shown[i], shown.skip(i + 1), "\n"@);
    assert(text.len() > 0) by {
        let k = choose|k: int| occurs_at(text, shown[i], k);
        assert(occurs_at(text, shown[i], k));
    }
    if pieces[i] is Some && pieces[i]->0.len() == 0 {
        lemma_occurs(Seq::empty(), pieces[i]->0, text);
        assert(Seq::<char>::empty() + pieces[i]->0 + text =~= text);
    }
}

/// The pieces of a result are the texts of its content, one for each entry.
pub proof fn pieces_are_the_content(result: Seq<char>, n: usize, i: int)
    requires
        json_count_at(result, "/content"@) == Some(n),
        0 <= i < n,
    ensures
        result_pieces(result).len() == n,
        result_pieces(result)[i] == json_text_at(
            result,
            "/content/"@ + decimal(i as nat) + "/text"@,
        ),
{
    reveal_strlit("/content");
    reveal_strlit("/content/");
    reveal_strlit("/");
    reveal_strlit("text");
    reveal_strlit("/text");
    assert(place_of("/content"@, i as nat, "text"@) =~= "/content/"@ + decimal(i as nat)
        + "/text"@);
}

} // verus!
