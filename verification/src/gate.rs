//! The retrieval gate: does this message need the long-term memory?
//!
//! The memory gate fails open. Whatever goes wrong, the memory is searched for the
//! message itself.

use vstd::prelude::*;

use crate::json::{bool_at, check_json, json_bool_at, json_error, json_text_at, text_at};
use crate::model::CreateRequest;
use crate::text::{
    a_replacement_takes_its_place, a_trimmed_text_has_no_blank_ends, blank, chars_of, find_char,
    find_from, find_text, is_blank_text, lemma_find_char, lemma_find_text, lemma_rfind_char,
    occurs, occurs_at, piece, replace, replaced, rfind_char, rfind_from, trimmed,
};

verus! {

pub const GATE_PROMPT: &'static str =
    "You are a retrieval gate for a personal assistant's long-term memory.\nGiven the user's message, decide if answering well requires the user's stored\nmemories (facts about people, projects, preferences, or past events).\n\nReply with ONLY this JSON, nothing else:\n{\"retrieve\": true/false, \"query\": \"<search keywords if true, else empty>\", \"reason\": \"<5 words>\"}\n\nGeneral knowledge, math, small talk, or self-contained requests → false.\nAnything referencing the user's life, people, plans, or history → true.\n\nUser message: {message}";

#[derive(Debug, Clone, PartialEq, Eq)]
pub struct Decision {
    pub retrieve: bool,
    pub query: String,
    pub reason: String,
}

/// A decision by its contents.
#[verifier::ext_equal]
pub struct DecisionV {
    pub retrieve: bool,
    pub query: Seq<char>,
    pub reason: Seq<char>,
}

impl View for Decision {
    type V = DecisionV;

    open spec fn view(&self) -> DecisionV {
        DecisionV { retrieve: self.retrieve, query: self.query@, reason: self.reason@ }
    }
}

pub open spec fn opened(reason: Seq<char>, message: Seq<char>) -> DecisionV {
    DecisionV { retrieve: true, query: message, reason }
}

/// What the words of this gate come to: without a word on it the memory is
/// searched, and a blank query stands for the message.
pub open spec fn answered(
    retrieve: Option<bool>,
    query: Option<Seq<char>>,
    reason: Option<Seq<char>>,
    message: Seq<char>,
) -> DecisionV {
    DecisionV {
        retrieve: retrieve.unwrap_or(true),
        query: match query {
            Some(q) if trimmed(q).len() > 0 => q,
            _ => message,
        },
        reason: match reason {
            Some(r) => r,
            None => Seq::empty(),
        },
    }
}

impl Decision {
    pub fn fail_open(reason: &str, message: &str) -> (r: Decision)
        ensures
            r@ == opened(reason@, message@),
    {
        Decision { retrieve: true, query: message.to_owned(), reason: reason.to_owned() }
    }

    /// The decision that an answer's fields spell.
    pub fn from_fields(
        retrieve: Option<bool>,
        query: Option<String>,
        reason: Option<String>,
        message: &str,
    ) -> (r: Decision)
        ensures
            r@ == answered(
                retrieve,
                match query {
                    Some(q) => Some(q@),
                    None => None,
                },
                match reason {
                    Some(x) => Some(x@),
                    None => None,
                },
                message@,
            ),
    {
        let query = match query {
            Some(q) => {
                if is_blank_text(q.as_str()) {
                    message.to_owned()
                } else {
                    q
                }
            },
            None => message.to_owned(),
        };
        let reason = match reason {
            Some(x) => x,
            None => {
                let empty = String::new();
                assert(empty@ =~= Seq::<char>::empty());
                empty
            },
        };
        let retrieve = match retrieve {
            Some(b) => b,
            None => true,
        };
        Decision { retrieve, query, reason }
    }
}

/// Where the object that is open at `i`, `depth` braces deep, ends. A brace
/// inside a quoted string does not count, nor a quote behind a backslash.
pub open spec fn closed_at(s: Seq<char>, i: int, depth: int, quoted: bool) -> Option<int>
    decreases s.len() + 1 - i,
{
    if i < 0 || i >= s.len() {
        None
    } else if quoted {
        if s[i] == '\\' {
            closed_at(s, i + 2, depth, true)
        } else {
            closed_at(s, i + 1, depth, s[i] != '"')
        }
    } else if s[i] == '"' {
        closed_at(s, i + 1, depth, true)
    } else if s[i] == '{' {
        closed_at(s, i + 1, depth + 1, false)
    } else if s[i] == '}' {
        if depth <= 1 {
            Some(i + 1)
        } else {
            closed_at(s, i + 1, depth - 1, false)
        }
    } else {
        closed_at(s, i + 1, depth, false)
    }
}

/// The first object in a text: from the first opening brace to the one that
/// closes it, or to the last closing brace where none does.
pub open spec fn braced(s: Seq<char>) -> Option<Seq<char>> {
    let a = find_char(s, '{', 0);
    let b = match closed_at(s, a + 1, 1, false) {
        Some(end) => end,
        None => rfind_char(s, '}', s.len() as int),
    };
    if a < s.len() && a < b {
        Some(s.subrange(a, b))
    } else {
        None
    }
}

proof fn lemma_closed_at(s: Seq<char>, i: int, depth: int, quoted: bool)
    requires
        0 <= i,
    ensures
        closed_at(s, i, depth, quoted) matches Some(end) ==> i < end <= s.len() && s[end - 1]
            == '}',
    decreases s.len() + 1 - i,
{
    if i < s.len() {
        lemma_closed_at(s, i + 1, depth, true);
        lemma_closed_at(s, i + 1, depth, false);
        lemma_closed_at(s, i + 2, depth, true);
        lemma_closed_at(s, i + 1, depth + 1, false);
        lemma_closed_at(s, i + 1, depth - 1, false);
    }
}

/// What is picked out starts with an opening brace and ends with a closing one,
/// and something is picked wherever the one stands before the other.
pub proof fn braces_hold_it_all(s: Seq<char>)
    ensures
        match braced(s) {
            Some(t) => t.len() >= 2 && t[0] == '{' && t.last() == '}',
            None => forall|i: int, j: int|
                0 <= i < j < s.len() ==> !(#[trigger] s[i] == '{' && #[trigger] s[j] == '}'),
        },
{
    let a = find_char(s, '{', 0);
    lemma_find_char(s, '{', 0);
    lemma_rfind_char(s, '}', s.len() as int);
    lemma_closed_at(s, a + 1, 1, false);
}

/// What comes after the first object does not count: `{..}` followed by anything
/// gives what `{..}` alone gives.
pub proof fn the_first_object_is_picked(s: Seq<char>, rest: Seq<char>)
    requires
        closed_at(s, find_char(s, '{', 0) + 1, 1, false) is Some,
    ensures
        braced(s + rest) == braced(s),
{
    let a = find_char(s, '{', 0);
    lemma_find_char(s, '{', 0);
    lemma_find_char(s + rest, '{', 0);
    lemma_closed_at(s, a + 1, 1, false);
    assert((s + rest)[a] == s[a]);
    let b = find_char(s + rest, '{', 0);
    if b < a {
        assert((s + rest)[b] == s[b]);
    }
    lemma_closed_before(s, rest, a + 1, 1, false);
    let end = closed_at(s, a + 1, 1, false)->0;
    assert((s + rest).subrange(a, end) =~= s.subrange(a, end));
}

proof fn lemma_closed_before(s: Seq<char>, rest: Seq<char>, i: int, depth: int, quoted: bool)
    requires
        0 <= i,
        closed_at(s, i, depth, quoted) is Some,
    ensures
        closed_at(s + rest, i, depth, quoted) == closed_at(s, i, depth, quoted),
    decreases s.len() + 1 - i,
{
    assert((s + rest)[i] == s[i]);
    if quoted {
        if s[i] == '\\' {
            lemma_closed_before(s, rest, i + 2, depth, true);
        } else {
            lemma_closed_before(s, rest, i + 1, depth, s[i] != '"');
        }
    } else if s[i] == '"' {
        lemma_closed_before(s, rest, i + 1, depth, true);
    } else if s[i] == '{' {
        lemma_closed_before(s, rest, i + 1, depth + 1, false);
    } else if s[i] == '}' {
        if depth > 1 {
            lemma_closed_before(s, rest, i + 1, depth - 1, false);
        }
    } else {
        lemma_closed_before(s, rest, i + 1, depth, false);
    }
}

fn find_close(v: &Vec<char>, from: usize) -> (r: Option<usize>)
    requires
        1 <= from <= v@.len(),
    ensures
        match r {
            Some(end) => closed_at(v@, from as int, 1, false) == Some(end as int),
            None => closed_at(v@, from as int, 1, false) is None,
        },
{
    let n: usize = v.len();
    let mut i: usize = from;
    let mut depth: usize = 1;
    let mut quoted = false;
    while i < n
        invariant
            1 <= from <= i,
            n == v@.len(),
            1 <= depth <= i - from + 1,
            closed_at(v@, from as int, 1, false) == closed_at(v@, i as int, depth as int, quoted),
        decreases n - i,
    {
        let c = v[i];
        if quoted {
            if c == '\\' {
                if n - i < 2 {
                    assert(closed_at(v@, i + 2, depth as int, true) is None);
                    return None;
                }
                i += 1;
            } else if c == '"' {
                quoted = false;
            }
        } else if c == '"' {
            quoted = true;
        } else if c == '{' {
            depth += 1;
        } else if c == '}' {
            if depth <= 1 {
                return Some(i + 1);
            }
            depth -= 1;
        }
        i += 1;
    }
    None
}

pub fn extract_json(text: &str) -> (r: Option<String>)
    ensures
        match r {
            Some(t) => braced(text@) == Some(t@),
            None => braced(text@) is None,
        },
{
    let v = chars_of(text);
    let n: usize = v.len();
    let a: usize = find_from(&v, '{', 0);
    if a >= n {
        proof {
            lemma_find_char(v@, '{', 0);
            lemma_rfind_char(v@, '}', n as int);
        }
        return None;
    }
    proof {
        lemma_closed_at(v@, a + 1, 1, false);
    }
    let b: usize = match find_close(&v, a + 1) {
        Some(end) => end,
        None => rfind_from(&v, '}', n),
    };
    if a < b {
        Some(piece(&v, a, b))
    } else {
        None
    }
}

/// The text from the first opening to the last closing brace.
pub open spec fn brace_span(s: Seq<char>) -> Option<Seq<char>> {
    let a = find_char(s, '{', 0);
    let b = rfind_char(s, '}', s.len() as int);
    if a < s.len() && a < b {
        Some(s.subrange(a, b))
    } else {
        None
    }
}

pub fn outer_braces(text: &str) -> (r: Option<String>)
    ensures
        match r {
            Some(t) => brace_span(text@) == Some(t@),
            None => brace_span(text@) is None,
        },
{
    let v = chars_of(text);
    let n: usize = v.len();
    let a: usize = find_from(&v, '{', 0);
    let b: usize = rfind_from(&v, '}', n);
    if a < n && a < b {
        Some(piece(&v, a, b))
    } else {
        None
    }
}

/// What this gate decides on a message, given what the model answered.
pub open spec fn gate_reads(answer: Seq<char>, message: Seq<char>) -> DecisionV {
    match braced(answer) {
        None => opened("gate 没返回 JSON — 失败开放"@, message),
        Some(json) => if json_error(json) is Some {
            opened("gate 的 JSON 解析失败 — 失败开放"@, message)
        } else {
            answered(
                json_bool_at(json, "/retrieve"@),
                json_text_at(json, "/query"@),
                json_text_at(json, "/reason"@),
                message,
            )
        },
    }
}

pub fn gate_request(small_model: &str, message: &str) -> (r: CreateRequest)
    ensures
        r.asks(small_model@, None, replaced(GATE_PROMPT@, "{message}"@, message@), 600),
{
    proof {
        reveal_strlit("{message}");
    }
    let prompt = replace(GATE_PROMPT, "{message}", message);
    CreateRequest::question(small_model, None, prompt, 600)
}

/// Decides whether to search, given the model's answer or the error that came
/// in its place.
pub fn should_retrieve(answer: Result<String, String>, message: &str) -> (r: Decision)
    ensures
        r@ == match answer {
            Err(e) => opened("gate 调用失败，失败开放（"@ + e@ + "）"@, message@),
            Ok(text) => gate_reads(text@, message@),
        },
{
    let text = match answer {
        Err(e) => {
            let mut why = "gate 调用失败，失败开放（".to_owned();
            why.append(e.as_str());
            why.append("）");
            return Decision::fail_open(why.as_str(), message);
        },
        Ok(text) => text,
    };
    match extract_json(text.as_str()) {
        None => Decision::fail_open("gate 没返回 JSON — 失败开放", message),
        Some(json) => match check_json(json.as_str()) {
            Err(_) => Decision::fail_open("gate 的 JSON 解析失败 — 失败开放", message),
            Ok(_) => {
                let retrieve = bool_at(json.as_str(), "/retrieve");
                let query = text_at(json.as_str(), "/query");
                let reason = text_at(json.as_str(), "/reason");
                Decision::from_fields(retrieve, query, reason, message)
            },
        },
    }
}

/// This gate fails open: an answer that cannot be read leads to a search for the
/// message itself.
pub proof fn the_gate_fails_open(answer: Seq<char>, message: Seq<char>)
    ensures
        braced(answer) is None || json_error(braced(answer)->0) is Some ==> gate_reads(
            answer,
            message,
        ).retrieve && gate_reads(answer, message).query == message,
        gate_reads(answer, message).retrieve && trimmed(message).len() > 0 ==> trimmed(
            gate_reads(answer, message).query,
        ).len() > 0,
{
}

/// A search is left out only where the answer says so in so many words. It is for
/// the query of the answer where that says anything, and for the message otherwise;
/// the reason is the answer's own.
pub proof fn only_a_clear_no_leaves_the_search_out(
    retrieve: Option<bool>,
    query: Option<Seq<char>>,
    reason: Option<Seq<char>>,
    message: Seq<char>,
)
    ensures
        answered(retrieve, query, reason, message).retrieve <==> retrieve != Some(false),
        query matches Some(q) && (exists|k: int| 0 <= k < q.len() && !blank(#[trigger] q[k]))
            ==> answered(retrieve, query, reason, message).query == query->0,
        query is None || (forall|k: int| 0 <= k < query->0.len() ==> blank(#[trigger] query->0[k]))
            ==> answered(retrieve, query, reason, message).query == message,
        reason matches Some(r) ==> answered(retrieve, query, reason, message).reason == r,
        reason is None ==> answered(retrieve, query, reason, message).reason.len() == 0,
{
    if query is Some {
        a_trimmed_text_has_no_blank_ends(query->0);
    }
}

/// An answer that can be read decides by its own fields.
pub proof fn a_readable_answer_decides(answer: Seq<char>, message: Seq<char>)
    requires
        braced(answer) is Some,
        json_error(braced(answer)->0) is None,
    ensures
        ({
            let json = braced(answer)->0;
            let d = gate_reads(answer, message);
            let query = json_text_at(json, "/query"@);
            &&& d.retrieve <==> json_bool_at(json, "/retrieve"@) != Some(false)
            &&& query is Some && trimmed(query->0).len() > 0 ==> d.query == query->0
            &&& query is None || trimmed(query->0).len() == 0 ==> d.query == message
            &&& json_text_at(json, "/reason"@) matches Some(r) ==> d.reason == r
        }),
{
}

/// The outer braces are the first that opens and the last that closes: outside of
/// them nothing opens before, and nothing closes behind.
pub proof fn outer_braces_are_the_outermost(s: Seq<char>)
    ensures
        match brace_span(s) {
            Some(t) => exists|a: int, b: int|
                0 <= a < b <= s.len() && t == #[trigger] s.subrange(a, b) && s[a] == '{' && s[b - 1]
                    == '}' && (forall|k: int| 0 <= k < a ==> #[trigger] s[k] != '{') && (forall|
                    k: int,
                |
                    b <= k < s.len() ==> #[trigger] s[k] != '}'),
            None => forall|i: int, j: int|
                0 <= i < j < s.len() ==> !(#[trigger] s[i] == '{' && #[trigger] s[j] == '}'),
        },
{
    let a = find_char(s, '{', 0);
    let b = rfind_char(s, '}', s.len() as int);
    lemma_find_char(s, '{', 0);
    lemma_rfind_char(s, '}', s.len() as int);
    if brace_span(s) is Some {
        assert(brace_span(s)->0 == s.subrange(a, b));
    }
}

/// A prompt with a place for the message holds the message, whatever it says.
pub proof fn a_prompt_holds_its_message(template: Seq<char>, message: Seq<char>)
    requires
        occurs(template, "{message}"@),
    ensures
        occurs(replaced(template, "{message}"@, message), message),
{
    reveal_strlit("{message}");
    lemma_find_text(template, "{message}"@, 0);
    let some = choose|k: int| occurs_at(template, "{message}"@, k);
    let at = find_text(template, "{message}"@, 0);
    if at < 0 {
        assert(!occurs_at(template, "{message}"@, some));
    }
    a_replacement_takes_its_place(template, "{message}"@, message, at);
}

/// Inside a quoted text only a plain quote counts: braces are passed over, and so is
/// whatever stands behind a backslash. Outside, a brace opens or closes, and the one
/// that closes the outermost object ends it.
pub proof fn quoted_braces_do_not_count(s: Seq<char>, i: int, depth: int)
    requires
        0 <= i < s.len(),
        depth >= 1,
    ensures
        s[i] == '\\' ==> closed_at(s, i, depth, true) == closed_at(s, i + 2, depth, true),
        s[i] == '{' || s[i] == '}' ==> closed_at(s, i, depth, true) == closed_at(
            s,
            i + 1,
            depth,
            true,
        ),
        s[i] == '"' ==> closed_at(s, i, depth, true) == closed_at(s, i + 1, depth, false),
        s[i] == '"' ==> closed_at(s, i, depth, false) == closed_at(s, i + 1, depth, true),
        s[i] == '{' ==> closed_at(s, i, depth, false) == closed_at(s, i + 1, depth + 1, false),
        s[i] == '}' ==> closed_at(s, i, depth, false) == if depth == 1 {
            Some(i + 1)
        } else {
            closed_at(s, i + 1, depth - 1, false)
        },
        closed_at(s, s.len() as int, depth, false) is None,
{
}

} // verus!
