//! JSON values, and questions put to a JSON text.

use vstd::prelude::*;

use crate::text::{decimal, push_decimal};

verus! {

/// A JSON value. A number that is no 64-bit integer keeps its text.
#[derive(Debug, PartialEq, Eq)]
pub enum Json {
    Null,
    Bool(bool),
    Int(i64),
    Number(String),
    Text(String),
    List(Vec<Json>),
    Object(Vec<(String, Json)>),
}

impl Json {
    pub open spec fn text(self) -> Option<Seq<char>> {
        match self {
            Json::Text(t) => Some(t@),
            _ => None,
        }
    }

    pub open spec fn whole(self) -> Option<i64> {
        match self {
            Json::Int(n) => Some(n),
            _ => None,
        }
    }

    pub fn as_str(&self) -> (r: Option<&str>)
        ensures
            match r {
                Some(t) => self.text() == Some(t@),
                None => self.text() is None,
            },
    {
        match self {
            Json::Text(t) => Some(t.as_str()),
            _ => None,
        }
    }

    pub fn as_i64(&self) -> (r: Option<i64>)
        ensures
            r == self.whole(),
    {
        match self {
            Json::Int(n) => Some(*n),
            _ => None,
        }
    }

    pub fn of_text(text: &str) -> (r: Json)
        ensures
            r.text() == Some(text@),
            r is Text,
    {
        Json::Text(text.to_owned())
    }
}

// ---- questions put to a JSON text ------------------------------------------
//
// A pointer such as `/facts/0/subject` names a place within the document.

/// Why a text is no JSON document; `None` where it is one.
pub uninterp spec fn json_error(text: Seq<char>) -> Option<Seq<char>>;

/// `serde_json::from_str` into a `Value`. Which texts it takes, and what it
/// says of the others, depends on the text alone and is not spelled out.
#[verifier::external_body]
pub(crate) fn check_json(text: &str) -> (r: Result<(), String>)
    ensures
        match r {
            Ok(_) => json_error(text@) is None,
            Err(e) => json_error(text@) == Some(e@),
        },
{
    serde_json::from_str::<serde_json::Value>(text).map(|_| ()).map_err(|e| e.to_string())
}

/// The string at a place of a document.
pub uninterp spec fn json_text_at(text: Seq<char>, pointer: Seq<char>) -> Option<Seq<char>>;

/// `Value::pointer`, then `Value::as_str`, on the parsed text. `None` where the
/// text is no document, the place is missing, or it holds no string.
#[verifier::external_body]
pub(crate) fn text_at(text: &str, pointer: &str) -> (r: Option<String>)
    ensures
        match r {
            Some(t) => json_text_at(text@, pointer@) == Some(t@),
            None => json_text_at(text@, pointer@) is None,
        },
{
    let value = serde_json::from_str::<serde_json::Value>(text).ok()?;
    value.pointer(pointer)?.as_str().map(str::to_string)
}

/// The boolean at a place of a document.
pub uninterp spec fn json_bool_at(text: Seq<char>, pointer: Seq<char>) -> Option<bool>;

/// `Value::pointer`, then `Value::as_bool`, on the parsed text.
#[verifier::external_body]
pub(crate) fn bool_at(text: &str, pointer: &str) -> (r: Option<bool>)
    ensures
        r == json_bool_at(text@, pointer@),
{
    let value = serde_json::from_str::<serde_json::Value>(text).ok()?;
    value.pointer(pointer)?.as_bool()
}

/// The integer at a place of a document.
pub uninterp spec fn json_int_at(text: Seq<char>, pointer: Seq<char>) -> Option<i64>;

/// `Value::pointer`, then `Value::as_i64`, on the parsed text.
#[verifier::external_body]
pub(crate) fn int_at(text: &str, pointer: &str) -> (r: Option<i64>)
    ensures
        r == json_int_at(text@, pointer@),
{
    let value = serde_json::from_str::<serde_json::Value>(text).ok()?;
    value.pointer(pointer)?.as_i64()
}

/// The unsigned integer at a place of a document.
pub uninterp spec fn json_unsigned_at(text: Seq<char>, pointer: Seq<char>) -> Option<u64>;

/// `Value::pointer`, then `Value::as_u64`, on the parsed text.
#[verifier::external_body]
pub(crate) fn unsigned_at(text: &str, pointer: &str) -> (r: Option<u64>)
    ensures
        r == json_unsigned_at(text@, pointer@),
{
    let value = serde_json::from_str::<serde_json::Value>(text).ok()?;
    value.pointer(pointer)?.as_u64()
}

/// How many elements the list at a place of a document has.
pub uninterp spec fn json_count_at(text: Seq<char>, pointer: Seq<char>) -> Option<usize>;

/// `Value::pointer`, then `Value::as_array`, on the parsed text.
#[verifier::external_body]
pub(crate) fn count_at(text: &str, pointer: &str) -> (r: Option<usize>)
    ensures
        r == json_count_at(text@, pointer@),
{
    let value = serde_json::from_str::<serde_json::Value>(text).ok()?;
    value.pointer(pointer)?.as_array().map(Vec::len)
}

/// The value at a place of a document, written without white space.
pub uninterp spec fn json_written_at(text: Seq<char>, pointer: Seq<char>) -> Option<Seq<char>>;

/// `Value::pointer`, then `Value::to_string`, on the parsed text.
#[verifier::external_body]
pub(crate) fn written_at(text: &str, pointer: &str) -> (r: Option<String>)
    ensures
        match r {
            Some(t) => json_written_at(text@, pointer@) == Some(t@),
            None => json_written_at(text@, pointer@) is None,
        },
{
    let value = serde_json::from_str::<serde_json::Value>(text).ok()?;
    value.pointer(pointer).map(|v| v.to_string())
}

/// The place of member `key` of element `k` of the list at `list`.
pub open spec fn place_of(list: Seq<char>, k: nat, key: Seq<char>) -> Seq<char> {
    list + "/"@ + decimal(k) + "/"@ + key
}

pub fn place(list: &str, k: usize, key: &str) -> (r: String)
    ensures
        r@ == place_of(list@, k as nat, key@),
{
    let mut t = list.to_owned();
    t.append("/");
    push_decimal(&mut t, k as u64);
    t.append("/");
    t.append(key);
    t
}

/// How long a list is that may be missing.
pub open spec fn list_len(count: Option<usize>) -> nat {
    match count {
        Some(n) => n as nat,
        None => 0,
    }
}

} // verus!
