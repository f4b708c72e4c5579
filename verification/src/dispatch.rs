//! Requests and their answers: which method a name stands for, how far a page
//! reaches, and how a stored row looks to a client.

use vstd::prelude::*;

use crate::telemetry::{is_record, read_meta, recalls};
use crate::text::{
    a_number_reads_back, a_signed_number_reads_back, a_trimmed_text_has_no_blank_ends, blank,
    decimal, is_blank_text, lemma_value_grows, opt_text, parse_i64, parse_unsigned, parsed_signed,
    parsed_unsigned, same, signed, to_decimal, to_signed, trimmed,
};
use crate::turn::TurnMeta;

verus! {

// ---- numbers and times -----------------------------------------------------

/// A number of the store as a client gets it: cut off at the limits.
pub open spec fn narrowed(value: int) -> int {
    if value < 0 {
        0
    } else if value > i32::MAX {
        i32::MAX as int
    } else {
        value
    }
}

pub fn narrow(value: i64) -> (r: i32)
    ensures
        r == narrowed(value as int),
{
    if value < 0 {
        0
    } else if value > 2147483647 {
        2147483647
    } else {
        value as i32
    }
}

/// A moment in the store's writing, `2026-09-19 16:46:49`, as ISO 8601 in UTC;
/// `None` where the text is no such moment.
pub uninterp spec fn utc_text(at: Seq<char>) -> Option<Seq<char>>;

/// `NaiveDateTime::parse_from_str` with `%Y-%m-%d %H:%M:%S`, then `and_utc` and
/// `to_rfc3339_opts` to the second, with `Z`.
#[verifier::external_body]
fn write_utc(at: &str) -> (r: Option<String>)
    ensures
        match r {
            Some(t) => utc_text(at@) == Some(t@),
            None => utc_text(at@) is None,
        },
{
    let naive = chrono::NaiveDateTime::parse_from_str(at, "%Y-%m-%d %H:%M:%S").ok()?;
    Some(naive.and_utc().to_rfc3339_opts(chrono::SecondsFormat::Secs, true))
}

/// What a client gets to read of a moment: what cannot be read goes out as it
/// stands.
pub open spec fn iso_of(at: Seq<char>) -> Seq<char> {
    match utc_text(at) {
        Some(t) => t,
        None => at,
    }
}

pub fn iso(at: String) -> (r: String)
    ensures
        r@ == iso_of(at@),
{
    match write_utc(at.as_str()) {
        Some(t) => t,
        None => at,
    }
}

pub open spec fn iso_opt_of(at: Option<Seq<char>>) -> Option<Seq<char>> {
    match at {
        Some(t) => Some(iso_of(t)),
        None => None,
    }
}

pub fn iso_opt(at: Option<String>) -> (r: Option<String>)
    ensures
        opt_text(r) == iso_opt_of(opt_text(at)),
{
    match at {
        Some(t) => Some(iso(t)),
        None => None,
    }
}

// ---- rows ------------------------------------------------------------------

#[derive(Debug, Clone, PartialEq, Eq)]
pub struct FactRow {
    pub id: i64,
    pub subject: String,
    pub content: String,
    pub source: String,
    pub created_at: Option<String>,
}

#[derive(Debug, Clone, PartialEq, Eq)]
pub struct Fact {
    pub id: i32,
    pub subject: String,
    pub content: String,
    pub source: String,
    pub created_at: Option<String>,
}

/// A fact goes out as its row holds it.
pub open spec fn tells_fact(fact: Fact, row: FactRow) -> bool {
    &&& fact.id == narrowed(row.id as int)
    &&& fact.subject@ == row.subject@
    &&& fact.content@ == row.content@
    &&& fact.source@ == row.source@
    &&& opt_text(fact.created_at) == iso_opt_of(opt_text(row.created_at))
}

pub fn to_fact(row: FactRow) -> (r: Fact)
    ensures
        tells_fact(r, row),
{
    Fact {
        id: narrow(row.id),
        subject: row.subject,
        content: row.content,
        source: row.source,
        created_at: iso_opt(row.created_at),
    }
}

#[derive(Debug, Clone, PartialEq, Eq)]
pub struct EpisodeRow {
    pub id: i64,
    pub happened_at: String,
    pub summary: String,
    pub created_at: Option<String>,
}

#[derive(Debug, Clone, PartialEq, Eq)]
pub struct Episode {
    pub id: i32,
    pub happened_at: String,
    pub summary: String,
    pub created_at: Option<String>,
}

/// The day of an episode goes out as it was told, not as a moment.
pub open spec fn tells_episode(episode: Episode, row: EpisodeRow) -> bool {
    &&& episode.id == narrowed(row.id as int)
    &&& episode.happened_at@ == row.happened_at@
    &&& episode.summary@ == row.summary@
    &&& opt_text(episode.created_at) == iso_opt_of(opt_text(row.created_at))
}

pub fn to_episode(row: EpisodeRow) -> (r: Episode)
    ensures
        tells_episode(r, row),
{
    Episode {
        id: narrow(row.id),
        happened_at: row.happened_at,
        summary: row.summary,
        created_at: iso_opt(row.created_at),
    }
}

#[derive(Debug, Clone, PartialEq, Eq)]
pub struct SessionRow {
    pub id: String,
    pub title: String,
    pub messages: i64,
    pub started_at: Option<String>,
    pub last_at: Option<String>,
}

#[derive(Debug, Clone, PartialEq, Eq)]
pub struct SessionSummary {
    pub id: String,
    pub title: String,
    pub messages: i32,
    pub started_at: Option<String>,
    pub last_at: Option<String>,
}

pub open spec fn tells_session(session: SessionSummary, row: SessionRow) -> bool {
    &&& session.id@ == row.id@
    &&& session.title@ == row.title@
    &&& session.messages == narrowed(row.messages as int)
    &&& opt_text(session.started_at) == iso_opt_of(opt_text(row.started_at))
    &&& opt_text(session.last_at) == iso_opt_of(opt_text(row.last_at))
}

pub fn to_session(row: SessionRow) -> (r: SessionSummary)
    ensures
        tells_session(r, row),
{
    SessionSummary {
        id: row.id,
        title: row.title,
        messages: narrow(row.messages),
        started_at: iso_opt(row.started_at),
        last_at: iso_opt(row.last_at),
    }
}

#[derive(Debug, Clone, PartialEq, Eq)]
pub struct MessageRow {
    pub id: i64,
    pub role: String,
    pub content: String,
    pub at: String,
    /// What was measured of the turn, as a JSON text.
    pub meta: Option<String>,
}

/// The roles that a client can draw.
#[derive(Debug, Clone, Copy, PartialEq, Eq, Structural)]
pub enum MessageRole {
    User,
    Assistant,
}

#[derive(Debug, Clone, PartialEq, Eq)]
pub struct ChatMessage {
    pub id: i32,
    pub role: MessageRole,
    pub content: String,
    pub at: String,
    pub meta: Option<TurnMeta>,
}

pub open spec fn role_named(role: Seq<char>) -> Option<MessageRole> {
    if role == "user"@ {
        Some(MessageRole::User)
    } else if role == "assistant"@ {
        Some(MessageRole::Assistant)
    } else {
        None
    }
}

/// What a client gets of the record that a row keeps: all of it, or nothing
/// where it cannot be read.
pub open spec fn measured(meta: Option<TurnMeta>, raw: Option<Seq<char>>) -> bool {
    match raw {
        Some(raw) => match meta {
            Some(m) => is_record(raw) && recalls(m, raw),
            None => !is_record(raw),
        },
        None => meta is None,
    }
}

/// A row of the log as a client gets it. A role that cannot be drawn is left
/// out; a record that cannot be read leaves the message as it is.
pub fn to_message(row: MessageRow) -> (r: Option<ChatMessage>)
    ensures
        match role_named(row.role@) {
            Some(role) => {
                &&& r is Some
                &&& r->0.id == narrowed(row.id as int)
                &&& r->0.role == role
                &&& r->0.content@ == row.content@
                &&& r->0.at@ == iso_of(row.at@)
                &&& measured(r->0.meta, opt_text(row.meta))
            },
            None => r is None,
        },
{
    let role = if same(row.role.as_str(), "user") {
        MessageRole::User
    } else if same(row.role.as_str(), "assistant") {
        MessageRole::Assistant
    } else {
        return None;
    };
    let meta = match &row.meta {
        Some(raw) => read_meta(raw.as_str()),
        None => None,
    };
    Some(
        ChatMessage { id: narrow(row.id), role, content: row.content, at: iso(row.at), meta },
    )
}

// ---- pages -----------------------------------------------------------------

pub const EPISODE_HITS: u32 = 3;

pub const EPISODE_LIMIT: u32 = 20;

pub const DEFAULT_TOP_K: u32 = 4;

pub const DEFAULT_LIMIT: u32 = 50;

pub open spec fn limit_or(limit: Option<u32>, fallback: u32) -> u32 {
    match limit {
        Some(n) => n,
        None => fallback,
    }
}

pub fn limit_of(limit: Option<u32>, fallback: u32) -> (r: u32)
    ensures
        r == limit_or(limit, fallback),
{
    match limit {
        Some(n) => n,
        None => fallback,
    }
}

/// Where a page starts: at its cursor, or at the front where that is no number.
pub open spec fn offset_at(cursor: Option<Seq<char>>, max: int) -> int {
    match cursor {
        Some(c) => match parsed_unsigned(c, max) {
            Some(n) => n,
            None => 0,
        },
        None => 0,
    }
}

pub fn row_offset(cursor: &Option<String>) -> (r: u32)
    ensures
        r == offset_at(opt_text(*cursor), u32::MAX as int),
{
    match cursor {
        Some(c) => match parse_unsigned(c.as_str(), 4294967295) {
            Some(n) => n as u32,
            None => 0,
        },
        None => 0,
    }
}

pub fn list_offset(cursor: &Option<String>) -> (r: usize)
    ensures
        r == offset_at(opt_text(*cursor), usize::MAX as int),
{
    match cursor {
        Some(c) => match parse_unsigned(c.as_str(), usize::MAX as u64) {
            Some(n) => n as usize,
            None => 0,
        },
        None => 0,
    }
}

/// The cursor behind a page that came back full.
pub open spec fn cursor_after(rows: nat, limit: u32, offset: u32) -> Option<Seq<char>> {
    if rows == limit {
        Some(decimal((offset + limit) as nat))
    } else {
        None
    }
}

/// The cursor of the next page of facts, after one of `rows` rows.
pub fn next_row_cursor(rows: u32, limit: u32, offset: u32) -> (r: Option<String>)
    requires
        rows == limit ==> offset + limit <= u32::MAX,
    ensures
        opt_text(r) == cursor_after(rows as nat, limit, offset),
{
    if rows == limit {
        Some(to_decimal((offset + limit) as u64))
    } else {
        None
    }
}

/// The rows of a page of a list that is there as a whole, and the cursor of
/// what is left.
#[derive(Debug, Clone, PartialEq, Eq)]
pub struct Page {
    pub from: usize,
    pub to: usize,
    pub next: Option<String>,
}

pub open spec fn page_start(total: int, offset: int) -> int {
    if offset < total {
        offset
    } else {
        total
    }
}

pub open spec fn page_end(total: int, offset: int, limit: int) -> int {
    if offset + limit < total {
        offset + limit
    } else {
        total
    }
}

pub open spec fn page_next(total: int, offset: int, limit: int) -> Option<Seq<char>> {
    if offset + limit < total {
        Some(decimal((offset + limit) as nat))
    } else {
        None
    }
}

pub fn list_page(total: usize, offset: usize, limit: usize) -> (r: Page)
    requires
        offset + limit <= usize::MAX,
    ensures
        r.from == page_start(total as int, offset as int),
        r.to == page_end(total as int, offset as int, limit as int),
        opt_text(r.next) == page_next(total as int, offset as int, limit as int),
{
    let from: usize = if offset < total {
        offset
    } else {
        total
    };
    if offset + limit < total {
        Page { from, to: offset + limit, next: Some(to_decimal((offset + limit) as u64)) }
    } else {
        Page { from, to: total, next: None }
    }
}

/// A page ends where the page that its cursor asks for starts, and the last page
/// ends with the list: nothing is shown twice and nothing is left out.
pub proof fn pages_join(total: usize, offset: usize, limit: usize)
    requires
        offset <= total,
        offset + limit <= usize::MAX,
    ensures
        match page_next(total as int, offset as int, limit as int) {
            Some(cursor) => page_start(
                total as int,
                offset_at(Some(cursor), usize::MAX as int),
            ) == page_end(total as int, offset as int, limit as int),
            None => page_end(total as int, offset as int, limit as int) == total,
        },
{
    a_number_reads_back((offset + limit) as nat, usize::MAX as int);
}

/// Where the page that a cursor asks for starts in a list.
pub open spec fn asked_offset(cursor: Option<Seq<char>>) -> int {
    offset_at(cursor, usize::MAX as int)
}

/// The part of a list that a cursor asks for.
pub open spec fn page_of<T>(all: Seq<T>, limit: int, cursor: Option<Seq<char>>) -> Seq<T> {
    let total = all.len() as int;
    let offset = asked_offset(cursor);
    all.subrange(page_start(total, offset), page_end(total, offset, limit))
}

/// The cursor that the page a cursor asks for hands out.
pub open spec fn cursor_behind(total: int, limit: int, cursor: Option<Seq<char>>) -> Option<
    Seq<char>,
> {
    page_next(total, asked_offset(cursor), limit)
}

/// Cursor `k` is the one that the page before it handed out.
pub open spec fn leads_to(
    total: int,
    limit: int,
    cursors: Seq<Option<Seq<char>>>,
    k: int,
) -> bool {
    cursors[k] is Some && cursors[k] == cursor_behind(total, limit, cursors[k - 1])
}

/// The cursors of a walk through a list: each leads to the next, and the last page
/// hands out none.
pub open spec fn is_walk(total: int, limit: int, cursors: Seq<Option<Seq<char>>>) -> bool {
    &&& cursors.len() > 0
    &&& forall|k: int|
        0 < k < cursors.len() ==> #[trigger] leads_to(total, limit, cursors, k)
    &&& cursor_behind(total, limit, cursors.last()) is None
}

/// The pages of the first `k` cursors, one behind the other.
pub open spec fn walked<T>(
    all: Seq<T>,
    limit: int,
    cursors: Seq<Option<Seq<char>>>,
    k: int,
) -> Seq<T>
    decreases k,
{
    if k <= 0 {
        Seq::empty()
    } else {
        walked(all, limit, cursors, k - 1) + page_of(all, limit, cursors[k - 1])
    }
}

proof fn lemma_walked<T>(
    all: Seq<T>,
    limit: int,
    cursors: Seq<Option<Seq<char>>>,
    k: int,
)
    requires
        all.len() <= usize::MAX,
        1 <= limit,
        is_walk(all.len() as int, limit, cursors),
        asked_offset(cursors[0]) == 0,
        0 < k <= cursors.len(),
    ensures
        ({
            let total = all.len() as int;
            let offset = asked_offset(cursors[k - 1]);
            &&& 0 <= offset <= total
            &&& walked(all, limit, cursors, k) == all.take(page_end(total, offset, limit))
        }),
    decreases k,
{
    let total = all.len() as int;
    let offset = asked_offset(cursors[k - 1]);
    if k > 1 {
        lemma_walked(all, limit, cursors, k - 1);
        let before = asked_offset(cursors[k - 2]);
        assert(leads_to(total, limit, cursors, k - 1));
        a_number_reads_back((before + limit) as nat, usize::MAX as int);
        assert(offset == before + limit);
    } else {
        assert(walked(all, limit, cursors, 0) =~= Seq::<T>::empty());
    }
    assert(walked(all, limit, cursors, k) =~= all.take(page_end(total, offset, limit)));
}

/// Whoever starts without a cursor and follows the cursors to the end has seen the
/// whole list in its order, and nothing twice.
pub proof fn a_walk_shows_it_all<T>(all: Seq<T>, limit: u32, cursors: Seq<Option<Seq<char>>>)
    requires
        all.len() <= usize::MAX,
        1 <= limit,
        is_walk(all.len() as int, limit as int, cursors),
        cursors[0] is None,
    ensures
        walked(all, limit as int, cursors, cursors.len() as int) == all,
{
    lemma_walked(all, limit as int, cursors, cursors.len() as int);
    assert(all.take(all.len() as int) =~= all);
}

proof fn lemma_offset(cursor: Option<Seq<char>>)
    ensures
        0 <= asked_offset(cursor),
{
    if cursor is Some && parsed_unsigned(cursor->0, usize::MAX as int) is Some {
        let s = cursor->0;
        let d = if s.len() > 1 && s[0] == '+' {
            s.subrange(1, s.len() as int)
        } else {
            s
        };
        lemma_value_grows(d, 0, d.len() as int);
    }
}

/// Following the cursors from any page of a list comes to an end.
pub proof fn every_walk_ends(total: usize, limit: u32, first: Option<Seq<char>>) -> (cursors: Seq<
    Option<Seq<char>>,
>)
    requires
        1 <= limit,
    ensures
        is_walk(total as int, limit as int, cursors),
        cursors[0] == first,
    decreases total - asked_offset(first),
{
    lemma_offset(first);
    match cursor_behind(total as int, limit as int, first) {
        None => seq![first],
        Some(next) => {
            let offset = asked_offset(first);
            a_number_reads_back((offset + limit) as nat, usize::MAX as int);
            let rest = every_walk_ends(total, limit, Some(next));
            let all = seq![first] + rest;
            assert forall|k: int| 0 < k < all.len() implies #[trigger] leads_to(
                total as int,
                limit as int,
                all,
                k,
            ) by {
                if k > 1 {
                    assert(leads_to(total as int, limit as int, rest, k - 1));
                    assert(all[k] == rest[k - 1]);
                    assert(all[k - 1] == rest[k - 2]);
                }
            }
            assert(all.last() == rest.last());
            all
        },
    }
}

/// A full page of facts hands out the cursor of the row that follows it.
pub proof fn a_cursor_leads_on(limit: u32, offset: u32)
    requires
        offset + limit <= u32::MAX,
    ensures
        cursor_after(limit as nat, limit, offset) is Some,
        offset_at(cursor_after(limit as nat, limit, offset), u32::MAX as int) == offset + limit,
{
    a_number_reads_back((offset + limit) as nat, u32::MAX as int);
}

/// The row before which a page of messages ends.
pub open spec fn row_before(cursor: Option<Seq<char>>) -> Option<int> {
    match cursor {
        Some(c) => parsed_signed(c, i64::MIN as int, i64::MAX as int),
        None => None,
    }
}

pub fn before_row(cursor: &Option<String>) -> (r: Option<i64>)
    ensures
        match r {
            Some(n) => row_before(opt_text(*cursor)) == Some(n as int),
            None => row_before(opt_text(*cursor)) is None,
        },
{
    match cursor {
        Some(c) => parse_i64(c.as_str()),
        None => None,
    }
}

/// A page of messages, and the cursor of the page before it.
#[derive(Debug, Clone, PartialEq, Eq)]
pub struct MessagePage {
    pub data: Vec<ChatMessage>,
    pub next: Option<String>,
}

/// The first `k` rows that can be drawn.
pub open spec fn drawn(rows: Seq<MessageRow>, k: int) -> Seq<int>
    decreases k,
{
    if k <= 0 {
        Seq::empty()
    } else if role_named(rows[k - 1].role@) is Some {
        drawn(rows, k - 1).push(k - 1)
    } else {
        drawn(rows, k - 1)
    }
}

/// A message shows what its row holds.
pub open spec fn shows(message: ChatMessage, row: MessageRow) -> bool {
    &&& message.id == narrowed(row.id as int)
    &&& role_named(row.role@) == Some(message.role)
    &&& message.content@ == row.content@
    &&& message.at@ == iso_of(row.at@)
    &&& measured(message.meta, opt_text(row.meta))
}

pub open spec fn cursor_before(rows: Seq<MessageRow>, limit: u32) -> Option<Seq<char>> {
    if rows.len() == limit && rows.len() > 0 {
        Some(signed(rows.last().id as int))
    } else {
        None
    }
}

/// A full page of messages hands out the cursor of its last row, and reads it
/// back as that row.
pub proof fn a_message_cursor_leads_back(rows: Seq<MessageRow>, limit: u32)
    requires
        rows.len() == limit,
        limit > 0,
    ensures
        row_before(cursor_before(rows, limit)) == Some(rows.last().id as int),
{
    a_signed_number_reads_back(rows.last().id as int, i64::MIN as int, i64::MAX as int);
}

fn copy_row(row: &MessageRow) -> (r: MessageRow)
    ensures
        r == *row,
{
    MessageRow {
        id: row.id,
        role: row.role.clone(),
        content: row.content.clone(),
        at: row.at.clone(),
        meta: match &row.meta {
            Some(m) => Some(m.clone()),
            None => None,
        },
    }
}

/// The page that the rows of a query make. Whether another page follows is told
/// by the rows that came back, not by those that can be drawn.
pub fn message_page(rows: &Vec<MessageRow>, limit: u32) -> (r: MessagePage)
    ensures
        opt_text(r.next) == cursor_before(rows@, limit),
        r.data@.len() == drawn(rows@, rows@.len() as int).len(),
        forall|i: int|
            0 <= i < r.data@.len() ==> shows(
                #[trigger] r.data@[i],
                rows@[drawn(rows@, rows@.len() as int)[i]],
            ),
{
    let n: usize = rows.len();
    let next = if n > 0 && n as u64 == limit as u64 {
        Some(to_signed(rows[n - 1].id))
    } else {
        None
    };
    let mut data: Vec<ChatMessage> = Vec::new();
    let mut i: usize = 0;
    while i < n
        invariant
            i <= n,
            n == rows@.len(),
            data@.len() == drawn(rows@, i as int).len(),
            forall|k: int|
                0 <= k < data@.len() ==> shows(
                    #[trigger] data@[k],
                    rows@[drawn(rows@, i as int)[k]],
                ),
        decreases n - i,
    {
        match to_message(copy_row(&rows[i])) {
            Some(m) => {
                data.push(m);
            },
            None => {},
        }
        i += 1;
    }
    MessagePage { data, next }
}

// ---- defaults --------------------------------------------------------------

pub open spec fn named_or(given: Option<Seq<char>>, fallback: Seq<char>) -> Seq<char> {
    match given {
        Some(t) => if trimmed(t).len() > 0 {
            t
        } else {
            fallback
        },
        None => fallback,
    }
}

/// The given name, or `fallback` where it is missing or blank.
pub fn name_or(given: Option<String>, fallback: String) -> (r: String)
    ensures
        r@ == named_or(opt_text(given), fallback@),
{
    match given {
        Some(t) => if is_blank_text(t.as_str()) {
            fallback
        } else {
            t
        },
        None => fallback,
    }
}

/// Who a fact comes from, where nobody says.
pub fn source_of(given: Option<String>) -> (r: String)
    ensures
        r@ == named_or(opt_text(given), "user"@),
{
    name_or(given, "user".to_owned())
}

/// A label for a session that nobody named; `millis` is the time.
pub fn new_session_id(millis: u64) -> (r: String)
    ensures
        r@ == "s"@ + decimal(millis as nat),
{
    let mut t = "s".to_owned();
    t.append(to_decimal(millis).as_str());
    t
}

// ---- methods ---------------------------------------------------------------

#[derive(Debug, Clone, Copy, PartialEq, Eq, Structural)]
pub enum Method {
    MemorySearch,
    MemoryList,
    MemoryListEpisodes,
    MemoryRemember,
    MemoryForget,
    SessionList,
    SessionNew,
    SessionMessages,
    ConfigRead,
    ConfigWrite,
    ModelList,
    TurnStart,
    TurnInterrupt,
}

pub open spec fn method_named(name: Seq<char>) -> Option<Method> {
    if name == "memory/search"@ {
        Some(Method::MemorySearch)
    } else if name == "memory/list"@ {
        Some(Method::MemoryList)
    } else if name == "memory/listEpisodes"@ {
        Some(Method::MemoryListEpisodes)
    } else if name == "memory/remember"@ {
        Some(Method::MemoryRemember)
    } else if name == "memory/forget"@ {
        Some(Method::MemoryForget)
    } else if name == "session/list"@ {
        Some(Method::SessionList)
    } else if name == "session/new"@ {
        Some(Method::SessionNew)
    } else if name == "session/messages"@ {
        Some(Method::SessionMessages)
    } else if name == "config/read"@ {
        Some(Method::ConfigRead)
    } else if name == "config/write"@ {
        Some(Method::ConfigWrite)
    } else if name == "model/list"@ {
        Some(Method::ModelList)
    } else if name == "turn/start"@ {
        Some(Method::TurnStart)
    } else if name == "turn/interrupt"@ {
        Some(Method::TurnInterrupt)
    } else {
        None
    }
}

/// What went wrong, by kind; a transport has a number for each.
#[derive(Debug, Clone, Copy, PartialEq, Eq, Structural)]
pub enum ErrorCode {
    ParseError,
    MethodNotFound,
    InvalidParams,
    InternalError,
    ProviderError,
}

#[derive(Debug, Clone, PartialEq, Eq)]
pub struct ErrorObject {
    pub code: ErrorCode,
    pub message: String,
}

impl ErrorObject {
    pub open spec fn says(self, code: ErrorCode, message: Seq<char>) -> bool {
        self.code == code && self.message@ == message
    }
}

pub fn find_method(name: &str) -> (r: Result<Method, ErrorObject>)
    ensures
        match method_named(name@) {
            Some(m) => r == Ok::<Method, ErrorObject>(m),
            None => r matches Err(e) && e.says(
                ErrorCode::MethodNotFound,
                "未知方法 '"@ + name@ + "'"@,
            ),
        },
{
    if same(name, "memory/search") {
        Ok(Method::MemorySearch)
    } else if same(name, "memory/list") {
        Ok(Method::MemoryList)
    } else if same(name, "memory/listEpisodes") {
        Ok(Method::MemoryListEpisodes)
    } else if same(name, "memory/remember") {
        Ok(Method::MemoryRemember)
    } else if same(name, "memory/forget") {
        Ok(Method::MemoryForget)
    } else if same(name, "session/list") {
        Ok(Method::SessionList)
    } else if same(name, "session/new") {
        Ok(Method::SessionNew)
    } else if same(name, "session/messages") {
        Ok(Method::SessionMessages)
    } else if same(name, "config/read") {
        Ok(Method::ConfigRead)
    } else if same(name, "config/write") {
        Ok(Method::ConfigWrite)
    } else if same(name, "model/list") {
        Ok(Method::ModelList)
    } else if same(name, "turn/start") {
        Ok(Method::TurnStart)
    } else if same(name, "turn/interrupt") {
        Ok(Method::TurnInterrupt)
    } else {
        let mut message = "未知方法 '".to_owned();
        message.append(name);
        message.append("'");
        Err(ErrorObject { code: ErrorCode::MethodNotFound, message })
    }
}

/// A turn runs beside the requests that follow it, so that it can be
/// interrupted; any other request is answered in its place.
pub fn runs_aside(method: Method) -> (r: bool)
    ensures
        r == (method == Method::TurnStart),
{
    match method {
        Method::TurnStart => true,
        _ => false,
    }
}

pub fn bad_params(method: &str, why: &str) -> (r: ErrorObject)
    ensures
        r.says(ErrorCode::InvalidParams, method@ + " 的参数不对："@ + why@),
{
    let mut message = method.to_owned();
    message.append(" 的参数不对：");
    message.append(why);
    ErrorObject { code: ErrorCode::InvalidParams, message }
}

pub fn bad_line(why: &str) -> (r: ErrorObject)
    ensures
        r.says(ErrorCode::ParseError, "解析失败："@ + why@),
{
    let mut message = "解析失败：".to_owned();
    message.append(why);
    ErrorObject { code: ErrorCode::ParseError, message }
}

// ---- what a request comes to -----------------------------------------------

/// A request whose parameters could be read.
#[derive(Debug, Clone, PartialEq, Eq)]
pub enum Call {
    MemorySearch { query: String, top_k: Option<u32> },
    MemoryList { limit: Option<u32>, cursor: Option<String> },
    MemoryListEpisodes { limit: Option<u32> },
    MemoryRemember { subject: String, content: String, source: Option<String> },
    MemoryForget { subject: String },
    SessionList { limit: Option<u32>, cursor: Option<String> },
    SessionNew { session_id: Option<String> },
    SessionMessages { session_id: String, limit: Option<u32>, cursor: Option<String> },
    ConfigRead,
    ConfigWrite,
    ModelList { provider: Option<String> },
    TurnStart,
    TurnInterrupt { turn_id: String },
}

/// What is to be done for it.
#[derive(Debug, Clone, PartialEq, Eq)]
pub enum Plan {
    Search { query: String, facts: u32, episodes: u32 },
    RecentFacts { limit: u32, offset: u32 },
    RecentEpisodes { limit: u32 },
    AddFact { subject: String, content: String, source: String },
    ForgetSubject { subject: String },
    Sessions { limit: u32, offset: usize },
    NameSession { session_id: String },
    Messages { session_id: String, before: Option<i64>, limit: u32 },
    ReadConfig,
    WriteConfig,
    Models { provider: Option<String> },
    RunTurn,
    Interrupt { turn_id: String },
}

/// The plan serves the call, with a default for whatever it leaves open.
pub open spec fn serves(plan: Plan, call: Call, millis: u64) -> bool {
    match call {
        Call::MemorySearch { query, top_k } => plan matches Plan::Search {
            query: q,
            facts,
            episodes,
        } && q@ == query@ && facts == limit_or(top_k, DEFAULT_TOP_K) && episodes == EPISODE_HITS,
        Call::MemoryList { limit, cursor } => plan == Plan::RecentFacts {
            limit: limit_or(limit, DEFAULT_LIMIT),
            offset: offset_at(opt_text(cursor), u32::MAX as int) as u32,
        },
        Call::MemoryListEpisodes { limit } => plan == Plan::RecentEpisodes {
            limit: limit_or(limit, EPISODE_LIMIT),
        },
        Call::MemoryRemember { subject, content, source } => plan matches Plan::AddFact {
            subject: s,
            content: c,
            source: from,
        } && s@ == subject@ && c@ == content@ && from@ == named_or(opt_text(source), "user"@),
        Call::MemoryForget { subject } => plan matches Plan::ForgetSubject { subject: s } && s@
            == subject@,
        Call::SessionList { limit, cursor } => plan == Plan::Sessions {
            limit: limit_or(limit, DEFAULT_LIMIT),
            offset: offset_at(opt_text(cursor), usize::MAX as int) as usize,
        },
        Call::SessionNew { session_id } => plan matches Plan::NameSession { session_id: id } && id@
            == named_or(opt_text(session_id), "s"@ + decimal(millis as nat)),
        Call::SessionMessages { session_id, limit, cursor } => plan matches Plan::Messages {
            session_id: id,
            before,
            limit: n,
        } && id@ == session_id@ && n == limit_or(limit, DEFAULT_LIMIT) && match before {
            Some(row) => row_before(opt_text(cursor)) == Some(row as int),
            None => row_before(opt_text(cursor)) is None,
        },
        Call::ConfigRead => plan == Plan::ReadConfig,
        Call::ConfigWrite => plan == Plan::WriteConfig,
        Call::ModelList { provider } => plan matches Plan::Models { provider: p } && opt_text(p)
            == opt_text(provider),
        Call::TurnStart => plan == Plan::RunTurn,
        Call::TurnInterrupt { turn_id } => plan matches Plan::Interrupt { turn_id: id } && id@
            == turn_id@,
    }
}

/// What a request comes to; `millis` is the time, for a session that nobody named.
pub fn dispatch(call: Call, millis: u64) -> (r: Plan)
    ensures
        serves(r, call, millis),
{
    match call {
        Call::MemorySearch { query, top_k } => Plan::Search {
            query,
            facts: limit_of(top_k, DEFAULT_TOP_K),
            episodes: EPISODE_HITS,
        },
        Call::MemoryList { limit, cursor } => Plan::RecentFacts {
            limit: limit_of(limit, DEFAULT_LIMIT),
            offset: row_offset(&cursor),
        },
        Call::MemoryListEpisodes { limit } => Plan::RecentEpisodes {
            limit: limit_of(limit, EPISODE_LIMIT),
        },
        Call::MemoryRemember { subject, content, source } => Plan::AddFact {
            subject,
            content,
            source: source_of(source),
        },
        Call::MemoryForget { subject } => Plan::ForgetSubject { subject },
        Call::SessionList { limit, cursor } => Plan::Sessions {
            limit: limit_of(limit, DEFAULT_LIMIT),
            offset: list_offset(&cursor),
        },
        Call::SessionNew { session_id } => Plan::NameSession {
            session_id: name_or(session_id, new_session_id(millis)),
        },
        Call::SessionMessages { session_id, limit, cursor } => Plan::Messages {
            session_id,
            before: before_row(&cursor),
            limit: limit_of(limit, DEFAULT_LIMIT),
        },
        Call::ConfigRead => Plan::ReadConfig,
        Call::ConfigWrite => Plan::WriteConfig,
        Call::ModelList { provider } => Plan::Models { provider },
        Call::TurnStart => Plan::RunTurn,
        Call::TurnInterrupt { turn_id } => Plan::Interrupt { turn_id },
    }
}

pub open spec fn tells_facts(facts: Seq<Fact>, rows: Seq<FactRow>) -> bool {
    &&& facts.len() == rows.len()
    &&& forall|i: int| 0 <= i < rows.len() ==> tells_fact(#[trigger] facts[i], rows[i])
}

pub open spec fn tells_episodes(episodes: Seq<Episode>, rows: Seq<EpisodeRow>) -> bool {
    &&& episodes.len() == rows.len()
    &&& forall|i: int| 0 <= i < rows.len() ==> tells_episode(#[trigger] episodes[i], rows[i])
}

pub fn to_facts(rows: Vec<FactRow>) -> (r: Vec<Fact>)
    ensures
        tells_facts(r@, rows@),
{
    let mut r: Vec<Fact> = Vec::new();
    for row in it: rows
        invariant
            it.seq() == rows@,
            r@.len() == it.index(),
            forall|i: int| 0 <= i < r@.len() ==> tells_fact(#[trigger] r@[i], rows@[i]),
    {
        r.push(to_fact(row));
    }
    r
}

pub fn to_episodes(rows: Vec<EpisodeRow>) -> (r: Vec<Episode>)
    ensures
        tells_episodes(r@, rows@),
{
    let mut r: Vec<Episode> = Vec::new();
    for row in it: rows
        invariant
            it.seq() == rows@,
            r@.len() == it.index(),
            forall|i: int| 0 <= i < r@.len() ==> tells_episode(#[trigger] r@[i], rows@[i]),
    {
        r.push(to_episode(row));
    }
    r
}

/// A page of facts, and the cursor of the page that follows.
#[derive(Debug, Clone, PartialEq, Eq)]
pub struct FactPage {
    pub data: Vec<Fact>,
    pub next: Option<String>,
}

/// The page that the rows of a query make: another one follows a full one.
pub fn fact_page(rows: Vec<FactRow>, limit: u32, offset: u32) -> (r: FactPage)
    requires
        rows@.len() <= u32::MAX,
        rows@.len() == limit ==> offset + limit <= u32::MAX,
    ensures
        tells_facts(r.data@, rows@),
        opt_text(r.next) == cursor_after(rows@.len(), limit, offset),
{
    let next = next_row_cursor(rows.len() as u32, limit, offset);
    FactPage { data: to_facts(rows), next }
}

/// A page of sessions, and the cursor of the page that follows.
#[derive(Debug, Clone, PartialEq, Eq)]
pub struct SessionPage {
    pub data: Vec<SessionSummary>,
    pub next: Option<String>,
}

fn copy_session(row: &SessionRow) -> (r: SessionRow)
    ensures
        r == *row,
{
    SessionRow {
        id: row.id.clone(),
        title: row.title.clone(),
        messages: row.messages,
        started_at: match &row.started_at {
            Some(t) => Some(t.clone()),
            None => None,
        },
        last_at: match &row.last_at {
            Some(t) => Some(t.clone()),
            None => None,
        },
    }
}

/// One page out of all the sessions.
pub fn session_page(all: &Vec<SessionRow>, limit: u32, offset: usize) -> (r: SessionPage)
    requires
        offset + limit <= usize::MAX,
    ensures
        ({
            let total = all@.len() as int;
            let from = page_start(total, offset as int);
            &&& r.data@.len() == page_end(total, offset as int, limit as int) - from
            &&& forall|i: int|
                0 <= i < r.data@.len() ==> tells_session(#[trigger] r.data@[i], all@[from + i])
            &&& opt_text(r.next) == page_next(total, offset as int, limit as int)
        }),
{
    let page = list_page(all.len(), offset, limit as usize);
    let mut data: Vec<SessionSummary> = Vec::new();
    let mut i: usize = page.from;
    while i < page.to
        invariant
            page.from <= i <= page.to <= all@.len(),
            data@.len() == i - page.from,
            forall|k: int|
                0 <= k < data@.len() ==> tells_session(
                    #[trigger] data@[k],
                    all@[page.from + k],
                ),
        decreases page.to - i,
    {
        data.push(to_session(copy_session(&all[i])));
        i += 1;
    }
    SessionPage { data, next: page.next }
}

/// How many facts are gone, as a client is told.
pub fn removed_count(removed: u64) -> (r: i32)
    requires
        removed <= i64::MAX,
    ensures
        r == narrowed(removed as int),
{
    narrow(removed as i64)
}

#[derive(Debug, Clone, PartialEq, Eq)]
pub enum RequestId {
    Number(i64),
    Text(String),
}

/// What a method came to: a result to send, or word that the method has sent
/// its own answer.
#[derive(Debug, Clone, PartialEq, Eq)]
pub enum Outcome {
    Value(String),
    SelfSent,
}

#[derive(Debug, Clone, PartialEq, Eq)]
pub enum Reply {
    Response { id: RequestId, result: String },
    Failure { to: Option<RequestId>, error: ErrorObject },
}

/// The answer to a request. There is exactly one, whatever happened: this one,
/// or the one that the method has sent itself.
pub fn answer(id: RequestId, outcome: Result<Outcome, ErrorObject>) -> (r: Option<Reply>)
    ensures
        match outcome {
            Ok(Outcome::Value(result)) => r == Some(Reply::Response { id, result }),
            Ok(Outcome::SelfSent) => r is None,
            Err(error) => r == Some(Reply::Failure { to: Some(id), error }),
        },
{
    match outcome {
        Ok(Outcome::Value(result)) => Some(Reply::Response { id, result }),
        Ok(Outcome::SelfSent) => None,
        Err(error) => Some(Reply::Failure { to: Some(id), error }),
    }
}

// ---- models ----------------------------------------------------------------

/// A provider of the catalogue, with its two models.
#[derive(Debug, Clone, PartialEq, Eq)]
pub struct ProviderInfo {
    pub id: String,
    pub model: String,
    pub small_model: String,
}

#[derive(Debug, Clone, PartialEq, Eq)]
pub struct ModelInfo {
    pub id: String,
    pub provider: String,
    pub label: Option<String>,
    pub flagship: Option<String>,
    pub fast: Option<String>,
}

pub open spec fn presents(model: ModelInfo, provider: ProviderInfo) -> bool {
    &&& model.id@ == provider.model@
    &&& model.provider@ == provider.id@
    &&& model.label is None
    &&& opt_text(model.flagship) == Some(provider.model@)
    &&& opt_text(model.fast) == Some(provider.small_model@)
}

/// Which of the first `k` providers were asked for.
pub open spec fn wanted(all: Seq<ProviderInfo>, want: Option<Seq<char>>, k: int) -> Seq<int>
    decreases k,
{
    if k <= 0 {
        Seq::empty()
    } else if want is None || want == Some(all[k - 1].id@) {
        wanted(all, want, k - 1).push(k - 1)
    } else {
        wanted(all, want, k - 1)
    }
}

pub fn list_models(all: &Vec<ProviderInfo>, want: &Option<String>) -> (r: Vec<ModelInfo>)
    ensures
        ({
            let w = wanted(all@, opt_text(*want), all@.len() as int);
            &&& r@.len() == w.len()
            &&& forall|i: int| 0 <= i < w.len() ==> presents(#[trigger] r@[i], all@[w[i]])
        }),
{
    let mut r: Vec<ModelInfo> = Vec::new();
    let mut i: usize = 0;
    while i < all.len()
        invariant
            i <= all@.len(),
            r@.len() == wanted(all@, opt_text(*want), i as int).len(),
            forall|k: int|
                0 <= k < r@.len() ==> presents(
                    #[trigger] r@[k],
                    all@[wanted(all@, opt_text(*want), i as int)[k]],
                ),
        decreases all@.len() - i,
    {
        let info = &all[i];
        let take = match want {
            Some(w) => same(info.id.as_str(), w.as_str()),
            None => true,
        };
        if take {
            r.push(
                ModelInfo {
                    id: info.model.clone(),
                    provider: info.id.clone(),
                    label: None,
                    flagship: Some(info.model.clone()),
                    fast: Some(info.small_model.clone()),
                },
            );
        }
        i += 1;
    }
    r
}

// ---- what is handed out ----------------------------------------------------

/// A number that the wire can hold goes out as it is; a negative one goes out as
/// none, and one that is too large as the largest.
pub proof fn a_number_goes_out_as_it_is(n: int)
    ensures
        0 <= n <= 0x7fff_ffff ==> narrowed(n) == n,
        n < 0 ==> narrowed(n) == 0,
        n > 0x7fff_ffff ==> narrowed(n) == 0x7fff_ffff,
{
}

/// A time that cannot be read goes out as it was written; one that can goes out
/// rewritten.
pub proof fn a_time_is_never_lost(at: Seq<char>)
    ensures
        utc_text(at) is None ==> iso_of(at) == at,
        utc_text(at) matches Some(t) ==> iso_of(at) == t,
        iso_opt_of(None) is None,
        iso_opt_of(Some(at)) == Some(iso_of(at)),
{
}

/// A fact goes out with everything that its row holds.
pub proof fn a_fact_goes_out_whole(fact: Fact, row: FactRow)
    requires
        tells_fact(fact, row),
    ensures
        0 <= row.id <= 0x7fff_ffff ==> fact.id == row.id,
        fact.subject@ == row.subject@,
        fact.content@ == row.content@,
        fact.source@ == row.source@,
        fact.created_at is Some <==> row.created_at is Some,
        row.created_at is Some ==> fact.created_at->0@ == iso_of(row.created_at->0@),
{
}

/// An episode goes out with everything that its row holds.
pub proof fn an_episode_goes_out_whole(episode: Episode, row: EpisodeRow)
    requires
        tells_episode(episode, row),
    ensures
        0 <= row.id <= 0x7fff_ffff ==> episode.id == row.id,
        episode.happened_at@ == row.happened_at@,
        episode.summary@ == row.summary@,
        row.created_at is Some ==> episode.created_at is Some && episode.created_at->0@ == iso_of(
            row.created_at->0@,
        ),
        row.created_at is None ==> episode.created_at is None,
{
}

/// A session goes out with everything that its row holds: when it began is not when
/// it was last spoken in.
pub proof fn a_session_goes_out_whole(session: SessionSummary, row: SessionRow)
    requires
        tells_session(session, row),
    ensures
        session.id@ == row.id@,
        session.title@ == row.title@,
        0 <= row.messages <= 0x7fff_ffff ==> session.messages == row.messages,
        row.started_at is Some ==> session.started_at is Some && session.started_at->0@ == iso_of(
            row.started_at->0@,
        ),
        row.last_at is Some ==> session.last_at is Some && session.last_at->0@ == iso_of(
            row.last_at->0@,
        ),
        row.started_at is None ==> session.started_at is None,
        row.last_at is None ==> session.last_at is None,
{
}

/// What the user said is shown as theirs and what the assistant said as its own;
/// nobody else is shown.
pub proof fn a_message_is_shown_as_who_said_it(message: ChatMessage, row: MessageRow)
    ensures
        role_named(row.role@) == Some(MessageRole::User) <==> row.role@ == "user"@,
        role_named(row.role@) == Some(MessageRole::Assistant) <==> row.role@ == "assistant"@,
        shows(message, row) ==> (row.role@ == "user"@ || row.role@ == "assistant"@) && (message.role
            == MessageRole::User <==> row.role@ == "user"@),
        shows(message, row) ==> message.content@ == row.content@ && message.at@ == iso_of(row.at@),
        shows(message, row) && 0 <= row.id <= 0x7fff_ffff ==> message.id == row.id,
        shows(message, row) && row.meta is None ==> message.meta is None,
        shows(message, row) && message.meta is Some ==> row.meta is Some && recalls(
            message.meta->0,
            row.meta->0@,
        ),
{
    reveal_strlit("user");
    reveal_strlit("assistant");
    assert("user"@.len() == 4 && "assistant"@.len() == 9);
}

/// A record that can be read is shown, and one that cannot is left out without the
/// message.
pub proof fn a_good_record_is_shown(meta: Option<TurnMeta>, raw: Seq<char>)
    requires
        measured(meta, Some(raw)),
    ensures
        meta is Some <==> is_record(raw),
        meta matches Some(m) ==> recalls(m, raw),
{
}

/// A page of messages shows each that can be shown, in order, and no other.
pub proof fn a_page_shows_all_that_can_be_shown(rows: Seq<MessageRow>, row: MessageRow)
    ensures
        drawn(Seq::empty(), 0).len() == 0,
        row.role@ == "user"@ || row.role@ == "assistant"@ ==> drawn(
            rows.push(row),
            rows.len() as int + 1,
        ) == drawn(rows, rows.len() as int).push(rows.len() as int),
        row.role@ != "user"@ && row.role@ != "assistant"@ ==> drawn(
            rows.push(row),
            rows.len() as int + 1,
        ) == drawn(rows, rows.len() as int),
{
    lemma_drawn_front(rows, rows.push(row), rows.len() as int);
}

proof fn lemma_drawn_front(a: Seq<MessageRow>, b: Seq<MessageRow>, k: int)
    requires
        0 <= k <= a.len() <= b.len(),
        forall|i: int| 0 <= i < a.len() ==> #[trigger] a[i] == b[i],
    ensures
        drawn(a, k) == drawn(b, k),
    decreases k,
{
    if k > 0 {
        lemma_drawn_front(a, b, k - 1);
        assert(a[k - 1] == b[k - 1]);
    }
}

/// What was asked for counts, and what is left open is filled in.
pub proof fn what_is_asked_for_counts(n: u32, fallback: u32, name: Seq<char>, other: Seq<char>)
    ensures
        limit_or(Some(n), fallback) == n,
        limit_or(None, fallback) == fallback,
        (exists|k: int| 0 <= k < name.len() && !blank(#[trigger] name[k])) ==> named_or(
            Some(name),
            other,
        ) == name,
        (forall|k: int| 0 <= k < name.len() ==> blank(#[trigger] name[k])) ==> named_or(
            Some(name),
            other,
        ) == other,
        named_or(None, other) == other,
{
    a_trimmed_text_has_no_blank_ends(name);
}

/// A cursor is the number that it spells; anything else is the beginning.
pub proof fn a_cursor_is_a_number(n: nat, max: int, other: Seq<char>)
    requires
        n <= max,
    ensures
        offset_at(Some(decimal(n)), max) == n,
        offset_at(None, max) == 0,
        parsed_unsigned(other, max) is None ==> offset_at(Some(other), max) == 0,
{
    a_number_reads_back(n, max);
}

/// A cursor of messages is the row before which they lie; anything else is none.
pub proof fn a_message_cursor_is_a_row(row: i64)
    ensures
        row_before(Some(signed(row as int))) == Some(row as int),
        row_before(None) is None,
{
    a_signed_number_reads_back(row as int, i64::MIN as int, i64::MAX as int);
}

/// A page starts where it was asked to, holds as much as it may, and ends with the
/// list.
pub proof fn a_page_holds_what_was_asked_for(total: int, offset: int, limit: int)
    requires
        0 <= total,
        0 <= offset,
        0 <= limit,
    ensures
        offset <= total ==> page_start(total, offset) == offset,
        offset > total ==> page_start(total, offset) == total,
        offset + limit <= total ==> page_end(total, offset, limit) - page_start(total, offset)
            == limit,
        offset + limit > total ==> page_end(total, offset, limit) == total,
        offset + limit < total <==> page_next(total, offset, limit) is Some,
        page_next(total, offset, limit) is Some ==> page_next(total, offset, limit) == Some(
            decimal((offset + limit) as nat),
        ),
{
}

/// A full page of facts has a cursor to the row behind it, and any other page is the
/// last one.
pub proof fn a_full_page_leads_on(rows: nat, limit: u32, offset: u32)
    ensures
        cursor_after(rows, limit, offset) is Some <==> rows == limit,
        rows == limit ==> cursor_after(rows, limit, offset) == Some(
            decimal((offset + limit) as nat),
        ),
{
}

/// Each method is found under its own name, and under no other.
pub proof fn a_method_has_one_name(name: Seq<char>)
    ensures
        method_named(name) == Some(Method::MemorySearch) <==> name == "memory/search"@,
        method_named(name) == Some(Method::MemoryList) <==> name == "memory/list"@,
        method_named(name) == Some(Method::MemoryListEpisodes) <==> name == "memory/listEpisodes"@,
        method_named(name) == Some(Method::MemoryRemember) <==> name == "memory/remember"@,
        method_named(name) == Some(Method::MemoryForget) <==> name == "memory/forget"@,
        method_named(name) == Some(Method::SessionList) <==> name == "session/list"@,
        method_named(name) == Some(Method::SessionNew) <==> name == "session/new"@,
        method_named(name) == Some(Method::SessionMessages) <==> name == "session/messages"@,
        method_named(name) == Some(Method::ConfigRead) <==> name == "config/read"@,
        method_named(name) == Some(Method::ConfigWrite) <==> name == "config/write"@,
        method_named(name) == Some(Method::ModelList) <==> name == "model/list"@,
        method_named(name) == Some(Method::TurnStart) <==> name == "turn/start"@,
        method_named(name) == Some(Method::TurnInterrupt) <==> name == "turn/interrupt"@,
{
    lemma_method_names();
}

proof fn lemma_method_names()
    ensures
        "memory/search"@.len() == 13,
        "memory/list"@.len() == 11,
        "memory/listEpisodes"@.len() == 19,
        "memory/remember"@.len() == 15,
        "memory/forget"@.len() == 13,
        "session/list"@.len() == 12,
        "session/new"@.len() == 11,
        "session/messages"@.len() == 16,
        "config/read"@.len() == 11,
        "config/write"@.len() == 12,
        "model/list"@.len() == 10,
        "turn/start"@.len() == 10,
        "turn/interrupt"@.len() == 14,
        "memory/search"@[7] == 's',
        "memory/forget"@[7] == 'f',
        "memory/list"@[0] == 'm',
        "session/new"@[0] == 's',
        "config/read"@[0] == 'c',
        "session/list"@[0] == 's',
        "config/write"@[0] == 'c',
        "model/list"@[0] == 'm',
        "turn/start"@[0] == 't',
{
    reveal_strlit("memory/search");
    reveal_strlit("memory/list");
    reveal_strlit("memory/listEpisodes");
    reveal_strlit("memory/remember");
    reveal_strlit("memory/forget");
    reveal_strlit("session/list");
    reveal_strlit("session/new");
    reveal_strlit("session/messages");
    reveal_strlit("config/read");
    reveal_strlit("config/write");
    reveal_strlit("model/list");
    reveal_strlit("turn/start");
    reveal_strlit("turn/interrupt");
}

/// A call is served by what it asks for: with its own words, with the bounds that it
/// gives, and from where its cursor points.
pub proof fn a_call_is_served_as_asked(
    plan: Plan,
    text: String,
    more: String,
    n: u32,
    k: u32,
    cursor: String,
    millis: u64,
)
    requires
        cursor@ == decimal(k as nat),
    ensures
        serves(plan, Call::MemorySearch { query: text, top_k: Some(n) }, millis) ==> (
        plan matches Plan::Search { query, facts, episodes } && query@ == text@ && facts == n
            && episodes == 3),
        serves(plan, Call::MemorySearch { query: text, top_k: None }, millis) ==> (
        plan matches Plan::Search { query, facts, episodes } && query@ == text@ && facts == 4),
        serves(plan, Call::MemoryList { limit: Some(n), cursor: Some(cursor) }, millis) ==> (
        plan matches Plan::RecentFacts { limit, offset } && limit == n && offset == k),
        serves(plan, Call::MemoryList { limit: None, cursor: None }, millis) ==> (
        plan matches Plan::RecentFacts { limit, offset } && limit == 50 && offset == 0),
        serves(plan, Call::MemoryListEpisodes { limit: Some(n) }, millis) ==> (
        plan matches Plan::RecentEpisodes { limit } && limit == n),
        serves(plan, Call::MemoryListEpisodes { limit: None }, millis) ==> (
        plan matches Plan::RecentEpisodes { limit } && limit == 20),
        serves(
            plan,
            Call::MemoryRemember { subject: text, content: more, source: None },
            millis,
        ) ==> (plan matches Plan::AddFact { subject, content, source } && subject@ == text@
            && content@ == more@ && source@ == "user"@),
        serves(plan, Call::MemoryForget { subject: text }, millis) ==> (
        plan matches Plan::ForgetSubject { subject } && subject@ == text@),
        serves(plan, Call::SessionList { limit: Some(n), cursor: Some(cursor) }, millis) ==> (
        plan matches Plan::Sessions { limit, offset } && limit == n && offset == k),
        serves(
            plan,
            Call::SessionMessages { session_id: text, limit: Some(n), cursor: Some(cursor) },
            millis,
        ) ==> (plan matches Plan::Messages { session_id, before, limit } && session_id@ == text@
            && before == Some(k as i64) && limit == n),
        serves(plan, Call::ModelList { provider: Some(text) }, millis) ==> (
        plan matches Plan::Models { provider } && provider is Some && provider->0@ == text@),
        serves(plan, Call::TurnInterrupt { turn_id: text }, millis) ==> (
        plan matches Plan::Interrupt { turn_id } && turn_id@ == text@),
        serves(plan, Call::ConfigRead, millis) ==> plan is ReadConfig,
        serves(plan, Call::ConfigWrite, millis) ==> plan is WriteConfig,
        serves(plan, Call::TurnStart, millis) ==> plan is RunTurn,
{
    a_number_reads_back(k as nat, u32::MAX as int);
    a_number_reads_back(k as nat, usize::MAX as int);
    a_signed_number_reads_back(k as int, i64::MIN as int, i64::MAX as int);
    assert(signed(k as int) == decimal(k as nat));
}

/// A session gets the name that was asked for, and one of its own where none was.
pub proof fn a_session_gets_its_name(plan: Plan, name: String, millis: u64)
    requires
        trimmed(name@).len() > 0,
    ensures
        serves(plan, Call::SessionNew { session_id: Some(name) }, millis) ==> (
        plan matches Plan::NameSession { session_id } && session_id@ == name@),
        serves(plan, Call::SessionNew { session_id: None }, millis) ==> (
        plan matches Plan::NameSession { session_id } && session_id@ == "s"@ + decimal(
            millis as nat,
        )),
{
}

/// Of the providers, all are listed where none is asked for, and otherwise the ones
/// of that name, in their order.
pub proof fn the_wanted_providers_are_listed(
    all: Seq<ProviderInfo>,
    provider: ProviderInfo,
    want: Seq<char>,
)
    ensures
        wanted(Seq::empty(), Some(want), 0).len() == 0,
        wanted(all.push(provider), None, all.len() as int + 1) == wanted(
            all,
            None,
            all.len() as int,
        ).push(all.len() as int),
        provider.id@ == want ==> wanted(all.push(provider), Some(want), all.len() as int + 1)
            == wanted(all, Some(want), all.len() as int).push(all.len() as int),
        provider.id@ != want ==> wanted(all.push(provider), Some(want), all.len() as int + 1)
            == wanted(all, Some(want), all.len() as int),
{
    lemma_wanted_front(all, all.push(provider), None, all.len() as int);
    lemma_wanted_front(all, all.push(provider), Some(want), all.len() as int);
}

proof fn lemma_wanted_front(
    a: Seq<ProviderInfo>,
    b: Seq<ProviderInfo>,
    want: Option<Seq<char>>,
    k: int,
)
    requires
        0 <= k <= a.len() <= b.len(),
        forall|i: int| 0 <= i < a.len() ==> #[trigger] a[i] == b[i],
    ensures
        wanted(a, want, k) == wanted(b, want, k),
    decreases k,
{
    if k > 0 {
        lemma_wanted_front(a, b, want, k - 1);
        assert(a[k - 1] == b[k - 1]);
    }
}

/// A provider is presented with its large model as the flagship and its small one as
/// the fast one.
pub proof fn a_provider_is_presented(model: ModelInfo, provider: ProviderInfo)
    requires
        presents(model, provider),
    ensures
        model.id@ == provider.model@,
        model.provider@ == provider.id@,
        model.flagship is Some && model.flagship->0@ == provider.model@,
        model.fast is Some && model.fast->0@ == provider.small_model@,
{
}

} // verus!
