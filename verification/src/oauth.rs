//! Signing in to a server of tools: proof keys, addresses, the way back from the
//! browser, and the tokens that are kept.

use vstd::prelude::*;
use vstd::string::StringSliceAdditionalSpecFns;

use crate::config::{below, join_path};
use crate::json::{count_at, int_at, json_count_at, json_int_at, json_text_at, text_at};
use crate::text::{
    a_field_ends_at_its_mark, ascii_alnum, begins, chars_of, fields, find_char, find_from,
    finishes, head, lemma_find_char, lemma_occurs, line_views, lines, occurs, opt_text, piece,
    same, split, starts_with, views, word_views, words,
};

verus! {

pub const AUTH_DIR: &'static str = "mcp-auth";

pub const CALLBACK_PORT: u16 = 41765;

pub const CALLBACK_PATH: &'static str = "/callback";

/// Where the browser comes back to. It is fixed, since the server knows it.
pub const REDIRECT_URI: &'static str = "http://127.0.0.1:41765/callback";

pub const SIGN_IN_TIMEOUT_SECS: u64 = 300;

// ---- names of files --------------------------------------------------------

/// Whether Unicode calls a character a letter or a number.
pub uninterp spec fn alphanumeric(c: char) -> bool;

/// `char::is_alphanumeric`. It depends on the character alone; among the ASCII
/// characters these are the letters and the digits.
#[verifier::external_body]
fn is_alphanumeric(c: char) -> (r: bool)
    ensures
        r == alphanumeric(c),
        (c as u32) < 128 ==> r == ascii_alnum(c),
{
    c.is_alphanumeric()
}

pub open spec fn file_char(c: char, alnum: bool) -> char {
    if alnum || c == '-' || c == '_' {
        c
    } else {
        '_'
    }
}

/// How long the name of a file may get.
pub const FILE_NAME_CHARS: usize = 64;

/// A name made fit for a file: what is neither a letter, a number, `-` nor `_`
/// becomes `_`, and what is too much is cut off.
pub open spec fn sanitised(name: Seq<char>) -> Seq<char> {
    head(name.map_values(|c: char| file_char(c, alphanumeric(c))), FILE_NAME_CHARS as nat)
}

pub fn sanitise(name: &str) -> (r: String)
    ensures
        r@ == sanitised(name@),
        forall|i: int|
            0 <= i < r@.len() ==> (#[trigger] r@[i]) != '/' && r@[i] != '.' && r@[i] != '\\',
        forall|i: int|
            0 <= i < r@.len() && ascii_alnum(name@[i]) ==> (#[trigger] r@[i]) == name@[i],
{
    let v = chars_of(name);
    let n: usize = if v.len() < FILE_NAME_CHARS {
        v.len()
    } else {
        FILE_NAME_CHARS
    };
    let ghost all = name@.map_values(|c: char| file_char(c, alphanumeric(c)));
    let mut r = String::new();
    let mut i: usize = 0;
    assert(r@ =~= all.take(0));
    while i < n
        invariant
            i <= n,
            n <= v@.len(),
            v@ == name@,
            all == name@.map_values(|c: char| file_char(c, alphanumeric(c))),
            r@ == all.take(i as int),
            forall|k: int|
                0 <= k < r@.len() ==> (#[trigger] r@[k]) != '/' && r@[k] != '.' && r@[k] != '\\',
            forall|k: int|
                0 <= k < r@.len() && ascii_alnum(name@[k]) ==> (#[trigger] r@[k]) == name@[k],
        decreases n - i,
    {
        let c: char = v[i];
        let kept: char = if is_alphanumeric(c) || c == '-' || c == '_' {
            c
        } else {
            '_'
        };
        assert(all[i as int] == kept);
        r.push(kept);
        assert(r@ =~= all.take(i + 1));
        i += 1;
    }
    assert(r@ =~= sanitised(name@));
    r
}

/// The tokens of a server.
#[derive(Debug, Clone, PartialEq, Eq)]
pub struct StoredTokens {
    pub access_token: String,
    pub refresh_token: Option<String>,
    /// When the token ends, in seconds of Unix time.
    pub expires_at: Option<i64>,
}

/// What is kept of a server. What the server said of the client is rendered
/// JSON.
#[derive(Debug, Clone, PartialEq, Eq)]
pub struct StoredAuth {
    pub tokens: Option<StoredTokens>,
    pub client_info: Option<String>,
}

impl Default for StoredAuth {
    fn default() -> (r: StoredAuth)
        ensures
            r.tokens is None,
            r.client_info is None,
    {
        StoredAuth { tokens: None, client_info: None }
    }
}

/// The file of a server: one for each, so that a broken one costs one server.
pub struct TokenStore {
    path: String,
}

impl View for TokenStore {
    type V = Seq<char>;

    closed spec fn view(&self) -> Seq<char> {
        self.path@
    }
}

pub open spec fn token_file(home: Seq<char>, server: Seq<char>) -> Seq<char> {
    below(below(home, AUTH_DIR@), sanitised(server) + ".json"@)
}

fn copy_tokens(t: &StoredTokens) -> (r: StoredTokens)
    ensures
        r == *t,
{
    StoredTokens {
        access_token: t.access_token.clone(),
        refresh_token: match &t.refresh_token {
            Some(x) => Some(x.clone()),
            None => None,
        },
        expires_at: t.expires_at,
    }
}

impl TokenStore {
    pub fn new(home: &str, server_name: &str) -> (r: TokenStore)
        ensures
            r@ == token_file(home@, server_name@),
    {
        let mut leaf = sanitise(server_name);
        leaf.append(".json");
        TokenStore { path: join_path(join_path(home, AUTH_DIR).as_str(), leaf.as_str()) }
    }

    pub fn path(&self) -> (r: &str)
        ensures
            r@ == self@,
    {
        self.path.as_str()
    }

    /// The tokens that are kept; `auth` is what the file holds.
    pub fn tokens(&self, auth: &StoredAuth) -> (r: Option<StoredTokens>)
        ensures
            r == auth.tokens,
    {
        match &auth.tokens {
            Some(t) => Some(copy_tokens(t)),
            None => None,
        }
    }

    /// What the file holds once new tokens are kept: all else stays.
    pub fn save_tokens(&self, auth: StoredAuth, tokens: StoredTokens) -> (r: StoredAuth)
        ensures
            r.tokens == Some(tokens),
            r.client_info == auth.client_info,
    {
        StoredAuth { tokens: Some(tokens), client_info: auth.client_info }
    }

    /// What the file holds once the server has said who the client is.
    pub fn save_client_info(&self, auth: StoredAuth, client_info: String) -> (r: StoredAuth)
        ensures
            r.tokens == auth.tokens,
            r.client_info == Some(client_info),
    {
        StoredAuth { tokens: auth.tokens, client_info: Some(client_info) }
    }
}

/// How long before its end a token is held to be over, in seconds.
pub const EXPIRY_MARGIN: i64 = 60;

impl StoredTokens {
    pub open spec fn is_over(self, now: int) -> bool {
        self.expires_at is Some && now >= self.expires_at->0 - EXPIRY_MARGIN
    }

    /// Whether the token is over; `now` is in seconds of Unix time. A token whose
    /// end nobody named is not.
    pub fn expired(&self, now: i64) -> (r: bool)
        ensures
            r == self.is_over(now as int),
    {
        match self.expires_at {
            Some(at) => now as i128 >= at as i128 - EXPIRY_MARGIN as i128,
            None => false,
        }
    }
}

// ---- proof keys ------------------------------------------------------------

/// The character for six bits.
pub open spec fn letter(d: int) -> char {
    if d < 26 {
        (65 + d) as char
    } else if d < 52 {
        (97 + d - 26) as char
    } else if d < 62 {
        (48 + d - 52) as char
    } else if d == 62 {
        '-'
    } else {
        '_'
    }
}

pub open spec fn byte_or_zero(bytes: Seq<u8>, i: int) -> int {
    if 0 <= i < bytes.len() {
        bytes[i] as int
    } else {
        0
    }
}

/// Three bytes as one number; what is missing is zero.
pub open spec fn triple(bytes: Seq<u8>, g: int) -> int {
    byte_or_zero(bytes, 3 * g) * 65536 + byte_or_zero(bytes, 3 * g + 1) * 256 + byte_or_zero(
        bytes,
        3 * g + 2,
    )
}

/// The `p`-th six bits of a number of 24 bits.
pub open spec fn sixth(n: int, p: int) -> int {
    if p == 0 {
        n / 262144
    } else if p == 1 {
        n / 4096 % 64
    } else if p == 2 {
        n / 64 % 64
    } else {
        n % 64
    }
}

pub open spec fn encoded_len(n: int) -> int {
    n / 3 * 4 + if n % 3 == 0 {
        0int
    } else {
        n % 3 + 1
    }
}

/// Bytes in the alphabet that is safe in addresses, without padding.
pub open spec fn encoded(bytes: Seq<u8>) -> Seq<char> {
    Seq::new(
        encoded_len(bytes.len() as int) as nat,
        |k: int| letter(sixth(triple(bytes, k / 4), k % 4)),
    )
}

fn letter_of(d: u32) -> (r: char)
    requires
        d < 64,
    ensures
        r == letter(d as int),
{
    if d < 26 {
        (65 + d) as u8 as char
    } else if d < 52 {
        (97 + (d - 26)) as u8 as char
    } else if d < 62 {
        (48 + (d - 52)) as u8 as char
    } else if d == 62 {
        '-'
    } else {
        '_'
    }
}

pub fn base64url_nopad(bytes: &[u8]) -> (r: String)
    ensures
        r@ == encoded(bytes@),
{
    let n: usize = bytes.len();
    let ghost all = encoded(bytes@);
    let mut out = String::new();
    let mut i: usize = 0;
    let ghost mut g: int = 0;
    assert(out@ =~= all.take(0));
    while i < n
        invariant
            n == bytes@.len(),
            all == encoded(bytes@),
            i == 3 * g,
            i <= n,
            0 <= g,
            out@ == all.take(4 * g),
            4 * g <= all.len(),
        decreases n - i,
    {
        let left: usize = n - i;
        let b0: u32 = bytes[i] as u32;
        let b1: u32 = if left > 1 {
            bytes[i + 1] as u32
        } else {
            0
        };
        let b2: u32 = if left > 2 {
            bytes[i + 2] as u32
        } else {
            0
        };
        let x: u32 = b0 * 65536 + b1 * 256 + b2;
        assert(x == triple(bytes@, g));
        assert(x < 16777216);
        let ghost before = out@;
        out.push(letter_of(x / 262144));
        out.push(letter_of(x / 4096 % 64));
        assert((4 * g) / 4 == g && (4 * g) % 4 == 0);
        assert((4 * g + 1) / 4 == g && (4 * g + 1) % 4 == 1);
        assert((4 * g + 2) / 4 == g && (4 * g + 2) % 4 == 2);
        assert((4 * g + 3) / 4 == g && (4 * g + 3) % 4 == 3);
        if left > 1 {
            out.push(letter_of(x / 64 % 64));
        }
        if left > 2 {
            out.push(letter_of(x % 64));
            assert(out@ =~= all.take(4 * g + 4));
            proof {
                g = g + 1;
            }
            i = i + 3;
        } else {
            assert(n as int / 3 == g);
            assert(n as int % 3 == left);
            assert(out@ =~= all);
            return out;
        }
    }
    assert(n as int / 3 == g && n as int % 3 == 0);
    assert(all.take(4 * g) =~= all);
    out
}

proof fn lemma_triple(bytes: Seq<u8>, g: int)
    requires
        0 <= g,
    ensures
        0 <= triple(bytes, g) < 16777216,
        0 <= byte_or_zero(bytes, 3 * g) < 256,
        0 <= byte_or_zero(bytes, 3 * g + 1) < 256,
        0 <= byte_or_zero(bytes, 3 * g + 2) < 256,
        byte_or_zero(bytes, 3 * g) == triple(bytes, g) / 65536,
        byte_or_zero(bytes, 3 * g + 1) == triple(bytes, g) / 256 % 256,
        byte_or_zero(bytes, 3 * g + 2) == triple(bytes, g) % 256,
{
}

proof fn lemma_room(n: int, g: int)
    requires
        0 <= g,
        3 * g < n,
    ensures
        n - 3 * g >= 3 ==> 4 * g + 4 <= encoded_len(n),
        n - 3 * g == 2 ==> 4 * g + 3 == encoded_len(n),
        n - 3 * g == 1 ==> 4 * g + 2 == encoded_len(n),
{
}

/// The value of a letter of the alphabet.
pub open spec fn letter_value(c: char) -> int {
    if 'A' <= c <= 'Z' {
        c as int - 'A' as int
    } else if 'a' <= c <= 'z' {
        c as int - 'a' as int + 26
    } else if '0' <= c <= '9' {
        c as int - '0' as int + 52
    } else if c == '-' {
        62
    } else {
        63
    }
}

/// The value of letter `k`; what is left out counts nothing.
pub open spec fn value_or_zero(text: Seq<char>, k: int) -> int {
    if 0 <= k < text.len() {
        letter_value(text[k])
    } else {
        0
    }
}

/// The number that four letters spell.
pub open spec fn quadruple(text: Seq<char>, g: int) -> int {
    value_or_zero(text, 4 * g) * 262144 + value_or_zero(text, 4 * g + 1) * 4096 + value_or_zero(
        text,
        4 * g + 2,
    ) * 64 + value_or_zero(text, 4 * g + 3)
}

/// Byte `p` of the three that a number holds.
pub open spec fn third(n: int, p: int) -> int {
    if p == 0 {
        n / 65536 % 256
    } else if p == 1 {
        n / 256 % 256
    } else {
        n % 256
    }
}

pub open spec fn decoded_len(n: int) -> int {
    n / 4 * 3 + if n % 4 == 0 {
        0int
    } else {
        n % 4 - 1
    }
}

/// The bytes that a text without padding spells: every four letters are three
/// bytes, and two or three letters at the end are one or two.
pub open spec fn decoded(text: Seq<char>) -> Seq<u8> {
    Seq::new(
        decoded_len(text.len() as int) as nat,
        |i: int| third(quadruple(text, i / 3), i % 3) as u8,
    )
}

proof fn lemma_letter_value(d: int)
    requires
        0 <= d < 64,
    ensures
        letter_value(letter(d)) == d,
{
}

proof fn lemma_value(bytes: Seq<u8>, g: int, p: int)
    requires
        0 <= g,
        0 <= p < 4,
        3 * g < bytes.len(),
    ensures
        value_or_zero(encoded(bytes), 4 * g + p) == sixth(triple(bytes, g), p),
{
    let k = 4 * g + p;
    let n = bytes.len() as int;
    lemma_triple(bytes, g);
    lemma_room(n, g);
    assert(k / 4 == g && k % 4 == p);
    if k < encoded_len(n) {
        assert(encoded(bytes)[k] == letter(sixth(triple(bytes, g), p)));
        lemma_letter_value(sixth(triple(bytes, g), p));
    } else {
        let x = triple(bytes, g);
        assert(byte_or_zero(bytes, 3 * g + 2) == 0);
        assert(x % 256 == 0);
        assert(x % 64 == 0);
        if p == 2 {
            assert(byte_or_zero(bytes, 3 * g + 1) == 0);
            assert(x == x / 65536 * 65536);
            assert(x / 64 == x / 65536 * 1024);
        }
    }
}

proof fn lemma_sixths_make(x: int)
    requires
        0 <= x < 16777216,
    ensures
        x == sixth(x, 0) * 262144 + sixth(x, 1) * 4096 + sixth(x, 2) * 64 + sixth(x, 3),
{
    assert(x == x / 64 * 64 + x % 64);
    assert(x / 64 == x / 4096 * 64 + x / 64 % 64);
    assert(x / 4096 == x / 262144 * 64 + x / 4096 % 64);
}

proof fn lemma_group_reads_back(bytes: Seq<u8>, g: int)
    requires
        0 <= g,
        3 * g < bytes.len(),
    ensures
        quadruple(encoded(bytes), g) == triple(bytes, g),
{
    lemma_triple(bytes, g);
    lemma_value(bytes, g, 0);
    lemma_value(bytes, g, 1);
    lemma_value(bytes, g, 2);
    lemma_value(bytes, g, 3);
    lemma_sixths_make(triple(bytes, g));
}

proof fn lemma_thirds(a: int, b: int, c: int)
    requires
        0 <= a < 256,
        0 <= b < 256,
        0 <= c < 256,
    ensures
        third(a * 65536 + b * 256 + c, 0) == a,
        third(a * 65536 + b * 256 + c, 1) == b,
        third(a * 65536 + b * 256 + c, 2) == c,
{
    let n = a * 65536 + b * 256 + c;
    assert(n / 256 == a * 256 + b);
    assert(n / 65536 == a);
}

proof fn lemma_byte_reads_back(bytes: Seq<u8>, i: int)
    requires
        0 <= i < bytes.len(),
    ensures
        third(quadruple(encoded(bytes), i / 3), i % 3) == bytes[i],
{
    let g = i / 3;
    assert(i == 3 * g + i % 3);
    lemma_group_reads_back(bytes, g);
    lemma_thirds(
        byte_or_zero(bytes, 3 * g),
        byte_or_zero(bytes, 3 * g + 1),
        byte_or_zero(bytes, 3 * g + 2),
    );
    assert(byte_or_zero(bytes, i) == bytes[i]);
}

/// An encoding reads back as the bytes that it was made of.
pub proof fn an_encoding_reads_back(bytes: Seq<u8>)
    ensures
        decoded(encoded(bytes)) == bytes,
{
    let n = bytes.len() as int;
    let text = encoded(bytes);
    assert(text.len() == encoded_len(n));
    assert(decoded_len(encoded_len(n)) == n) by {
        assert(n == 3 * (n / 3) + n % 3);
    }
    assert forall|i: int| 0 <= i < n implies decoded(text)[i] == bytes[i] by {
        lemma_byte_reads_back(bytes, i);
    }
    assert(decoded(text) =~= bytes);
}

/// Nothing is lost in the encoding: different bytes are written differently.
pub proof fn an_encoding_loses_nothing(a: Seq<u8>, b: Seq<u8>)
    requires
        encoded(a) == encoded(b),
    ensures
        a == b,
{
    an_encoding_reads_back(a);
    an_encoding_reads_back(b);
}

/// An encoding stands in an address as it is.
pub proof fn an_encoding_is_safe_in_addresses(bytes: Seq<u8>)
    ensures
        forall|k: int|
            0 <= k < encoded(bytes).len() ==> {
                let c = #[trigger] encoded(bytes)[k];
                ascii_alnum(c) || c == '-' || c == '_'
            },
{
    assert forall|k: int| 0 <= k < encoded(bytes).len() implies {
        let c = #[trigger] encoded(bytes)[k];
        ascii_alnum(c) || c == '-' || c == '_'
    } by {
        lemma_triple(bytes, k / 4);
    }
}

/// How many bytes a verifier is made of.
pub const VERIFIER_BYTES: usize = 48;

/// A verifier: random bytes, in writing.
pub fn pkce_verifier(random: &[u8]) -> (r: String)
    requires
        random@.len() == VERIFIER_BYTES,
    ensures
        r@ == encoded(random@),
        r@.len() == 64,
{
    assert(encoded_len(48) == 64);
    base64url_nopad(random)
}

/// One step of the stirring.
pub open spec fn stirred(state: u64) -> u64 {
    let a = state ^ (state << 13);
    let b = a ^ (a >> 7);
    b ^ (b << 17)
}

pub open spec fn stirred_times(seed: u64, k: int) -> u64
    decreases k,
{
    if k <= 0 {
        seed
    } else {
        stirred(stirred_times(seed, k - 1))
    }
}

/// Bytes to make do with where the system gives no random ones: stirred from
/// what differs between runs, the time and an address. They are weaker, but no
/// constant.
pub fn makeshift_bytes(nanos: u64, address: u64) -> (r: Vec<u8>)
    ensures
        r@.len() == VERIFIER_BYTES,
        forall|i: int|
            0 <= i < VERIFIER_BYTES ==> #[trigger] r@[i] == (stirred_times(
                nanos ^ address ^ 0x9E37_79B9_7F4A_7C15u64,
                i + 1,
            ) & 0xff) as u8,
{
    let ghost seed = nanos ^ address ^ 0x9E37_79B9_7F4A_7C15u64;
    let mut state: u64 = nanos ^ address ^ 0x9E37_79B9_7F4A_7C15u64;
    let mut r: Vec<u8> = Vec::new();
    let mut i: usize = 0;
    while i < VERIFIER_BYTES
        invariant
            i <= VERIFIER_BYTES,
            r@.len() == i,
            state == stirred_times(seed, i as int),
            forall|k: int|
                0 <= k < i ==> #[trigger] r@[k] == (stirred_times(seed, k + 1) & 0xff) as u8,
        decreases VERIFIER_BYTES - i,
    {
        state = state ^ (state << 13);
        state = state ^ (state >> 7);
        state = state ^ (state << 17);
        assert(state == stirred_times(seed, i + 1));
        r.push((state & 0xff) as u8);
        i += 1;
    }
    r
}

/// The SHA-256 digest of bytes.
pub uninterp spec fn sha256_of(bytes: Seq<u8>) -> Seq<u8>;

/// `sha2::Sha256::digest`: 32 bytes that depend on the given ones alone.
#[verifier::external_body]
fn sha256(bytes: &[u8]) -> (r: Vec<u8>)
    ensures
        r@ == sha256_of(bytes@),
        r@.len() == 32,
{
    <sha2::Sha256 as sha2::Digest>::digest(bytes).to_vec()
}

/// The challenge that goes with a verifier.
pub fn pkce_challenge(verifier: &str) -> (r: String)
    ensures
        r@ == encoded(sha256_of(verifier.spec_bytes())),
        r@.len() == 43,
{
    let digest = sha256(verifier.as_bytes());
    assert(encoded_len(32) == 43);
    base64url_nopad(digest.as_slice())
}

// ---- addresses -------------------------------------------------------------

/// What follows the scheme of an address.
pub open spec fn after_scheme(url: Seq<char>) -> Seq<char> {
    if begins(url, "https://"@) {
        url.subrange(8, url.len() as int)
    } else if begins(url, "http://"@) {
        url.subrange(7, url.len() as int)
    } else {
        url
    }
}

pub open spec fn scheme(url: Seq<char>) -> Seq<char> {
    if begins(url, "https://"@) {
        "https://"@
    } else {
        "http://"@
    }
}

/// The host of an address, with its scheme.
pub open spec fn origin_of(url: Seq<char>) -> Seq<char> {
    let rest = after_scheme(url);
    scheme(url) + rest.subrange(0, find_char(rest, '/', 0))
}

/// The path of an address; nothing, where it has none.
pub open spec fn path_part(url: Seq<char>) -> Seq<char> {
    let rest = after_scheme(url);
    rest.subrange(find_char(rest, '/', 0), rest.len() as int)
}

fn rest_of(url: &str) -> (r: String)
    ensures
        r@ == after_scheme(url@),
{
    proof {
        reveal_strlit("https://");
        reveal_strlit("http://");
        assert("https://"@.len() == 8);
        assert("http://"@.len() == 7);
    }
    let v = chars_of(url);
    if starts_with(url, "https://") {
        piece(&v, 8, v.len())
    } else if starts_with(url, "http://") {
        piece(&v, 7, v.len())
    } else {
        url.to_owned()
    }
}

pub fn origin(url: &str) -> (r: String)
    ensures
        r@ == origin_of(url@),
{
    let rest = rest_of(url);
    let v = chars_of(rest.as_str());
    proof {
        lemma_find_char(v@, '/', 0);
    }
    let end: usize = find_from(&v, '/', 0);
    let mut t = if starts_with(url, "https://") {
        "https://".to_owned()
    } else {
        "http://".to_owned()
    };
    t.append(piece(&v, 0, end).as_str());
    t
}

pub fn path_of(url: &str) -> (r: String)
    ensures
        r@ == path_part(url@),
{
    let rest = rest_of(url);
    let v = chars_of(rest.as_str());
    proof {
        lemma_find_char(v@, '/', 0);
    }
    let at: usize = find_from(&v, '/', 0);
    piece(&v, at, v.len())
}

/// Where a server may say who signs people in, in the order in which it is asked:
/// at its root, then below its path.
pub fn resource_urls(server_url: &str) -> (r: (String, String))
    ensures
        r.0@ == origin_of(server_url@) + "/.well-known/oauth-protected-resource"@,
        r.1@ == origin_of(server_url@) + path_part(server_url@)
            + "/.well-known/oauth-protected-resource"@,
{
    let mut a = origin(server_url);
    a.append("/.well-known/oauth-protected-resource");
    let mut b = origin(server_url);
    b.append(path_of(server_url).as_str());
    b.append("/.well-known/oauth-protected-resource");
    (a, b)
}

/// Who signs people in, by what a server said of it.
pub open spec fn named_server(count: Option<usize>, first: Option<Seq<char>>, own: Seq<char>) -> Seq<
    char,
> {
    if count is Some && first is Some {
        first->0
    } else {
        own
    }
}

pub open spec fn signing_server(server_url: Seq<char>, body: Option<Seq<char>>) -> Seq<char> {
    match body {
        Some(text) => named_server(
            json_count_at(text, "/authorization_servers"@),
            json_text_at(text, "/authorization_servers/0"@),
            origin_of(server_url),
        ),
        None => origin_of(server_url),
    }
}

/// Who signs people in to a server. `body` is the first reply that was had from
/// its resource addresses; without one, the server signs in itself.
pub fn auth_server(server_url: &str, body: &Option<String>) -> (r: String)
    ensures
        r@ == signing_server(server_url@, opt_text(*body)),
{
    match body {
        Some(text) => {
            if count_at(text.as_str(), "/authorization_servers").is_some() {
                match text_at(text.as_str(), "/authorization_servers/0") {
                    Some(first) => {
                        return first;
                    },
                    None => {},
                }
            }
        },
        None => {},
    }
    origin(server_url)
}

/// Where the addresses for signing in are listed.
pub fn metadata_url(auth_server: &str) -> (r: String)
    ensures
        r@ == origin_of(auth_server@) + "/.well-known/oauth-authorization-server"@ + path_part(
            auth_server@,
        ),
{
    let mut t = origin(auth_server);
    t.append("/.well-known/oauth-authorization-server");
    t.append(path_of(auth_server).as_str());
    t
}

#[derive(Debug, Clone, PartialEq, Eq)]
pub struct AuthEndpoints {
    pub authorization_endpoint: String,
    pub token_endpoint: String,
    pub registration_endpoint: Option<String>,
}

/// The addresses that these fields name: two of them have to be there.
pub fn endpoints_of_fields(
    authorization: Option<String>,
    token: Option<String>,
    registration: Option<String>,
) -> (r: Result<AuthEndpoints, String>)
    ensures
        match (authorization, token) {
            (None, _) => r matches Err(e) && e@ == "元数据里没有 authorization_endpoint"@,
            (Some(_), None) => r matches Err(e) && e@ == "元数据里没有 token_endpoint"@,
            (Some(a), Some(t)) => r == Ok::<AuthEndpoints, String>(
                AuthEndpoints {
                    authorization_endpoint: a,
                    token_endpoint: t,
                    registration_endpoint: registration,
                },
            ),
        },
{
    let authorization_endpoint = match authorization {
        Some(a) => a,
        None => {
            return Err("元数据里没有 authorization_endpoint".to_owned());
        },
    };
    let token_endpoint = match token {
        Some(t) => t,
        None => {
            return Err("元数据里没有 token_endpoint".to_owned());
        },
    };
    Ok(AuthEndpoints { authorization_endpoint, token_endpoint, registration_endpoint: registration })
}

pub open spec fn lists_endpoints(meta: Seq<char>, e: AuthEndpoints) -> bool {
    &&& json_text_at(meta, "/authorization_endpoint"@) == Some(e.authorization_endpoint@)
    &&& json_text_at(meta, "/token_endpoint"@) == Some(e.token_endpoint@)
    &&& json_text_at(meta, "/registration_endpoint"@) == opt_text(e.registration_endpoint)
}

/// The addresses that a list names; `meta` is the list, as JSON.
pub fn discover(meta: &str) -> (r: Result<AuthEndpoints, String>)
    ensures
        match r {
            Ok(e) => lists_endpoints(meta@, e),
            Err(why) => if json_text_at(meta@, "/authorization_endpoint"@) is None {
                why@ == "元数据里没有 authorization_endpoint"@
            } else {
                json_text_at(meta@, "/token_endpoint"@) is None && why@
                    == "元数据里没有 token_endpoint"@
            },
        },
{
    endpoints_of_fields(
        text_at(meta, "/authorization_endpoint"),
        text_at(meta, "/token_endpoint"),
        text_at(meta, "/registration_endpoint"),
    )
}

// ---- signing in ------------------------------------------------------------

/// Who the client is to the server.
#[derive(Debug, Clone, PartialEq, Eq)]
pub enum Registration {
    /// The server said it before.
    Known(String),
    /// Ask the server, at this address.
    Register(String),
}

pub fn registration(client_info: &Option<String>, endpoints: &AuthEndpoints) -> (r: Result<
    Registration,
    String,
>)
    ensures
        match (*client_info, endpoints.registration_endpoint) {
            (Some(info), _) => r == Ok::<Registration, String>(Registration::Known(info)),
            (None, Some(at)) => r == Ok::<Registration, String>(Registration::Register(at)),
            (None, None) => r matches Err(e) && e@
                == "服务器不支持动态注册，也没有现成的 client_id —— 手工注册后把 client_id 写进 mcp-auth 的 client_info"@,
        },
{
    match client_info {
        Some(info) => Ok(Registration::Known(info.clone())),
        None => match &endpoints.registration_endpoint {
            Some(at) => Ok(Registration::Register(at.clone())),
            None => Err(
                "服务器不支持动态注册，也没有现成的 client_id —— 手工注册后把 client_id 写进 mcp-auth 的 client_info".to_owned(),
            ),
        },
    }
}

/// The client's name, in what the server said of it.
pub fn client_id(info: &str) -> (r: Result<String, String>)
    ensures
        match json_text_at(info@, "/client_id"@) {
            Some(id) => r matches Ok(t) && t@ == id,
            None => r matches Err(e) && e@ == "注册应答里没有 client_id"@,
        },
{
    match text_at(info, "/client_id") {
        Some(id) => Ok(id),
        None => Err("注册应答里没有 client_id".to_owned()),
    }
}

/// Where the browser is sent. All but the challenge comes in escaped.
pub fn authorize_url(
    endpoint: &str,
    client_id: &str,
    redirect_uri: &str,
    state: &str,
    challenge: &str,
) -> (r: String)
    ensures
        r@ == endpoint@ + "?response_type=code&client_id="@ + client_id@ + "&redirect_uri="@
            + redirect_uri@ + "&state="@ + state@ + "&code_challenge="@ + challenge@
            + "&code_challenge_method=S256"@,
{
    let mut t = endpoint.to_owned();
    t.append("?response_type=code&client_id=");
    t.append(client_id);
    t.append("&redirect_uri=");
    t.append(redirect_uri);
    t.append("&state=");
    t.append(state);
    t.append("&code_challenge=");
    t.append(challenge);
    t.append("&code_challenge_method=S256");
    t
}

pub open spec fn ends_header(b: Seq<u8>, i: int) -> bool {
    b[i] == 13 && b[i + 1] == 10 && b[i + 2] == 13 && b[i + 3] == 10
}

/// Where the header of a request ends.
pub fn find_header_end(buffer: &Vec<u8>) -> (r: Option<usize>)
    ensures
        match r {
            Some(i) => i + 4 <= buffer@.len() && ends_header(buffer@, i as int) && forall|k: int|
                0 <= k < i ==> !#[trigger] ends_header(buffer@, k),
            None => forall|k: int| 0 <= k && k + 4 <= buffer@.len() ==> !#[trigger] ends_header(
                buffer@,
                k,
            ),
        },
{
    let n: usize = buffer.len();
    if n < 4 {
        return None;
    }
    let mut i: usize = 0;
    while i <= n - 4
        invariant
            4 <= n,
            n == buffer@.len(),
            i <= n - 3,
            forall|k: int| 0 <= k < i ==> !#[trigger] ends_header(buffer@, k),
        decreases n - i,
    {
        if buffer[i] == 13 && buffer[i + 1] == 10 && buffer[i + 2] == 13 && buffer[i + 3] == 10 {
            return Some(i);
        }
        assert(!ends_header(buffer@, i as int));
        i += 1;
    }
    None
}

pub open spec fn nth_or_empty(parts: Seq<Seq<char>>, k: int) -> Seq<char> {
    if k < parts.len() {
        parts[k]
    } else {
        Seq::empty()
    }
}

/// What a request asks for: the second word of its first line.
pub open spec fn target_of(request: Seq<char>) -> Seq<char> {
    nth_or_empty(word_views(nth_or_empty(line_views(request), 0)), 1)
}

pub open spec fn parameter(pair: Seq<char>) -> (Seq<char>, Seq<char>) {
    let c = find_char(pair, '=', 0);
    if c < pair.len() {
        (pair.subrange(0, c), pair.subrange(c + 1, pair.len() as int))
    } else {
        (pair, Seq::empty())
    }
}

/// The parameters among the first `k` parts of a query.
pub open spec fn parameters(parts: Seq<Seq<char>>, k: int) -> Seq<(Seq<char>, Seq<char>)>
    decreases k,
{
    if k <= 0 {
        Seq::empty()
    } else if parts[k - 1].len() > 0 {
        parameters(parts, k - 1).push(parameter(parts[k - 1]))
    } else {
        parameters(parts, k - 1)
    }
}

pub open spec fn query_parts(target: Seq<char>) -> Seq<Seq<char>> {
    fields(nth_or_empty(fields(target, '?'), 1), '&')
}

pub open spec fn pair_views(v: Seq<(String, String)>) -> Seq<(Seq<char>, Seq<char>)> {
    v.map_values(|p: (String, String)| (p.0@, p.1@))
}

fn nth(parts: &Vec<String>, k: usize) -> (r: String)
    ensures
        r@ == nth_or_empty(views(parts@), k as int),
{
    assert(views(parts@).len() == parts@.len());
    if k < parts.len() {
        parts[k].clone()
    } else {
        let t = String::new();
        assert(t@ =~= Seq::<char>::empty());
        t
    }
}

fn parameter_of(pair: &str) -> (r: (String, String))
    ensures
        (r.0@, r.1@) == parameter(pair@),
{
    let v = chars_of(pair);
    let n: usize = v.len();
    proof {
        lemma_find_char(v@, '=', 0);
    }
    let c: usize = find_from(&v, '=', 0);
    if c < n {
        (piece(&v, 0, c), piece(&v, c + 1, n))
    } else {
        let t = String::new();
        assert(t@ =~= Seq::<char>::empty());
        (pair.to_owned(), t)
    }
}

/// What the browser brought back: the parameters of its request, their values
/// still escaped; `None` where it asked for something else.
pub fn callback_parameters(request: &str) -> (r: Option<Vec<(String, String)>>)
    ensures
        if begins(target_of(request@), CALLBACK_PATH@) {
            let parts = query_parts(target_of(request@));
            r matches Some(v) && pair_views(v@) == parameters(parts, parts.len() as int)
        } else {
            r is None
        },
{
    let first = nth(&lines(request), 0);
    let target = nth(&words(first.as_str()), 1);
    if !starts_with(target.as_str(), CALLBACK_PATH) {
        return None;
    }
    let query = nth(&split(target.as_str(), '?'), 1);
    let parts = split(query.as_str(), '&');
    let n: usize = parts.len();
    let ghost all = views(parts@);
    assert(all.len() == n);
    let mut r: Vec<(String, String)> = Vec::new();
    let mut i: usize = 0;
    assert(pair_views(r@) =~= Seq::<(Seq<char>, Seq<char>)>::empty());
    while i < n
        invariant
            i <= n,
            n == parts@.len(),
            all == views(parts@),
            pair_views(r@) == parameters(all, i as int),
        decreases n - i,
    {
        let ghost before = pair_views(r@);
        assert(all[i as int] == parts@[i as int]@);
        if parts[i].as_str().unicode_len() > 0 {
            let p = parameter_of(parts[i].as_str());
            r.push(p);
            assert(pair_views(r@) =~= before.push((p.0@, p.1@)));
        }
        i += 1;
    }
    Some(r)
}

/// The value of the first parameter of a name, from place `i` on.
pub open spec fn value_from(
    params: Seq<(Seq<char>, Seq<char>)>,
    key: Seq<char>,
    i: int,
) -> Option<Seq<char>>
    decreases params.len() - i,
{
    if i < 0 || i >= params.len() {
        None
    } else if params[i].0 == key {
        Some(params[i].1)
    } else {
        value_from(params, key, i + 1)
    }
}

fn value_of(params: &Vec<(String, String)>, key: &str) -> (r: Option<String>)
    ensures
        opt_text(r) == value_from(pair_views(params@), key@, 0),
{
    let ghost all = pair_views(params@);
    let mut i: usize = 0;
    while i < params.len()
        invariant
            i <= params@.len(),
            all == pair_views(params@),
            value_from(all, key@, 0) == value_from(all, key@, i as int),
        decreases params@.len() - i,
    {
        assert(all[i as int] == (params@[i as int].0@, params@[i as int].1@));
        if same(params[i].0.as_str(), key) {
            return Some(params[i].1.clone());
        }
        i += 1;
    }
    assert(all.len() == params@.len());
    None
}

/// What the browser's return means: the code, or why there is none.
pub open spec fn code_of(params: Seq<(Seq<char>, Seq<char>)>, state: Seq<char>) -> Result<
    Seq<char>,
    Seq<char>,
> {
    match value_from(params, "error"@, 0) {
        Some(error) => Err(
            "授权失败："@ + error + match value_from(params, "error_description"@, 0) {
                Some(d) => " — "@ + d,
                None => ""@,
            },
        ),
        None => match value_from(params, "code"@, 0) {
            None => Err("回调里没有 code"@),
            Some(code) => match value_from(params, "state"@, 0) {
                Some(s) => if s == state {
                    Ok(code)
                } else {
                    Err("state 对不上 —— 可能是伪造的回调，拒绝换 token"@)
                },
                None => Ok(code),
            },
        },
    }
}

pub fn callback_code(params: &Vec<(String, String)>, state: &str) -> (r: Result<String, String>)
    ensures
        crate::subagent::text_result(r) == code_of(pair_views(params@), state@),
{
    match value_of(params, "error") {
        Some(error) => {
            let mut why = "授权失败：".to_owned();
            why.append(error.as_str());
            match value_of(params, "error_description") {
                Some(d) => {
                    let ghost before = why@;
                    why.append(" — ");
                    why.append(d.as_str());
                    assert(why@ =~= before + (" — "@ + d@));
                },
                None => {
                    why.append("");
                },
            }
            return Err(why);
        },
        None => {},
    }
    let code = match value_of(params, "code") {
        Some(c) => c,
        None => {
            return Err("回调里没有 code".to_owned());
        },
    };
    match value_of(params, "state") {
        Some(s) => {
            if !same(s.as_str(), state) {
                return Err("state 对不上 —— 可能是伪造的回调，拒绝换 token".to_owned());
            }
        },
        None => {},
    }
    Ok(code)
}

/// A return that carries another state than the one that was sent out never
/// yields a code.
pub proof fn a_forged_return_is_refused(
    params: Seq<(Seq<char>, Seq<char>)>,
    state: Seq<char>,
    other: Seq<char>,
)
    requires
        value_from(params, "state"@, 0) == Some(other),
        other != state,
    ensures
        code_of(params, state) is Err,
{
}

// ---- tokens ----------------------------------------------------------------

/// Tokens as a server hands them out.
pub open spec fn tokens_told(
    t: StoredTokens,
    access: Seq<char>,
    expires_in: Option<i64>,
    refresh: Option<Seq<char>>,
    now: i64,
) -> bool {
    &&& t.access_token@ == access
    &&& opt_text(t.refresh_token) == refresh
    &&& match expires_in {
        Some(secs) => t.expires_at is Some && t.expires_at->0 == now + secs,
        None => t.expires_at is None,
    }
}

/// The tokens that these fields tell; `now` is in seconds of Unix time.
pub fn tokens_of_fields(
    access: Option<String>,
    expires_in: Option<i64>,
    refresh: Option<String>,
    now: i64,
) -> (r: Result<StoredTokens, String>)
    requires
        expires_in is Some ==> i64::MIN <= now + expires_in->0 <= i64::MAX,
    ensures
        match access {
            Some(a) => r matches Ok(t) && tokens_told(t, a@, expires_in, opt_text(refresh), now),
            None => r matches Err(e) && e@ == "token 应答里没有 access_token"@,
        },
{
    let access_token = match access {
        Some(a) => a,
        None => {
            return Err("token 应答里没有 access_token".to_owned());
        },
    };
    let expires_at = match expires_in {
        Some(secs) => Some((now as i128 + secs as i128) as i64),
        None => None,
    };
    Ok(StoredTokens { access_token, refresh_token: refresh, expires_at })
}

/// The tokens in a server's reply. `None` where their end lies beyond what a
/// clock can tell.
pub fn tokens_from_response(text: &str, now: i64) -> (r: Option<Result<StoredTokens, String>>)
    ensures
        ({
            let secs = json_int_at(text@, "/expires_in"@);
            if secs is Some && !(i64::MIN <= now + secs->0 <= i64::MAX) {
                r is None
            } else {
                match json_text_at(text@, "/access_token"@) {
                    Some(a) => r matches Some(Ok(t)) && tokens_told(
                        t,
                        a,
                        secs,
                        json_text_at(text@, "/refresh_token"@),
                        now,
                    ),
                    None => r matches Some(Err(e)) && e@ == "token 应答里没有 access_token"@,
                }
            }
        }),
{
    let secs = int_at(text, "/expires_in");
    match secs {
        Some(s) => {
            let end: i128 = now as i128 + s as i128;
            if end < -9223372036854775808 || end > 9223372036854775807 {
                return None;
            }
        },
        None => {},
    }
    Some(tokens_of_fields(text_at(text, "/access_token"), secs, text_at(text, "/refresh_token"), now))
}

/// How to come by a token for a call.
#[derive(Debug, Clone, PartialEq, Eq)]
pub enum TokenPlan {
    Use(String),
    /// The token is over: ask for a new one with this.
    Refresh(String),
    Fail(String),
}

pub fn token_plan(tokens: &Option<StoredTokens>, server_name: &str, now: i64) -> (r: TokenPlan)
    ensures
        match *tokens {
            None => r matches TokenPlan::Fail(e) && e@ == "还没登录过。跑 joy mcp login "@
                + server_name@ + " 完成一次浏览器授权。"@,
            Some(t) => if !t.is_over(now as int) {
                r == TokenPlan::Use(t.access_token)
            } else {
                match t.refresh_token {
                    Some(refresh) => r == TokenPlan::Refresh(refresh),
                    None => r matches TokenPlan::Fail(e) && e@
                        == "token 过期了且没有 refresh_token。重跑 joy mcp login "@ + server_name@
                        + "。"@,
                }
            },
        },
{
    match tokens {
        None => {
            let mut e = "还没登录过。跑 joy mcp login ".to_owned();
            e.append(server_name);
            e.append(" 完成一次浏览器授权。");
            TokenPlan::Fail(e)
        },
        Some(t) => {
            if !t.expired(now) {
                return TokenPlan::Use(t.access_token.clone());
            }
            match &t.refresh_token {
                Some(refresh) => TokenPlan::Refresh(refresh.clone()),
                None => {
                    let mut e = "token 过期了且没有 refresh_token。重跑 joy mcp login ".to_owned();
                    e.append(server_name);
                    e.append("。");
                    TokenPlan::Fail(e)
                },
            }
        },
    }
}

/// New tokens, with the old means to renew them where no new one came.
pub fn renewed(fresh: StoredTokens, refresh: String) -> (r: StoredTokens)
    ensures
        r.access_token == fresh.access_token,
        r.expires_at == fresh.expires_at,
        r.refresh_token == match fresh.refresh_token {
            Some(t) => Some(t),
            None => Some(refresh),
        },
{
    let refresh_token = match fresh.refresh_token {
        Some(t) => Some(t),
        None => Some(refresh),
    };
    StoredTokens { access_token: fresh.access_token, refresh_token, expires_at: fresh.expires_at }
}

/// A token that is over stays over.
pub proof fn a_token_stays_over(tokens: StoredTokens, now: int, later: int)
    requires
        tokens.is_over(now),
        now <= later,
    ensures
        tokens.is_over(later),
{
}

// ---- letters, addresses and answers ----------------------------------------

/// The letters are those of the web's alphabet: capitals, small letters, digits, the
/// hyphen and the underscore, in this order.
pub proof fn the_letters_are_in_their_order(d: int)
    requires
        0 <= d < 64,
    ensures
        d < 26 ==> letter(d) as int == 'A' as int + d,
        26 <= d < 52 ==> letter(d) as int == 'a' as int + (d - 26),
        52 <= d < 62 ==> letter(d) as int == '0' as int + (d - 52),
        d == 62 ==> letter(d) == '-',
        d == 63 ==> letter(d) == '_',
{
}

/// Three bytes are four letters of six bits each, the highest first; one byte left
/// over is two letters, and two are three.
pub proof fn six_bits_make_a_letter(a: u8, b: u8, c: u8)
    ensures
        ({
            let n = a as int * 65536 + b as int * 256 + c as int;
            let e = encoded(seq![a, b, c]);
            &&& e.len() == 4
            &&& e[0] == letter(n / 262144)
            &&& e[1] == letter(n / 4096 % 64)
            &&& e[2] == letter(n / 64 % 64)
            &&& e[3] == letter(n % 64)
        }),
        encoded(seq![a]).len() == 2,
        encoded(seq![a, b]).len() == 3,
        encoded(Seq::empty()).len() == 0,
{
    let bytes = seq![a, b, c];
    assert(triple(bytes, 0) == a as int * 65536 + b as int * 256 + c as int);
}

/// A file is named by the letters and digits of its server; every other character
/// becomes an underscore, and no name is longer than 64 characters.
pub proof fn a_file_name_is_safe(name: Seq<char>, i: int)
    requires
        0 <= i < sanitised(name).len(),
    ensures
        sanitised(name).len() <= 64,
        name.len() <= 64 ==> sanitised(name).len() == name.len(),
        alphanumeric(name[i]) || name[i] == '-' || name[i] == '_' ==> sanitised(name)[i] == name[i],
        !alphanumeric(name[i]) && name[i] != '-' && name[i] != '_' ==> sanitised(name)[i] == '_',
{
}

/// A token is over a minute before it ends; one without an end is never over.
pub proof fn a_token_is_over_a_minute_early(tokens: StoredTokens, now: int)
    ensures
        tokens.expires_at is None ==> !tokens.is_over(now),
        tokens.expires_at matches Some(t) ==> (tokens.is_over(now) <==> now + 60 >= t),
{
}

/// An address is its origin and its path: the origin is the scheme and the host, and
/// the path is all from the first slash behind them.
pub proof fn an_address_is_taken_apart(host: Seq<char>, path: Seq<char>)
    requires
        !host.contains('/'),
        path.len() > 0 ==> path[0] == '/',
    ensures
        origin_of("https://"@ + host + path) == "https://"@ + host,
        path_part("https://"@ + host + path) == path,
        origin_of("http://"@ + host + path) == "http://"@ + host,
        path_part("http://"@ + host + path) == path,
{
    lemma_parts("https://"@, host, path);
    lemma_parts("http://"@, host, path);
}

proof fn lemma_parts(front: Seq<char>, host: Seq<char>, path: Seq<char>)
    requires
        front == "https://"@ || front == "http://"@,
        !host.contains('/'),
        path.len() > 0 ==> path[0] == '/',
    ensures
        origin_of(front + host + path) == front + host,
        path_part(front + host + path) == path,
{
    reveal_strlit("https://");
    reveal_strlit("http://");
    let url = front + host + path;
    let rest = host + path;
    assert(url =~= front + rest);
    assert(url.subrange(0, front.len() as int) =~= front);
    if front == "http://"@ {
        assert(!begins(url, "https://"@)) by {
            if begins(url, "https://"@) {
                assert(url.subrange(0, 8)[4] == url[4]);
                assert(url[4] == front[4]);
            }
        }
    }
    assert(url.subrange(front.len() as int, url.len() as int) =~= rest);
    assert(after_scheme(url) == rest);
    lemma_find_char(rest, '/', 0);
    let i = find_char(rest, '/', 0);
    let n = host.len() as int;
    if path.len() > 0 {
        assert(rest[n] == '/');
    }
    assert(i == n) by {
        if i < n {
            assert(rest[i] == host[i]);
        }
    }
    assert(rest.subrange(0, n) =~= host);
    assert(rest.subrange(n, rest.len() as int) =~= path);
}

/// The server that signs in is the first one that is named, and the server itself
/// where none is.
pub proof fn the_first_named_server_signs_in(server_url: Seq<char>, body: Seq<char>)
    ensures
        signing_server(server_url, None) == origin_of(server_url),
        json_count_at(body, "/authorization_servers"@) is Some && json_text_at(
            body,
            "/authorization_servers/0"@,
        ) is Some ==> signing_server(server_url, Some(body)) == json_text_at(
            body,
            "/authorization_servers/0"@,
        )->0,
        json_text_at(body, "/authorization_servers/0"@) is None ==> signing_server(
            server_url,
            Some(body),
        ) == origin_of(server_url),
{
}

/// A parameter is its name before the first equals sign and its value behind it; one
/// without the sign has no value.
pub proof fn a_parameter_is_parted_once(name: Seq<char>, value: Seq<char>)
    requires
        !name.contains('='),
    ensures
        parameter(name + seq!['='] + value) == (name, value),
        parameter(name) == (name, Seq::<char>::empty()),
{
    let pair = name + seq!['='] + value;
    let n = name.len() as int;
    lemma_find_char(pair, '=', 0);
    lemma_find_char(name, '=', 0);
    let c = find_char(pair, '=', 0);
    assert(pair[n] == '=');
    assert(c == n) by {
        if c < n {
            assert(pair[c] == name[c]);
        }
    }
    let d = find_char(name, '=', 0);
    if d < n {
        assert(name[d] == '=');
    }
    assert(pair.subrange(0, n) =~= name);
    assert(pair.subrange(n + 1, pair.len() as int) =~= value);
}

/// Every parameter that is not empty is read, in its order.
pub proof fn every_parameter_is_read(parts: Seq<Seq<char>>, part: Seq<char>)
    ensures
        parameters(Seq::empty(), 0).len() == 0,
        part.len() > 0 ==> parameters(parts.push(part), parts.len() as int + 1) == parameters(
            parts,
            parts.len() as int,
        ).push(parameter(part)),
        part.len() == 0 ==> parameters(parts.push(part), parts.len() as int + 1) == parameters(
            parts,
            parts.len() as int,
        ),
{
    lemma_parameters_front(parts, parts.push(part), parts.len() as int);
}

proof fn lemma_parameters_front(a: Seq<Seq<char>>, b: Seq<Seq<char>>, k: int)
    requires
        0 <= k <= a.len() <= b.len(),
        forall|i: int| 0 <= i < a.len() ==> #[trigger] a[i] == b[i],
    ensures
        parameters(a, k) == parameters(b, k),
    decreases k,
{
    if k > 0 {
        lemma_parameters_front(a, b, k - 1);
        assert(a[k - 1] == b[k - 1]);
    }
}

/// The query of a target is what follows its question mark, parted at the ampersands.
pub proof fn a_query_follows_the_question_mark(path: Seq<char>, query: Seq<char>)
    requires
        !path.contains('?'),
        !query.contains('?'),
    ensures
        query_parts(path + seq!['?'] + query) == fields(query, '&'),
{
    a_field_ends_at_its_mark(path, '?', query);
    a_field_ends_at_its_mark(query, '?', Seq::empty());
    let parts = fields(path + seq!['?'] + query, '?');
    assert(parts[1] == query);
}

/// A parameter is looked up by its name; of several the first counts.
pub proof fn the_first_parameter_of_a_name_counts(
    params: Seq<(Seq<char>, Seq<char>)>,
    key: Seq<char>,
    from: int,
    i: int,
)
    requires
        0 <= from <= i < params.len(),
        forall|k: int| from <= k < i ==> (#[trigger] params[k]).0 != key,
    ensures
        params[i].0 == key ==> value_from(params, key, from) == Some(params[i].1),
        params[i].0 != key ==> value_from(params, key, from) == value_from(params, key, i + 1),
        value_from(params, key, params.len() as int) is None,
    decreases i - from,
{
    if from < i {
        assert(params[from].0 != key);
        the_first_parameter_of_a_name_counts(params, key, from + 1, i);
    }
}

/// A return with a code and the right state gives the code; one with an error gives
/// the error, and says it.
pub proof fn a_good_return_gives_its_code(
    params: Seq<(Seq<char>, Seq<char>)>,
    state: Seq<char>,
    code: Seq<char>,
    error: Seq<char>,
)
    ensures
        value_from(params, "error"@, 0) is None && value_from(params, "code"@, 0) == Some(code)
            && value_from(params, "state"@, 0) == Some(state) ==> code_of(params, state) == Ok::<
            Seq<char>,
            Seq<char>,
        >(code),
        value_from(params, "error"@, 0) == Some(error) ==> code_of(params, state) is Err && occurs(
            code_of(params, state)->Err_0,
            error,
        ),
        value_from(params, "error"@, 0) is None && value_from(params, "code"@, 0) is None
            ==> code_of(params, state) is Err,
{
    if value_from(params, "error"@, 0) == Some(error) {
        let front = "授权失败："@;
        let rest = match value_from(params, "error_description"@, 0) {
            Some(d) => " — "@ + d,
            None => ""@,
        };
        lemma_occurs(front, error, rest);
    }
}

/// A token that was told ends so many seconds from now, and keeps what renews it.
pub proof fn a_token_ends_when_it_was_told(
    t: StoredTokens,
    access: Seq<char>,
    secs: i64,
    refresh: Seq<char>,
    now: i64,
)
    requires
        tokens_told(t, access, Some(secs), Some(refresh), now),
    ensures
        t.access_token@ == access,
        t.refresh_token is Some && t.refresh_token->0@ == refresh,
        t.expires_at is Some && t.expires_at->0 == now + secs,
        secs > 60 ==> !t.is_over(now as int),
        t.is_over(now + secs),
{
}

/// What a sign-in server lists is where each thing is asked for.
pub proof fn each_endpoint_is_its_own(meta: Seq<char>, e: AuthEndpoints)
    requires
        lists_endpoints(meta, e),
    ensures
        json_text_at(meta, "/authorization_endpoint"@) == Some(e.authorization_endpoint@),
        json_text_at(meta, "/token_endpoint"@) == Some(e.token_endpoint@),
        e.registration_endpoint is Some <==> json_text_at(meta, "/registration_endpoint"@) is Some,
        e.registration_endpoint is Some ==> json_text_at(meta, "/registration_endpoint"@) == Some(
            e.registration_endpoint->0@,
        ),
{
}

/// The tokens of a server lie in a file of its own, in a directory for tokens below
/// the home; nothing in the server's name leads elsewhere.
pub proof fn tokens_lie_below_home(home: Seq<char>, server: Seq<char>)
    requires
        home.len() > 0,
        home.last() != '/',
    ensures
        begins(token_file(home, server), home + "/mcp-auth/"@),
        finishes(token_file(home, server), ".json"@),
        token_file(home, server).len() == home.len() + 15 + sanitised(server).len(),
        token_file(home, server).skip((home.len() + 10) as int) == sanitised(server) + ".json"@,
{
    reveal_strlit("/mcp-auth/");
    reveal_strlit("/");
    reveal_strlit(".json");
    reveal_strlit("mcp-auth");
    let dir = home + "/"@ + AUTH_DIR@;
    assert(AUTH_DIR@ == "mcp-auth"@);
    assert(below(home, AUTH_DIR@) == dir);
    assert(dir.last() == 'h');
    let leaf = sanitised(server) + ".json"@;
    let file = token_file(home, server);
    assert(file =~= dir + "/"@ + leaf);
    assert(file.take((home.len() + 10) as int) =~= home + "/mcp-auth/"@);
    assert(file.skip((home.len() + 10) as int) =~= leaf);
    assert(file.skip(file.len() - 5) =~= ".json"@);
}

} // verus!
