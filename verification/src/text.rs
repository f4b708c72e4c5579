//! Text as a sequence of Unicode scalar values.
//!
//! Every function here is stated over `Seq<char>`: the spec functions walk the
//! sequence from an index, and the executable functions do the same on a
//! `Vec<char>`.

use vstd::prelude::*;

verus! {

/// `String::push` appends one character at the end.
pub assume_specification[ String::push ](s: &mut String, c: char)
    ensures
        final(s)@ == old(s)@.push(c),
;

/// The contents of each string of a sequence.
pub open spec fn views(parts: Seq<String>) -> Seq<Seq<char>> {
    parts.map_values(|s: String| s@)
}

/// The contents of an optional string.
pub open spec fn opt_text(t: Option<String>) -> Option<Seq<char>> {
    match t {
        Some(s) => Some(s@),
        None => None,
    }
}

// ---- characters ------------------------------------------------------------

/// Unicode's `White_Space` property.
pub open spec fn blank(c: char) -> bool {
    let n = c as int;
    ||| 9 <= n <= 13
    ||| n == 0x20
    ||| n == 0x85
    ||| n == 0xA0
    ||| n == 0x1680
    ||| 0x2000 <= n <= 0x200A
    ||| n == 0x2028
    ||| n == 0x2029
    ||| n == 0x202F
    ||| n == 0x205F
    ||| n == 0x3000
}

pub fn is_blank(c: char) -> (r: bool)
    ensures
        r == blank(c),
{
    let n: u32 = c as u32;
    (9 <= n && n <= 13) || n == 0x20 || n == 0x85 || n == 0xA0 || n == 0x1680 || (0x2000 <= n && n
        <= 0x200A) || n == 0x2028 || n == 0x2029 || n == 0x202F || n == 0x205F || n == 0x3000
}

pub open spec fn ascii_digit(c: char) -> bool {
    '0' <= c <= '9'
}

pub open spec fn ascii_lower(c: char) -> bool {
    'a' <= c <= 'z'
}

pub open spec fn ascii_alnum(c: char) -> bool {
    ascii_digit(c) || ascii_lower(c) || 'A' <= c <= 'Z'
}

pub fn is_ascii_digit(c: char) -> (r: bool)
    ensures
        r == ascii_digit(c),
{
    '0' <= c && c <= '9'
}

pub fn is_ascii_alnum(c: char) -> (r: bool)
    ensures
        r == ascii_alnum(c),
{
    ('0' <= c && c <= '9') || ('a' <= c && c <= 'z') || ('A' <= c && c <= 'Z')
}

// ---- characters of a string, and back --------------------------------------

/// The characters of `s`, in order.
pub fn chars_of(s: &str) -> (r: Vec<char>)
    ensures
        r@ == s@,
{
    let mut r: Vec<char> = Vec::new();
    for c in it: s.chars()
        invariant
            r@ == it.seq().take(it.index() as int),
            it.seq() == s@,
    {
        r.push(c);
    }
    r
}

/// The characters `v[from..to]` as a string.
pub fn piece(v: &Vec<char>, from: usize, to: usize) -> (r: String)
    requires
        from <= to <= v@.len(),
    ensures
        r@ == v@.subrange(from as int, to as int),
{
    let mut r = String::new();
    let mut i: usize = from;
    while i < to
        invariant
            from <= i <= to <= v@.len(),
            r@ == v@.subrange(from as int, i as int),
        decreases to - i,
    {
        r.push(v[i]);
        i += 1;
        assert(v@.subrange(from as int, i as int) =~= v@.subrange(from as int, i - 1).push(
            v@[i - 1],
        ));
    }
    r
}

pub fn same(a: &str, b: &str) -> (r: bool)
    ensures
        r == (a@ == b@),
{
    a.to_owned() == b.to_owned()
}

/// Is `name` one of `names`?
pub fn is_among(names: &Vec<String>, name: &str) -> (r: bool)
    ensures
        r == views(names@).contains(name@),
{
    let mut i: usize = 0;
    while i < names.len()
        invariant
            i <= names@.len(),
            forall|k: int| 0 <= k < i ==> (#[trigger] views(names@)[k]) != name@,
        decreases names@.len() - i,
    {
        if same(names[i].as_str(), name) {
            assert(views(names@)[i as int] == name@);
            return true;
        }
        i += 1;
    }
    false
}

/// The number of characters of `s`.
pub fn char_count(s: &str) -> (r: usize)
    ensures
        r == s@.len(),
{
    s.unicode_len()
}

/// The first `max` characters of a text, or all of it where it is shorter.
pub open spec fn head(s: Seq<char>, max: nat) -> Seq<char> {
    if s.len() <= max {
        s
    } else {
        s.subrange(0, max as int)
    }
}

pub fn take_chars(s: &str, max: usize) -> (r: String)
    ensures
        r@ == head(s@, max as nat),
{
    let v = chars_of(s);
    if v.len() <= max {
        s.to_owned()
    } else {
        piece(&v, 0, max)
    }
}

// ---- trimming --------------------------------------------------------------

/// The first index at or after `i` that holds no white space.
pub open spec fn skip_blank(s: Seq<char>, i: int) -> int
    decreases s.len() - i,
{
    if 0 <= i < s.len() && blank(s[i]) {
        skip_blank(s, i + 1)
    } else {
        i
    }
}

/// The end of `s[..j]` without its trailing white space.
pub open spec fn keep_end(s: Seq<char>, j: int) -> int
    decreases j,
{
    if 0 < j <= s.len() && blank(s[j - 1]) {
        keep_end(s, j - 1)
    } else {
        j
    }
}

/// The text without leading and trailing white space.
pub open spec fn trimmed(s: Seq<char>) -> Seq<char> {
    let a = skip_blank(s, 0);
    let b = keep_end(s, s.len() as int);
    if a < b {
        s.subrange(a, b)
    } else {
        Seq::empty()
    }
}

pub proof fn lemma_skip_blank(s: Seq<char>, i: int)
    requires
        0 <= i <= s.len(),
    ensures
        i <= skip_blank(s, i) <= s.len(),
        forall|k: int| i <= k < skip_blank(s, i) ==> blank(#[trigger] s[k]),
        skip_blank(s, i) < s.len() ==> !blank(s[skip_blank(s, i)]),
    decreases s.len() - i,
{
    if i < s.len() && blank(s[i]) {
        lemma_skip_blank(s, i + 1);
    }
}

pub proof fn lemma_keep_end(s: Seq<char>, j: int)
    requires
        0 <= j <= s.len(),
    ensures
        0 <= keep_end(s, j) <= j,
        forall|k: int| keep_end(s, j) <= k < j ==> blank(#[trigger] s[k]),
        keep_end(s, j) > 0 ==> !blank(s[keep_end(s, j) - 1]),
    decreases j,
{
    if 0 < j && blank(s[j - 1]) {
        lemma_keep_end(s, j - 1);
    }
}

/// A trimmed text starts and ends with something to read, and it is empty
/// exactly when the whole text is white space.
pub proof fn a_trimmed_text_has_no_blank_ends(s: Seq<char>)
    ensures
        trimmed(s).len() > 0 ==> !blank(trimmed(s)[0]) && !blank(trimmed(s).last()),
        trimmed(s).len() == 0 <==> (forall|k: int| 0 <= k < s.len() ==> blank(#[trigger] s[k])),
        trimmed(s).len() <= s.len(),
{
    lemma_skip_blank(s, 0);
    lemma_keep_end(s, s.len() as int);
    let a = skip_blank(s, 0);
    let b = keep_end(s, s.len() as int);
    if a < b {
        assert(!blank(s[a]));
    } else if a < s.len() {
        assert(blank(s[a]));
    }
}

pub fn trim(s: &str) -> (r: String)
    ensures
        r@ == trimmed(s@),
{
    let v = chars_of(s);
    let n: usize = v.len();
    let mut a: usize = 0;
    proof {
        lemma_skip_blank(v@, 0);
        lemma_keep_end(v@, v@.len() as int);
    }
    while a < n && is_blank(v[a])
        invariant
            a <= n == v@.len(),
            skip_blank(v@, a as int) == skip_blank(v@, 0),
        ensures
            a <= n,
            a == skip_blank(v@, 0),
        decreases n - a,
    {
        a += 1;
    }
    let mut b: usize = n;
    while b > 0 && is_blank(v[b - 1])
        invariant
            b <= n == v@.len(),
            keep_end(v@, b as int) == keep_end(v@, n as int),
        ensures
            b <= n,
            b == keep_end(v@, n as int),
        decreases b,
    {
        b -= 1;
    }
    if a < b {
        piece(&v, a, b)
    } else {
        let r = String::new();
        assert(r@ =~= Seq::<char>::empty());
        r
    }
}

pub fn is_blank_text(s: &str) -> (r: bool)
    ensures
        r == (trimmed(s@).len() == 0),
{
    let t = trim(s);
    char_count(t.as_str()) == 0
}

// ---- searching -------------------------------------------------------------

/// The first index at or after `i` that holds `c`; the length where none does.
pub open spec fn find_char(s: Seq<char>, c: char, i: int) -> int
    decreases s.len() - i,
{
    if 0 <= i < s.len() {
        if s[i] == c {
            i
        } else {
            find_char(s, c, i + 1)
        }
    } else {
        s.len() as int
    }
}

/// One past the last index below `j` that holds `c`; 0 where none does.
pub open spec fn rfind_char(s: Seq<char>, c: char, j: int) -> int
    decreases j,
{
    if 0 < j <= s.len() {
        if s[j - 1] == c {
            j
        } else {
            rfind_char(s, c, j - 1)
        }
    } else {
        0
    }
}

pub proof fn lemma_find_char(s: Seq<char>, c: char, i: int)
    requires
        0 <= i <= s.len(),
    ensures
        i <= find_char(s, c, i) <= s.len(),
        forall|k: int| i <= k < find_char(s, c, i) ==> #[trigger] s[k] != c,
        find_char(s, c, i) < s.len() ==> s[find_char(s, c, i)] == c,
    decreases s.len() - i,
{
    if i < s.len() && s[i] != c {
        lemma_find_char(s, c, i + 1);
    }
}

pub proof fn lemma_rfind_char(s: Seq<char>, c: char, j: int)
    requires
        0 <= j <= s.len(),
    ensures
        0 <= rfind_char(s, c, j) <= j,
        forall|k: int| rfind_char(s, c, j) <= k < j ==> #[trigger] s[k] != c,
        rfind_char(s, c, j) > 0 ==> s[rfind_char(s, c, j) - 1] == c,
    decreases j,
{
    if 0 < j && s[j - 1] != c {
        lemma_rfind_char(s, c, j - 1);
    }
}

pub fn find_from(v: &Vec<char>, c: char, from: usize) -> (r: usize)
    requires
        from <= v@.len(),
    ensures
        r == find_char(v@, c, from as int),
        from <= r <= v@.len(),
{
    let mut i: usize = from;
    while i < v.len() && v[i] != c
        invariant
            from <= i <= v@.len(),
            find_char(v@, c, i as int) == find_char(v@, c, from as int),
        ensures
            from <= i <= v@.len(),
            i == find_char(v@, c, from as int),
        decreases v@.len() - i,
    {
        i += 1;
    }
    i
}

pub fn rfind_from(v: &Vec<char>, c: char, to: usize) -> (r: usize)
    requires
        to <= v@.len(),
    ensures
        r == rfind_char(v@, c, to as int),
        r <= to,
{
    let mut j: usize = to;
    while j > 0 && v[j - 1] != c
        invariant
            j <= to <= v@.len(),
            rfind_char(v@, c, j as int) == rfind_char(v@, c, to as int),
        ensures
            j <= to,
            j == rfind_char(v@, c, to as int),
        decreases j,
    {
        j -= 1;
    }
    j
}

/// `p` stands in `s` at index `i`.
pub open spec fn occurs_at(s: Seq<char>, p: Seq<char>, i: int) -> bool {
    0 <= i && i + p.len() <= s.len() && s.subrange(i, i + p.len()) == p
}

/// `p` stands somewhere in `s`.
pub open spec fn occurs(s: Seq<char>, p: Seq<char>) -> bool {
    exists|i: int| occurs_at(s, p, i)
}

/// A part of a text stands in it.
pub proof fn lemma_occurs(front: Seq<char>, part: Seq<char>, rest: Seq<char>)
    ensures
        occurs(front + part + rest, part),
        occurs_at(front + part + rest, part, front.len() as int),
{
    let s = front + part + rest;
    let i = front.len() as int;
    assert(s.subrange(i, i + part.len()) =~= part);
    assert(occurs_at(s, part, i));
}

/// What stands in a part of a text stands in the text.
pub proof fn lemma_occurs_within(s: Seq<char>, part: Seq<char>, p: Seq<char>)
    requires
        occurs(s, part),
        occurs(part, p),
    ensures
        occurs(s, p),
{
    let i = choose|i: int| occurs_at(s, part, i);
    let j = choose|j: int| occurs_at(part, p, j);
    assert(s.subrange(i + j, i + j + p.len()) =~= s.subrange(i, i + part.len()).subrange(
        j,
        j + p.len(),
    ));
    assert(occurs_at(s, p, i + j));
}

/// A text ends with its last part, and what stands in its front stands in it.
pub proof fn lemma_occurs_on(s: Seq<char>, p: Seq<char>, t: Seq<char>)
    ensures
        occurs(s + t, t),
        occurs(s, p) ==> occurs(s + t, p),
{
    lemma_occurs(s, t, Seq::empty());
    assert(s + t + Seq::<char>::empty() =~= s + t);
    if occurs(s, p) {
        let i = choose|i: int| occurs_at(s, p, i);
        assert((s + t).subrange(i, i + p.len()) =~= s.subrange(i, i + p.len()));
        assert(occurs_at(s + t, p, i));
    }
}

pub proof fn lemma_regroup(a: Seq<char>, b: Seq<char>, c: Seq<char>, d: Seq<char>)
    ensures
        a + b + c + d == a + (b + c + d),
{
    assert(a + b + c + d =~= a + (b + c + d));
}

/// The first index at or after `i` where `p` stands; -1 where there is none.
pub open spec fn find_text(s: Seq<char>, p: Seq<char>, i: int) -> int
    decreases s.len() + 1 - i,
{
    if i < 0 || i + p.len() > s.len() {
        -1
    } else if occurs_at(s, p, i) {
        i
    } else {
        find_text(s, p, i + 1)
    }
}

pub proof fn lemma_find_text(s: Seq<char>, p: Seq<char>, i: int)
    requires
        0 <= i,
    ensures
        find_text(s, p, i) >= 0 ==> find_text(s, p, i) >= i && occurs_at(s, p, find_text(s, p, i)),
        find_text(s, p, i) < 0 ==> find_text(s, p, i) == -1,
        forall|k: int|
            i <= k && (find_text(s, p, i) < 0 || k < find_text(s, p, i)) ==> !#[trigger] occurs_at(
                s,
                p,
                k,
            ),
    decreases s.len() + 1 - i,
{
    if i + p.len() <= s.len() && !occurs_at(s, p, i) {
        lemma_find_text(s, p, i + 1);
    }
}

/// Does `p` stand in `v` at `i`?
pub fn stands_at(v: &Vec<char>, p: &Vec<char>, i: usize) -> (r: bool)
    ensures
        r == occurs_at(v@, p@, i as int),
{
    if p.len() > v.len() || i > v.len() - p.len() {
        return false;
    }
    let mut k: usize = 0;
    while k < p.len()
        invariant
            k <= p@.len(),
            i + p@.len() <= v.len(),
            forall|m: int| 0 <= m < k ==> v@[i + m] == #[trigger] p@[m],
        decreases p@.len() - k,
    {
        if v[i + k] != p[k] {
            assert(v@.subrange(i as int, i + p@.len())[k as int] != p@[k as int]);
            return false;
        }
        k += 1;
    }
    assert(v@.subrange(i as int, i + p@.len()) =~= p@);
    true
}

/// The first index at or after `from` where `p` stands in `v`.
pub fn find_text_from(v: &Vec<char>, p: &Vec<char>, from: usize) -> (r: Option<usize>)
    requires
        from <= v@.len(),
    ensures
        match r {
            Some(i) => i == find_text(v@, p@, from as int) && i + p@.len() <= v@.len() && from <= i,
            None => find_text(v@, p@, from as int) < 0,
        },
{
    let mut i: usize = from;
    while p.len() <= v.len() && i <= v.len() - p.len()
        invariant
            from <= i <= v@.len() + 1,
            find_text(v@, p@, i as int) == find_text(v@, p@, from as int),
        decreases v@.len() + 1 - i,
    {
        if stands_at(v, p, i) {
            return Some(i);
        }
        assert(i == v@.len() ==> v@.subrange(i as int, i as int) =~= p@);
        i += 1;
    }
    None
}

pub fn contains(s: &str, p: &str) -> (r: bool)
    ensures
        r == occurs(s@, p@),
{
    let v = chars_of(s);
    let q = chars_of(p);
    proof {
        lemma_find_text(v@, q@, 0);
    }
    match find_text_from(&v, &q, 0) {
        Some(i) => {
            assert(occurs_at(s@, p@, i as int));
            true
        },
        None => false,
    }
}

/// `p` is how `s` begins.
pub open spec fn begins(s: Seq<char>, p: Seq<char>) -> bool {
    occurs_at(s, p, 0)
}

pub fn starts_with(s: &str, p: &str) -> (r: bool)
    ensures
        r == begins(s@, p@),
{
    let v = chars_of(s);
    let q = chars_of(p);
    stands_at(&v, &q, 0)
}

/// `p` is how `s` ends.
pub open spec fn finishes(s: Seq<char>, p: Seq<char>) -> bool {
    occurs_at(s, p, s.len() - p.len())
}

pub fn ends_with(s: &str, p: &str) -> (r: bool)
    ensures
        r == finishes(s@, p@),
{
    let v = chars_of(s);
    let q = chars_of(p);
    if q.len() > v.len() {
        false
    } else {
        stands_at(&v, &q, v.len() - q.len())
    }
}

// ---- replacing -------------------------------------------------------------

/// `s[i..]` with every non-overlapping `from`, left to right, turned into `to`.
pub open spec fn replaced_from(s: Seq<char>, from: Seq<char>, to: Seq<char>, i: int) -> Seq<char>
    decreases s.len() - i,
{
    if i < 0 || i >= s.len() || from.len() == 0 {
        Seq::empty()
    } else if occurs_at(s, from, i) {
        to + replaced_from(s, from, to, i + from.len())
    } else {
        seq![s[i]] + replaced_from(s, from, to, i + 1)
    }
}

pub open spec fn replaced(s: Seq<char>, from: Seq<char>, to: Seq<char>) -> Seq<char> {
    replaced_from(s, from, to, 0)
}

pub fn replace(s: &str, from: &str, to: &str) -> (r: String)
    requires
        from@.len() > 0,
    ensures
        r@ == replaced(s@, from@, to@),
{
    let v = chars_of(s);
    let f = chars_of(from);
    let mut out = String::new();
    let mut i: usize = 0;
    assert(out@ + replaced_from(v@, f@, to@, 0) =~= replaced_from(v@, f@, to@, 0));
    while i < v.len()
        invariant
            i <= v@.len(),
            f@.len() > 0,
            out@ + replaced_from(v@, f@, to@, i as int) == replaced_from(v@, f@, to@, 0),
        decreases v@.len() - i,
    {
        let ghost before = out@;
        let ghost at = i as int;
        if stands_at(&v, &f, i) {
            out.append(to);
            i += f.len();
            assert(out@ + replaced_from(v@, f@, to@, i as int) =~= before + (to@ + replaced_from(
                v@,
                f@,
                to@,
                i as int,
            )));
        } else {
            out.push(v[i]);
            i += 1;
            assert(out@ + replaced_from(v@, f@, to@, i as int) =~= before + (seq![v@[at]]
                + replaced_from(v@, f@, to@, i as int)));
        }
    }
    assert(out@ + Seq::<char>::empty() =~= out@);
    out
}

// ---- splitting -------------------------------------------------------------

/// The fields of `s[i..]` between occurrences of `c`.
pub open spec fn fields_from(s: Seq<char>, c: char, i: int) -> Seq<Seq<char>>
    decreases s.len() - i,
{
    if i < 0 || i > s.len() {
        Seq::empty()
    } else {
        let j = find_char(s, c, i);
        if j < i || j >= s.len() {
            seq![s.subrange(i, s.len() as int)]
        } else {
            seq![s.subrange(i, j)] + fields_from(s, c, j + 1)
        }
    }
}

pub open spec fn fields(s: Seq<char>, c: char) -> Seq<Seq<char>> {
    fields_from(s, c, 0)
}

/// The fields of `s` between occurrences of `c`, in order.
pub fn split(s: &str, c: char) -> (r: Vec<String>)
    ensures
        views(r@) == fields(s@, c),
{
    let v = chars_of(s);
    let mut r: Vec<String> = Vec::new();
    let mut i: usize = 0;
    let mut done: bool = false;
    assert(views(r@) + fields_from(v@, c, 0) =~= fields_from(v@, c, 0));
    while !done
        invariant
            i <= v@.len(),
            !done ==> views(r@) + fields_from(v@, c, i as int) == fields_from(v@, c, 0),
            done ==> views(r@) == fields_from(v@, c, 0),
        decreases (if done { 0int } else { v@.len() - i + 1 }),
    {
        let ghost before = views(r@);
        let j: usize = find_from(&v, c, i);
        if j >= v.len() {
            let n: usize = v.len();
            r.push(piece(&v, i, n));
            assert(views(r@) =~= before + seq![v@.subrange(i as int, v@.len() as int)]);
            done = true;
        } else {
            r.push(piece(&v, i, j));
            assert(views(r@) + fields_from(v@, c, j + 1) =~= before + (seq![
                v@.subrange(i as int, j as int),
            ] + fields_from(v@, c, j + 1)));
            i = j + 1;
        }
    }
    r
}

/// A line without the carriage return before its line feed.
pub open spec fn without_return(s: Seq<char>) -> Seq<char> {
    if s.len() > 0 && s.last() == '\r' {
        s.drop_last()
    } else {
        s
    }
}

/// The lines of `s[i..]`: each ends at a line feed, with or without a carriage
/// return before it; a last line without one counts, unless it is empty.
pub open spec fn lines_from(s: Seq<char>, i: int) -> Seq<Seq<char>>
    decreases s.len() - i,
{
    if i < 0 || i >= s.len() {
        Seq::empty()
    } else {
        let j = find_char(s, '\n', i);
        if j < i || j >= s.len() {
            seq![s.subrange(i, s.len() as int)]
        } else {
            seq![without_return(s.subrange(i, j))] + lines_from(s, j + 1)
        }
    }
}

pub open spec fn line_views(s: Seq<char>) -> Seq<Seq<char>> {
    lines_from(s, 0)
}

pub fn lines(s: &str) -> (r: Vec<String>)
    ensures
        views(r@) == line_views(s@),
{
    let v = chars_of(s);
    let mut r: Vec<String> = Vec::new();
    let mut i: usize = 0;
    assert(views(r@) + lines_from(v@, 0) =~= lines_from(v@, 0));
    while i < v.len()
        invariant
            i <= v@.len(),
            views(r@) + lines_from(v@, i as int) == lines_from(v@, 0),
        decreases v@.len() - i,
    {
        let ghost before = views(r@);
        let j: usize = find_from(&v, '\n', i);
        if j >= v.len() {
            let n: usize = v.len();
            r.push(piece(&v, i, n));
            assert(views(r@) + Seq::<Seq<char>>::empty() =~= before + seq![
                v@.subrange(i as int, v@.len() as int),
            ]);
            assert(lines_from(v@, n as int) =~= Seq::<Seq<char>>::empty());
            i = n;
        } else {
            let mut end: usize = j;
            if j > i && v[j - 1] == '\r' {
                end = j - 1;
            }
            r.push(piece(&v, i, end));
            assert(v@.subrange(i as int, end as int) =~= without_return(
                v@.subrange(i as int, j as int),
            ));
            assert(views(r@) + lines_from(v@, j + 1) =~= before + (seq![
                without_return(v@.subrange(i as int, j as int)),
            ] + lines_from(v@, j + 1)));
            i = j + 1;
        }
    }
    assert(views(r@) + Seq::<Seq<char>>::empty() =~= views(r@));
    r
}

/// The end of the word that starts at `i`.
pub open spec fn word_end(s: Seq<char>, i: int) -> int
    decreases s.len() - i,
{
    if 0 <= i < s.len() && !blank(s[i]) {
        word_end(s, i + 1)
    } else {
        i
    }
}

pub proof fn lemma_word_end(s: Seq<char>, i: int)
    requires
        0 <= i <= s.len(),
    ensures
        i <= word_end(s, i) <= s.len(),
        i < s.len() && !blank(s[i]) ==> i < word_end(s, i),
    decreases s.len() - i,
{
    if i < s.len() && !blank(s[i]) {
        lemma_word_end(s, i + 1);
    }
}

/// The words of `s[i..]`: its longest runs without white space.
pub open spec fn words_from(s: Seq<char>, i: int) -> Seq<Seq<char>>
    decreases s.len() - i,
{
    if i < 0 || i >= s.len() {
        Seq::empty()
    } else if blank(s[i]) {
        words_from(s, i + 1)
    } else {
        let j = word_end(s, i);
        if j <= i || j > s.len() {
            Seq::empty()
        } else {
            seq![s.subrange(i, j)] + words_from(s, j)
        }
    }
}

pub open spec fn word_views(s: Seq<char>) -> Seq<Seq<char>> {
    words_from(s, 0)
}

pub fn words(s: &str) -> (r: Vec<String>)
    ensures
        views(r@) == word_views(s@),
{
    let v = chars_of(s);
    let mut r: Vec<String> = Vec::new();
    let mut i: usize = 0;
    assert(views(r@) + words_from(v@, 0) =~= words_from(v@, 0));
    while i < v.len()
        invariant
            i <= v@.len(),
            views(r@) + words_from(v@, i as int) == words_from(v@, 0),
        decreases v@.len() - i,
    {
        let ghost before = views(r@);
        if is_blank(v[i]) {
            i += 1;
        } else {
            let mut j: usize = i;
            while j < v.len() && !is_blank(v[j])
                invariant
                    i <= j <= v@.len(),
                    word_end(v@, j as int) == word_end(v@, i as int),
                ensures
                    i <= j <= v@.len(),
                    j == word_end(v@, i as int),
                decreases v@.len() - j,
            {
                j += 1;
            }
            proof {
                lemma_word_end(v@, i as int);
            }
            r.push(piece(&v, i, j));
            assert(views(r@) + words_from(v@, j as int) =~= before + (seq![
                v@.subrange(i as int, j as int),
            ] + words_from(v@, j as int)));
            i = j;
        }
    }
    assert(views(r@) + Seq::<Seq<char>>::empty() =~= views(r@));
    r
}

// ---- joining ---------------------------------------------------------------

/// The parts with `sep` between neighbours.
pub open spec fn joined(parts: Seq<Seq<char>>, sep: Seq<char>) -> Seq<char>
    decreases parts.len(),
{
    if parts.len() == 0 {
        Seq::empty()
    } else if parts.len() == 1 {
        parts[0]
    } else {
        joined(parts.drop_last(), sep) + sep + parts.last()
    }
}

pub fn join(parts: &Vec<String>, sep: &str) -> (r: String)
    ensures
        r@ == joined(views(parts@), sep@),
{
    let mut r = String::new();
    let mut i: usize = 0;
    let ghost all = views(parts@);
    assert(all.take(0) =~= Seq::<Seq<char>>::empty());
    while i < parts.len()
        invariant
            i <= parts@.len(),
            all == views(parts@),
            r@ == joined(all.take(i as int), sep@),
        decreases parts@.len() - i,
    {
        let ghost next = all.take(i + 1);
        assert(next.drop_last() =~= all.take(i as int));
        assert(next.last() == parts@[i as int]@);
        if i > 0 {
            r.append(sep);
        }
        r.append(parts[i].as_str());
        assert(r@ =~= joined(next, sep@));
        i += 1;
    }
    assert(all.take(i as int) =~= all);
    r
}

// ---- numbers ---------------------------------------------------------------

pub open spec fn digit(n: nat) -> char {
    (48 + n) as char
}

/// The decimal digits of `n`, without leading zeros.
pub open spec fn decimal(n: nat) -> Seq<char>
    decreases n,
{
    if n < 10 {
        seq![digit(n)]
    } else {
        decimal(n / 10).push(digit(n % 10))
    }
}

/// The decimal form of an integer, with a minus sign where it is negative.
pub open spec fn signed(n: int) -> Seq<char> {
    if n < 0 {
        seq!['-'] + decimal((-n) as nat)
    } else {
        decimal(n as nat)
    }
}

fn digit_char(d: u64) -> (r: char)
    requires
        d < 10,
    ensures
        r == digit(d as nat),
{
    match d {
        0 => '0',
        1 => '1',
        2 => '2',
        3 => '3',
        4 => '4',
        5 => '5',
        6 => '6',
        7 => '7',
        8 => '8',
        _ => '9',
    }
}

/// Appends the decimal form of `n`.
pub fn push_decimal(out: &mut String, n: u64)
    ensures
        final(out)@ == old(out)@ + decimal(n as nat),
    decreases n,
{
    let ghost start = out@;
    if n >= 10 {
        push_decimal(out, n / 10);
    }
    out.push(digit_char(n % 10));
    assert(out@ =~= start + decimal(n as nat));
}

pub fn to_decimal(n: u64) -> (r: String)
    ensures
        r@ == decimal(n as nat),
{
    let mut r = String::new();
    push_decimal(&mut r, n);
    assert(r@ =~= decimal(n as nat));
    r
}

pub fn to_signed(n: i64) -> (r: String)
    ensures
        r@ == signed(n as int),
{
    let mut r = String::new();
    if n < 0 {
        r.push('-');
        let m: u64 = (-(n as i128)) as u64;
        push_decimal(&mut r, m);
        assert(r@ =~= seq!['-'] + decimal((-n) as nat));
    } else {
        push_decimal(&mut r, n as u64);
        assert(r@ =~= decimal(n as nat));
    }
    r
}

/// The value of the first `k` characters of `s`, read as decimal digits.
pub open spec fn value_of(s: Seq<char>, k: int) -> int
    decreases k,
{
    if k <= 0 {
        0
    } else {
        value_of(s, k - 1) * 10 + (s[k - 1] as int - 48)
    }
}

pub open spec fn all_digits(s: Seq<char>) -> bool {
    forall|i: int| 0 <= i < s.len() ==> ascii_digit(#[trigger] s[i])
}

/// An unsigned decimal number of at most `max`: digits, after an optional plus.
pub open spec fn parsed_unsigned(s: Seq<char>, max: int) -> Option<int> {
    let d = if s.len() > 1 && s[0] == '+' {
        s.subrange(1, s.len() as int)
    } else {
        s
    };
    if d.len() > 0 && all_digits(d) && value_of(d, d.len() as int) <= max {
        Some(value_of(d, d.len() as int))
    } else {
        None
    }
}

/// A decimal number between `min` and `max`, after an optional sign.
pub open spec fn parsed_signed(s: Seq<char>, min: int, max: int) -> Option<int> {
    if s.len() > 1 && s[0] == '-' {
        let d = s.subrange(1, s.len() as int);
        if all_digits(d) && -value_of(d, d.len() as int) >= min {
            Some(-value_of(d, d.len() as int))
        } else {
            None
        }
    } else {
        parsed_unsigned(s, max)
    }
}

pub proof fn lemma_value_grows(s: Seq<char>, k: int, n: int)
    requires
        0 <= k <= n <= s.len(),
        all_digits(s),
    ensures
        0 <= value_of(s, k) <= value_of(s, n),
    decreases n,
{
    if n > 0 {
        assert(ascii_digit(s[n - 1]));
        if k == n {
            lemma_value_grows(s, 0, n - 1);
        } else {
            lemma_value_grows(s, k, n - 1);
        }
    }
}

proof fn lemma_value_prefix(a: Seq<char>, b: Seq<char>, k: int)
    requires
        0 <= k <= a.len(),
        k <= b.len(),
        forall|i: int| 0 <= i < k ==> a[i] == b[i],
    ensures
        value_of(a, k) == value_of(b, k),
    decreases k,
{
    if k > 0 {
        lemma_value_prefix(a, b, k - 1);
    }
}

pub proof fn lemma_decimal(n: nat)
    ensures
        decimal(n).len() > 0,
        all_digits(decimal(n)),
        value_of(decimal(n), decimal(n).len() as int) == n,
    decreases n,
{
    let d = decimal(n);
    if n < 10 {
        assert(d[0] as int == 48 + n);
        reveal_with_fuel(value_of, 2);
    } else {
        let q = decimal(n / 10);
        lemma_decimal(n / 10);
        let c = digit(n % 10);
        assert(c as int == 48 + n % 10);
        assert(d == q.push(c));
        lemma_value_prefix(d, q, q.len() as int);
        assert(d[q.len() as int] == c);
        assert forall|i: int| 0 <= i < d.len() implies ascii_digit(#[trigger] d[i]) by {
            if i < q.len() {
                assert(d[i] == q[i]);
            }
        }
    }
}

/// A number that was written in decimal reads back as itself.
pub proof fn a_number_reads_back(n: nat, max: int)
    requires
        n <= max,
    ensures
        parsed_unsigned(decimal(n), max) == Some(n as int),
{
    lemma_decimal(n);
    assert(ascii_digit(decimal(n)[0]));
}

/// A signed number that was written in decimal reads back as itself.
pub proof fn a_signed_number_reads_back(n: int, min: int, max: int)
    requires
        min <= n <= max,
    ensures
        parsed_signed(signed(n), min, max) == Some(n),
{
    if n >= 0 {
        lemma_decimal(n as nat);
        assert(ascii_digit(decimal(n as nat)[0]));
        a_number_reads_back(n as nat, max);
    } else {
        lemma_decimal((-n) as nat);
        let d = decimal((-n) as nat);
        assert(signed(n).subrange(1, signed(n).len() as int) =~= d);
    }
}

/// The number that the digits of `v[from..]` spell, where it is at most `max`.
fn parse_digits(v: &Vec<char>, from: usize, max: u64) -> (r: Option<u64>)
    requires
        from < v@.len(),
    ensures
        ({
            let d = v@.subrange(from as int, v@.len() as int);
            match r {
                Some(n) => all_digits(d) && n == value_of(d, d.len() as int) && n <= max,
                None => !(all_digits(d) && value_of(d, d.len() as int) <= max),
            }
        }),
{
    let ghost d = v@.subrange(from as int, v@.len() as int);
    let mut value: u64 = 0;
    let mut k: usize = from;
    while k < v.len()
        invariant
            from <= k <= v@.len(),
            d == v@.subrange(from as int, v@.len() as int),
            forall|i: int| 0 <= i < k - from ==> ascii_digit(#[trigger] d[i]),
            value == value_of(d, k - from),
            value <= max,
        decreases v@.len() - k,
    {
        let c: char = v[k];
        assert(d[k - from] == c);
        if !is_ascii_digit(c) {
            return None;
        }
        let step: u64 = (c as u32 - 48) as u64;
        let wide: u128 = value as u128 * 10 + step as u128;
        assert(wide == value_of(d, k - from + 1));
        if wide > max as u128 {
            proof {
                if all_digits(d) {
                    lemma_value_grows(d, k - from + 1, d.len() as int);
                }
            }
            return None;
        }
        value = wide as u64;
        k += 1;
    }
    Some(value)
}

pub fn parse_unsigned(s: &str, max: u64) -> (r: Option<u64>)
    ensures
        match r {
            Some(n) => parsed_unsigned(s@, max as int) == Some(n as int),
            None => parsed_unsigned(s@, max as int) is None,
        },
{
    let v = chars_of(s);
    if v.len() == 0 {
        return None;
    }
    if v.len() > 1 && v[0] == '+' {
        parse_digits(&v, 1, max)
    } else {
        assert(v@.subrange(0, v@.len() as int) =~= v@);
        parse_digits(&v, 0, max)
    }
}

pub fn parse_i32(s: &str) -> (r: Option<i32>)
    ensures
        match r {
            Some(n) => parsed_signed(s@, i32::MIN as int, i32::MAX as int) == Some(n as int),
            None => parsed_signed(s@, i32::MIN as int, i32::MAX as int) is None,
        },
{
    let v = chars_of(s);
    if v.len() > 1 && v[0] == '-' {
        match parse_digits(&v, 1, 2147483648) {
            Some(n) => Some((-(n as i64)) as i32),
            None => None,
        }
    } else {
        match parse_unsigned(s, 2147483647) {
            Some(n) => Some(n as i32),
            None => None,
        }
    }
}

pub fn parse_i64(s: &str) -> (r: Option<i64>)
    ensures
        match r {
            Some(n) => parsed_signed(s@, i64::MIN as int, i64::MAX as int) == Some(n as int),
            None => parsed_signed(s@, i64::MIN as int, i64::MAX as int) is None,
        },
{
    let v = chars_of(s);
    if v.len() > 1 && v[0] == '-' {
        match parse_digits(&v, 1, 9223372036854775808) {
            Some(n) => Some((-(n as i128)) as i64),
            None => None,
        }
    } else {
        match parse_unsigned(s, 9223372036854775807) {
            Some(n) => Some(n as i64),
            None => None,
        }
    }
}

// ---- case ------------------------------------------------------------------

/// A text in lower case.
pub uninterp spec fn lowercased(text: Seq<char>) -> Seq<char>;

/// `str::to_lowercase`. The result depends on the text alone; Unicode says how.
#[verifier::external_body]
pub(crate) fn lower(text: &str) -> (r: String)
    ensures
        r@ == lowercased(text@),
{
    text.to_lowercase()
}

// ---- what holds of texts ---------------------------------------------------

/// The front of a text is as long as it may be, and no longer.
pub proof fn a_front_is_a_front(s: Seq<char>, max: nat)
    ensures
        head(s, max).is_prefix_of(s),
        s.len() <= max ==> head(s, max) == s,
        s.len() > max ==> head(s, max).len() == max,
{
    assert(s.take(head(s, max).len() as int) =~= head(s, max));
}

/// Trimming takes white space from the two ends of a text, and nothing else.
pub proof fn trimming_takes_only_blanks(s: Seq<char>) -> (cut: (int, int))
    ensures
        0 <= cut.0 <= cut.1 <= s.len(),
        trimmed(s) == s.subrange(cut.0, cut.1),
        forall|k: int| 0 <= k < s.len() && !(cut.0 <= k < cut.1) ==> blank(#[trigger] s[k]),
        trimmed(s).len() > 0 ==> !blank(trimmed(s)[0]) && !blank(trimmed(s).last()),
{
    lemma_skip_blank(s, 0);
    lemma_keep_end(s, s.len() as int);
    let a = skip_blank(s, 0);
    let b = keep_end(s, s.len() as int);
    if a < b {
        assert(!blank(s[a]));
        (a, b)
    } else {
        assert(s.subrange(0, 0) =~= Seq::<char>::empty());
        if a < s.len() {
            assert(blank(s[a]));
        }
        (0, 0)
    }
}

/// A text that neither starts nor ends with white space is left as it is.
pub proof fn a_tight_text_is_left_alone(s: Seq<char>)
    requires
        s.len() > 0 ==> !blank(s[0]) && !blank(s.last()),
    ensures
        trimmed(s) == s,
{
    assert(trimmed(s) =~= s);
}

/// Trimming twice is trimming once.
pub proof fn a_trimmed_text_stays(s: Seq<char>)
    ensures
        trimmed(trimmed(s)) == trimmed(s),
{
    a_trimmed_text_has_no_blank_ends(s);
    a_tight_text_is_left_alone(trimmed(s));
}

pub proof fn lemma_joined_front(first: Seq<char>, rest: Seq<Seq<char>>, sep: Seq<char>)
    requires
        rest.len() > 0,
    ensures
        joined(seq![first] + rest, sep) == first + sep + joined(rest, sep),
    decreases rest.len(),
{
    let all = seq![first] + rest;
    if rest.len() == 1 {
        assert(all.drop_last() =~= seq![first]);
        assert(all.last() == rest[0]);
        assert(joined(seq![first], sep) == first);
    } else {
        assert(all.drop_last() =~= seq![first] + rest.drop_last());
        assert(all.last() == rest.last());
        lemma_joined_front(first, rest.drop_last(), sep);
        assert(joined(all, sep) =~= first + sep + joined(rest, sep));
    }
}

/// Every part of a joined text stands in it, with nothing before the first and
/// nothing behind the last; and the separator stands between any two.
pub proof fn a_joined_text_holds_its_parts(a: Seq<Seq<char>>, part: Seq<char>, b: Seq<Seq<char>>, sep: Seq<char>)
    ensures
        ({
            let front = if a.len() > 0 {
                joined(a, sep) + sep
            } else {
                Seq::empty()
            };
            let rest = if b.len() > 0 {
                sep + joined(b, sep)
            } else {
                Seq::empty()
            };
            &&& joined(a + seq![part] + b, sep) == front + part + rest
            &&& occurs(joined(a + seq![part] + b, sep), part)
        }),
    decreases a.len(),
{
    let all = a + seq![part] + b;
    let front = if a.len() > 0 {
        joined(a, sep) + sep
    } else {
        Seq::empty()
    };
    let rest = if b.len() > 0 {
        sep + joined(b, sep)
    } else {
        Seq::empty()
    };
    if a.len() == 0 {
        if b.len() == 0 {
            assert(all =~= seq![part]);
            assert(joined(all, sep) =~= front + part + rest);
        } else {
            lemma_joined_front(part, b, sep);
            assert(all =~= seq![part] + b);
            assert(joined(all, sep) =~= front + part + rest);
        }
    } else {
        let less = a.skip(1);
        a_joined_text_holds_its_parts(less, part, b, sep);
        let tail = less + seq![part] + b;
        assert(all =~= seq![a[0]] + tail);
        lemma_joined_front(a[0], tail, sep);
        if less.len() > 0 {
            lemma_joined_front(a[0], less, sep);
            assert(a =~= seq![a[0]] + less);
        } else {
            assert(a =~= seq![a[0]]);
        }
        assert(joined(all, sep) =~= front + part + rest);
    }
    lemma_occurs(front, part, rest);
}

proof fn lemma_fields_join(s: Seq<char>, c: char, i: int)
    requires
        0 <= i <= s.len(),
    ensures
        fields_from(s, c, i).len() > 0,
        joined(fields_from(s, c, i), seq![c]) == s.skip(i),
        forall|k: int|
            0 <= k < fields_from(s, c, i).len() ==> !(#[trigger] fields_from(s, c, i)[k]).contains(c),
    decreases s.len() - i,
{
    lemma_find_char(s, c, i);
    let j = find_char(s, c, i);
    let all = fields_from(s, c, i);
    if j >= s.len() {
        assert(s.subrange(i, s.len() as int) =~= s.skip(i));
        assert(all =~= seq![s.skip(i)]);
    } else {
        lemma_fields_join(s, c, j + 1);
        let rest = fields_from(s, c, j + 1);
        let first = s.subrange(i, j);
        lemma_joined_front(first, rest, seq![c]);
        assert(s.skip(i) =~= first + seq![c] + s.skip(j + 1));
        assert forall|k: int| 0 <= k < all.len() implies !(#[trigger] all[k]).contains(c) by {
            if k > 0 {
                assert(all[k] == rest[k - 1]);
            }
        }
    }
}

/// The fields of a text make up the text again with what parted them, and none of
/// them holds it.
pub proof fn fields_make_up_the_text(s: Seq<char>, c: char)
    ensures
        fields(s, c).len() > 0,
        joined(fields(s, c), seq![c]) == s,
        forall|k: int| 0 <= k < fields(s, c).len() ==> !(#[trigger] fields(s, c)[k]).contains(c),
{
    lemma_fields_join(s, c, 0);
    assert(s.skip(0) =~= s);
}

pub open spec fn no_blanks(s: Seq<char>) -> bool {
    forall|k: int| 0 <= k < s.len() ==> !blank(#[trigger] s[k])
}

proof fn lemma_word_spans(s: Seq<char>, i: int, j: int)
    requires
        0 <= i <= j <= s.len(),
        forall|k: int| i <= k < j ==> !blank(#[trigger] s[k]),
        j < s.len() ==> blank(s[j]),
    ensures
        word_end(s, i) == j,
    decreases j - i,
{
    if i < j {
        assert(!blank(s[i]));
        lemma_word_spans(s, i + 1, j);
    }
}

proof fn lemma_word_end_shifts(a: Seq<char>, b: Seq<char>, i: int)
    requires
        0 <= i <= b.len(),
    ensures
        word_end(a + b, i + a.len()) == word_end(b, i) + a.len(),
    decreases b.len() - i,
{
    if i < b.len() && !blank(b[i]) {
        assert((a + b)[i + a.len()] == b[i]);
        lemma_word_end_shifts(a, b, i + 1);
    } else if i < b.len() {
        assert((a + b)[i + a.len()] == b[i]);
    }
}

proof fn lemma_words_shift(a: Seq<char>, b: Seq<char>, i: int)
    requires
        0 <= i <= b.len(),
    ensures
        words_from(a + b, i + a.len()) == words_from(b, i),
    decreases b.len() - i,
{
    let s = a + b;
    if i < b.len() {
        assert(s[i + a.len()] == b[i]);
        if blank(b[i]) {
            lemma_words_shift(a, b, i + 1);
        } else {
            lemma_word_end_shifts(a, b, i);
            lemma_word_end(b, i);
            let j = word_end(b, i);
            lemma_words_shift(a, b, j);
            assert(s.subrange(i + a.len(), j + a.len()) =~= b.subrange(i, j));
        }
    }
}

/// A text without white space is one word; one that starts with white space has
/// the words of the rest; and a word ends where white space comes.
pub proof fn words_are_parted_by_blanks(word: Seq<char>, c: char, rest: Seq<char>)
    requires
        no_blanks(word),
        blank(c),
    ensures
        word_views(word) == if word.len() > 0 {
            seq![word]
        } else {
            Seq::empty()
        },
        word_views(seq![c] + rest) == word_views(rest),
        word_views(word + seq![c] + rest) == word_views(word) + word_views(rest),
{
    let n = word.len() as int;
    assert(word_views(word) =~= if n > 0 {
        seq![word]
    } else {
        Seq::empty()
    }) by {
        if n > 0 {
            assert(!blank(word[0]));
            lemma_word_spans(word, 0, n);
            assert(word.subrange(0, n) =~= word);
            assert(words_from(word, n) =~= Seq::<Seq<char>>::empty());
        }
    }
    let late = seq![c] + rest;
    assert(late[0] == c);
    lemma_words_shift(seq![c], rest, 0);
    assert(words_from(late, 1) == words_from(rest, 0));
    let s = word + seq![c] + rest;
    assert(s[n] == c);
    lemma_words_shift(word + seq![c], rest, 0);
    assert(words_from(s, n + 1) == words_from(rest, 0));
    assert(words_from(s, n) == words_from(rest, 0));
    if n > 0 {
        assert forall|k: int| 0 <= k < n implies !blank(#[trigger] s[k]) by {
            assert(s[k] == word[k]);
        }
        lemma_word_spans(s, 0, n);
        assert(s.subrange(0, n) =~= word);
        assert(word_views(s) =~= word_views(word) + word_views(rest));
    } else {
        assert(word_views(s) =~= word_views(word) + word_views(rest));
    }
}

proof fn lemma_replaced_untouched(s: Seq<char>, from: Seq<char>, to: Seq<char>, i: int)
    requires
        from.len() > 0,
        0 <= i <= s.len(),
        !occurs(s, from),
    ensures
        replaced_from(s, from, to, i) == s.skip(i),
    decreases s.len() - i,
{
    if i < s.len() {
        assert(!occurs_at(s, from, i));
        lemma_replaced_untouched(s, from, to, i + 1);
        assert(s.skip(i) =~= seq![s[i]] + s.skip(i + 1));
    } else {
        assert(s.skip(i) =~= Seq::<char>::empty());
    }
}

proof fn lemma_replaced_until(s: Seq<char>, from: Seq<char>, to: Seq<char>, i: int, j: int)
    requires
        from.len() > 0,
        0 <= i <= j < s.len(),
        occurs_at(s, from, j),
        forall|k: int| i <= k < j ==> !#[trigger] occurs_at(s, from, k),
    ensures
        replaced_from(s, from, to, i) == s.subrange(i, j) + to + replaced_from(
            s,
            from,
            to,
            j + from.len(),
        ),
    decreases j - i,
{
    let rest = replaced_from(s, from, to, j + from.len());
    if i < j {
        assert(!occurs_at(s, from, i));
        lemma_replaced_until(s, from, to, i + 1, j);
        assert(s.subrange(i, j) =~= seq![s[i]] + s.subrange(i + 1, j));
        assert(replaced_from(s, from, to, i) =~= s.subrange(i, j) + to + rest);
    } else {
        assert(replaced_from(s, from, to, i) =~= s.subrange(i, j) + to + rest);
    }
}

/// Where a text holds what is to be replaced, the replacement stands in its stead:
/// what was before it stays before it. A text that does not hold it stays.
pub proof fn a_replacement_takes_its_place(s: Seq<char>, from: Seq<char>, to: Seq<char>, at: int)
    requires
        from.len() > 0,
        occurs_at(s, from, at),
        forall|k: int| 0 <= k < at ==> !#[trigger] occurs_at(s, from, k),
    ensures
        (s.take(at) + to).is_prefix_of(replaced(s, from, to)),
        occurs(replaced(s, from, to), to),
        !occurs(s.skip(at + from.len()), from) ==> replaced(s, from, to) == s.take(at) + to + s.skip(
            at + from.len(),
        ),
{
    lemma_replaced_until(s, from, to, 0, at);
    let end = at + from.len();
    let rest = replaced_from(s, from, to, end);
    assert(s.subrange(0, at) =~= s.take(at));
    let all = replaced(s, from, to);
    assert(all == s.take(at) + to + rest);
    lemma_occurs(s.take(at), to, rest);
    assert(all.take((at + to.len()) as int) =~= s.take(at) + to);
    if !occurs(s.skip(end), from) {
        lemma_replaced_shift(s, from, to, end, 0);
        lemma_replaced_untouched(s.skip(end), from, to, 0);
        assert(s.skip(end).skip(0) =~= s.skip(end));
    }
}

proof fn lemma_replaced_shift(s: Seq<char>, from: Seq<char>, to: Seq<char>, by: int, i: int)
    requires
        from.len() > 0,
        0 <= by <= s.len(),
        0 <= i <= s.len() - by,
    ensures
        replaced_from(s, from, to, by + i) == replaced_from(s.skip(by), from, to, i),
    decreases s.len() - by - i,
{
    let t = s.skip(by);
    if i < t.len() {
        assert(occurs_at(s, from, by + i) == occurs_at(t, from, i)) by {
            if i + from.len() <= t.len() {
                assert(s.subrange(by + i, by + i + from.len()) =~= t.subrange(i, i + from.len()));
            }
        }
        if occurs_at(t, from, i) {
            lemma_replaced_shift(s, from, to, by, i + from.len());
        } else {
            lemma_replaced_shift(s, from, to, by, i + 1);
        }
    }
}

/// A text that does not hold what is to be replaced stays as it is.
pub proof fn nothing_to_replace_changes_nothing(s: Seq<char>, from: Seq<char>, to: Seq<char>)
    requires
        from.len() > 0,
        !occurs(s, from),
    ensures
        replaced(s, from, to) == s,
{
    lemma_replaced_untouched(s, from, to, 0);
    assert(s.skip(0) =~= s);
}

proof fn lemma_find_char_shifts(a: Seq<char>, b: Seq<char>, c: char, i: int)
    requires
        0 <= i <= b.len(),
    ensures
        find_char(a + b, c, i + a.len()) == find_char(b, c, i) + a.len(),
    decreases b.len() - i,
{
    if i < b.len() {
        assert((a + b)[i + a.len()] == b[i]);
        if b[i] != c {
            lemma_find_char_shifts(a, b, c, i + 1);
        }
    }
}

proof fn lemma_fields_shift(a: Seq<char>, b: Seq<char>, c: char, i: int)
    requires
        0 <= i <= b.len(),
    ensures
        fields_from(a + b, c, i + a.len()) == fields_from(b, c, i),
    decreases b.len() - i,
{
    lemma_find_char_shifts(a, b, c, i);
    lemma_find_char(b, c, i);
    let j = find_char(b, c, i);
    let n = a.len() as int;
    assert((a + b).subrange(i + n, (a + b).len() as int) =~= b.subrange(i, b.len() as int));
    if j < b.len() {
        lemma_fields_shift(a, b, c, j + 1);
        assert((a + b).subrange(i + n, j + n) =~= b.subrange(i, j));
    }
}

/// A field ends where what parts it comes first, and the rest is parted alike.
pub proof fn a_field_ends_at_its_mark(first: Seq<char>, c: char, rest: Seq<char>)
    requires
        !first.contains(c),
    ensures
        fields(first, c) == seq![first],
        fields(first + seq![c] + rest, c) == seq![first] + fields(rest, c),
{
    let s = first + seq![c] + rest;
    let n = first.len() as int;
    lemma_find_char(first, c, 0);
    lemma_find_char(s, c, 0);
    let i = find_char(first, c, 0);
    assert(i >= n) by {
        if i < n {
            assert(first[i] == c);
        }
    }
    assert(first.subrange(0, n) =~= first);
    let j = find_char(s, c, 0);
    assert(s[n] == c);
    assert(j == n) by {
        if j < n {
            assert(s[j] == first[j]);
        }
    }
    assert(s.subrange(0, n) =~= first);
    lemma_fields_shift(first + seq![c], rest, c, 0);
    assert(fields_from(s, c, n + 1) == fields_from(rest, c, 0));
}

/// Words that are parted by single spaces are read back as they are.
pub proof fn spaced_words_read_back(all: Seq<Seq<char>>)
    requires
        forall|i: int| 0 <= i < all.len() ==> (#[trigger] all[i]).len() > 0 && no_blanks(all[i]),
    ensures
        word_views(joined(all, seq![' '])) == all,
    decreases all.len(),
{
    if all.len() == 0 {
        assert(word_views(joined(all, seq![' '])) =~= all);
    } else if all.len() == 1 {
        assert(no_blanks(all[0]));
        words_are_parted_by_blanks(all[0], ' ', Seq::empty());
        assert(all =~= seq![all[0]]);
    } else {
        let rest = all.skip(1);
        assert(no_blanks(all[0]));
        assert forall|i: int| 0 <= i < rest.len() implies (#[trigger] rest[i]).len() > 0
            && no_blanks(rest[i]) by {
            assert(rest[i] == all[i + 1]);
        }
        spaced_words_read_back(rest);
        lemma_joined_front(all[0], rest, seq![' ']);
        assert(all =~= seq![all[0]] + rest);
        words_are_parted_by_blanks(all[0], ' ', joined(rest, seq![' ']));
    }
}

/// A number in decimal holds digits only.
pub proof fn a_number_holds_digits(n: nat, c: char)
    ensures
        decimal(n).len() > 0,
        no_blanks(decimal(n)),
        !ascii_digit(c) ==> !decimal(n).contains(c),
        trimmed(decimal(n)) == decimal(n),
{
    lemma_decimal(n);
    let d = decimal(n);
    assert forall|k: int| 0 <= k < d.len() implies !blank(#[trigger] d[k]) by {
        assert(ascii_digit(d[k]));
    }
    if d.contains(c) {
        let k = choose|k: int| 0 <= k < d.len() && d[k] == c;
        assert(ascii_digit(d[k]));
    }
    assert(!blank(d[0]) && !blank(d[d.len() - 1]));
    a_tight_text_is_left_alone(d);
}

proof fn lemma_lines_shift(a: Seq<char>, b: Seq<char>, i: int)
    requires
        0 <= i <= b.len(),
    ensures
        lines_from(a + b, i + a.len()) == lines_from(b, i),
    decreases b.len() - i,
{
    if i < b.len() {
        lemma_find_char_shifts(a, b, '\n', i);
        lemma_find_char(b, '\n', i);
        let j = find_char(b, '\n', i);
        let n = a.len() as int;
        assert((a + b).subrange(i + n, (a + b).len() as int) =~= b.subrange(i, b.len() as int));
        if j < b.len() {
            lemma_lines_shift(a, b, j + 1);
            assert((a + b).subrange(i + n, j + n) =~= b.subrange(i, j));
        }
    }
}

/// A line ends at the first line feed, and a carriage return before it is none of
/// the line; a last line needs no line feed.
pub proof fn a_line_ends_at_its_feed(line: Seq<char>, rest: Seq<char>)
    requires
        !line.contains('\n'),
    ensures
        line.len() > 0 ==> line_views(line) == seq![line],
        line.len() == 0 || line.last() != '\r' ==> line_views(line + seq!['\n'] + rest) == seq![line]
            + line_views(rest),
        line_views(line + seq!['\r'] + seq!['\n'] + rest) == seq![line] + line_views(rest),
{
    let n = line.len() as int;
    if n > 0 {
        lemma_find_char(line, '\n', 0);
        let i = find_char(line, '\n', 0);
        if i < n {
            assert(line[i] == '\n');
        }
        assert(line.subrange(0, n) =~= line);
    }
    lemma_line_then(line, rest);
    let more = line + seq!['\r'];
    assert(!more.contains('\n')) by {
        if more.contains('\n') {
            let k = choose|k: int| 0 <= k < more.len() && more[k] == '\n';
            assert(line[k] == '\n');
        }
    }
    lemma_line_then(more, rest);
    assert(more.drop_last() =~= line);
}

proof fn lemma_line_then(line: Seq<char>, rest: Seq<char>)
    requires
        !line.contains('\n'),
    ensures
        line_views(line + seq!['\n'] + rest) == seq![without_return(line)] + line_views(rest),
{
    let s = line + seq!['\n'] + rest;
    let n = line.len() as int;
    lemma_find_char(s, '\n', 0);
    let j = find_char(s, '\n', 0);
    assert(s[n] == '\n');
    assert(j == n) by {
        if j < n {
            assert(s[j] == line[j]);
        }
    }
    assert(s.subrange(0, n) =~= line);
    lemma_lines_shift(line + seq!['\n'], rest, 0);
    assert(lines_from(s, n + 1) == lines_from(rest, 0));
}

} // verus!
