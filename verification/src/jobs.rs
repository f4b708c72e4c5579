//! Commands that run in the background: a bounded ring of their output, and the
//! table of who started what.

use vstd::prelude::*;
use vstd::utf8::{decode_utf8, valid_utf8};

use crate::config::{below, join_path};
use crate::table::{has_key, is_less, keys_are_ordered, lemma_map_at, less, sorted, Table};
use crate::text::{
    a_number_reads_back, chars_of, decimal, finishes, lemma_occurs, occurs, parse_unsigned,
    parsed_unsigned, piece, push_decimal, same, signed, to_signed,
};

verus! {

/// How much output a job keeps.
pub const RING_BYTES: usize = 65536;

/// The text that bytes spell, where ill-formed parts are replaced.
pub uninterp spec fn lossy_text(bytes: Seq<u8>) -> Seq<char>;

/// `String::from_utf8_lossy`. Well-formed bytes come out as the text that they
/// encode; what replaces an ill-formed part is not spelled out.
#[verifier::external_body]
pub(crate) fn text_of_bytes(bytes: &Vec<u8>) -> (r: String)
    ensures
        r@ == lossy_text(bytes@),
        valid_utf8(bytes@) ==> r@ == decode_utf8(bytes@),
{
    String::from_utf8_lossy(bytes).to_string()
}

/// What is read of bytes: the text that they encode, with ill-formed parts
/// replaced.
pub open spec fn reads_as(text: Seq<char>, bytes: Seq<u8>) -> bool {
    &&& text == lossy_text(bytes)
    &&& valid_utf8(bytes) ==> text == decode_utf8(bytes)
}

/// The last `cap` elements.
pub open spec fn last_of(bytes: Seq<u8>, cap: int) -> Seq<u8> {
    if bytes.len() <= cap {
        bytes
    } else {
        bytes.subrange(bytes.len() - cap, bytes.len() as int)
    }
}

/// A bounded buffer that forgets its oldest bytes and counts them.
#[derive(Debug)]
pub struct Ring {
    buf: Vec<u8>,
    cap: usize,
    dropped: u64,
}

#[verifier::ext_equal]
pub struct RingV {
    pub bytes: Seq<u8>,
    pub cap: int,
    pub dropped: int,
}

impl View for Ring {
    type V = RingV;

    closed spec fn view(&self) -> RingV {
        RingV { bytes: self.buf@, cap: self.cap as int, dropped: self.dropped as int }
    }
}

impl RingV {
    /// A ring never holds more than it may, and its positions fit in 64 bits.
    pub open spec fn wf(self) -> bool {
        &&& 0 <= self.bytes.len() <= self.cap
        &&& 0 <= self.dropped
        &&& self.dropped + self.bytes.len() <= u64::MAX
    }

    /// How much was ever written: the position after the last byte.
    pub open spec fn end(self) -> int {
        self.dropped + self.bytes.len()
    }

    pub open spec fn pushed(self, bytes: Seq<u8>) -> RingV {
        let all = self.bytes + bytes;
        let keep = last_of(all, self.cap);
        RingV { bytes: keep, cap: self.cap, dropped: self.dropped + (all.len() - keep.len()) }
    }

    /// What can still be read from a position on.
    pub open spec fn from(self, cursor: int) -> Seq<u8> {
        if cursor <= self.dropped {
            self.bytes
        } else if cursor >= self.end() {
            Seq::empty()
        } else {
            self.bytes.subrange(cursor - self.dropped, self.bytes.len() as int)
        }
    }
}

/// A ring keeps the tail of everything that was ever written to it.
pub proof fn a_ring_keeps_the_tail(r: RingV, history: Seq<u8>, bytes: Seq<u8>)
    requires
        r.wf(),
        r.bytes == last_of(history, r.cap),
        r.end() == history.len(),
    ensures
        r.pushed(bytes).bytes == last_of(history + bytes, r.cap),
        r.pushed(bytes).end() == (history + bytes).len(),
        r.pushed(bytes).bytes.len() <= r.cap,
{
    assert(r.pushed(bytes).bytes =~= last_of(history + bytes, r.cap));
}

/// Reading on from where the last read ended gives what was written since, no
/// byte twice and none missing, as long as it fits.
pub proof fn reading_on_misses_nothing(r: RingV, bytes: Seq<u8>)
    requires
        r.wf(),
        bytes.len() <= r.cap,
    ensures
        r.pushed(bytes).from(r.end()) == bytes,
        r.pushed(bytes).dropped <= r.end(),
        r.from(r.end()).len() == 0,
{
    let after = r.pushed(bytes);
    let all = r.bytes + bytes;
    assert(after.end() == r.end() + bytes.len());
    if bytes.len() == 0 {
        assert(after.from(r.end()) =~= bytes);
    } else {
        assert(after.from(r.end()) =~= bytes);
    }
}

impl Ring {
    pub fn new(cap: usize) -> (r: Ring)
        ensures
            r@ == (RingV { bytes: Seq::empty(), cap: cap as int, dropped: 0 }),
            r@.wf(),
    {
        Ring { buf: Vec::new(), cap, dropped: 0 }
    }

    /// Writes at the end; the oldest bytes make room.
    pub fn push(&mut self, bytes: &[u8])
        requires
            old(self)@.wf(),
            old(self)@.end() + bytes@.len() <= u64::MAX,
        ensures
            final(self)@ == old(self)@.pushed(bytes@),
            final(self)@.wf(),
    {
        let n: usize = bytes.len();
        let held: usize = self.buf.len();
        let cap: usize = self.cap;
        let ghost before = self.buf@;
        let ghost all = before + bytes@;
        let mut next: Vec<u8> = Vec::new();
        let (skip_old, skip_new): (usize, usize) = if n >= cap {
            (held, n - cap)
        } else if held > cap - n {
            (held - (cap - n), 0)
        } else {
            (0, 0)
        };
        let ghost lost = skip_old + skip_new;
        let mut i: usize = skip_old;
        while i < held
            invariant
                skip_old <= i <= held == self.buf@.len(),
                self.buf@ == before,
                next@ == before.subrange(skip_old as int, i as int),
            decreases held - i,
        {
            next.push(self.buf[i]);
            i += 1;
            assert(next@ =~= before.subrange(skip_old as int, i as int));
        }
        let mut j: usize = skip_new;
        assert(next@ + bytes@.subrange(skip_new as int, j as int) =~= next@);
        let ghost kept_old = next@;
        while j < n
            invariant
                skip_new <= j <= n == bytes@.len(),
                next@ == kept_old + bytes@.subrange(skip_new as int, j as int),
            decreases n - j,
        {
            next.push(bytes[j]);
            j += 1;
            assert(next@ =~= kept_old + bytes@.subrange(skip_new as int, j as int));
        }
        assert(next@ =~= last_of(all, cap as int));
        self.dropped = self.dropped + skip_old as u64 + skip_new as u64;
        self.buf = next;
    }

    /// Reads from a position to the end: the text, the position to read on
    /// from, and whether bytes before it are gone.
    pub fn read_from(&self, cursor: u64) -> (r: (String, u64, bool))
        requires
            self@.wf(),
        ensures
            reads_as(r.0@, self@.from(cursor as int)),
            r.1 == self@.end(),
            r.2 == (cursor < self@.dropped),
    {
        let n: usize = self.buf.len();
        let end: u64 = self.dropped + n as u64;
        let offset: usize = if cursor <= self.dropped {
            0
        } else if cursor >= end {
            n
        } else {
            (cursor - self.dropped) as usize
        };
        let mut rest: Vec<u8> = Vec::new();
        let mut i: usize = offset;
        while i < n
            invariant
                offset <= i <= n == self.buf@.len(),
                rest@ == self.buf@.subrange(offset as int, i as int),
            decreases n - i,
        {
            rest.push(self.buf[i]);
            i += 1;
            assert(rest@ =~= self.buf@.subrange(offset as int, i as int));
        }
        assert(rest@ =~= self@.from(cursor as int));
        (text_of_bytes(&rest), end, cursor < self.dropped)
    }

    pub fn snapshot(&self) -> (r: Vec<u8>)
        ensures
            r@ == self@.bytes,
    {
        let r = self.buf.clone();
        assert(r@ =~= self.buf@);
        r
    }

    pub fn total(&self) -> (r: u64)
        requires
            self@.wf(),
        ensures
            r == self@.end(),
    {
        self.dropped + self.buf.len() as u64
    }

    pub fn dropped(&self) -> (r: u64)
        ensures
            r == self@.dropped,
    {
        self.dropped
    }
}

// ---- the table of jobs -----------------------------------------------------

pub struct Job {
    pub owner: String,
    pub command: String,
    pub ring: Ring,
    pub running: bool,
    pub exit_code: Option<i32>,
}

#[derive(Debug, Clone, PartialEq, Eq)]
pub struct JobSummary {
    pub id: String,
    pub command: String,
    pub running: bool,
    pub exit_code: Option<i32>,
    pub bytes: u64,
}

#[derive(Debug, Clone, PartialEq, Eq)]
pub struct JobRead {
    pub text: String,
    pub cursor: u64,
    pub running: bool,
    pub lossy: bool,
    pub dropped: u64,
    pub exit_code: Option<i32>,
}

/// What is said of an id that is not there, or not yours: the same in both
/// cases, so that nobody learns of another's jobs.
pub open spec fn no_such_job(id: Seq<char>) -> Seq<char> {
    "没有叫 "@ + id + " 的作业（用 job_list 看看有哪些）"@
}

fn unknown_job(id: &str) -> (r: String)
    ensures
        r@ == no_such_job(id@),
{
    let mut t = "没有叫 ".to_owned();
    t.append(id);
    t.append(" 的作业（用 job_list 看看有哪些）");
    t
}

pub struct Jobs {
    pub table: Table<Job>,
    pub next: u64,
}

pub open spec fn job_id(n: nat) -> Seq<char> {
    "j"@ + decimal(n)
}

impl Jobs {
    pub open spec fn wf(self) -> bool {
        forall|id: Seq<char>| #[trigger] self.table@.contains_key(id) ==> self.table@[id].ring@.wf()
    }

    /// The job is there and belongs to this owner.
    pub open spec fn owns(self, owner: Seq<char>, id: Seq<char>) -> bool {
        self.table@.contains_key(id) && self.table@[id].owner@ == owner
    }

    pub fn new() -> (r: Jobs)
        ensures
            r.wf(),
            r.table@ == Map::<Seq<char>, Job>::empty(),
            r.next == 1,
    {
        Jobs { table: Table::new(), next: 1 }
    }

    /// An id for a job that is about to start. An id is never given twice.
    pub fn reserve(&mut self) -> (r: String)
        requires
            old(self).next < u64::MAX,
        ensures
            r@ == job_id(old(self).next as nat),
            final(self).next == old(self).next + 1,
            final(self).table == old(self).table,
    {
        let mut id = "j".to_owned();
        push_decimal(&mut id, self.next);
        self.next = self.next + 1;
        id
    }

    /// The job is running now.
    pub fn started(&mut self, id: &str, owner: &str, command: &str)
        requires
            old(self).wf(),
        ensures
            final(self).wf(),
            final(self).next == old(self).next,
            final(self).owns(owner@, id@),
            final(self).table@[id@].running,
            final(self).table@[id@].exit_code is None,
            final(self).table@[id@].command@ == command@,
            final(self).table@[id@].ring@ == (RingV {
                bytes: Seq::empty(),
                cap: RING_BYTES as int,
                dropped: 0,
            }),
            final(self).table@ == old(self).table@.insert(id@, final(self).table@[id@]),
    {
        let job = Job {
            owner: owner.to_owned(),
            command: command.to_owned(),
            ring: Ring::new(RING_BYTES),
            running: true,
            exit_code: None,
        };
        self.table.insert(id.to_owned(), job);
    }

    /// The job wrote this.
    pub fn wrote(&mut self, id: &str, bytes: &[u8])
        requires
            old(self).wf(),
            old(self).table@.contains_key(id@) ==> old(self).table@[id@].ring@.end() + bytes@.len()
                <= u64::MAX,
        ensures
            final(self).wf(),
            final(self).next == old(self).next,
            !old(self).table@.contains_key(id@) ==> final(self).table@ == old(self).table@,
            old(self).table@.contains_key(id@) ==> {
                let was = old(self).table@[id@];
                let now = final(self).table@[id@];
                &&& final(self).table@ == old(self).table@.insert(id@, now)
                &&& now.ring@ == was.ring@.pushed(bytes@)
                &&& now.owner == was.owner
                &&& now.command == was.command
                &&& now.running == was.running
                &&& now.exit_code == was.exit_code
            },
    {
        let ghost before = self.table@;
        match self.table.remove(id) {
            Some(job) => {
                let mut job = job;
                job.ring.push(bytes);
                self.table.insert(id.to_owned(), job);
                assert(self.table@ =~= before.insert(id@, self.table@[id@]));
            },
            None => {
                assert(self.table@ =~= before);
            },
        }
    }

    /// The job ended.
    pub fn finished(&mut self, id: &str, code: i32)
        requires
            old(self).wf(),
        ensures
            final(self).wf(),
            final(self).next == old(self).next,
            !old(self).table@.contains_key(id@) ==> final(self).table@ == old(self).table@,
            old(self).table@.contains_key(id@) ==> {
                let was = old(self).table@[id@];
                let now = final(self).table@[id@];
                &&& final(self).table@ == old(self).table@.insert(id@, now)
                &&& !now.running
                &&& now.exit_code == Some(code)
                &&& now.ring == was.ring
                &&& now.owner == was.owner
                &&& now.command == was.command
            },
    {
        let ghost before = self.table@;
        match self.table.remove(id) {
            Some(job) => {
                let mut job = job;
                job.running = false;
                job.exit_code = Some(code);
                self.table.insert(id.to_owned(), job);
                assert(self.table@ =~= before.insert(id@, self.table@[id@]));
            },
            None => {
                assert(self.table@ =~= before);
            },
        }
    }

    /// What an owner gets to read of a job from a position on.
    pub fn output(&self, owner: &str, id: &str, cursor: u64) -> (r: Result<JobRead, String>)
        requires
            self.wf(),
        ensures
            match r {
                Ok(read) => {
                    let job = self.table@[id@];
                    &&& self.owns(owner@, id@)
                    &&& reads_as(read.text@, job.ring@.from(cursor as int))
                    &&& read.cursor == job.ring@.end()
                    &&& read.lossy == (cursor < job.ring@.dropped)
                    &&& read.dropped == job.ring@.dropped
                    &&& read.running == job.running
                    &&& read.exit_code == job.exit_code
                },
                Err(why) => !self.owns(owner@, id@) && why@ == no_such_job(id@),
            },
    {
        match self.table.get(id) {
            Some(job) => {
                if same(job.owner.as_str(), owner) {
                    let (text, next, lossy) = job.ring.read_from(cursor);
                    Ok(
                        JobRead {
                            text,
                            cursor: next,
                            running: job.running,
                            lossy,
                            dropped: job.ring.dropped(),
                            exit_code: job.exit_code,
                        },
                    )
                } else {
                    Err(unknown_job(id))
                }
            },
            None => Err(unknown_job(id)),
        }
    }

    /// Stops a job. `Ok(true)` means that it was running until now.
    pub fn kill(&mut self, owner: &str, id: &str) -> (r: Result<bool, String>)
        requires
            old(self).wf(),
        ensures
            final(self).wf(),
            final(self).next == old(self).next,
            match r {
                Ok(stopped) => {
                    let was = old(self).table@[id@];
                    let now = final(self).table@[id@];
                    &&& old(self).owns(owner@, id@)
                    &&& stopped == was.running
                    &&& !now.running
                    &&& final(self).table@ == old(self).table@.insert(id@, now)
                    &&& now.ring == was.ring
                    &&& now.owner == was.owner
                    &&& now.command == was.command
                    &&& now.exit_code == was.exit_code
                },
                Err(why) => !old(self).owns(owner@, id@) && why@ == no_such_job(id@)
                    && final(self).table@ == old(self).table@,
            },
    {
        let ghost before = self.table@;
        let mine: bool = match self.table.get(id) {
            Some(job) => same(job.owner.as_str(), owner),
            None => false,
        };
        if !mine {
            return Err(unknown_job(id));
        }
        match self.table.remove(id) {
            Some(job) => {
                let mut job = job;
                let was: bool = job.running;
                job.running = false;
                self.table.insert(id.to_owned(), job);
                assert(self.table@ =~= before.insert(id@, self.table@[id@]));
                Ok(was)
            },
            None => Err(unknown_job(id)),
        }
    }

    /// An owner's jobs, in the order in which they were started.
    pub fn list(&self, owner: &str) -> (r: Vec<JobSummary>)
        requires
            self.wf(),
        ensures
            forall|i: int|
                0 <= i < r@.len() ==> self.owns(owner@, (#[trigger] r@[i]).id@) && summarises(
                    r@[i],
                    self.table@[r@[i].id@],
                ),
            forall|id: Seq<char>| #[trigger] self.owns(owner@, id) ==> lists(r@, id),
            in_order(r@),
    {
        let ghost pairs = self.table.pairs();
        let mut r: Vec<JobSummary> = Vec::new();
        let mut k: usize = 0;
        while k < self.table.len()
            invariant
                k <= pairs.len(),
                pairs == self.table.pairs(),
                self.wf(),
                k > 0 ==> sorted(pairs),
                in_order(r@),
                shows(r@, pairs, owner@, k as int),
            decreases pairs.len() - k,
        {
            let (id, job) = self.table.entry(k);
            if same(job.owner.as_str(), owner) {
                let bytes: u64 = job.ring.total();
                let next = JobSummary {
                    id: id.clone(),
                    command: job.command.clone(),
                    running: job.running,
                    exit_code: job.exit_code,
                    bytes,
                };
                let ghost before = r@;
                proof {
                    lemma_not_shown(before, pairs, owner@, k as int);
                }
                let at: usize = put_in_order(&mut r, next);
                proof {
                    lemma_shown(before, pairs, owner@, k as int, at as int, next);
                }
            } else {
                proof {
                    lemma_passed_over(r@, pairs, owner@, k as int);
                }
            }
            k += 1;
        }
        proof {
            assert forall|i: int| 0 <= i < r@.len() implies self.owns(
                owner@,
                (#[trigger] r@[i]).id@,
            ) && summarises(r@[i], self.table@[r@[i].id@]) by {
                assert(comes_from(r@[i], pairs, owner@, k as int));
                let m = choose|m: int| 0 <= m < k && #[trigger] shown_by(r@[i], pairs[m], owner@);
                lemma_map_at(pairs, m);
            }
            assert forall|id: Seq<char>| #[trigger] self.owns(owner@, id) implies lists(
                r@,
                id,
            ) by {
                assert(has_key(pairs, id));
                let m = choose|m: int| 0 <= m < pairs.len() && (#[trigger] pairs[m]).0 == id;
                lemma_map_at(pairs, m);
                assert(pairs[m].1.owner@ == owner@);
                assert(lists(r@, pairs[m].0));
            }
        }
        r
    }
}

/// The list is in the order of starting.
pub open spec fn in_order(list: Seq<JobSummary>) -> bool {
    forall|i: int, j: int|
        0 <= i < j < list.len() ==> sooner((#[trigger] list[i]).id@, (#[trigger] list[j]).id@)
}

spec fn shown_by(s: JobSummary, pair: (Seq<char>, Job), owner: Seq<char>) -> bool {
    s.id@ == pair.0 && pair.1.owner@ == owner && summarises(s, pair.1)
}

spec fn comes_from(s: JobSummary, pairs: Seq<(Seq<char>, Job)>, owner: Seq<char>, k: int) -> bool {
    exists|m: int| 0 <= m < k && #[trigger] shown_by(s, pairs[m], owner)
}

/// The list holds this id.
pub open spec fn lists(list: Seq<JobSummary>, id: Seq<char>) -> bool {
    exists|i: int| 0 <= i < list.len() && (#[trigger] list[i]).id@ == id
}

/// The list shows the jobs of an owner among the first `k`.
spec fn shows(list: Seq<JobSummary>, pairs: Seq<(Seq<char>, Job)>, owner: Seq<char>, k: int) -> bool {
    &&& forall|i: int| 0 <= i < list.len() ==> #[trigger] comes_from(list[i], pairs, owner, k)
    &&& forall|m: int|
        0 <= m < k && pairs[m].1.owner@ == owner ==> #[trigger] lists(list, pairs[m].0)
}

proof fn lemma_not_shown(
    list: Seq<JobSummary>,
    pairs: Seq<(Seq<char>, Job)>,
    owner: Seq<char>,
    k: int,
)
    requires
        sorted(pairs),
        0 <= k < pairs.len(),
        shows(list, pairs, owner, k),
    ensures
        forall|i: int| 0 <= i < list.len() ==> (#[trigger] list[i]).id@ != pairs[k].0,
{
    assert forall|i: int| 0 <= i < list.len() implies (#[trigger] list[i]).id@ != pairs[k].0 by {
        assert(comes_from(list[i], pairs, owner, k));
        let m = choose|m: int| 0 <= m < k && #[trigger] shown_by(list[i], pairs[m], owner);
        assert(less(pairs[m].0, pairs[k].0));
        keys_are_ordered(pairs[k].0, pairs[k].0, pairs[k].0);
    }
}

proof fn lemma_comes_on(s: JobSummary, pairs: Seq<(Seq<char>, Job)>, owner: Seq<char>, k: int)
    requires
        comes_from(s, pairs, owner, k),
    ensures
        comes_from(s, pairs, owner, k + 1),
{
    let m = choose|m: int| 0 <= m < k && #[trigger] shown_by(s, pairs[m], owner);
    assert(shown_by(s, pairs[m], owner));
}

proof fn lemma_passed_over(
    list: Seq<JobSummary>,
    pairs: Seq<(Seq<char>, Job)>,
    owner: Seq<char>,
    k: int,
)
    requires
        0 <= k < pairs.len(),
        shows(list, pairs, owner, k),
        pairs[k].1.owner@ != owner,
    ensures
        shows(list, pairs, owner, k + 1),
{
    assert forall|i: int| 0 <= i < list.len() implies #[trigger] comes_from(
        list[i],
        pairs,
        owner,
        k + 1,
    ) by {
        assert(comes_from(list[i], pairs, owner, k));
        lemma_comes_on(list[i], pairs, owner, k);
    }
}

proof fn lemma_shown(
    list: Seq<JobSummary>,
    pairs: Seq<(Seq<char>, Job)>,
    owner: Seq<char>,
    k: int,
    at: int,
    next: JobSummary,
)
    requires
        0 <= k < pairs.len(),
        0 <= at <= list.len(),
        shows(list, pairs, owner, k),
        shown_by(next, pairs[k], owner),
    ensures
        shows(list.insert(at, next), pairs, owner, k + 1),
{
    let now = list.insert(at, next);
    assert forall|i: int| 0 <= i < now.len() implies #[trigger] comes_from(
        now[i],
        pairs,
        owner,
        k + 1,
    ) by {
        if i == at {
            assert(shown_by(now[i], pairs[k], owner));
        } else {
            let was = if i < at {
                i
            } else {
                i - 1
            };
            assert(now[i] == list[was]);
            assert(comes_from(list[was], pairs, owner, k));
            lemma_comes_on(list[was], pairs, owner, k);
        }
    }
    assert forall|m: int| 0 <= m < k + 1 && pairs[m].1.owner@ == owner implies #[trigger] lists(
        now,
        pairs[m].0,
    ) by {
        if m == k {
            assert(now[at].id@ == pairs[m].0);
        } else {
            assert(lists(list, pairs[m].0));
            let i = choose|i: int| 0 <= i < list.len() && (#[trigger] list[i]).id@ == pairs[m].0;
            let is = if i < at {
                i
            } else {
                i + 1
            };
            assert(now[is] == list[i]);
        }
    }
}

/// The number that an id carries.
pub open spec fn number_in(id: Seq<char>) -> int {
    if id.len() == 0 {
        0
    } else {
        match parsed_unsigned(id.skip(1), u64::MAX as int) {
            Some(n) => n,
            None => 0,
        }
    }
}

/// Ids are given in the order of their numbers, so the lower number was started
/// first.
pub open spec fn sooner(a: Seq<char>, b: Seq<char>) -> bool {
    number_in(a) < number_in(b) || (number_in(a) == number_in(b) && less(a, b))
}

/// Of two ids that were given, the one that was given first is the sooner.
pub proof fn ids_tell_the_start(m: nat, n: nat)
    requires
        m < n <= u64::MAX,
    ensures
        number_in(job_id(m)) == m,
        number_in(job_id(n)) == n,
        sooner(job_id(m), job_id(n)),
        job_id(m) != job_id(n),
{
    lemma_number_in(m);
    lemma_number_in(n);
}

proof fn lemma_number_in(n: nat)
    requires
        n <= u64::MAX,
    ensures
        number_in(job_id(n)) == n,
{
    reveal_strlit("j");
    assert(job_id(n).skip(1) =~= decimal(n));
    a_number_reads_back(n, u64::MAX as int);
}

fn number_of(id: &str) -> (r: u64)
    ensures
        r == number_in(id@),
{
    let v = chars_of(id);
    let n: usize = v.len();
    if n == 0 {
        return 0;
    }
    let digits = piece(&v, 1, n);
    assert(digits@ =~= id@.skip(1));
    match parse_unsigned(digits.as_str(), u64::MAX) {
        Some(k) => k,
        None => 0,
    }
}

/// Puts a job into a list that is in order and does not hold it.
fn put_in_order(list: &mut Vec<JobSummary>, next: JobSummary) -> (at: usize)
    requires
        in_order(old(list)@),
        forall|i: int| 0 <= i < old(list)@.len() ==> (#[trigger] old(list)@[i]).id@ != next.id@,
    ensures
        at <= old(list)@.len(),
        final(list)@ == old(list)@.insert(at as int, next),
        in_order(final(list)@),
{
    let at: usize = place_for(list, next.id.as_str());
    let ghost before = list@;
    list.insert(at, next);
    proof {
        let now = list@;
        assert(now =~= before.insert(at as int, next));
        assert forall|i: int, j: int| 0 <= i < j < now.len() implies sooner(
            (#[trigger] now[i]).id@,
            (#[trigger] now[j]).id@,
        ) by {
            let i0 = if i < at {
                i
            } else {
                i - 1
            };
            let j0 = if j < at {
                j
            } else {
                j - 1
            };
            if i != at {
                assert(now[i] == before[i0]);
            }
            if j != at {
                assert(now[j] == before[j0]);
            }
            if i != at && j != at {
                assert(sooner(before[i0].id@, before[j0].id@));
            }
        }
    }
    at
}

/// Where an id goes in a list that is in order and does not hold it.
fn place_for(list: &Vec<JobSummary>, id: &str) -> (r: usize)
    requires
        in_order(list@),
        forall|i: int| 0 <= i < list@.len() ==> (#[trigger] list@[i]).id@ != id@,
    ensures
        r <= list@.len(),
        forall|i: int| 0 <= i < r ==> sooner((#[trigger] list@[i]).id@, id@),
        forall|i: int| r <= i < list@.len() ==> sooner(id@, (#[trigger] list@[i]).id@),
{
    let mine: u64 = number_of(id);
    let mut at: usize = 0;
    while at < list.len()
        invariant
            at <= list@.len(),
            mine == number_in(id@),
            forall|i: int| 0 <= i < at ==> sooner((#[trigger] list@[i]).id@, id@),
            in_order(list@),
            forall|i: int| 0 <= i < list@.len() ==> (#[trigger] list@[i]).id@ != id@,
        decreases list@.len() - at,
    {
        let other: u64 = number_of(list[at].id.as_str());
        if !(other < mine || (other == mine && is_less(list[at].id.as_str(), id))) {
            proof {
                let here = list@[at as int].id@;
                keys_are_ordered(here, id@, id@);
                assert(sooner(id@, here));
                assert forall|i: int| at <= i < list@.len() implies sooner(
                    id@,
                    (#[trigger] list@[i]).id@,
                ) by {
                    if i > at {
                        assert(sooner(here, list@[i].id@));
                        keys_are_ordered(id@, here, list@[i].id@);
                    }
                }
            }
            return at;
        }
        at += 1;
    }
    at
}

pub open spec fn summarises(s: JobSummary, job: Job) -> bool {
    &&& s.command@ == job.command@
    &&& s.running == job.running
    &&& s.exit_code == job.exit_code
    &&& s.bytes == job.ring@.end()
}

/// What is put aside when a job has ended.
pub open spec fn outbox_body(
    id: Seq<char>,
    command: Seq<char>,
    code: int,
    output: Seq<char>,
) -> Seq<char> {
    "# "@ + id + ": "@ + command + "\n退出码 "@ + signed(code) + "\n\n"@ + output
}

/// Where it is put.
pub fn outbox_path(home: &str, id: &str) -> (r: String)
    ensures
        r@ == below(below(below(home@, "outbox"@), "jobs"@), id@ + ".txt"@),
{
    let mut leaf = id.to_owned();
    leaf.append(".txt");
    let outbox = join_path(home, "outbox");
    let dir = join_path(outbox.as_str(), "jobs");
    join_path(dir.as_str(), leaf.as_str())
}

pub fn outbox_text(id: &str, command: &str, code: i32, bytes: &Vec<u8>) -> (r: String)
    ensures
        r@ == outbox_body(id@, command@, code as int, lossy_text(bytes@)),
        valid_utf8(bytes@) ==> r@ == outbox_body(
            id@,
            command@,
            code as int,
            decode_utf8(bytes@),
        ),
{
    let mut t = "# ".to_owned();
    t.append(id);
    t.append(": ");
    t.append(command);
    t.append("\n退出码 ");
    let n = to_signed(code as i64);
    t.append(n.as_str());
    t.append("\n\n");
    let body = text_of_bytes(bytes);
    t.append(body.as_str());
    t
}

// ---- what a job shows ------------------------------------------------------

/// A ring keeps the last bytes that it has room for, all of them where it has room
/// for all.
pub proof fn the_last_bytes_are_kept(bytes: Seq<u8>, cap: int)
    requires
        0 <= cap,
    ensures
        bytes.len() <= cap ==> last_of(bytes, cap) == bytes,
        bytes.len() > cap ==> last_of(bytes, cap) == bytes.skip(bytes.len() - cap),
{
    if bytes.len() > cap {
        assert(last_of(bytes, cap) =~= bytes.skip(bytes.len() - cap));
    }
}

/// Reading starts at the cursor: from the end there is nothing, from what was
/// dropped there is all that is left, and from between there is the rest.
pub proof fn reading_starts_at_the_cursor(r: RingV, cursor: int)
    requires
        r.wf(),
    ensures
        cursor >= r.end() ==> r.from(cursor).len() == 0,
        cursor <= r.dropped ==> r.from(cursor) == r.bytes,
        r.dropped <= cursor <= r.end() ==> r.from(cursor) == r.bytes.skip(cursor - r.dropped),
        r.end() == r.dropped + r.bytes.len(),
{
    if r.dropped <= cursor <= r.end() {
        assert(r.from(cursor) =~= r.bytes.skip(cursor - r.dropped));
    }
}

/// A push moves the end on by what was written, and what is dropped is the oldest.
pub proof fn a_push_moves_the_end(r: RingV, bytes: Seq<u8>)
    requires
        r.wf(),
    ensures
        r.pushed(bytes).end() == r.end() + bytes.len(),
        r.pushed(bytes).cap == r.cap,
        r.pushed(bytes).bytes.len() <= r.cap,
        r.bytes.len() + bytes.len() <= r.cap ==> r.pushed(bytes).bytes == r.bytes + bytes
            && r.pushed(bytes).dropped == r.dropped,
{
}

/// A job belongs to one session, and a summary tells what became of it.
pub proof fn a_job_has_one_owner(jobs: Jobs, a: Seq<char>, b: Seq<char>, id: Seq<char>)
    requires
        jobs.owns(a, id),
        jobs.owns(b, id),
    ensures
        a == b,
{
}

/// A summary is of its job: its command, whether it runs, how it ended and how much
/// it wrote.
pub proof fn a_summary_is_of_its_job(s: JobSummary, job: Job)
    requires
        summarises(s, job),
    ensures
        s.command@ == job.command@,
        s.running == job.running,
        s.exit_code == job.exit_code,
        s.bytes == job.ring@.dropped + job.ring@.bytes.len(),
{
}

/// What is left of a job names it, its command and its exit code, and ends with its
/// output.
pub proof fn an_outbox_holds_the_output(
    id: Seq<char>,
    command: Seq<char>,
    code: int,
    output: Seq<char>,
)
    ensures
        occurs(outbox_body(id, command, code, output), id),
        occurs(outbox_body(id, command, code, output), command),
        occurs(outbox_body(id, command, code, output), signed(code)),
        finishes(outbox_body(id, command, code, output), output),
        occurs(no_such_job(id), id),
{
    let all = outbox_body(id, command, code, output);
    let a = "# "@;
    let b = ": "@;
    let c = "\n退出码 "@;
    let n = signed(code);
    let d = "\n\n"@;
    lemma_occurs(a, id, b + command + c + n + d + output);
    assert(all =~= a + id + (b + command + c + n + d + output));
    lemma_occurs(a + id + b, command, c + n + d + output);
    assert(all =~= (a + id + b) + command + (c + n + d + output));
    lemma_occurs(a + id + b + command + c, n, d + output);
    assert(all =~= (a + id + b + command + c) + n + (d + output));
    lemma_occurs(a + id + b + command + c + n + d, output, Seq::empty());
    assert(all =~= (a + id + b + command + c + n + d) + output + Seq::<char>::empty());
    lemma_occurs("没有叫 "@, id, " 的作业（用 job_list 看看有哪些）"@);
}

} // verus!
