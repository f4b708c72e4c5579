//! A map from text to values that is walked in the order of its keys.

use vstd::prelude::*;

use crate::text::chars_of;

verus! {

/// Lexicographic order from index `i` on, by the number of each character.
pub open spec fn less_from(a: Seq<char>, b: Seq<char>, i: int) -> bool
    decreases b.len() - i,
{
    if i < 0 || i >= b.len() {
        false
    } else if i >= a.len() {
        true
    } else if a[i] != b[i] {
        a[i] < b[i]
    } else {
        less_from(a, b, i + 1)
    }
}

/// `a` stands before `b` in the order of keys.
pub open spec fn less(a: Seq<char>, b: Seq<char>) -> bool {
    less_from(a, b, 0)
}

pub proof fn lemma_less_irreflexive(a: Seq<char>, i: int)
    requires
        0 <= i,
    ensures
        !less_from(a, a, i),
    decreases a.len() - i,
{
    if i < a.len() {
        lemma_less_irreflexive(a, i + 1);
    }
}

pub proof fn lemma_less_transitive(a: Seq<char>, b: Seq<char>, c: Seq<char>, i: int)
    requires
        0 <= i,
        less_from(a, b, i),
        less_from(b, c, i),
    ensures
        less_from(a, c, i),
    decreases c.len() - i,
{
    if i < a.len() && i < b.len() && i < c.len() && a[i] == b[i] && b[i] == c[i] {
        lemma_less_transitive(a, b, c, i + 1);
    }
}

pub proof fn lemma_less_total(a: Seq<char>, b: Seq<char>, i: int)
    requires
        0 <= i <= a.len(),
        i <= b.len(),
        a.take(i) == b.take(i),
    ensures
        less_from(a, b, i) || less_from(b, a, i) || a == b,
    decreases a.len() + b.len() - 2 * i,
{
    if i < a.len() && i < b.len() {
        if a[i] == b[i] {
            assert(a.take(i + 1) =~= a.take(i).push(a[i]));
            assert(b.take(i + 1) =~= b.take(i).push(b[i]));
            lemma_less_total(a, b, i + 1);
        }
    } else if i == a.len() && i == b.len() {
        assert(a =~= a.take(i));
        assert(b =~= b.take(i));
    }
}

/// The order of keys is total and strict.
pub proof fn keys_are_ordered(a: Seq<char>, b: Seq<char>, c: Seq<char>)
    ensures
        !less(a, a),
        less(a, b) && less(b, c) ==> less(a, c),
        less(a, b) || less(b, a) || a == b,
        !(less(a, b) && less(b, a)),
{
    lemma_less_irreflexive(a, 0);
    if less(a, b) && less(b, c) {
        lemma_less_transitive(a, b, c, 0);
    }
    assert(a.take(0) =~= b.take(0));
    lemma_less_total(a, b, 0);
    if less(a, b) && less(b, a) {
        lemma_less_transitive(a, b, a, 0);
    }
}

pub fn is_less(a: &str, b: &str) -> (r: bool)
    ensures
        r == less(a@, b@),
{
    let x = chars_of(a);
    let y = chars_of(b);
    let mut i: usize = 0;
    while i < x.len() && i < y.len()
        invariant
            i <= x@.len(),
            i <= y@.len(),
            x@ == a@,
            y@ == b@,
            less(a@, b@) == less_from(a@, b@, i as int),
        decreases x@.len() - i,
    {
        if x[i] != y[i] {
            return x[i] < y[i];
        }
        i += 1;
    }
    i < y.len()
}

pub open spec fn sorted<V>(pairs: Seq<(Seq<char>, V)>) -> bool {
    forall|i: int, j: int|
        0 <= i < j < pairs.len() ==> less((#[trigger] pairs[i]).0, (#[trigger] pairs[j]).0)
}

pub open spec fn has_key<V>(pairs: Seq<(Seq<char>, V)>, key: Seq<char>) -> bool {
    exists|i: int| 0 <= i < pairs.len() && (#[trigger] pairs[i]).0 == key
}

/// The map that a sequence of pairs spells.
pub open spec fn map_of<V>(pairs: Seq<(Seq<char>, V)>) -> Map<Seq<char>, V> {
    Map::new(
        |key: Seq<char>| has_key(pairs, key),
        |key: Seq<char>|
            {
                let i = choose|i: int| 0 <= i < pairs.len() && (#[trigger] pairs[i]).0 == key;
                pairs[i].1
            },
    )
}

pub proof fn lemma_map_at<V>(pairs: Seq<(Seq<char>, V)>, i: int)
    requires
        sorted(pairs),
        0 <= i < pairs.len(),
    ensures
        map_of(pairs).contains_key(pairs[i].0),
        map_of(pairs)[pairs[i].0] == pairs[i].1,
{
    let key = pairs[i].0;
    assert(has_key(pairs, key));
    let k = choose|k: int| 0 <= k < pairs.len() && (#[trigger] pairs[k]).0 == key;
    keys_are_ordered(key, key, key);
    if k < i {
        assert(less(pairs[k].0, pairs[i].0));
    } else if i < k {
        assert(less(pairs[i].0, pairs[k].0));
    }
}

pub struct Table<V> {
    entries: Vec<(String, V)>,
}

impl<V> Table<V> {
    /// The entries, in the order of their keys.
    pub closed spec fn pairs(&self) -> Seq<(Seq<char>, V)> {
        self.entries@.map_values(|e: (String, V)| (e.0@, e.1))
    }

    #[verifier::type_invariant]
    spec fn ordered(&self) -> bool {
        sorted(self.pairs())
    }
}

impl<V> View for Table<V> {
    type V = Map<Seq<char>, V>;

    open spec fn view(&self) -> Map<Seq<char>, V> {
        map_of(self.pairs())
    }
}

impl<V> Table<V> {
    pub fn new() -> (r: Table<V>)
        ensures
            r.pairs() == Seq::<(Seq<char>, V)>::empty(),
            r@ == Map::<Seq<char>, V>::empty(),
    {
        let r = Table { entries: Vec::new() };
        assert(r.pairs() =~= Seq::<(Seq<char>, V)>::empty());
        assert(r@ =~= Map::<Seq<char>, V>::empty());
        r
    }

    pub fn len(&self) -> (r: usize)
        ensures
            r == self.pairs().len(),
    {
        self.entries.len()
    }

    /// The entry at `i`, in the order of keys.
    pub fn entry(&self, i: usize) -> (r: (&String, &V))
        requires
            i < self.pairs().len(),
        ensures
            r.0@ == self.pairs()[i as int].0,
            *r.1 == self.pairs()[i as int].1,
            sorted(self.pairs()),
            self@.contains_key(r.0@),
            self@[r.0@] == *r.1,
    {
        proof {
            use_type_invariant(self);
            lemma_map_at(self.pairs(), i as int);
        }
        (&self.entries[i].0, &self.entries[i].1)
    }

    /// The first index whose key does not stand before `key`.
    fn position(&self, key: &str) -> (r: usize)
        ensures
            r <= self.entries@.len(),
            forall|i: int| 0 <= i < r ==> less((#[trigger] self.pairs()[i]).0, key@),
            r < self.entries@.len() ==> !less(self.pairs()[r as int].0, key@),
    {
        let mut i: usize = 0;
        while i < self.entries.len() && is_less(self.entries[i].0.as_str(), key)
            invariant
                i <= self.entries@.len(),
                forall|k: int| 0 <= k < i ==> less((#[trigger] self.pairs()[k]).0, key@),
            ensures
                i <= self.entries@.len(),
                forall|k: int| 0 <= k < i ==> less((#[trigger] self.pairs()[k]).0, key@),
                i < self.entries@.len() ==> !less(self.pairs()[i as int].0, key@),
            decreases self.entries@.len() - i,
        {
            i += 1;
        }
        i
    }

    pub fn get(&self, key: &str) -> (r: Option<&V>)
        ensures
            match r {
                Some(v) => self@.contains_key(key@) && self@[key@] == *v,
                None => !self@.contains_key(key@),
            },
    {
        let p: usize = self.position(key);
        proof {
            use_type_invariant(self);
        }
        let ghost pairs = self.pairs();
        if p < self.entries.len() {
            let here = &self.entries[p].0;
            assert(here@ == pairs[p as int].0);
            if *here == key.to_owned() {
                proof {
                    lemma_map_at(pairs, p as int);
                }
                return Some(&self.entries[p].1);
            }
        }
        proof {
            if has_key(pairs, key@) {
                let i = choose|i: int| 0 <= i < pairs.len() && (#[trigger] pairs[i]).0 == key@;
                keys_are_ordered(key@, key@, key@);
                if i < p {
                    assert(less(pairs[i].0, key@));
                } else if i > p {
                    assert(less(pairs[p as int].0, pairs[i].0));
                }
            }
        }
        None
    }

    pub fn has(&self, key: &str) -> (r: bool)
        ensures
            r == self@.contains_key(key@),
    {
        match self.get(key) {
            Some(_) => true,
            None => false,
        }
    }

    /// Puts `value` under `key`, in place of what was there.
    pub fn insert(&mut self, key: String, value: V)
        ensures
            final(self)@ == old(self)@.insert(key@, value),
            sorted(final(self).pairs()),
    {
        let p: usize = self.position(key.as_str());
        proof {
            use_type_invariant(&*self);
        }
        let ghost before = self.pairs();
        let ghost k = key@;
        let mut entries: Vec<(String, V)> = Vec::new();
        std::mem::swap(&mut entries, &mut self.entries);
        let ghost here = p < entries@.len() && entries@[p as int].0@ == k;
        assert(forall|i: int| 0 <= i < before.len() ==> #[trigger] before[i] == (
            entries@[i].0@,
            entries@[i].1,
        ));
        if p < entries.len() && entries[p].0 == key {
            entries.set(p, (key, value));
        } else {
            entries.insert(p, (key, value));
        }
        let ghost after = entries@.map_values(|e: (String, V)| (e.0@, e.1));
        proof {
            assert(after[p as int] == (k, value));
            assert forall|i: int, j: int| 0 <= i < j < after.len() implies less(
                (#[trigger] after[i]).0,
                (#[trigger] after[j]).0,
            ) by {
                let step: int = if here {
                    0
                } else {
                    1
                };
                let i0 = if i <= p {
                    i
                } else {
                    i - step
                };
                let j0 = if j <= p {
                    j
                } else {
                    j - step
                };
                if i != p {
                    assert(after[i] == before[i0]);
                }
                if j != p {
                    assert(after[j] == before[j0]);
                }
                if i != p && j != p {
                    assert(less(before[i0].0, before[j0].0));
                } else if j == p {
                    assert(less(before[i].0, k));
                } else {
                    if here {
                        assert(less(before[p as int].0, before[j0].0));
                    } else {
                        keys_are_ordered(before[p as int].0, k, k);
                        if j0 > p {
                            assert(less(before[p as int].0, before[j0].0));
                            keys_are_ordered(k, before[p as int].0, before[j0].0);
                        }
                    }
                }
            }
            assert(sorted(after));
            assert forall|x: Seq<char>| #[trigger]
                has_key(after, x) == (has_key(before, x) || x == k) by {
                if has_key(after, x) {
                    let i = choose|i: int| 0 <= i < after.len() && (#[trigger] after[i]).0 == x;
                    if i != p {
                        let i0 = if i < p || here {
                            i
                        } else {
                            i - 1
                        };
                        assert(after[i] == before[i0]);
                    }
                }
                if has_key(before, x) {
                    let i = choose|i: int| 0 <= i < before.len() && (#[trigger] before[i]).0 == x;
                    let i1 = if i < p || here {
                        i
                    } else {
                        i + 1
                    };
                    if i1 != p {
                        assert(after[i1] == before[i]);
                    } else {
                        assert(after[p as int].0 == x);
                    }
                }
                if x == k {
                    assert(after[p as int].0 == x);
                }
            }
            assert forall|x: Seq<char>| #[trigger] map_of(after).contains_key(x) implies map_of(
                after,
            )[x] == map_of(before).insert(k, value)[x] by {
                let i = choose|i: int| 0 <= i < after.len() && (#[trigger] after[i]).0 == x;
                assert(has_key(after, x));
                lemma_map_at(after, i);
                if i == p {
                } else {
                    let i0 = if i < p || here {
                        i
                    } else {
                        i - 1
                    };
                    assert(after[i] == before[i0]);
                    lemma_map_at(before, i0);
                    keys_are_ordered(x, x, x);
                    if i < p {
                        assert(less(after[i].0, after[p as int].0));
                    } else {
                        assert(less(after[p as int].0, after[i].0));
                    }
                }
            }
            assert(map_of(after) =~= map_of(before).insert(k, value));
        }
        *self = Table { entries };
    }

    /// Takes the entry under `key` out.
    pub fn remove(&mut self, key: &str) -> (r: Option<V>)
        ensures
            final(self)@ == old(self)@.remove(key@),
            sorted(final(self).pairs()),
            match r {
                Some(v) => old(self)@.contains_key(key@) && old(self)@[key@] == v,
                None => !old(self)@.contains_key(key@),
            },
    {
        let p: usize = self.position(key);
        proof {
            use_type_invariant(&*self);
        }
        let ghost before = self.pairs();
        let ghost k = key@;
        let mut entries: Vec<(String, V)> = Vec::new();
        std::mem::swap(&mut entries, &mut self.entries);
        assert(forall|i: int| 0 <= i < before.len() ==> #[trigger] before[i] == (
            entries@[i].0@,
            entries@[i].1,
        ));
        let here: bool = p < entries.len() && entries[p].0 == key.to_owned();
        let taken = if here {
            let pair = entries.remove(p);
            proof {
                lemma_map_at(before, p as int);
            }
            Some(pair.1)
        } else {
            None
        };
        let ghost after = entries@.map_values(|e: (String, V)| (e.0@, e.1));
        proof {
            let step: int = if here {
                1
            } else {
                0
            };
            assert forall|i: int| 0 <= i < after.len() implies #[trigger] after[i] == before[if i
                < p {
                i
            } else {
                i + step
            }] by {}
            assert forall|i: int, j: int| 0 <= i < j < after.len() implies less(
                (#[trigger] after[i]).0,
                (#[trigger] after[j]).0,
            ) by {
                let i0 = if i < p {
                    i
                } else {
                    i + step
                };
                let j0 = if j < p {
                    j
                } else {
                    j + step
                };
                assert(less(before[i0].0, before[j0].0));
            }
            assert forall|x: Seq<char>| #[trigger]
                has_key(after, x) == (has_key(before, x) && x != k) by {
                keys_are_ordered(k, k, k);
                if has_key(after, x) {
                    let i = choose|i: int| 0 <= i < after.len() && (#[trigger] after[i]).0 == x;
                    let i0 = if i < p {
                        i
                    } else {
                        i + step
                    };
                    assert(after[i] == before[i0]);
                    if i0 < p {
                        assert(less(before[i0].0, k));
                    } else if i0 > p {
                        assert(less(before[p as int].0, before[i0].0));
                        keys_are_ordered(k, before[p as int].0, before[i0].0);
                    }
                }
                if has_key(before, x) && x != k {
                    let i = choose|i: int| 0 <= i < before.len() && (#[trigger] before[i]).0 == x;
                    let i1 = if i < p {
                        i
                    } else {
                        i - step
                    };
                    assert(after[i1] == before[i]);
                }
            }
            assert forall|x: Seq<char>| #[trigger] map_of(after).contains_key(x) implies map_of(
                after,
            )[x] == map_of(before).remove(k)[x] by {
                assert(has_key(after, x));
                let i = choose|i: int| 0 <= i < after.len() && (#[trigger] after[i]).0 == x;
                lemma_map_at(after, i);
                let i0 = if i < p {
                    i
                } else {
                    i + step
                };
                assert(after[i] == before[i0]);
                lemma_map_at(before, i0);
            }
            assert(map_of(after) =~= map_of(before).remove(k));
            if !here {
                assert(!has_key(before, k)) by {
                    if has_key(before, k) {
                        let i = choose|i: int|
                            0 <= i < before.len() && (#[trigger] before[i]).0 == k;
                        keys_are_ordered(k, k, k);
                        if i < p {
                            assert(less(before[i].0, k));
                        } else if i > p {
                            assert(less(before[p as int].0, before[i].0));
                        }
                    }
                }
            }
        }
        *self = Table { entries };
        taken
    }

    /// The keys, in order.
    pub fn keys(&self) -> (r: Vec<String>)
        ensures
            r@.len() == self.pairs().len(),
            forall|i: int| 0 <= i < r@.len() ==> (#[trigger] r@[i])@ == self.pairs()[i].0,
            sorted(self.pairs()),
    {
        proof {
            use_type_invariant(self);
        }
        let mut r: Vec<String> = Vec::new();
        let mut i: usize = 0;
        while i < self.entries.len()
            invariant
                i <= self.entries@.len(),
                r@.len() == i,
                forall|k: int| 0 <= k < i ==> (#[trigger] r@[k])@ == self.pairs()[k].0,
            decreases self.entries@.len() - i,
        {
            r.push(self.entries[i].0.clone());
            i += 1;
        }
        r
    }

    /// The entries themselves, in the order of their keys.
    pub fn into_entries(self) -> (r: Vec<(String, V)>)
        ensures
            r@.map_values(|e: (String, V)| (e.0@, e.1)) == self.pairs(),
            sorted(self.pairs()),
    {
        proof {
            use_type_invariant(&self);
        }
        self.entries
    }
}

} // verus!
