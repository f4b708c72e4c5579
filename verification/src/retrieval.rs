//! Searching memory on two legs: by keyword and by meaning.
//!
//! How near a meaning is, and what a place in a list is worth, is reckoned by
//! the caller. Here a score is a whole number that orders as it does.

use vstd::prelude::*;

verus! {

/// How many more are looked for by meaning than are wanted in the end.
pub fn semantic_width(top_k: u32) -> (r: u64)
    ensures
        r == 2 * top_k,
{
    top_k as u64 * 2
}

// ---- the best first --------------------------------------------------------

/// A score, and the number that decides between equal ones.
pub type Scored = (i32, i128);

/// The higher score comes first; of equal ones, the lower number.
pub open spec fn ahead(a: Scored, b: Scored) -> bool {
    a.0 > b.0 || (a.0 == b.0 && a.1 < b.1)
}

/// Whether place `i` comes before place `j`: equals keep their order.
pub open spec fn goes_before(all: Seq<Scored>, i: int, j: int) -> bool {
    ahead(all[i], all[j]) || (all[i] == all[j] && i < j)
}

/// Places of `all`, each once, the best first.
pub open spec fn is_ranking(all: Seq<Scored>, places: Seq<usize>) -> bool {
    &&& forall|i: int| 0 <= i < places.len() ==> 0 <= #[trigger] places[i] < all.len()
    &&& forall|i: int, j: int|
        0 <= i < j < places.len() ==> goes_before(
            all,
            #[trigger] places[i] as int,
            #[trigger] places[j] as int,
        )
}

/// Two rankings of the same places are the same ranking: a search gives the same
/// order every time.
pub proof fn a_ranking_is_the_only_one(all: Seq<Scored>, a: Seq<usize>, b: Seq<usize>)
    requires
        is_ranking(all, a),
        is_ranking(all, b),
        forall|p: usize| a.contains(p) == b.contains(p),
    ensures
        a == b,
    decreases a.len(),
{
    if a.len() == 0 {
        if b.len() > 0 {
            assert(b.contains(b[0]));
            assert(a.contains(b[0]));
        }
        assert(a =~= b);
    } else {
        assert(a.contains(a[0]));
        assert(b.contains(a[0]));
        let i = choose|i: int| 0 <= i < b.len() && b[i] == a[0];
        assert(b.contains(b[0]));
        assert(a.contains(b[0]));
        let j = choose|j: int| 0 <= j < a.len() && a[j] == b[0];
        if i > 0 {
            assert(goes_before(all, b[0] as int, b[i] as int));
            if j > 0 {
                assert(goes_before(all, a[0] as int, a[j] as int));
            }
        }
        assert(a[0] == b[0]);
        let x = a.skip(1);
        let y = b.skip(1);
        assert forall|p: usize| x.contains(p) == y.contains(p) by {
            lemma_rest(all, a, p);
            lemma_rest(all, b, p);
            assert(a.contains(p) == b.contains(p));
        }
        assert(is_ranking(all, x)) by {
            lemma_rest_ranked(all, a);
        }
        assert(is_ranking(all, y)) by {
            lemma_rest_ranked(all, b);
        }
        a_ranking_is_the_only_one(all, x, y);
        assert(a =~= seq![a[0]] + x);
        assert(b =~= seq![b[0]] + y);
    }
}

proof fn lemma_rest(all: Seq<Scored>, a: Seq<usize>, p: usize)
    requires
        is_ranking(all, a),
        a.len() > 0,
    ensures
        a.skip(1).contains(p) == (a.contains(p) && p != a[0]),
{
    let x = a.skip(1);
    if x.contains(p) {
        let i = choose|i: int| 0 <= i < x.len() && x[i] == p;
        assert(a[i + 1] == p);
        assert(goes_before(all, a[0] as int, a[i + 1] as int));
    }
    if a.contains(p) && p != a[0] {
        let i = choose|i: int| 0 <= i < a.len() && a[i] == p;
        assert(x[i - 1] == p);
    }
}

proof fn lemma_rest_ranked(all: Seq<Scored>, a: Seq<usize>)
    requires
        is_ranking(all, a),
        a.len() > 0,
    ensures
        is_ranking(all, a.skip(1)),
{
    let x = a.skip(1);
    assert forall|i: int| 0 <= i < x.len() implies 0 <= #[trigger] x[i] < all.len() by {
        assert(x[i] == a[i + 1]);
    }
    assert forall|i: int, j: int| 0 <= i < j < x.len() implies goes_before(
        all,
        #[trigger] x[i] as int,
        #[trigger] x[j] as int,
    ) by {
        assert(x[i] == a[i + 1] && x[j] == a[j + 1]);
    }
}

fn is_ahead(all: &Vec<Scored>, i: usize, j: usize) -> (r: bool)
    requires
        i < all@.len(),
        j < all@.len(),
    ensures
        r == goes_before(all@, i as int, j as int),
{
    let a = all[i];
    let b = all[j];
    a.0 > b.0 || (a.0 == b.0 && a.1 < b.1) || (a.0 == b.0 && a.1 == b.1 && i < j)
}

/// Puts a place into a ranking that does not hold it.
fn put_in(all: &Vec<Scored>, ranking: &mut Vec<usize>, place: usize)
    requires
        place < all@.len(),
        is_ranking(all@, old(ranking)@),
        !old(ranking)@.contains(place),
    ensures
        is_ranking(all@, final(ranking)@),
        final(ranking)@.len() == old(ranking)@.len() + 1,
        forall|p: usize| final(ranking)@.contains(p) == (old(ranking)@.contains(p) || p == place),
{
    let ghost before = ranking@;
    let mut at: usize = 0;
    while at < ranking.len() && is_ahead(all, ranking[at], place)
        invariant
            at <= ranking@.len(),
            ranking@ == before,
            place < all@.len(),
            is_ranking(all@, before),
            forall|i: int| 0 <= i < at ==> goes_before(
                all@,
                #[trigger] before[i] as int,
                place as int,
            ),
        decreases ranking@.len() - at,
    {
        at += 1;
    }
    ranking.insert(at, place);
    proof {
        let now = ranking@;
        assert(now =~= before.insert(at as int, place));
        assert forall|i: int| at <= i < before.len() implies goes_before(
            all@,
            place as int,
            #[trigger] before[i] as int,
        ) by {
            assert(before.contains(before[at as int]));
            assert(before[at as int] != place);
            if i > at {
                assert(goes_before(all@, before[at as int] as int, before[i] as int));
            }
        }
        assert forall|i: int, j: int| 0 <= i < j < now.len() implies goes_before(
            all@,
            #[trigger] now[i] as int,
            #[trigger] now[j] as int,
        ) by {
            if j < at {
                assert(now[i] == before[i] && now[j] == before[j]);
            } else if j == at {
                assert(now[i] == before[i]);
            } else if i < at {
                assert(now[i] == before[i] && now[j] == before[j - 1]);
            } else if i == at {
                assert(now[j] == before[j - 1]);
            } else {
                assert(now[i] == before[i - 1] && now[j] == before[j - 1]);
            }
        }
        assert forall|p: usize| now.contains(p) == (before.contains(p) || p == place) by {
            if now.contains(p) {
                let k = choose|k: int| 0 <= k < now.len() && now[k] == p;
                if k < at {
                    assert(before[k] == p);
                } else if k > at {
                    assert(before[k - 1] == p);
                }
            }
            if before.contains(p) {
                let k = choose|k: int| 0 <= k < before.len() && before[k] == p;
                if k < at {
                    assert(now[k] == p);
                } else {
                    assert(now[k + 1] == p);
                }
            }
            if p == place {
                assert(now[at as int] == p);
            }
        }
    }
}

/// `places` are those of `all` that reach `least`, the best first.
pub open spec fn ranks_all(all: Seq<Scored>, least: i32, places: Seq<usize>) -> bool {
    &&& is_ranking(all, places)
    &&& forall|p: usize|
        #[trigger] places.contains(p) == (p < all.len() && all[p as int].0 >= least)
}

fn rank_all(all: &Vec<Scored>, least: i32) -> (r: Vec<usize>)
    ensures
        ranks_all(all@, least, r@),
{
    let mut r: Vec<usize> = Vec::new();
    let mut i: usize = 0;
    while i < all.len()
        invariant
            i <= all@.len(),
            is_ranking(all@, r@),
            forall|p: usize| #[trigger]
                r@.contains(p) == (p < i && all@[p as int].0 >= least),
        decreases all@.len() - i,
    {
        if all[i].0 >= least {
            put_in(all, &mut r, i);
        }
        i += 1;
    }
    r
}

/// The facts that are near enough, the nearest first, and no more than `top_k`.
/// Each comes with its id, which decides between equally near ones.
pub fn nearest(all: &Vec<Scored>, least: i32, top_k: u64) -> (r: Vec<usize>)
    ensures
        exists|whole: Seq<usize>| #[trigger]
            ranks_all(all@, least, whole) && r@ == whole.take(
                if whole.len() <= top_k {
                    whole.len() as int
                } else {
                    top_k as int
                },
            ),
{
    let mut r = rank_all(all, least);
    let ghost whole = r@;
    if r.len() as u64 > top_k {
        r.truncate(top_k as usize);
    } else {
        assert(whole.take(whole.len() as int) =~= whole);
    }
    assert(ranks_all(all@, least, whole));
    r
}

// ---- both legs -------------------------------------------------------------

/// Where a fact stands in the two lists.
#[derive(Debug, Clone, PartialEq, Eq)]
pub struct Standing {
    pub id: i64,
    /// Where it first comes when the second list follows on the first.
    pub first: usize,
    /// Its places, those in the first list before those in the second.
    pub ranks: Vec<usize>,
}

/// The places below `k` that hold `id`.
pub open spec fn places_of(list: Seq<i64>, id: i64, k: int) -> Seq<usize>
    decreases k,
{
    if k <= 0 {
        Seq::empty()
    } else if list[k - 1] == id {
        places_of(list, id, k - 1).push((k - 1) as usize)
    } else {
        places_of(list, id, k - 1)
    }
}

fn push_places(list: &Vec<i64>, id: i64, out: &mut Vec<usize>)
    ensures
        final(out)@ == old(out)@ + places_of(list@, id, list@.len() as int),
{
    let ghost before = out@;
    let mut i: usize = 0;
    assert(before + places_of(list@, id, 0) =~= before);
    while i < list.len()
        invariant
            i <= list@.len(),
            out@ == before + places_of(list@, id, i as int),
        decreases list@.len() - i,
    {
        if list[i] == id {
            out.push(i);
            assert(out@ =~= before + places_of(list@, id, i + 1));
        }
        i += 1;
    }
}

pub open spec fn stands(s: Standing, keyword: Seq<i64>, semantic: Seq<i64>) -> bool {
    let both = keyword + semantic;
    &&& s.first < both.len()
    &&& both[s.first as int] == s.id
    &&& forall|i: int| 0 <= i < s.first ==> #[trigger] both[i] != s.id
    &&& s.ranks@ == places_of(keyword, s.id, keyword.len() as int) + places_of(
        semantic,
        s.id,
        semantic.len() as int,
    )
}

pub open spec fn standing_ids(all: Seq<Standing>) -> Seq<i64> {
    all.map_values(|s: Standing| s.id)
}

/// The different numbers among the first `k`, as they first come.
pub open spec fn firsts(list: Seq<i64>, k: int) -> Seq<i64>
    decreases k,
{
    if k <= 0 {
        Seq::empty()
    } else {
        let before = firsts(list, k - 1);
        if before.contains(list[k - 1]) {
            before
        } else {
            before.push(list[k - 1])
        }
    }
}

fn holds_id(all: &Vec<Standing>, id: i64) -> (r: bool)
    ensures
        r == standing_ids(all@).contains(id),
{
    let mut i: usize = 0;
    while i < all.len()
        invariant
            i <= all@.len(),
            forall|k: int| 0 <= k < i ==> (#[trigger] all@[k]).id != id,
        decreases all@.len() - i,
    {
        if all[i].id == id {
            assert(standing_ids(all@)[i as int] == id);
            return true;
        }
        i += 1;
    }
    assert forall|k: int| 0 <= k < standing_ids(all@).len() implies standing_ids(all@)[k] != id by {
        assert(all@[k].id != id);
    }
    false
}

/// `all` is every fact of the two lists, once, with all the places where it
/// stands.
pub open spec fn are_standings(all: Seq<Standing>, keyword: Seq<i64>, semantic: Seq<i64>) -> bool {
    let both = keyword + semantic;
    &&& standing_ids(all) == firsts(both, both.len() as int)
    &&& forall|i: int| 0 <= i < all.len() ==> stands(#[trigger] all[i], keyword, semantic)
}

/// Every fact that either leg found, once, with all the places where it stands.
pub fn standings(keyword: &Vec<i64>, semantic: &Vec<i64>) -> (r: Vec<Standing>)
    requires
        keyword@.len() + semantic@.len() <= usize::MAX,
    ensures
        are_standings(r@, keyword@, semantic@),
{
    let ghost both = keyword@ + semantic@;
    let n: usize = keyword.len() + semantic.len();
    let mut r: Vec<Standing> = Vec::new();
    let mut i: usize = 0;
    assert(standing_ids(r@) =~= Seq::<i64>::empty());
    while i < n
        invariant
            i <= n,
            n == both.len(),
            both == keyword@ + semantic@,
            standing_ids(r@) == firsts(both, i as int),
            forall|k: int| 0 <= k < r@.len() ==> stands(#[trigger] r@[k], keyword@, semantic@),
        decreases n - i,
    {
        let id: i64 = if i < keyword.len() {
            keyword[i]
        } else {
            semantic[i - keyword.len()]
        };
        assert(id == both[i as int]);
        if !holds_id(&r, id) {
            let ghost before = standing_ids(r@);
            let mut ranks: Vec<usize> = Vec::new();
            push_places(keyword, id, &mut ranks);
            push_places(semantic, id, &mut ranks);
            let next = Standing { id, first: i, ranks };
            proof {
                each_fact_stands_once(both, i as int);
                assert forall|k: int| 0 <= k < i implies #[trigger] both[k] != id by {
                    assert(before.contains(both[k]));
                }
            }
            assert(next.ranks@ =~= places_of(keyword@, id, keyword@.len() as int) + places_of(
                semantic@,
                id,
                semantic@.len() as int,
            ));
            r.push(next);
            assert(standing_ids(r@) =~= before.push(id));
        }
        i += 1;
    }
    r
}

/// No fact stands in the result twice, and none is left out that a leg found.
pub proof fn each_fact_stands_once(list: Seq<i64>, k: int)
    requires
        0 <= k <= list.len(),
    ensures
        firsts(list, k).no_duplicates(),
        forall|i: int| 0 <= i < k ==> firsts(list, k).contains(#[trigger] list[i]),
    decreases k,
{
    if k > 0 {
        each_fact_stands_once(list, k - 1);
        let before = firsts(list, k - 1);
        let now = firsts(list, k);
        assert forall|i: int| 0 <= i < k implies now.contains(#[trigger] list[i]) by {
            if i < k - 1 {
                assert(before.contains(list[i]));
                let j = choose|j: int| 0 <= j < before.len() && before[j] == list[i];
                assert(now[j] == list[i]);
            } else if !before.contains(list[k - 1]) {
                assert(now[before.len() as int] == list[k - 1]);
            }
        }
    }
}

/// What each fact is worth; between equals, the one decides that comes first.
pub open spec fn scored(all: Seq<Standing>, scores: Seq<i32>) -> Seq<Scored> {
    Seq::new(all.len(), |i: int| (scores[i], all[i].first as i128))
}

/// Where the facts at `places` of `all` first come.
pub open spec fn first_places(all: Seq<Standing>, places: Seq<usize>) -> Seq<usize> {
    places.map_values(|p: usize| all[p as int].first)
}

/// Everything that either leg found, the best first: the higher score, and of
/// equal scores the one that came first, so that the keywords' leg goes before
/// the other. `scores` says what each standing is worth.
pub fn rrf_fuse(all: &Vec<Standing>, scores: &Vec<i32>) -> (r: Vec<usize>)
    requires
        all@.len() == scores@.len(),
    ensures
        exists|whole: Seq<usize>| #[trigger]
            ranks_all(scored(all@, scores@), i32::MIN, whole) && r@ == first_places(all@, whole),
{
    let mut pairs: Vec<Scored> = Vec::new();
    let mut i: usize = 0;
    while i < all.len()
        invariant
            i <= all@.len(),
            all@.len() == scores@.len(),
            pairs@ == scored(all@, scores@).take(i as int),
        decreases all@.len() - i,
    {
        pairs.push((scores[i], all[i].first as i128));
        assert(pairs@ =~= scored(all@, scores@).take(i + 1));
        i += 1;
    }
    assert(pairs@ =~= scored(all@, scores@));
    let places = rank_all(&pairs, i32::MIN);
    let mut r: Vec<usize> = Vec::new();
    let mut k: usize = 0;
    while k < places.len()
        invariant
            k <= places@.len(),
            r@ == first_places(all@, places@).take(k as int),
            is_ranking(scored(all@, scores@), places@),
        decreases places@.len() - k,
    {
        assert(places@[k as int] < all@.len());
        r.push(all[places[k]].first);
        assert(r@ =~= first_places(all@, places@).take(k + 1));
        k += 1;
    }
    assert(r@ =~= first_places(all@, places@));
    assert(ranks_all(scored(all@, scores@), i32::MIN, places@));
    r
}

/// Of two facts that are worth the same, the one that comes first in the
/// keywords' list goes before one that only the other leg found.
pub proof fn keywords_win_a_tie(
    all: Seq<Standing>,
    scores: Seq<i32>,
    keyword: Seq<i64>,
    semantic: Seq<i64>,
    i: int,
    j: int,
)
    requires
        are_standings(all, keyword, semantic),
        scores.len() == all.len(),
        0 <= i < all.len(),
        0 <= j < all.len(),
        scores[i] == scores[j],
        keyword.contains(all[i].id),
        !keyword.contains(all[j].id),
    ensures
        goes_before(scored(all, scores), i, j),
{
    let both = keyword + semantic;
    assert(stands(all[i], keyword, semantic));
    assert(stands(all[j], keyword, semantic));
    let k = choose|k: int| 0 <= k < keyword.len() && keyword[k] == all[i].id;
    assert(both[k] == all[i].id);
    if all[j].first < keyword.len() {
        assert(keyword[all[j].first as int] == both[all[j].first as int]);
    }
}

/// What the search by meaning came to.
#[derive(Debug, Clone, PartialEq, Eq)]
pub enum Semantic {
    /// It was not asked.
    Off,
    Failed(String),
    Found(Vec<i64>),
}

/// Whether the keywords' result is to be fused with the other leg's. Where that
/// one is off, failed or found nothing, the keywords stand alone.
pub fn fuses(semantic: &Semantic) -> (r: bool)
    ensures
        r == (semantic matches Semantic::Found(ids) && ids@.len() > 0),
{
    match semantic {
        Semantic::Off => false,
        Semantic::Failed(_) => false,
        Semantic::Found(ids) => ids.len() > 0,
    }
}

/// The first numbers, in order.
pub open spec fn upto(n: nat) -> Seq<usize> {
    Seq::new(n, |i: int| i as usize)
}

pub open spec fn cut(places: Seq<usize>, top_k: u32) -> Seq<usize> {
    if places.len() <= top_k {
        places
    } else {
        places.take(top_k as int)
    }
}

/// Where the other leg found facts, `all` is what [`standings`] gives of the two
/// lists.
pub open spec fn stands_for(all: Seq<Standing>, keyword: Seq<i64>, semantic: Semantic) -> bool {
    match semantic {
        Semantic::Found(ids) => ids@.len() > 0 ==> are_standings(all, keyword, ids@),
        _ => true,
    }
}

/// The result of a search, as places in the keywords' list followed by the other
/// leg's. Where the legs are not fused, it is the keywords' list as it is.
pub fn search_hybrid(
    keyword: &Vec<i64>,
    semantic: &Semantic,
    all: &Vec<Standing>,
    scores: &Vec<i32>,
    top_k: u32,
) -> (r: Vec<usize>)
    requires
        all@.len() == scores@.len(),
        stands_for(all@, keyword@, *semantic),
    ensures
        if semantic matches Semantic::Found(ids) && ids@.len() > 0 {
            exists|whole: Seq<usize>| #[trigger]
                ranks_all(scored(all@, scores@), i32::MIN, whole) && r@ == cut(
                    first_places(all@, whole),
                    top_k,
                )
        } else {
            r@ == upto(keyword@.len())
        },
{
    if fuses(semantic) {
        let mut r = rrf_fuse(all, scores);
        if r.len() as u64 > top_k as u64 {
            r.truncate(top_k as usize);
        }
        return r;
    }
    let mut r: Vec<usize> = Vec::new();
    let mut i: usize = 0;
    while i < keyword.len()
        invariant
            i <= keyword@.len(),
            r@ == upto(i as nat),
        decreases keyword@.len() - i,
    {
        r.push(i);
        i += 1;
        assert(r@ =~= upto(i as nat));
    }
    r
}

// ---- what a search promises ------------------------------------------------

/// In a ranking no score is below one that comes later, and of equal scores none
/// has a greater number than one that comes later.
pub proof fn the_better_comes_first(all: Seq<Scored>, places: Seq<usize>, i: int, j: int)
    requires
        is_ranking(all, places),
        0 <= i < j < places.len(),
    ensures
        places[i] != places[j],
        all[places[i] as int].0 >= all[places[j] as int].0,
        all[places[i] as int].0 == all[places[j] as int].0 ==> all[places[i] as int].1
            <= all[places[j] as int].1,
        all[places[i] as int] == all[places[j] as int] ==> places[i] < places[j],
{
    assert(goes_before(all, places[i] as int, places[j] as int));
}

/// What is near enough is found, and what is not is left out.
pub proof fn near_enough_is_found(all: Seq<Scored>, least: i32, places: Seq<usize>, p: usize)
    requires
        ranks_all(all, least, places),
        p < all.len(),
    ensures
        all[p as int].0 >= least ==> places.contains(p),
        all[p as int].0 < least ==> !places.contains(p),
{
}

/// The places of a fact in a list are exactly those that hold it, in their order.
pub proof fn places_are_where_a_fact_stands(list: Seq<i64>, id: i64, k: int, p: int)
    requires
        0 <= p < k <= list.len() <= usize::MAX,
    ensures
        places_of(list, id, k).contains(p as usize) <==> list[p] == id,
        forall|i: int, j: int|
            0 <= i < j < places_of(list, id, k).len() ==> #[trigger] places_of(list, id, k)[i]
                < #[trigger] places_of(list, id, k)[j],
    decreases k,
{
    lemma_places(list, id, k);
    if list[p] == id {
        lemma_place_held(list, id, k, p);
    } else if places_of(list, id, k).contains(p as usize) {
        let i = choose|i: int|
            0 <= i < places_of(list, id, k).len() && places_of(list, id, k)[i] == p as usize;
        assert(list[places_of(list, id, k)[i] as int] == id);
    }
}

proof fn lemma_places(list: Seq<i64>, id: i64, k: int)
    requires
        0 <= k <= list.len() <= usize::MAX,
    ensures
        forall|i: int|
            0 <= i < places_of(list, id, k).len() ==> 0 <= #[trigger] places_of(list, id, k)[i] < k
                && list[places_of(list, id, k)[i] as int] == id,
        forall|i: int, j: int|
            0 <= i < j < places_of(list, id, k).len() ==> #[trigger] places_of(list, id, k)[i]
                < #[trigger] places_of(list, id, k)[j],
    decreases k,
{
    if k > 0 {
        lemma_places(list, id, k - 1);
        let before = places_of(list, id, k - 1);
        let now = places_of(list, id, k);
        assert forall|i: int| 0 <= i < now.len() implies 0 <= #[trigger] now[i] < k
            && list[now[i] as int] == id by {
            if i < before.len() {
                assert(now[i] == before[i]);
            }
        }
        assert forall|i: int, j: int| 0 <= i < j < now.len() implies #[trigger] now[i]
            < #[trigger] now[j] by {
            assert(now[i] == before[i]);
            if j < before.len() {
                assert(now[j] == before[j]);
            }
        }
    }
}

proof fn lemma_place_held(list: Seq<i64>, id: i64, k: int, p: int)
    requires
        0 <= p < k <= list.len() <= usize::MAX,
        list[p] == id,
    ensures
        places_of(list, id, k).contains(p as usize),
    decreases k,
{
    let now = places_of(list, id, k);
    if p == k - 1 {
        assert(now[now.len() - 1] == p as usize);
    } else {
        lemma_place_held(list, id, k - 1, p);
        let before = places_of(list, id, k - 1);
        let i = choose|i: int| 0 <= i < before.len() && before[i] == p as usize;
        assert(now[i] == p as usize);
    }
}

/// Of the facts that are listed, each is one of the list, and a longer list only
/// adds to them.
pub proof fn facts_come_as_they_are_found(list: Seq<i64>, k: int, i: int)
    requires
        0 <= k <= list.len(),
        0 <= i < firsts(list, k).len(),
    ensures
        list.take(k).contains(firsts(list, k)[i]),
        k < list.len() ==> firsts(list, k).is_prefix_of(firsts(list, k + 1)),
    decreases k,
{
    let now = firsts(list, k);
    if k > 0 {
        let before = firsts(list, k - 1);
        if i < before.len() {
            facts_come_as_they_are_found(list, k - 1, i);
            assert(now[i] == before[i]);
            let front = list.take(k - 1);
            let j = choose|j: int| 0 <= j < front.len() && front[j] == before[i];
            assert(list.take(k)[j] == before[i]);
        } else {
            assert(list.take(k)[k - 1] == list[k - 1]);
        }
    }
    if k < list.len() {
        assert(firsts(list, k + 1).take(now.len() as int) =~= now);
    }
}

/// A fused search shows every fact, the one that is worth more before the one that
/// is worth less; of two that are worth the same, the one that came first.
pub proof fn a_fused_search_shows_the_best_first(
    all: Seq<Standing>,
    scores: Seq<i32>,
    whole: Seq<usize>,
    i: int,
    j: int,
    p: usize,
)
    requires
        all.len() == scores.len(),
        ranks_all(scored(all, scores), i32::MIN, whole),
        0 <= i < j < whole.len(),
        p < all.len(),
    ensures
        whole.contains(p),
        first_places(all, whole).len() == whole.len(),
        first_places(all, whole)[i] == all[whole[i] as int].first,
        scores[whole[i] as int] >= scores[whole[j] as int],
        scores[whole[i] as int] == scores[whole[j] as int] ==> first_places(all, whole)[i]
            <= first_places(all, whole)[j],
{
    the_better_comes_first(scored(all, scores), whole, i, j);
}

/// No more is shown than was asked for, and no less where there is more; what is
/// shown is the front. Without a second leg the keywords' list is shown as it is.
pub proof fn a_result_is_cut_at_its_end(places: Seq<usize>, top_k: u32, n: nat, i: int)
    requires
        0 <= i < n <= usize::MAX,
    ensures
        cut(places, top_k).is_prefix_of(places),
        places.len() <= top_k ==> cut(places, top_k) == places,
        places.len() > top_k ==> cut(places, top_k).len() == top_k,
        upto(n).len() == n,
        upto(n)[i] == i,
{
    assert(places.take(cut(places, top_k).len() as int) =~= cut(places, top_k));
}

} // verus!
