//! The freshness cache: entries persisted by an earlier run, each stamped
//! with the time it was generated, and the rule that decides whether one may
//! still be used.
use vstd::prelude::*;
use crate::target::{Target, lex_lt};

verus! {

/// How long a cached record stays valid: seven days, in seconds.
pub const CACHE_TTL_SECS: i64 = 604800;

/// A record generated at `generated_at` is still valid at `now`.
pub open spec fn is_fresh_at(generated_at: int, now: int) -> bool {
    generated_at + CACHE_TTL_SECS > now
}

/// Whether a record generated at `generated_at` (seconds since the epoch) is
/// still valid at `now`.
pub fn is_fresh(generated_at: i64, now: i64) -> (r: bool)
    ensures
        r == is_fresh_at(generated_at as int, now as int),
{
    (generated_at as i128) + (CACHE_TTL_SECS as i128) > (now as i128)
}

/// One collected record, keyed by the url of its repository.
pub struct CacheEntry<R> {
    pub url: String,
    pub generated_at: i64,
    pub record: R,
}

/// The index of the first entry keyed by `u`.
pub open spec fn first_index<R>(es: Seq<CacheEntry<R>>, u: Seq<char>) -> Option<int>
    decreases es.len(),
{
    if es.len() == 0 {
        None
    } else {
        match first_index(es.drop_last(), u) {
            Some(k) => Some(k),
            None => if es.last().url@ == u {
                Some(es.len() - 1)
            } else {
                None
            },
        }
    }
}

/// What `first_index` finds is the first entry keyed by `u`; when it finds
/// nothing, no entry is.
pub proof fn lemma_first_index<R>(es: Seq<CacheEntry<R>>, u: Seq<char>)
    ensures
        match first_index(es, u) {
            Some(k) => 0 <= k < es.len() && es[k].url@ == u && forall|q: int|
                0 <= q < k ==> es[q].url@ != u,
            None => forall|q: int| 0 <= q < es.len() ==> es[q].url@ != u,
        },
    decreases es.len(),
{
    if es.len() > 0 {
        let d = es.drop_last();
        lemma_first_index(d, u);
        assert forall|q: int| 0 <= q < d.len() implies d[q] == es[q] by {}
    }
}

/// Finds the first entry keyed by `url`.
pub fn find_entry<R>(es: &Vec<CacheEntry<R>>, url: &str) -> (r: Option<usize>)
    ensures
        match r {
            Some(k) => first_index(es@, url@) == Some(k as int),
            None => first_index(es@, url@).is_none(),
        },
{
    let key = String::from_str(url);
    let mut i: usize = 0;
    while i < es.len()
        invariant
            key@ == url@,
            i <= es@.len(),
            first_index(es@.take(i as int), url@).is_none(),
        decreases es.len() - i,
    {
        proof {
            assert(es@.take(i + 1).drop_last() =~= es@.take(i as int));
            assert(es@.take(i + 1).last() == es@[i as int]);
        }
        if es[i].url == key {
            proof {
                let t = es@.take(i as int);
                lemma_first_index(t, url@);
                lemma_first_index(es@, url@);
                assert(es@[i as int].url@ == url@);
                assert forall|q: int| 0 <= q < i implies es@[q].url@ != url@ by {
                    assert(t[q] == es@[q]);
                }
            }
            return Some(i);
        }
        i = i + 1;
    }
    proof {
        assert(es@.take(es@.len() as int) =~= es@);
    }
    None
}

/// What to do for one target: reuse a cache entry, or fetch it live.
#[derive(Debug, Clone, Copy, PartialEq, Eq, Structural)]
pub enum Decision {
    Reuse(usize),
    Fetch,
}

/// A target is reused from the cache exactly when its entry is still fresh.
pub open spec fn decide<R>(cache: Seq<CacheEntry<R>>, u: Seq<char>, now: int) -> Decision {
    match first_index(cache, u) {
        Some(k) => if is_fresh_at(cache[k].generated_at as int, now) {
            Decision::Reuse(k as usize)
        } else {
            Decision::Fetch
        },
        None => Decision::Fetch,
    }
}

/// Decides, for the target `url`, between the cache and a live fetch.
pub fn decide_target<R>(cache: &Vec<CacheEntry<R>>, url: &str, now: i64) -> (d: Decision)
    ensures
        d == decide(cache@, url@, now as int),
{
    proof {
        lemma_first_index(cache@, url@);
    }
    match find_entry(cache, url) {
        Some(k) => if is_fresh(cache[k].generated_at, now) {
            Decision::Reuse(k)
        } else {
            Decision::Fetch
        },
        None => Decision::Fetch,
    }
}

/// Decides every target, in order.
pub fn plan<R>(targets: &Vec<Target>, cache: &Vec<CacheEntry<R>>, now: i64) -> (ds: Vec<Decision>)
    ensures
        ds@.len() == targets@.len(),
        forall|i: int| 0 <= i < ds@.len() ==> #[trigger] ds@[i] == decide(cache@, targets@[i].url@, now as int),
{
    let mut ds: Vec<Decision> = Vec::new();
    let mut i: usize = 0;
    while i < targets.len()
        invariant
            i <= targets@.len(),
            ds@.len() == i,
            forall|q: int| 0 <= q < i ==> #[trigger] ds@[q] == decide(cache@, targets@[q].url@, now as int),
        decreases targets.len() - i,
    {
        let d = decide_target(cache, targets[i].url.as_str(), now);
        ds.push(d);
        i = i + 1;
    }
    ds
}


/// An entry for `u` generated less than seven days before `now` is reused:
/// the target is not fetched.
pub proof fn lemma_fresh_entry_reused<R>(cache: Seq<CacheEntry<R>>, u: Seq<char>, k: int, now: int)
    requires
        0 <= k < cache.len(),
        cache[k].url@ == u,
        forall|q: int| 0 <= q < cache.len() && q != k ==> cache[q].url@ != u,
        now < cache[k].generated_at + CACHE_TTL_SECS,
    ensures
        decide(cache, u, now) == Decision::Reuse(k as usize),
{
    lemma_first_index(cache, u);
}

/// An entry for `u` older than seven days at `now` is not reused: the
/// target is fetched live.
pub proof fn lemma_expired_entry_refetched<R>(cache: Seq<CacheEntry<R>>, u: Seq<char>, k: int, now: int)
    requires
        0 <= k < cache.len(),
        cache[k].url@ == u,
        forall|q: int| 0 <= q < cache.len() && q != k ==> cache[q].url@ != u,
        now > cache[k].generated_at + CACHE_TTL_SECS,
    ensures
        decide(cache, u, now) == Decision::Fetch,
{
    lemma_first_index(cache, u);
}

/// Keys strictly increase along `m`, so each occurs once.
pub open spec fn keys_increase<R>(m: Seq<CacheEntry<R>>) -> bool {
    forall|i: int, j: int| 0 <= i < j < m.len() ==> lex_lt(#[trigger] m[i].url@, #[trigger] m[j].url@)
}

/// A persisted mapping, read back as the cache of a later run, gives each of
/// its entries back: each is found under its own key and is reused exactly
/// while it is fresh.
pub proof fn lemma_persisted_mapping_reusable<R>(m: Seq<CacheEntry<R>>, now: int)
    requires
        keys_increase(m),
    ensures
        forall|j: int| 0 <= j < m.len() ==> first_index(m, #[trigger] m[j].url@) == Some(j),
        forall|j: int|
            0 <= j < m.len() ==> (decide(m, #[trigger] m[j].url@, now) == Decision::Reuse(j as usize)
                <==> is_fresh_at(m[j].generated_at as int, now)),
{
    assert forall|j: int| 0 <= j < m.len() implies first_index(m, #[trigger] m[j].url@) == Some(j) by {
        let u = m[j].url@;
        lemma_first_index(m, u);
        crate::target::lemma_lex_irreflexive(u);
        match first_index(m, u) {
            Some(k) => {
                if k < j {
                    assert(lex_lt(m[k].url@, m[j].url@));
                } else if k > j {
                    assert(lex_lt(m[j].url@, m[k].url@));
                }
            },
            None => {},
        }
    }
}

} // verus!
