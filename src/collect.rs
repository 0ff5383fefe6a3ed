//! The collection run as a state machine: for each target, in order, it
//! reuses a fresh cache entry, lends a credential slot for a live fetch, or
//! fails at once when no credentials exist; it records each outcome and
//! finally merges the successful ones into the new mapping.
use vstd::prelude::*;
use crate::error::CollectError;
use crate::freshness::{CacheEntry, Decision, decide, keys_increase, lemma_first_index, plan};
use crate::pool::{CredentialPool, lemma_in_use_bounded};
use crate::target::{CatalogItem, Target, enumerate_targets, enumerates, lemma_lex_irreflexive, lex_lt, strictly_sorted};

verus! {

/// A record fetched live, stamped with the time it was generated.
pub struct Fetched<R> {
    pub generated_at: i64,
    pub record: R,
}

/// What the caller is asked to do next.
#[derive(Debug, Clone, Copy, PartialEq, Eq, Structural)]
pub enum Action {
    /// The target's outcome is cache entry `entry`; nothing is fetched.
    Reuse { target: usize, entry: usize },
    /// Fetch the target live with the client of `slot`, then report back.
    Launch { target: usize, slot: usize },
    /// The target failed at once with `error`.
    Fail { target: usize, error: CollectError },
    /// Every slot is lent: wait for a live fetch to end and report it.
    Wait,
    /// Every target has its outcome.
    Done,
}

/// The entries that target `j` contributes to the mapping: its cache entry
/// when reused, its record when fetched successfully, else none.
pub open spec fn entry_for<R>(
    targets: Seq<Target>,
    decisions: Seq<Decision>,
    cache: Seq<CacheEntry<R>>,
    results: Seq<Option<Result<Fetched<R>, CollectError>>>,
    j: int,
) -> Seq<CacheEntry<R>> {
    match decisions[j] {
        Decision::Reuse(k) => seq![cache[k as int]],
        Decision::Fetch => match results[j] {
            Some(Ok(f)) => seq![
                CacheEntry { url: targets[j].url, generated_at: f.generated_at, record: f.record },
            ],
            _ => Seq::empty(),
        },
    }
}

/// The mapping built from the outcomes of the first `i` targets.
pub open spec fn merged_upto<R>(
    targets: Seq<Target>,
    decisions: Seq<Decision>,
    cache: Seq<CacheEntry<R>>,
    results: Seq<Option<Result<Fetched<R>, CollectError>>>,
    i: int,
) -> Seq<CacheEntry<R>>
    decreases i,
{
    if i <= 0 {
        Seq::empty()
    } else {
        merged_upto(targets, decisions, cache, results, i - 1) + entry_for(
            targets,
            decisions,
            cache,
            results,
            i - 1,
        )
    }
}

/// The mapping built from the outcomes of all targets.
pub open spec fn merged<R>(
    targets: Seq<Target>,
    decisions: Seq<Decision>,
    cache: Seq<CacheEntry<R>>,
    results: Seq<Option<Result<Fetched<R>, CollectError>>>,
) -> Seq<CacheEntry<R>> {
    merged_upto(targets, decisions, cache, results, targets.len() as int)
}

/// The cache entry that decision `d` reuses.
pub open spec fn reused_entry(d: Decision) -> int {
    match d {
        Decision::Reuse(k) => k as int,
        Decision::Fetch => -1,
    }
}

/// One collection run.
pub struct Collector<R> {
    targets: Vec<Target>,
    cache: Vec<CacheEntry<R>>,
    decisions: Vec<Decision>,
    pool: CredentialPool,
    next: usize,
    slots: Vec<Option<usize>>,
    results: Vec<Option<Result<Fetched<R>, CollectError>>>,
    now: i64,
}

impl<R> Collector<R> {
    /// The targets, in increasing order of url.
    pub closed spec fn targets_spec(&self) -> Seq<Target> {
        self.targets@
    }

    /// The cache loaded at the start of the run.
    pub closed spec fn cache_spec(&self) -> Seq<CacheEntry<R>> {
        self.cache@
    }

    /// The decision taken for each target.
    pub closed spec fn decisions_spec(&self) -> Seq<Decision> {
        self.decisions@
    }

    /// The time of the run.
    pub closed spec fn now_spec(&self) -> int {
        self.now as int
    }

    /// How many targets have been dispatched.
    pub closed spec fn next_spec(&self) -> nat {
        self.next as nat
    }

    /// The slot lent to each target whose live fetch is in flight.
    pub closed spec fn slots_spec(&self) -> Seq<Option<usize>> {
        self.slots@
    }

    /// The outcome of each live fetch that has ended.
    pub closed spec fn results_spec(&self) -> Seq<Option<Result<Fetched<R>, CollectError>>> {
        self.results@
    }

    /// The credential pool.
    pub closed spec fn pool_spec(&self) -> CredentialPool {
        self.pool
    }

    /// The state is consistent: every in-flight target holds its own lent
    /// slot, every lent slot is held, and without credentials no fetch is
    /// ever in flight.
    pub closed spec fn wf(&self) -> bool {
        let n = self.targets@.len();
        &&& self.decisions@.len() == n
        &&& self.slots@.len() == n
        &&& self.results@.len() == n
        &&& self.next <= n
        &&& self.pool.wf()
        &&& strictly_sorted(self.targets@)
        &&& forall|t: int| 0 <= t < n ==> #[trigger] self.decisions@[t] == decide(self.cache@, self.targets@[t].url@, self.now as int)
        &&& forall|t: int| self.next <= t < n ==> (#[trigger] self.slots@[t]).is_none() && self.results@[t].is_none()
        &&& forall|t: int| 0 <= t < self.next && (#[trigger] self.decisions@[t]) is Reuse ==> self.slots@[t].is_none() && self.results@[t].is_none()
        &&& forall|t: int| 0 <= t < self.next && (#[trigger] self.decisions@[t]) is Fetch ==> (self.slots@[t].is_some() <==> self.results@[t].is_none())
        &&& forall|t: int| 0 <= t < n && (#[trigger] self.slots@[t]).is_some() ==> self.slots@[t].unwrap() < self.pool.size_spec() && self.pool.lent_spec()[self.slots@[t].unwrap() as int]
        &&& forall|t1: int, t2: int| 0 <= t1 < n && 0 <= t2 < n && (#[trigger] self.slots@[t1]).is_some() && #[trigger] self.slots@[t2] == self.slots@[t1] ==> t1 == t2
        &&& forall|s: int| 0 <= s < self.pool.size_spec() && #[trigger] self.pool.lent_spec()[s] ==> exists|t: int| 0 <= t < n && self.slots@[t] == Some(s as usize)
        &&& !self.pool.authenticated_spec() ==> forall|t: int| 0 <= t < n ==> (#[trigger] self.slots@[t]).is_none() && (t < self.next && self.decisions@[t] is Fetch ==> self.results@[t] == Some(Err::<Fetched<R>, CollectError>(CollectError::NoCredentials)))
    }

    /// Every target has its outcome and no fetch is in flight.
    pub closed spec fn is_done_spec(&self) -> bool {
        &&& self.next as nat == self.targets@.len()
        &&& self.pool.in_use_spec() == 0
    }

    /// Starts a run over the targets of `items`, with the cache loaded at its
    /// start, the time `now`, and `credentials` credentials.
    pub fn new(items: &Vec<CatalogItem>, cache: Vec<CacheEntry<R>>, now: i64, credentials: usize) -> (c: Self)
        ensures
            c.wf(),
            enumerates(items@, c.targets_spec()),
            c.cache_spec() == cache@,
            c.now_spec() == now as int,
            c.next_spec() == 0,
            c.pool_spec().size_spec() == if credentials == 0 {
                1
            } else {
                credentials as nat
            },
            c.pool_spec().authenticated_spec() == (credentials > 0),
            c.pool_spec().in_use_spec() == 0,
            c.decisions_spec().len() == c.targets_spec().len(),
            forall|t: int|
                0 <= t < c.targets_spec().len() ==> #[trigger] c.decisions_spec()[t] == decide(
                    cache@,
                    c.targets_spec()[t].url@,
                    now as int,
                ),
            c.slots_spec().len() == c.targets_spec().len(),
            c.results_spec().len() == c.targets_spec().len(),
            forall|t: int|
                0 <= t < c.targets_spec().len() ==> (#[trigger] c.slots_spec()[t]).is_none()
                    && c.results_spec()[t].is_none(),
    {
        let targets = enumerate_targets(items);
        let decisions = plan(&targets, &cache, now);
        let pool = CredentialPool::new(credentials);
        let mut slots: Vec<Option<usize>> = Vec::new();
        let mut results: Vec<Option<Result<Fetched<R>, CollectError>>> = Vec::new();
        let mut i: usize = 0;
        while i < targets.len()
            invariant
                i <= targets@.len(),
                slots@.len() == i,
                results@.len() == i,
                forall|t: int| 0 <= t < i ==> (#[trigger] slots@[t]).is_none() && results@[t].is_none(),
            decreases targets.len() - i,
        {
            slots.push(None);
            results.push(None);
            i = i + 1;
        }
        Collector { targets, cache, decisions, pool, next: 0, slots, results, now }
    }

    /// The number of targets.
    pub fn len(&self) -> (r: usize)
        ensures
            r as nat == self.targets_spec().len(),
    {
        self.targets.len()
    }

    /// Target `i`.
    pub fn target(&self, i: usize) -> (r: &Target)
        requires
            i < self.targets_spec().len(),
        ensures
            *r == self.targets_spec()[i as int],
    {
        &self.targets[i]
    }

    /// Cache entry `k`.
    pub fn cache_entry(&self, k: usize) -> (r: &CacheEntry<R>)
        requires
            k < self.cache_spec().len(),
        ensures
            *r == self.cache_spec()[k as int],
    {
        &self.cache[k]
    }

    /// How many live fetches are in flight.
    pub fn in_flight(&self) -> (r: usize)
        requires
            self.wf(),
        ensures
            r as nat == self.pool_spec().in_use_spec(),
            r as nat <= self.pool_spec().size_spec(),
    {
        proof {
            lemma_in_use_bounded(&self.pool);
        }
        self.pool.in_use()
    }

    /// Whether the live fetch of `target` is in flight.
    pub fn is_in_flight(&self, target: usize) -> (r: bool)
        requires
            self.wf(),
        ensures
            r == (target < self.targets_spec().len() && self.slots_spec()[target as int].is_some()),
    {
        target < self.slots.len() && self.slots[target].is_some()
    }

    /// Dispatches the next target, or says to wait or that the run is done.
    pub fn next_action(&mut self) -> (a: Action)
        requires
            old(self).wf(),
        ensures
            final(self).wf(),
            final(self).targets_spec() == old(self).targets_spec(),
            final(self).cache_spec() == old(self).cache_spec(),
            final(self).decisions_spec() == old(self).decisions_spec(),
            final(self).now_spec() == old(self).now_spec(),
            final(self).pool_spec().size_spec() == old(self).pool_spec().size_spec(),
            final(self).pool_spec().authenticated_spec() == old(self).pool_spec().authenticated_spec(),
            old(self).next_spec() < old(self).targets_spec().len() ==> match old(self).decisions_spec()[old(self).next_spec() as int] {
                Decision::Reuse(k) => {
                    &&& a == Action::Reuse { target: old(self).next_spec() as usize, entry: k }
                    &&& final(self).next_spec() == old(self).next_spec() + 1
                    &&& final(self).slots_spec() == old(self).slots_spec()
                    &&& final(self).results_spec() == old(self).results_spec()
                    &&& final(self).pool_spec() == old(self).pool_spec()
                },
                Decision::Fetch => if !old(self).pool_spec().authenticated_spec() {
                    &&& a == Action::Fail { target: old(self).next_spec() as usize, error: CollectError::NoCredentials }
                    &&& final(self).next_spec() == old(self).next_spec() + 1
                    &&& final(self).slots_spec() == old(self).slots_spec()
                    &&& final(self).results_spec() == old(self).results_spec().update(
                        old(self).next_spec() as int,
                        Some(Err(CollectError::NoCredentials)),
                    )
                    &&& final(self).pool_spec() == old(self).pool_spec()
                } else if old(self).pool_spec().in_use_spec() < old(self).pool_spec().size_spec() {
                    match a {
                        Action::Launch { target, slot } => {
                            &&& target as nat == old(self).next_spec()
                            &&& slot < old(self).pool_spec().size_spec()
                            &&& !old(self).pool_spec().lent_spec()[slot as int]
                            &&& final(self).next_spec() == old(self).next_spec() + 1
                            &&& final(self).slots_spec() == old(self).slots_spec().update(target as int, Some(slot))
                            &&& final(self).results_spec() == old(self).results_spec()
                            &&& final(self).pool_spec().in_use_spec() == old(self).pool_spec().in_use_spec() + 1
                        },
                        _ => false,
                    }
                } else {
                    a == Action::Wait && *final(self) == *old(self)
                },
            },
            old(self).next_spec() == old(self).targets_spec().len() ==> *final(self) == *old(self) && if old(
                self,
            ).pool_spec().in_use_spec() > 0 {
                a == Action::Wait
            } else {
                a == Action::Done
            },
    {
        let n = self.targets.len();
        if self.next < n {
            let t = self.next;
            match self.decisions[t] {
                Decision::Reuse(k) => {
                    self.next = t + 1;
                    Action::Reuse { target: t, entry: k }
                },
                Decision::Fetch => {
                    if !self.pool.is_authenticated() {
                        self.results.set(t, Some(Err(CollectError::NoCredentials)));
                        self.next = t + 1;
                        Action::Fail { target: t, error: CollectError::NoCredentials }
                    } else {
                        let ghost old_pool = self.pool;
                        match self.pool.acquire() {
                            Some(slot) => {
                                let ghost old_slots = self.slots@;
                                proof {
                                    lemma_in_use_bounded(&old_pool);
                                    lemma_in_use_bounded(&self.pool);
                                }
                                self.slots.set(t, Some(slot));
                                self.next = t + 1;
                                proof {
                                    assert forall|q: int| 0 <= q < n && (#[trigger] old_slots[q]).is_some() implies old_slots[q].unwrap() != slot by {}
                                    assert forall|s: int|
                                        0 <= s < self.pool.size_spec() && #[trigger] self.pool.lent_spec()[s] implies exists|q: int|
                                        0 <= q < n && self.slots@[q] == Some(s as usize) by {
                                        if s == slot as int {
                                            assert(self.slots@[t as int] == Some(s as usize));
                                        } else {
                                            assert(old_pool.lent_spec()[s]);
                                            let q = choose|q: int| 0 <= q < n && old_slots[q] == Some(s as usize);
                                            assert(self.slots@[q] == Some(s as usize));
                                        }
                                    }
                                }
                                Action::Launch { target: t, slot }
                            },
                            None => Action::Wait,
                        }
                    }
                },
            }
        } else if self.pool.in_use() > 0 {
            Action::Wait
        } else {
            Action::Done
        }
    }

    /// Records the outcome of the live fetch of `target` and returns its slot.
    pub fn complete(&mut self, target: usize, result: Result<Fetched<R>, CollectError>)
        requires
            old(self).wf(),
            target < old(self).targets_spec().len(),
            old(self).slots_spec()[target as int].is_some(),
        ensures
            final(self).wf(),
            final(self).targets_spec() == old(self).targets_spec(),
            final(self).cache_spec() == old(self).cache_spec(),
            final(self).decisions_spec() == old(self).decisions_spec(),
            final(self).now_spec() == old(self).now_spec(),
            final(self).next_spec() == old(self).next_spec(),
            final(self).slots_spec() == old(self).slots_spec().update(target as int, None),
            final(self).results_spec() == old(self).results_spec().update(target as int, Some(result)),
            final(self).pool_spec().size_spec() == old(self).pool_spec().size_spec(),
            final(self).pool_spec().authenticated_spec() == old(self).pool_spec().authenticated_spec(),
            final(self).pool_spec().in_use_spec() + 1 == old(self).pool_spec().in_use_spec(),
    {
        let n = self.targets.len();
        let slot = match self.slots[target] {
            Some(s) => s,
            None => 0,
        };
        let ghost old_pool = self.pool;
        let ghost old_slots = self.slots@;
        proof {
            lemma_in_use_bounded(&old_pool);
        }
        self.pool.release(slot);
        proof {
            lemma_in_use_bounded(&self.pool);
        }
        self.slots.set(target, None);
        self.results.set(target, Some(result));
        proof {
            assert forall|s: int|
                0 <= s < self.pool.size_spec() && #[trigger] self.pool.lent_spec()[s] implies exists|q: int|
                0 <= q < n && self.slots@[q] == Some(s as usize) by {
                assert(s != slot as int);
                assert(old_pool.lent_spec()[s]);
                let q = choose|q: int| 0 <= q < n && old_slots[q] == Some(s as usize);
                assert(old_slots[target as int] == Some(slot));
                if q == target {
                    assert(s as usize == slot);
                    assert(s == slot as int);
                }
                assert(self.slots@[q] == Some(s as usize));
            }
        }
    }

    /// Whether every target has its outcome and no fetch is in flight.
    pub fn is_done(&self) -> (r: bool)
        requires
            self.wf(),
        ensures
            r == self.is_done_spec(),
    {
        self.next == self.targets.len() && self.pool.in_use() == 0
    }

    /// Ends the run: the mapping of every reused entry and every successful
    /// live fetch, in increasing order of url.
    pub fn finish(self) -> (m: Vec<CacheEntry<R>>)
        requires
            self.wf(),
            self.is_done_spec(),
        ensures
            m@ == merged(self.targets_spec(), self.decisions_spec(), self.cache_spec(), self.results_spec()),
            keys_increase(m@),
            forall|u: Seq<char>|
                mapping_has(m@, u) <==> #[trigger] target_succeeded(
                    self.targets_spec(),
                    self.decisions_spec(),
                    self.results_spec(),
                    u,
                ),
    {
        let cache_len = self.cache.len();
        proof {
            assert(self.cache@.len() == cache_len as nat);
            lemma_mapping_holds_successes(self.targets@, self.decisions@, self.cache@, self.results@, self.now as int);
        }
        let ghost ts = self.targets@;
        let ghost ds = self.decisions@;
        let ghost cs = self.cache@;
        let ghost rs = self.results@;
        let ghost now = self.now as int;
        let Collector { targets, cache, decisions, pool: _, next: _, slots: _, results, now: _ } = self;
        let mut cache = cache;
        let mut results = results;
        let mut held: Vec<Option<CacheEntry<R>>> = Vec::new();
        while cache.len() > 0
            invariant
                held@.len() + cache@.len() == cs.len(),
                cache@ == cs.skip(held@.len() as int),
                forall|q: int| 0 <= q < held@.len() ==> #[trigger] held@[q] == Some(cs[q]),
            decreases cache.len(),
        {
            let e = cache.remove(0);
            proof {
                assert(cache@ =~= cs.skip(held@.len() as int + 1));
            }
            held.push(Some(e));
        }
        let n = targets.len();
        proof {
            assert forall|t: int| 0 <= t < n && (#[trigger] ds[t]) is Reuse implies held@[reused_entry(ds[t])] == Some(cs[reused_entry(ds[t])]) by {
                lemma_first_index(cs, ts[t].url@);
            }
        }
        let mut m: Vec<CacheEntry<R>> = Vec::new();
        let mut i: usize = 0;
        while i < n
            invariant
                i <= n,
                n == ts.len(),
                targets@ == ts,
                decisions@ == ds,
                ds.len() == n,
                results@.len() == n,
                held@.len() == cs.len(),
                strictly_sorted(ts),
                forall|t: int| 0 <= t < n ==> #[trigger] ds[t] == decide(cs, ts[t].url@, now),
                forall|t: int| i <= t < n ==> #[trigger] results@[t] == rs[t],
                forall|t: int| i <= t < n && (#[trigger] ds[t]) is Reuse ==> held@[reused_entry(ds[t])] == Some(cs[reused_entry(ds[t])]),
                m@ == merged_upto(ts, ds, cs, rs, i as int),
            decreases n - i,
        {
            proof {
                lemma_first_index(cs, ts[i as int].url@);
            }
            match decisions[i] {
                Decision::Reuse(k) => {
                    let ghost old_held = held@;
                    let mut e: Option<CacheEntry<R>> = None;
                    held.set_and_swap(k, &mut e);
                    match e {
                        Some(e) => m.push(e),
                        None => {},
                    }
                    proof {
                        assert forall|t: int| i + 1 <= t < n && (#[trigger] ds[t]) is Reuse implies held@[reused_entry(ds[t])] == Some(cs[reused_entry(ds[t])]) by {
                            lemma_first_index(cs, ts[t].url@);
                            if reused_entry(ds[t]) == k as int {
                                assert(ts[t].url@ == ts[i as int].url@);
                                lemma_lex_irreflexive(ts[i as int].url@);
                            }
                        }
                    }
                },
                Decision::Fetch => {
                    let mut r: Option<Result<Fetched<R>, CollectError>> = None;
                    results.set_and_swap(i, &mut r);
                    match r {
                        Some(Ok(f)) => {
                            let url = targets[i].url.clone();
                            m.push(CacheEntry { url, generated_at: f.generated_at, record: f.record });
                        },
                        _ => {},
                    }
                },
            }
            proof {
                assert(m@ =~= merged_upto(ts, ds, cs, rs, i + 1));
            }
            i = i + 1;
        }
        m
    }
}


/// Target `t` ended with a record: reused, or fetched successfully.
pub open spec fn succeeded<R>(
    decisions: Seq<Decision>,
    results: Seq<Option<Result<Fetched<R>, CollectError>>>,
    t: int,
) -> bool {
    decisions[t] is Reuse || (results[t] is Some && results[t].unwrap() is Ok)
}

/// Some entry of `m` is keyed by `u`.
pub open spec fn mapping_has<R>(m: Seq<CacheEntry<R>>, u: Seq<char>) -> bool {
    exists|j: int| 0 <= j < m.len() && m[j].url@ == u
}

/// One of the first `i` targets has url `u` and ended with a record.
pub open spec fn succeeded_before<R>(
    targets: Seq<Target>,
    decisions: Seq<Decision>,
    results: Seq<Option<Result<Fetched<R>, CollectError>>>,
    u: Seq<char>,
    i: int,
) -> bool {
    exists|t: int| 0 <= t < i && targets[t].url@ == u && succeeded(decisions, results, t)
}

/// The target with url `u` ended with a record.
pub open spec fn target_succeeded<R>(
    targets: Seq<Target>,
    decisions: Seq<Decision>,
    results: Seq<Option<Result<Fetched<R>, CollectError>>>,
    u: Seq<char>,
) -> bool {
    exists|t: int| 0 <= t < targets.len() && targets[t].url@ == u && succeeded(decisions, results, t)
}

proof fn lemma_merged_upto<R>(
    targets: Seq<Target>,
    decisions: Seq<Decision>,
    cache: Seq<CacheEntry<R>>,
    results: Seq<Option<Result<Fetched<R>, CollectError>>>,
    now: int,
    i: int,
)
    requires
        0 <= i <= targets.len(),
        decisions.len() == targets.len(),
        results.len() == targets.len(),
        cache.len() <= usize::MAX,
        strictly_sorted(targets),
        forall|t: int| 0 <= t < targets.len() ==> #[trigger] decisions[t] == decide(cache, targets[t].url@, now),
    ensures
        keys_increase(merged_upto(targets, decisions, cache, results, i)),
        forall|j: int|
            0 <= j < merged_upto(targets, decisions, cache, results, i).len() ==> succeeded_before(
                targets,
                decisions,
                results,
                #[trigger] merged_upto(targets, decisions, cache, results, i)[j].url@,
                i,
            ),
        forall|t: int|
            0 <= t < i && #[trigger] succeeded(decisions, results, t) ==> exists|j: int|
                0 <= j < merged_upto(targets, decisions, cache, results, i).len()
                    && merged_upto(targets, decisions, cache, results, i)[j].url@ == targets[t].url@,
    decreases i,
{
    if i > 0 {
        lemma_merged_upto(targets, decisions, cache, results, now, i - 1);
        let prev = merged_upto(targets, decisions, cache, results, i - 1);
        let e = entry_for(targets, decisions, cache, results, i - 1);
        let cur = merged_upto(targets, decisions, cache, results, i);
        assert(cur == prev + e);
        lemma_first_index(cache, targets[i - 1].url@);
        assert(decisions[i - 1] == decide(cache, targets[i - 1].url@, now));
        assert(e.len() == 0 || (e.len() == 1 && e[0].url@ == targets[i - 1].url@ && succeeded(decisions, results, i - 1)));
        assert(succeeded(decisions, results, i - 1) ==> e.len() == 1);
        assert forall|j: int| 0 <= j < prev.len() implies lex_lt(#[trigger] prev[j].url@, targets[i - 1].url@) by {
            assert(succeeded_before(targets, decisions, results, prev[j].url@, i - 1));
            let t = choose|t: int| 0 <= t < i - 1 && targets[t].url@ == prev[j].url@ && succeeded(decisions, results, t);
            assert(lex_lt(targets[t].url@, targets[i - 1].url@));
        }
        assert forall|a: int, b: int| 0 <= a < b < cur.len() implies lex_lt(#[trigger] cur[a].url@, #[trigger] cur[b].url@) by {
            if b < prev.len() {
                assert(cur[a] == prev[a] && cur[b] == prev[b]);
            } else {
                assert(cur[a] == prev[a]);
                assert(cur[b] == e[0]);
            }
        }
        assert forall|j: int| 0 <= j < cur.len() implies succeeded_before(targets, decisions, results, #[trigger] cur[j].url@, i) by {
            if j < prev.len() {
                assert(cur[j] == prev[j]);
                assert(succeeded_before(targets, decisions, results, prev[j].url@, i - 1));
                let t = choose|t: int| 0 <= t < i - 1 && targets[t].url@ == prev[j].url@ && succeeded(decisions, results, t);
                assert(cur[j].url@ == targets[t].url@);
            } else {
                assert(cur[j] == e[0]);
                assert(targets[i - 1].url@ == cur[j].url@);
            }
        }
        assert forall|t: int| 0 <= t < i && #[trigger] succeeded(decisions, results, t) implies exists|j: int|
            0 <= j < cur.len() && cur[j].url@ == targets[t].url@ by {
            if t < i - 1 {
                let j = choose|j: int| 0 <= j < prev.len() && prev[j].url@ == targets[t].url@;
                assert(cur[j] == prev[j]);
            } else {
                assert(cur[prev.len() as int] == e[0]);
            }
        }
    }
}

/// The mapping of a run holds one entry per target that ended with a record,
/// and nothing else: a target that failed leaves no entry and takes no other
/// target's entry with it. Its keys strictly increase.
pub proof fn lemma_mapping_holds_successes<R>(
    targets: Seq<Target>,
    decisions: Seq<Decision>,
    cache: Seq<CacheEntry<R>>,
    results: Seq<Option<Result<Fetched<R>, CollectError>>>,
    now: int,
)
    requires
        decisions.len() == targets.len(),
        results.len() == targets.len(),
        cache.len() <= usize::MAX,
        strictly_sorted(targets),
        forall|t: int| 0 <= t < targets.len() ==> #[trigger] decisions[t] == decide(cache, targets[t].url@, now),
    ensures
        keys_increase(merged(targets, decisions, cache, results)),
        forall|u: Seq<char>|
            mapping_has(merged(targets, decisions, cache, results), u) <==> #[trigger] target_succeeded(
                targets,
                decisions,
                results,
                u,
            ),
{
    lemma_merged_upto(targets, decisions, cache, results, now, targets.len() as int);
    let m = merged(targets, decisions, cache, results);
    assert forall|u: Seq<char>|
        mapping_has(m, u) <==> #[trigger] target_succeeded(targets, decisions, results, u) by {
        if exists|j: int| 0 <= j < m.len() && m[j].url@ == u {
            let j = choose|j: int| 0 <= j < m.len() && m[j].url@ == u;
            assert(succeeded_before(targets, decisions, results, m[j].url@, targets.len() as int));
        }
        if exists|t: int| 0 <= t < targets.len() && targets[t].url@ == u && succeeded(decisions, results, t) {
            let t = choose|t: int| 0 <= t < targets.len() && targets[t].url@ == u && succeeded(decisions, results, t);
            assert(succeeded(decisions, results, t));
        }
    }
}

proof fn lemma_nothing_merged<R>(
    targets: Seq<Target>,
    decisions: Seq<Decision>,
    cache: Seq<CacheEntry<R>>,
    results: Seq<Option<Result<Fetched<R>, CollectError>>>,
    i: int,
)
    requires
        0 <= i <= targets.len(),
        forall|t: int| 0 <= t < i ==> !succeeded(decisions, results, t),
    ensures
        merged_upto(targets, decisions, cache, results, i) == Seq::<CacheEntry<R>>::empty(),
    decreases i,
{
    if i > 0 {
        lemma_nothing_merged(targets, decisions, cache, results, i - 1);
        assert(!succeeded(decisions, results, i - 1));
        assert(merged_upto(targets, decisions, cache, results, i) =~= Seq::<CacheEntry<R>>::empty());
    }
}

impl<R> Collector<R> {
    /// Whatever the run has done so far, no more live fetches are in flight
    /// than the pool has slots: each in-flight target holds its own slot.
    pub proof fn lemma_in_flight_bounded(&self)
        requires
            self.wf(),
        ensures
            self.pool_spec().in_use_spec() <= self.pool_spec().size_spec(),
            forall|t: int|
                0 <= t < self.targets_spec().len() && (#[trigger] self.slots_spec()[t]).is_some()
                    ==> self.slots_spec()[t].unwrap() < self.pool_spec().size_spec(),
            forall|t1: int, t2: int|
                0 <= t1 < self.targets_spec().len() && 0 <= t2 < self.targets_spec().len() && t1 != t2
                    && (#[trigger] self.slots_spec()[t1]).is_some() ==> #[trigger] self.slots_spec()[t2]
                    != self.slots_spec()[t1],
    {
        lemma_in_use_bounded(&self.pool);
    }

    /// Without credentials and with an empty cache, the mapping of the run is
    /// empty at every step, and so when it finishes.
    pub proof fn lemma_no_credentials_empty(&self)
        requires
            self.wf(),
            !self.pool_spec().authenticated_spec(),
            self.cache_spec().len() == 0,
        ensures
            merged(self.targets_spec(), self.decisions_spec(), self.cache_spec(), self.results_spec())
                == Seq::<CacheEntry<R>>::empty(),
    {
        let ts = self.targets@;
        let ds = self.decisions@;
        let cs = self.cache@;
        let rs = self.results@;
        assert forall|t: int| 0 <= t < ts.len() implies !succeeded(ds, rs, t) by {
            lemma_first_index(cs, ts[t].url@);
            assert(ds[t] == decide(cs, ts[t].url@, self.now as int));
        }
        lemma_nothing_merged(ts, ds, cs, rs, ts.len() as int);
    }
}

} // verus!
