//! Quota scheduling core.
//!
//! No clock of its own: every method takes the current time, in nanoseconds
//! on one monotonic clock, as a parameter. A `Bucket` is one quota dimension
//! governed by the generic cell rate algorithm, a `Resource` carries several
//! buckets in conjunction, and the engine holds `shared` buckets that every
//! request touches plus a list of selection pools.
use vstd::prelude::*;
use vstd::std_specs::cmp::PartialEqSpec;

use crate::text::same_text;

verus! {

/// What a bucket is: its spacing and burst tolerance, the horizon of the
/// commits it authorized and the horizon of the reservations it admitted.
pub struct BucketView {
    pub label: Seq<char>,
    pub interval: int,
    pub tolerance: int,
    pub tat: int,
    pub rtat: int,
}

pub open spec fn larger(a: int, b: int) -> int {
    if a >= b { a } else { b }
}

pub open spec fn smaller(a: int, b: int) -> int {
    if a <= b { a } else { b }
}

impl BucketView {
    /// Nothing was committed past what was reserved.
    pub open spec fn wf(self) -> bool {
        0 <= self.tat <= self.rtat && 0 <= self.interval && 0 <= self.tolerance
    }

    /// How far past `now` the admission of a reservation lies.
    pub open spec fn reserve_slack(self, now: int) -> int {
        self.rtat - now - self.tolerance
    }

    /// How far past `now` the authorization of a commit lies.
    pub open spec fn commit_slack(self, now: int) -> int {
        self.tat - now - self.tolerance
    }

    pub open spec fn reserved(self, at: int) -> BucketView {
        BucketView { rtat: larger(self.rtat, at) + self.interval, ..self }
    }

    pub open spec fn released(self) -> BucketView {
        BucketView { rtat: larger(self.rtat - self.interval, self.tat), ..self }
    }

    pub open spec fn committed(self, at: int) -> BucketView {
        let tat = larger(self.tat, at) + self.interval;
        BucketView { tat, rtat: larger(self.rtat, tat), ..self }
    }

    pub open spec fn reconciled(self, remaining: int, capacity: int, now: int) -> BucketView {
        let debt = larger(larger(capacity, 1) - remaining, 0);
        let tat = larger(self.tat, now + self.interval * debt);
        BucketView { tat, rtat: larger(self.rtat, tat), ..self }
    }
}

/// One bucket: an allocation horizon `rtat` advanced when a reservation is
/// admitted, and a commit horizon `tat` advanced when a commit is authorized.
#[derive(Clone, Debug)]
pub struct Bucket {
    pub label: &'static str,
    interval: u64,
    tolerance: u64,
    tat: u64,
    rtat: u64,
}

impl View for Bucket {
    type V = BucketView;

    closed spec fn view(&self) -> BucketView {
        BucketView {
            label: self.label@,
            interval: self.interval as int,
            tolerance: self.tolerance as int,
            tat: self.tat as int,
            rtat: self.rtat as int,
        }
    }
}

/// Burst allowance left of `capacity` once `safety` is held back, at least one.
pub open spec fn effective_capacity(capacity: int, safety: int) -> int {
    larger(capacity - safety, 1)
}

impl Bucket {
    /// A bucket that refills one token every `interval` nanoseconds. `safety`
    /// reserves headroom to absorb jitter in when the server counts a token.
    pub fn new(label: &'static str, capacity: u32, interval: u64, safety: u32, now: u64) -> (bucket:
        Bucket)
        requires
            interval * (effective_capacity(capacity as int, safety as int) - 1) <= u64::MAX,
        ensures
            bucket@ == (BucketView {
                label: label@,
                interval: interval as int,
                tolerance: interval * (effective_capacity(capacity as int, safety as int) - 1),
                tat: now as int,
                rtat: now as int,
            }),
            bucket@.wf(),
    {
        let spare: u32 = capacity.saturating_sub(safety);
        let effective: u32 = if spare >= 1 { spare } else { 1 };
        proof {
            assert(effective == effective_capacity(capacity as int, safety as int));
            assert(0 <= interval * (effective - 1)) by (nonlinear_arith)
                requires
                    effective >= 1,
            ;
        }
        let tolerance: u64 = interval * ((effective - 1) as u64);
        Bucket { label, interval, tolerance, tat: now, rtat: now }
    }

    fn reserve_slack(&self, now: u64) -> (slack: i128)
        ensures
            slack == self@.reserve_slack(now as int),
            slack <= u64::MAX - now,
    {
        self.rtat as i128 - now as i128 - self.tolerance as i128
    }

    fn commit_slack(&self, now: u64) -> (slack: i128)
        ensures
            slack == self@.commit_slack(now as int),
            slack <= u64::MAX - now,
    {
        self.tat as i128 - now as i128 - self.tolerance as i128
    }

    /// Admits a reservation at `at`: advances only the allocation horizon.
    fn advance_reserve(&mut self, at: u64)
        requires
            old(self)@.reserved(at as int).rtat <= u64::MAX,
        ensures
            final(self)@ == old(self)@.reserved(at as int),
    {
        let base: u64 = if self.rtat >= at { self.rtat } else { at };
        self.rtat = base + self.interval;
    }

    /// Rolls back one admitted reservation; the commit horizon stays.
    fn release_reserve(&mut self)
        ensures
            final(self)@ == old(self)@.released(),
    {
        let earlier: u64 = self.rtat.saturating_sub(self.interval);
        self.rtat = if earlier >= self.tat { earlier } else { self.tat };
    }

    /// Authorizes a commit at `at` and keeps the allocation horizon ahead.
    fn advance_commit(&mut self, at: u64)
        requires
            old(self)@.committed(at as int).tat <= u64::MAX,
        ensures
            final(self)@ == old(self)@.committed(at as int),
    {
        let base: u64 = if self.tat >= at { self.tat } else { at };
        self.tat = base + self.interval;
        self.rtat = if self.rtat >= self.tat { self.rtat } else { self.tat };
    }

    /// Re-anchors the commit horizon from an observed header; never relaxes it.
    fn reconcile(&mut self, remaining: u32, capacity: u32, now: u64)
        requires
            old(self)@.reconciled(remaining as int, capacity as int, now as int).tat <= u64::MAX,
        ensures
            final(self)@ == old(self)@.reconciled(remaining as int, capacity as int, now as int),
    {
        let effective: u32 = if capacity >= 1 { capacity } else { 1 };
        let debt: u32 = effective.saturating_sub(remaining);
        proof {
            assert(debt == larger(larger(capacity as int, 1) - remaining, 0));
            assert(0 <= self.interval * debt) by (nonlinear_arith);
        }
        let anchored: u64 = now + self.interval * (debt as u64);
        self.tat = if self.tat >= anchored { self.tat } else { anchored };
        self.rtat = if self.rtat >= self.tat { self.rtat } else { self.tat };
    }
}


/// What a selectable resource is.
pub struct ResourceView<K> {
    pub key: K,
    pub alive: bool,
    pub buckets: Seq<BucketView>,
}

/// Slack of the most constraining bucket on the allocation horizon; no bucket
/// constrains nothing.
pub open spec fn top_reserve_slack(buckets: Seq<BucketView>, now: int) -> int
    decreases buckets.len(),
{
    if buckets.len() == 0 {
        i128::MIN as int
    } else {
        larger(top_reserve_slack(buckets.drop_last(), now), buckets.last().reserve_slack(now))
    }
}

/// Slack of the most constraining bucket on the commit horizon.
pub open spec fn top_commit_slack(buckets: Seq<BucketView>, now: int) -> int
    decreases buckets.len(),
{
    if buckets.len() == 0 {
        i128::MIN as int
    } else {
        larger(top_commit_slack(buckets.drop_last(), now), buckets.last().commit_slack(now))
    }
}

pub open spec fn bucket_views(buckets: Seq<Bucket>) -> Seq<BucketView> {
    buckets.map_values(|b: Bucket| b@)
}

fn reserve_slack_of(buckets: &Vec<Bucket>, now: u64) -> (slack: i128)
    ensures
        slack == top_reserve_slack(bucket_views(buckets@), now as int),
        slack <= u64::MAX - now,
{
    let mut top: i128 = i128::MIN;
    let mut i: usize = 0;
    while i < buckets.len()
        invariant
            i <= buckets.len(),
            top == top_reserve_slack(bucket_views(buckets@).take(i as int), now as int),
            top <= u64::MAX - now,
        decreases buckets.len() - i,
    {
        let slack: i128 = buckets[i].reserve_slack(now);
        proof {
            let next = bucket_views(buckets@).take(i + 1);
            assert(next.drop_last() =~= bucket_views(buckets@).take(i as int));
        }
        if slack > top {
            top = slack;
        }
        i += 1;
    }
    proof {
        assert(bucket_views(buckets@).take(i as int) =~= bucket_views(buckets@));
    }
    top
}

fn commit_slack_of(buckets: &Vec<Bucket>, now: u64) -> (slack: i128)
    ensures
        slack == top_commit_slack(bucket_views(buckets@), now as int),
        slack <= u64::MAX - now,
{
    let mut top: i128 = i128::MIN;
    let mut i: usize = 0;
    while i < buckets.len()
        invariant
            i <= buckets.len(),
            top == top_commit_slack(bucket_views(buckets@).take(i as int), now as int),
            top <= u64::MAX - now,
        decreases buckets.len() - i,
    {
        let slack: i128 = buckets[i].commit_slack(now);
        proof {
            let next = bucket_views(buckets@).take(i + 1);
            assert(next.drop_last() =~= bucket_views(buckets@).take(i as int));
        }
        if slack > top {
            top = slack;
        }
        i += 1;
    }
    proof {
        assert(bucket_views(buckets@).take(i as int) =~= bucket_views(buckets@));
    }
    top
}

/// Every bucket after one reservation admitted at `at`.
pub open spec fn all_reserved(buckets: Seq<BucketView>, at: int) -> Seq<BucketView> {
    buckets.map_values(|b: BucketView| b.reserved(at))
}

/// Every bucket after one commit authorized at `at`.
pub open spec fn all_committed(buckets: Seq<BucketView>, at: int) -> Seq<BucketView> {
    buckets.map_values(|b: BucketView| b.committed(at))
}

/// Every bucket after one reservation rolled back.
pub open spec fn all_released(buckets: Seq<BucketView>) -> Seq<BucketView> {
    buckets.map_values(|b: BucketView| b.released())
}

/// The allocation horizons still fit the clock after a reservation at `at`.
pub open spec fn reserve_fits(buckets: Seq<BucketView>, at: int) -> bool {
    forall|i: int|
        0 <= i < buckets.len() ==> (#[trigger] buckets[i]).reserved(at).rtat <= u64::MAX
}

/// The commit horizons still fit the clock after a commit at `at`.
pub open spec fn commit_fits(buckets: Seq<BucketView>, at: int) -> bool {
    forall|i: int|
        0 <= i < buckets.len() ==> (#[trigger] buckets[i]).committed(at).tat <= u64::MAX
}

fn reserve_all(buckets: &mut Vec<Bucket>, at: u64)
    requires
        reserve_fits(bucket_views(old(buckets)@), at as int),
    ensures
        bucket_views(final(buckets)@) == all_reserved(bucket_views(old(buckets)@), at as int),
{
    let mut i: usize = 0;
    let ghost before = bucket_views(buckets@);
    while i < buckets.len()
        invariant
            before == bucket_views(old(buckets)@),
            reserve_fits(before, at as int),
            i <= buckets.len(),
            buckets.len() == before.len(),
            forall|k: int| 0 <= k < i ==> (#[trigger] buckets[k])@ == before[k].reserved(at as int),
            forall|k: int| i <= k < buckets.len() ==> (#[trigger] buckets[k])@ == before[k],
        decreases buckets.len() - i,
    {
        assert(buckets[i as int]@ == before[i as int]);
        buckets[i].advance_reserve(at);
        i += 1;
    }
    assert(bucket_views(buckets@) =~= all_reserved(before, at as int));
}

fn commit_all(buckets: &mut Vec<Bucket>, at: u64)
    requires
        commit_fits(bucket_views(old(buckets)@), at as int),
    ensures
        bucket_views(final(buckets)@) == all_committed(bucket_views(old(buckets)@), at as int),
{
    let mut i: usize = 0;
    let ghost before = bucket_views(buckets@);
    while i < buckets.len()
        invariant
            before == bucket_views(old(buckets)@),
            commit_fits(before, at as int),
            i <= buckets.len(),
            buckets.len() == before.len(),
            forall|k: int|
                0 <= k < i ==> (#[trigger] buckets[k])@ == before[k].committed(at as int),
            forall|k: int| i <= k < buckets.len() ==> (#[trigger] buckets[k])@ == before[k],
        decreases buckets.len() - i,
    {
        assert(buckets[i as int]@ == before[i as int]);
        buckets[i].advance_commit(at);
        i += 1;
    }
    assert(bucket_views(buckets@) =~= all_committed(before, at as int));
}

fn release_all(buckets: &mut Vec<Bucket>)
    ensures
        bucket_views(final(buckets)@) == all_released(bucket_views(old(buckets)@)),
{
    let mut i: usize = 0;
    let ghost before = bucket_views(buckets@);
    while i < buckets.len()
        invariant
            before == bucket_views(old(buckets)@),
            i <= buckets.len(),
            buckets.len() == before.len(),
            forall|k: int| 0 <= k < i ==> (#[trigger] buckets[k])@ == before[k].released(),
            forall|k: int| i <= k < buckets.len() ==> (#[trigger] buckets[k])@ == before[k],
        decreases buckets.len() - i,
    {
        assert(buckets[i as int]@ == before[i as int]);
        buckets[i].release_reserve();
        i += 1;
    }
    assert(bucket_views(buckets@) =~= all_released(before));
}

/// A selectable resource carrying its private buckets in conjunction.
#[derive(Clone, Debug)]
pub struct Resource<K> {
    pub key: K,
    pub alive: bool,
    buckets: Vec<Bucket>,
}

impl<K> View for Resource<K> {
    type V = ResourceView<K>;

    closed spec fn view(&self) -> ResourceView<K> {
        ResourceView { key: self.key, alive: self.alive, buckets: bucket_views(self.buckets@) }
    }
}

impl<K> Resource<K> {
    pub fn new(key: K, buckets: Vec<Bucket>) -> (resource: Resource<K>)
        ensures
            resource@ == (ResourceView { key, alive: true, buckets: bucket_views(buckets@) }),
    {
        Resource { key, alive: true, buckets }
    }

    fn reserve_slack(&self, now: u64) -> (slack: i128)
        ensures
            slack == top_reserve_slack(self@.buckets, now as int),
            slack <= u64::MAX - now,
    {
        reserve_slack_of(&self.buckets, now)
    }

    fn commit_slack(&self, now: u64) -> (slack: i128)
        ensures
            slack == top_commit_slack(self@.buckets, now as int),
            slack <= u64::MAX - now,
    {
        commit_slack_of(&self.buckets, now)
    }

    fn advance_reserve(&mut self, at: u64)
        requires
            reserve_fits(old(self)@.buckets, at as int),
        ensures
            final(self)@ == (ResourceView {
                buckets: all_reserved(old(self)@.buckets, at as int),
                ..old(self)@
            }),
    {
        reserve_all(&mut self.buckets, at);
    }

    fn advance_commit(&mut self, at: u64)
        requires
            commit_fits(old(self)@.buckets, at as int),
        ensures
            final(self)@ == (ResourceView {
                buckets: all_committed(old(self)@.buckets, at as int),
                ..old(self)@
            }),
    {
        commit_all(&mut self.buckets, at);
    }

    fn release_reserve(&mut self)
        ensures
            final(self)@ == (ResourceView {
                buckets: all_released(old(self)@.buckets),
                ..old(self)@
            }),
    {
        release_all(&mut self.buckets);
    }
}

/// Per-pool demand: leave the choice to the engine, or pin it.
#[derive(Clone, Debug)]
pub enum Pin<K> {
    Fixed(K),
    Free,
}

/// A selection axis: a family of equivalent resources.
#[derive(Clone, Debug)]
pub struct Pool<K> {
    pub resources: Vec<Resource<K>>,
}

pub open spec fn pool_view<K>(pool: Pool<K>) -> Seq<ResourceView<K>> {
    pool.resources@.map_values(|r: Resource<K>| r@)
}

impl<K> View for Pool<K> {
    type V = Seq<ResourceView<K>>;

    open spec fn view(&self) -> Seq<ResourceView<K>> {
        pool_view(*self)
    }
}

/// Whether resource `i` may serve the pin.
pub open spec fn eligible<K: PartialEq>(
    pool: Seq<ResourceView<K>>,
    pin: Pin<K>,
    i: int,
) -> bool {
    &&& 0 <= i < pool.len()
    &&& pool[i].alive
    &&& pin matches Pin::Fixed(key) ==> pool[i].key.eq_spec(&key)
}

pub open spec fn none_eligible<K: PartialEq>(pool: Seq<ResourceView<K>>, pin: Pin<K>) -> bool {
    forall|j: int| !eligible(pool, pin, j)
}

/// Whether resource `i` is the choice for the pin: the first eligible one for
/// a fixed key; for a free pin the most rested eligible one, and the first of
/// those.
pub open spec fn is_choice<K: PartialEq>(
    pool: Seq<ResourceView<K>>,
    pin: Pin<K>,
    now: int,
    i: int,
) -> bool {
    &&& eligible(pool, pin, i)
    &&& forall|j: int| #[trigger]
        eligible(pool, pin, j) ==> match pin {
            Pin::Fixed(_) => i <= j,
            Pin::Free => {
                let mine = top_reserve_slack(pool[i].buckets, now);
                let other = top_reserve_slack(pool[j].buckets, now);
                mine <= other && (j < i ==> mine < other)
            },
        }
}

impl<K: PartialEq> Pool<K> {
    pub fn new(resources: Vec<Resource<K>>) -> (pool: Pool<K>)
        ensures
            pool.resources == resources,
    {
        Pool { resources }
    }

    /// Resolves a pin to a resource index: the most rested live resource for
    /// a free pin, with ties broken by order.
    fn resolve(&self, pin: &Pin<K>, now: u64) -> (choice: Option<usize>)
        requires
            K::obeys_eq_spec(),
        ensures
            match choice {
                Some(i) => is_choice(self@, *pin, now as int, i as int),
                None => none_eligible(self@, *pin),
            },
    {
        match pin {
            Pin::Fixed(key) => {
                let mut i: usize = 0;
                while i < self.resources.len()
                    invariant
                        K::obeys_eq_spec(),
                        *pin == Pin::Fixed(*key),
                        i <= self.resources.len(),
                        forall|j: int| j < i ==> !eligible(self@, *pin, j),
                    decreases self.resources.len() - i,
                {
                    assert(self@[i as int] == self.resources[i as int]@);
                    if self.resources[i].alive && self.resources[i].key == *key {
                        return Some(i);
                    }
                    i += 1;
                }
                None
            },
            Pin::Free => {
                let mut best: Option<usize> = None;
                let mut best_slack: i128 = 0;
                let mut i: usize = 0;
                while i < self.resources.len()
                    invariant
                        *pin == Pin::<K>::Free,
                        i <= self.resources.len(),
                        match best {
                            None => forall|j: int| j < i ==> !eligible(self@, *pin, j),
                            Some(b) => {
                                &&& eligible(self@, *pin, b as int)
                                &&& b < i
                                &&& best_slack == top_reserve_slack(
                                    self@[b as int].buckets,
                                    now as int,
                                )
                                &&& forall|j: int|
                                    j < i && #[trigger] eligible(self@, *pin, j) ==> {
                                        let other = top_reserve_slack(
                                            self@[j].buckets,
                                            now as int,
                                        );
                                        best_slack <= other && (j < b ==> best_slack < other)
                                    }
                            },
                        },
                    decreases self.resources.len() - i,
                {
                    assert(self@[i as int] == self.resources[i as int]@);
                    if self.resources[i].alive {
                        let slack: i128 = self.resources[i].reserve_slack(now);
                        let better: bool = match best {
                            None => true,
                            Some(_) => slack < best_slack,
                        };
                        if better {
                            best = Some(i);
                            best_slack = slack;
                        }
                    }
                    i += 1;
                }
                best
            },
        }
    }
}

/// What the caller gets back: when to send the last byte, and what was chosen.
#[derive(Clone, Debug)]
pub struct Allocation<K> {
    pub send_at: u64,
    pub picks: Vec<K>,
}

/// What an engine is: the shared buckets and the pools of resources.
pub struct EngineView<K> {
    pub shared: Seq<BucketView>,
    pub pools: Seq<Seq<ResourceView<K>>>,
}

/// One pick per pool, each within its pool. Pools beyond the picks are left out.
pub open spec fn picks_valid<K>(pools: Seq<Seq<ResourceView<K>>>, idxs: Seq<usize>) -> bool {
    forall|p: int|
        0 <= p < pools.len() && p < idxs.len() ==> (#[trigger] idxs[p]) < pools[p].len()
}

/// The pools with the buckets of each picked resource changed by `step`.
pub open spec fn picked_changed<K>(
    pools: Seq<Seq<ResourceView<K>>>,
    idxs: Seq<usize>,
    step: spec_fn(Seq<BucketView>) -> Seq<BucketView>,
) -> Seq<Seq<ResourceView<K>>> {
    Seq::new(
        pools.len(),
        |p: int|
            if p < idxs.len() {
                let i = idxs[p] as int;
                pools[p].update(i, ResourceView { buckets: step(pools[p][i].buckets), ..pools[p][i] })
            } else {
                pools[p]
            },
    )
}

/// Largest allocation slack over the shared buckets and the first `n` picks.
pub open spec fn overall_reserve_slack<K>(
    view: EngineView<K>,
    idxs: Seq<usize>,
    n: int,
    now: int,
) -> int
    decreases n,
{
    if n <= 0 {
        top_reserve_slack(view.shared, now)
    } else {
        larger(
            overall_reserve_slack(view, idxs, n - 1, now),
            top_reserve_slack(view.pools[n - 1][idxs[n - 1] as int].buckets, now),
        )
    }
}

/// Largest commit slack over the shared buckets and the first `n` picks.
pub open spec fn overall_commit_slack<K>(
    view: EngineView<K>,
    idxs: Seq<usize>,
    n: int,
    now: int,
) -> int
    decreases n,
{
    if n <= 0 {
        top_commit_slack(view.shared, now)
    } else {
        larger(
            overall_commit_slack(view, idxs, n - 1, now),
            top_commit_slack(view.pools[n - 1][idxs[n - 1] as int].buckets, now),
        )
    }
}

proof fn lemma_overall_reserve_prefix<K>(
    view: EngineView<K>,
    short: Seq<usize>,
    long: Seq<usize>,
    n: int,
    now: int,
)
    requires
        0 <= n <= short.len() <= long.len(),
        forall|p: int| 0 <= p < n ==> short[p] == long[p],
    ensures
        overall_reserve_slack(view, short, n, now) == overall_reserve_slack(view, long, n, now),
    decreases n,
{
    if n > 0 {
        lemma_overall_reserve_prefix(view, short, long, n - 1, now);
    }
}

/// When the live gate opens for these picks.
pub open spec fn gate_time<K>(view: EngineView<K>, idxs: Seq<usize>, now: int) -> int {
    now + larger(
        overall_commit_slack(view, idxs, smaller(view.pools.len() as int, idxs.len() as int), now),
        0,
    )
}

/// What a peek answers: nothing exactly when some pool has no eligible
/// resource, otherwise the choice of every pool and the earliest time at which
/// all their buckets admit a reservation.
pub open spec fn is_peek<K: PartialEq>(
    view: EngineView<K>,
    demand: Seq<Pin<K>>,
    now: int,
    answer: Option<(Seq<usize>, u64)>,
) -> bool {
    match answer {
        None => exists|p: int|
            0 <= p < view.pools.len() && #[trigger] none_eligible(view.pools[p], demand[p]),
        Some((idxs, at)) => {
            &&& idxs.len() == view.pools.len()
            &&& forall|p: int|
                0 <= p < view.pools.len() ==> is_choice(
                    view.pools[p],
                    demand[p],
                    now,
                    #[trigger] idxs[p] as int,
                )
            &&& at == now + larger(
                overall_reserve_slack(view, idxs, view.pools.len() as int, now),
                0,
            )
        },
    }
}

/// The clock has room for a reservation of these picks at `at`.
pub open spec fn admit_fits<K>(view: EngineView<K>, idxs: Seq<usize>, at: int) -> bool {
    &&& reserve_fits(view.shared, at)
    &&& forall|p: int|
        0 <= p < view.pools.len() && p < idxs.len() ==> reserve_fits(
            view.pools[p][#[trigger] idxs[p] as int].buckets,
            at,
        )
}

/// The clock has room for a commit of these picks at `at`.
pub open spec fn do_commit_fits<K>(view: EngineView<K>, idxs: Seq<usize>, at: int) -> bool {
    &&& commit_fits(view.shared, at)
    &&& forall|p: int|
        0 <= p < view.pools.len() && p < idxs.len() ==> commit_fits(
            view.pools[p][#[trigger] idxs[p] as int].buckets,
            at,
        )
}

impl<K> EngineView<K> {
    pub open spec fn admitted(self, idxs: Seq<usize>, at: int) -> EngineView<K> {
        EngineView {
            shared: all_reserved(self.shared, at),
            pools: picked_changed(self.pools, idxs, |b: Seq<BucketView>| all_reserved(b, at)),
        }
    }

    pub open spec fn committed(self, idxs: Seq<usize>, at: int) -> EngineView<K> {
        EngineView {
            shared: all_committed(self.shared, at),
            pools: picked_changed(self.pools, idxs, |b: Seq<BucketView>| all_committed(b, at)),
        }
    }

    /// The engine with one resource replaced.
    pub open spec fn resource_set(self, pool: int, i: int, resource: ResourceView<K>) -> EngineView<
        K,
    > {
        EngineView {
            pools: self.pools.update(pool, self.pools[pool].update(i, resource)),
            ..self
        }
    }

    pub open spec fn released(self, idxs: Seq<usize>) -> EngineView<K> {
        EngineView {
            shared: all_released(self.shared),
            pools: picked_changed(self.pools, idxs, |b: Seq<BucketView>| all_released(b)),
        }
    }
}

/// Whether the picked keys are the keys of the picked resources.
pub open spec fn keys_of<K: Clone>(
    pools: Seq<Seq<ResourceView<K>>>,
    idxs: Seq<usize>,
    picks: Seq<K>,
) -> bool {
    &&& picks.len() == smaller(pools.len() as int, idxs.len() as int)
    &&& forall|p: int|
        0 <= p < picks.len() ==> vstd::pervasive::cloned(pools[p][idxs[p] as int].key, #[trigger] picks[p])
}

/// Whether a claim took the peeked picks: they are admitted at the peeked time
/// and their keys are handed out.
pub open spec fn is_claim<K: PartialEq + Clone>(
    before: EngineView<K>,
    demand: Seq<Pin<K>>,
    now: int,
    idxs: Seq<usize>,
    send_at: u64,
    picks: Seq<K>,
    after: EngineView<K>,
) -> bool {
    &&& is_peek(before, demand, now, Some((idxs, send_at)))
    &&& after == before.admitted(idxs, send_at as int)
    &&& keys_of(before.pools, idxs, picks)
}

/// Whatever a peek answers, the clock has room for admitting it.
pub open spec fn claim_fits<K: PartialEq>(
    view: EngineView<K>,
    demand: Seq<Pin<K>>,
    now: int,
) -> bool {
    forall|idxs: Seq<usize>, at: u64| #[trigger]
        is_peek(view, demand, now, Some((idxs, at))) ==> admit_fits(view, idxs, at as int)
}

/// Whether the outcome is that of a claim of some picks.
pub open spec fn claimed<K: PartialEq + Clone>(
    before: EngineView<K>,
    demand: Seq<Pin<K>>,
    now: int,
    send_at: u64,
    picks: Seq<K>,
    after: EngineView<K>,
) -> bool {
    exists|idxs: Seq<usize>| is_claim(before, demand, now, idxs, send_at, picks, after)
}

/// Whether `i` is the first resource of the pool with this key.
pub open spec fn is_first_with_key<K: PartialEq>(
    pool: Seq<ResourceView<K>>,
    key: K,
    i: int,
) -> bool {
    &&& 0 <= i < pool.len()
    &&& pool[i].key.eq_spec(&key)
    &&& forall|j: int| 0 <= j < i ==> !(#[trigger] pool[j]).key.eq_spec(&key)
}

/// No resource of the pool has the key.
pub open spec fn no_key<K: PartialEq>(pool: Seq<ResourceView<K>>, key: K) -> bool {
    forall|i: int| 0 <= i < pool.len() ==> !(#[trigger] pool[i]).key.eq_spec(&key)
}

/// The first resource with the key is changed, and nothing where none has it.
pub open spec fn keyed_changed<K: PartialEq>(
    before: EngineView<K>,
    pool: int,
    key: K,
    change: spec_fn(ResourceView<K>) -> ResourceView<K>,
    after: EngineView<K>,
) -> bool {
    &&& forall|i: int| #[trigger]
        is_first_with_key(before.pools[pool], key, i) ==> after == before.resource_set(
            pool,
            i,
            change(before.pools[pool][i]),
        )
    &&& no_key(before.pools[pool], key) ==> after == before
}

/// Re-anchoring the first resource with the key fits the clock.
pub open spec fn keyed_reconcile_fits<K: PartialEq>(
    view: EngineView<K>,
    pool: int,
    key: K,
    label: Seq<char>,
    remaining: int,
    capacity: int,
    now: int,
) -> bool {
    forall|i: int| #[trigger]
        is_first_with_key(view.pools[pool], key, i) ==> reconcile_fits(
            view.pools[pool][i].buckets,
            label,
            remaining,
            capacity,
            now,
        )
}

/// The buckets with those of the label re-anchored.
pub open spec fn label_reconciled(
    buckets: Seq<BucketView>,
    label: Seq<char>,
    remaining: int,
    capacity: int,
    now: int,
) -> Seq<BucketView> {
    buckets.map_values(
        |b: BucketView|
            if b.label == label { b.reconciled(remaining, capacity, now) } else { b },
    )
}

/// What a reading from the server for one bucket of a resource makes of an
/// engine.
pub open spec fn is_reading<K: PartialEq>(
    before: EngineView<K>,
    pool: int,
    key: K,
    label: Seq<char>,
    remaining: int,
    capacity: int,
    now: int,
    after: EngineView<K>,
) -> bool {
    keyed_changed(
        before,
        pool,
        key,
        |r: ResourceView<K>|
            ResourceView {
                buckets: label_reconciled(r.buckets, label, remaining, capacity, now),
                ..r
            },
        after,
    )
}

/// What telling that a resource lives or is dead makes of an engine.
pub open spec fn is_aliveness<K: PartialEq>(
    before: EngineView<K>,
    pool: int,
    key: K,
    alive: bool,
    after: EngineView<K>,
) -> bool {
    keyed_changed(
        before,
        pool,
        key,
        |r: ResourceView<K>| ResourceView { alive, ..r },
        after,
    )
}

/// The clock has room for re-anchoring the buckets of the label.
pub open spec fn reconcile_fits(
    buckets: Seq<BucketView>,
    label: Seq<char>,
    remaining: int,
    capacity: int,
    now: int,
) -> bool {
    forall|i: int|
        0 <= i < buckets.len() && (#[trigger] buckets[i]).label == label ==> buckets[i].reconciled(
            remaining,
            capacity,
            now,
        ).tat <= u64::MAX
}

fn reconcile_label(
    buckets: &mut Vec<Bucket>,
    label: &'static str,
    remaining: u32,
    capacity: u32,
    now: u64,
)
    requires
        reconcile_fits(
            bucket_views(old(buckets)@),
            label@,
            remaining as int,
            capacity as int,
            now as int,
        ),
    ensures
        bucket_views(final(buckets)@) == label_reconciled(
            bucket_views(old(buckets)@),
            label@,
            remaining as int,
            capacity as int,
            now as int,
        ),
{
    let mut i: usize = 0;
    let ghost before = bucket_views(buckets@);
    let ghost after = label_reconciled(
        before,
        label@,
        remaining as int,
        capacity as int,
        now as int,
    );
    while i < buckets.len()
        invariant
            before == bucket_views(old(buckets)@),
            after == label_reconciled(
                before,
                label@,
                remaining as int,
                capacity as int,
                now as int,
            ),
            reconcile_fits(before, label@, remaining as int, capacity as int, now as int),
            i <= buckets.len(),
            buckets.len() == before.len(),
            forall|k: int| 0 <= k < i ==> (#[trigger] buckets[k])@ == after[k],
            forall|k: int| i <= k < buckets.len() ==> (#[trigger] buckets[k])@ == before[k],
        decreases buckets.len() - i,
    {
        assert(buckets[i as int]@ == before[i as int]);
        if same_text(buckets[i].label, label) {
            buckets[i].reconcile(remaining, capacity, now);
        }
        i += 1;
    }
    assert(bucket_views(buckets@) =~= after);
}

/// The engine. Owned by one task; pure and synchronous.
pub struct QuotaEngine<K> {
    shared: Vec<Bucket>,
    pools: Vec<Pool<K>>,
}

impl<K> View for QuotaEngine<K> {
    type V = EngineView<K>;

    closed spec fn view(&self) -> EngineView<K> {
        EngineView {
            shared: bucket_views(self.shared@),
            pools: self.pools@.map_values(|p: Pool<K>| p@),
        }
    }
}

impl<K: PartialEq + Clone> QuotaEngine<K> {
    pub fn new(shared: Vec<Bucket>, pools: Vec<Pool<K>>) -> (engine: QuotaEngine<K>)
        ensures
            engine@ == (EngineView {
                shared: bucket_views(shared@),
                pools: pools@.map_values(|p: Pool<K>| p@),
            }),
    {
        QuotaEngine { shared, pools }
    }

    /// Admission peek on the allocation horizon: the least loaded resources
    /// and the earliest time a reservation could be admitted. Spends nothing.
    pub fn peek_reserve(&self, demand: &[Pin<K>], now: u64) -> (answer: Option<(Vec<usize>, u64)>)
        requires
            K::obeys_eq_spec(),
            demand.len() == self@.pools.len(),
        ensures
            is_peek(
                self@,
                demand@,
                now as int,
                match answer {
                    Some((idxs, at)) => Some((idxs@, at)),
                    None => None,
                },
            ),
    {
        let mut overall: i128 = reserve_slack_of(&self.shared, now);
        let mut idxs: Vec<usize> = Vec::with_capacity(self.pools.len());
        let mut p: usize = 0;
        while p < self.pools.len()
            invariant
                K::obeys_eq_spec(),
                demand.len() == self@.pools.len(),
                p <= self.pools.len(),
                idxs.len() == p,
                overall == overall_reserve_slack(self@, idxs@, p as int, now as int),
                overall <= u64::MAX - now,
                forall|q: int|
                    0 <= q < p ==> is_choice(
                        self@.pools[q],
                        demand[q],
                        now as int,
                        #[trigger] idxs[q] as int,
                    ),
            decreases self.pools.len() - p,
        {
            assert(self@.pools[p as int] == self.pools[p as int]@);
            match self.pools[p].resolve(&demand[p], now) {
                None => {
                    return None;
                },
                Some(i) => {
                    let slack: i128 = self.pools[p].resources[i].reserve_slack(now);
                    let ghost earlier = idxs@;
                    if slack > overall {
                        overall = slack;
                    }
                    idxs.push(i);
                    proof {
                        lemma_overall_reserve_prefix(self@, earlier, idxs@, p as int, now as int);
                    }
                },
            }
            p += 1;
        }
        let wait: u64 = if overall > 0 { overall as u64 } else { 0 };
        Some((idxs, now + wait))
    }

    /// Admits the peeked reservation: advances the allocation horizon only.
    pub fn admit_reservation(&mut self, idxs: &[usize], at: u64) -> (picks: Vec<K>)
        requires
            picks_valid(old(self)@.pools, idxs@),
            admit_fits(old(self)@, idxs@, at as int),
        ensures
            final(self)@ == old(self)@.admitted(idxs@, at as int),
            keys_of(old(self)@.pools, idxs@, picks@),
    {
        let ghost before = self@;
        let ghost target = before.admitted(idxs@, at as int);
        reserve_all(&mut self.shared, at);
        let mut picks: Vec<K> = Vec::with_capacity(idxs.len());
        let mut p: usize = 0;
        while p < self.pools.len() && p < idxs.len()
            invariant
                before == old(self)@,
                target == before.admitted(idxs@, at as int),
                picks_valid(before.pools, idxs@),
                admit_fits(before, idxs@, at as int),
                p <= self.pools.len(),
                p <= idxs.len(),
                self@.shared == target.shared,
                self@.pools.len() == before.pools.len(),
                forall|q: int| 0 <= q < p ==> (#[trigger] self@.pools[q]) == target.pools[q],
                forall|q: int|
                    p <= q < before.pools.len() ==> (#[trigger] self@.pools[q]) == before.pools[q],
                picks.len() == p,
                forall|q: int|
                    0 <= q < p ==> vstd::pervasive::cloned(
                        before.pools[q][idxs[q] as int].key,
                        #[trigger] picks[q],
                    ),
            decreases self.pools.len() - p,
        {
            let i: usize = idxs[p];
            let ghost pool = self@.pools[p as int];
            assert(pool == before.pools[p as int]);
            assert(pool == self.pools[p as int]@);
            assert(pool[i as int] == self.pools[p as int].resources[i as int]@);
            let ghost previous = self@;
            self.pools[p].resources[i].advance_reserve(at);
            proof {
                assert(self.pools[p as int]@ =~= target.pools[p as int]);
                assert(self@.pools =~= previous.pools.update(p as int, target.pools[p as int]));
            }
            let key: K = self.pools[p].resources[i].key.clone();
            picks.push(key);
            p += 1;
        }
        assert(self@.pools =~= target.pools);
        picks
    }

    /// The commit gate: the earliest time the held slot may commit, read from
    /// the live commit horizon.
    pub fn earliest_commit(&self, idxs: &[usize], now: u64) -> (at: u64)
        requires
            picks_valid(self@.pools, idxs@),
        ensures
            at == gate_time(self@, idxs@, now as int),
    {
        let mut overall: i128 = commit_slack_of(&self.shared, now);
        let mut p: usize = 0;
        while p < self.pools.len() && p < idxs.len()
            invariant
                picks_valid(self@.pools, idxs@),
                p <= self.pools.len(),
                p <= idxs.len(),
                overall == overall_commit_slack(self@, idxs@, p as int, now as int),
                overall <= u64::MAX - now,
            decreases self.pools.len() - p,
        {
            let i: usize = idxs[p];
            assert(self@.pools[p as int] == self.pools[p as int]@);
            assert(self@.pools[p as int][i as int] == self.pools[p as int].resources[i as int]@);
            let slack: i128 = self.pools[p].resources[i].commit_slack(now);
            if slack > overall {
                overall = slack;
            }
            p += 1;
        }
        let wait: u64 = if overall > 0 { overall as u64 } else { 0 };
        now + wait
    }

    /// Authorizes the commit at `at`: the only place where quota is spent.
    pub fn do_commit(&mut self, idxs: &[usize], at: u64)
        requires
            picks_valid(old(self)@.pools, idxs@),
            do_commit_fits(old(self)@, idxs@, at as int),
        ensures
            final(self)@ == old(self)@.committed(idxs@, at as int),
    {
        let ghost before = self@;
        let ghost target = before.committed(idxs@, at as int);
        commit_all(&mut self.shared, at);
        let mut p: usize = 0;
        while p < self.pools.len() && p < idxs.len()
            invariant
                before == old(self)@,
                target == before.committed(idxs@, at as int),
                picks_valid(before.pools, idxs@),
                do_commit_fits(before, idxs@, at as int),
                p <= self.pools.len(),
                p <= idxs.len(),
                self@.shared == target.shared,
                self@.pools.len() == before.pools.len(),
                forall|q: int| 0 <= q < p ==> (#[trigger] self@.pools[q]) == target.pools[q],
                forall|q: int|
                    p <= q < before.pools.len() ==> (#[trigger] self@.pools[q]) == before.pools[q],
            decreases self.pools.len() - p,
        {
            let i: usize = idxs[p];
            let ghost pool = self@.pools[p as int];
            assert(pool == before.pools[p as int]);
            assert(pool == self.pools[p as int]@);
            assert(pool[i as int] == self.pools[p as int].resources[i as int]@);
            let ghost previous = self@;
            self.pools[p].resources[i].advance_commit(at);
            proof {
                assert(self.pools[p as int]@ =~= target.pools[p as int]);
                assert(self@.pools =~= previous.pools.update(p as int, target.pools[p as int]));
            }
            p += 1;
        }
        assert(self@.pools =~= target.pools);
    }

    /// Cancels an admitted reservation that never committed: rolls back the
    /// allocation horizon only.
    pub fn release(&mut self, idxs: &[usize])
        requires
            picks_valid(old(self)@.pools, idxs@),
        ensures
            final(self)@ == old(self)@.released(idxs@),
    {
        let ghost before = self@;
        let ghost target = before.released(idxs@);
        release_all(&mut self.shared);
        let mut p: usize = 0;
        while p < self.pools.len() && p < idxs.len()
            invariant
                before == old(self)@,
                target == before.released(idxs@),
                picks_valid(before.pools, idxs@),
                p <= self.pools.len(),
                p <= idxs.len(),
                self@.shared == target.shared,
                self@.pools.len() == before.pools.len(),
                forall|q: int| 0 <= q < p ==> (#[trigger] self@.pools[q]) == target.pools[q],
                forall|q: int|
                    p <= q < before.pools.len() ==> (#[trigger] self@.pools[q]) == before.pools[q],
            decreases self.pools.len() - p,
        {
            let i: usize = idxs[p];
            let ghost pool = self@.pools[p as int];
            assert(pool == before.pools[p as int]);
            assert(pool == self.pools[p as int]@);
            assert(pool[i as int] == self.pools[p as int].resources[i as int]@);
            let ghost previous = self@;
            self.pools[p].resources[i].release_reserve();
            proof {
                assert(self.pools[p as int]@ =~= target.pools[p as int]);
                assert(self@.pools =~= previous.pools.update(p as int, target.pools[p as int]));
            }
            p += 1;
        }
        assert(self@.pools =~= target.pools);
    }

    /// Admits a reservation at once, on the allocation horizon only.
    pub fn claim(&mut self, demand: &[Pin<K>], now: u64) -> (allocation: Option<Allocation<K>>)
        requires
            K::obeys_eq_spec(),
            demand.len() == old(self)@.pools.len(),
            claim_fits(old(self)@, demand@, now as int),
        ensures
            allocation is None ==> is_peek(old(self)@, demand@, now as int, None) && final(self)@
                == old(self)@,
            allocation is Some ==> claimed(
                old(self)@,
                demand@,
                now as int,
                allocation->0.send_at,
                allocation->0.picks@,
                final(self)@,
            ),
    {
        let ghost before = self@;
        match self.peek_reserve(demand, now) {
            None => {
                assert(is_peek(self@, demand@, now as int, None));
                None
            },
            Some((idxs, send_at)) => {
                assert(is_peek(self@, demand@, now as int, Some((idxs@, send_at))));
                assert forall|p: int| 0 <= p < self@.pools.len() && p < idxs@.len() implies (
                #[trigger] idxs@[p]) < self@.pools[p].len() by {
                    assert(is_choice(self@.pools[p], demand@[p], now as int, idxs@[p] as int));
                }
                let picks: Vec<K> = self.admit_reservation(idxs.as_slice(), send_at);
                assert(is_claim(
                    before,
                    demand@,
                    now as int,
                    idxs@,
                    send_at,
                    picks@,
                    self@,
                ));
                Some(Allocation { send_at, picks })
            },
        }
    }

    fn find_key(&self, pool: usize, key: &K) -> (found: Option<usize>)
        requires
            K::obeys_eq_spec(),
            pool < self@.pools.len(),
        ensures
            match found {
                Some(i) => is_first_with_key(self@.pools[pool as int], *key, i as int),
                None => no_key(self@.pools[pool as int], *key),
            },
    {
        let mut i: usize = 0;
        assert(self@.pools[pool as int] == self.pools[pool as int]@);
        while i < self.pools[pool].resources.len()
            invariant
                K::obeys_eq_spec(),
                pool < self.pools.len(),
                self@.pools[pool as int] == self.pools[pool as int]@,
                i <= self.pools[pool as int].resources.len(),
                forall|j: int|
                    0 <= j < i ==> !(#[trigger] self@.pools[pool as int][j]).key.eq_spec(key),
            decreases self.pools[pool as int].resources.len() - i,
        {
            assert(self@.pools[pool as int][i as int]
                == self.pools[pool as int].resources[i as int]@);
            if self.pools[pool].resources[i].key == *key {
                return Some(i);
            }
            i += 1;
        }
        None
    }

    /// Feeds back an observed rate-limit header for one bucket of one resource.
    pub fn reconcile(
        &mut self,
        pool: usize,
        key: &K,
        bucket: &'static str,
        remaining: u32,
        capacity: u32,
        now: u64,
    )
        requires
            K::obeys_eq_spec(),
            pool < old(self)@.pools.len(),
            keyed_reconcile_fits(
                old(self)@,
                pool as int,
                *key,
                bucket@,
                remaining as int,
                capacity as int,
                now as int,
            ),
        ensures
            is_reading(
                old(self)@,
                pool as int,
                *key,
                bucket@,
                remaining as int,
                capacity as int,
                now as int,
                final(self)@,
            ),
    {
        match self.find_key(pool, key) {
            None => {},
            Some(i) => {
                let ghost before = self@;
                assert(before.pools[pool as int] == self.pools[pool as int]@);
                assert(before.pools[pool as int][i as int]
                    == self.pools[pool as int].resources[i as int]@);
                reconcile_label(
                    &mut self.pools[pool].resources[i].buckets,
                    bucket,
                    remaining,
                    capacity,
                    now,
                );
                proof {
                    let changed = ResourceView {
                        buckets: label_reconciled(
                            before.pools[pool as int][i as int].buckets,
                            bucket@,
                            remaining as int,
                            capacity as int,
                            now as int,
                        ),
                        ..before.pools[pool as int][i as int]
                    };
                    assert(self.pools[pool as int]@ =~= before.pools[pool as int].update(
                        i as int,
                        changed,
                    ));
                    assert(self@.pools =~= before.resource_set(pool as int, i as int, changed).pools);
                }
            },
        }
    }

    pub fn set_alive(&mut self, pool: usize, key: &K, alive: bool)
        requires
            K::obeys_eq_spec(),
            pool < old(self)@.pools.len(),
        ensures
            is_aliveness(old(self)@, pool as int, *key, alive, final(self)@),
    {
        match self.find_key(pool, key) {
            None => {},
            Some(i) => {
                let ghost before = self@;
                assert(before.pools[pool as int] == self.pools[pool as int]@);
                assert(before.pools[pool as int][i as int]
                    == self.pools[pool as int].resources[i as int]@);
                self.pools[pool].resources[i].alive = alive;
                proof {
                    let changed = ResourceView { alive, ..before.pools[pool as int][i as int] };
                    assert(self.pools[pool as int]@ =~= before.pools[pool as int].update(
                        i as int,
                        changed,
                    ));
                    assert(self@.pools =~= before.resource_set(pool as int, i as int, changed).pools);
                }
            },
        }
    }
}

/// Times up to this one leave the clock room for one step of any kind.
pub const CLOCK_LIMIT: u64 = 9_223_372_036_854_775_807;

impl BucketView {
    /// The horizons, and the time of this many tokens, lie within the limit.
    pub open spec fn has_room(self, tokens: int) -> bool {
        &&& 0 <= self.interval
        &&& 0 <= self.tolerance
        &&& self.tat <= CLOCK_LIMIT
        &&& self.rtat <= CLOCK_LIMIT
        &&& self.interval * larger(tokens, 1) <= CLOCK_LIMIT
    }
}

pub open spec fn all_room(buckets: Seq<BucketView>, tokens: int) -> bool {
    forall|i: int| 0 <= i < buckets.len() ==> (#[trigger] buckets[i]).has_room(tokens)
}

impl<K> EngineView<K> {
    /// The time and every bucket lie within the limit of the clock.
    pub open spec fn has_room(self, now: int, tokens: int) -> bool {
        &&& now <= CLOCK_LIMIT
        &&& all_room(self.shared, tokens)
        &&& forall|p: int, r: int|
            #![trigger self.pools[p][r]]
            0 <= p < self.pools.len() && 0 <= r < self.pools[p].len() ==> all_room(
                self.pools[p][r].buckets,
                tokens,
            )
    }
}

fn buckets_have_room(buckets: &Vec<Bucket>, tokens: u32) -> (room: bool)
    ensures
        room == all_room(bucket_views(buckets@), tokens as int),
{
    let ghost views = bucket_views(buckets@);
    let counted: u32 = if tokens >= 1 { tokens } else { 1 };
    let mut i: usize = 0;
    while i < buckets.len()
        invariant
            views == bucket_views(buckets@),
            counted == larger(tokens as int, 1),
            i <= buckets.len(),
            forall|k: int| 0 <= k < i ==> (#[trigger] views[k]).has_room(tokens as int),
        decreases buckets.len() - i,
    {
        let bucket: &Bucket = &buckets[i];
        assert(views[i as int] == bucket@);
        let interval: u64 = bucket.interval;
        proof {
            assert(0 <= interval * counted <= u64::MAX * u32::MAX) by (nonlinear_arith)
                requires
                    0 <= interval <= u64::MAX,
                    0 <= counted <= u32::MAX,
            ;
        }
        let time: u128 = interval as u128 * counted as u128;
        if bucket.tat > CLOCK_LIMIT || bucket.rtat > CLOCK_LIMIT || time > CLOCK_LIMIT as u128 {
            assert(!views[i as int].has_room(tokens as int));
            return false;
        }
        i += 1;
    }
    true
}

impl<K: PartialEq + Clone> QuotaEngine<K> {
    /// Whether the clock has room at `now` for every call: a claim, a commit,
    /// and a report of up to `tokens` spent tokens.
    pub fn has_room(&self, now: u64, tokens: u32) -> (room: bool)
        ensures
            room == self@.has_room(now as int, tokens as int),
    {
        if now > CLOCK_LIMIT || !buckets_have_room(&self.shared, tokens) {
            return false;
        }
        let mut p: usize = 0;
        while p < self.pools.len()
            invariant
                p <= self.pools.len(),
                now <= CLOCK_LIMIT,
                all_room(self@.shared, tokens as int),
                forall|q: int, r: int|
                    #![trigger self@.pools[q][r]]
                    0 <= q < p && 0 <= r < self@.pools[q].len() ==> all_room(
                        self@.pools[q][r].buckets,
                        tokens as int,
                    ),
            decreases self.pools.len() - p,
        {
            let resources: &Vec<Resource<K>> = &self.pools[p].resources;
            assert(self@.pools[p as int] == self.pools[p as int]@);
            let mut r: usize = 0;
            while r < resources.len()
                invariant
                    p < self.pools.len(),
                    resources == &self.pools[p as int].resources,
                    self@.pools[p as int] == self.pools[p as int]@,
                    r <= resources.len(),
                    forall|k: int|
                        0 <= k < r ==> all_room(
                            (#[trigger] self@.pools[p as int][k]).buckets,
                            tokens as int,
                        ),
                decreases resources.len() - r,
            {
                assert(self@.pools[p as int][r as int] == resources[r as int]@);
                if !buckets_have_room(&resources[r].buckets, tokens) {
                    assert(!all_room(self@.pools[p as int][r as int].buckets, tokens as int));
                    return false;
                }
                r += 1;
            }
            p += 1;
        }
        true
    }
}

proof fn lemma_room_bounds_slack(buckets: Seq<BucketView>, tokens: int, now: int)
    requires
        all_room(buckets, tokens),
        now <= CLOCK_LIMIT,
    ensures
        top_reserve_slack(buckets, now) <= CLOCK_LIMIT - now,
    decreases buckets.len(),
{
    if buckets.len() > 0 {
        assert(all_room(buckets.drop_last(), tokens)) by {
            assert forall|i: int| 0 <= i < buckets.drop_last().len() implies (
            #[trigger] buckets.drop_last()[i]).has_room(tokens) by {
                assert(buckets[i].has_room(tokens));
            }
        }
        lemma_room_bounds_slack(buckets.drop_last(), tokens, now);
        assert(buckets[buckets.len() - 1].has_room(tokens));
    }
}

proof fn lemma_room_bounds_overall<K>(
    view: EngineView<K>,
    idxs: Seq<usize>,
    n: int,
    tokens: int,
    now: int,
)
    requires
        view.has_room(now, tokens),
        picks_valid(view.pools, idxs),
        0 <= n <= view.pools.len(),
        n <= idxs.len(),
    ensures
        overall_reserve_slack(view, idxs, n, now) <= CLOCK_LIMIT - now,
    decreases n,
{
    if n <= 0 {
        lemma_room_bounds_slack(view.shared, tokens, now);
    } else {
        lemma_room_bounds_overall(view, idxs, n - 1, tokens, now);
        assert(idxs[n - 1] < view.pools[n - 1].len());
        let picked = view.pools[n - 1][idxs[n - 1] as int];
        lemma_room_bounds_slack(picked.buckets, tokens, now);
    }
}

proof fn lemma_room_fits(buckets: Seq<BucketView>, tokens: int, at: int)
    requires
        all_room(buckets, tokens),
        at <= CLOCK_LIMIT,
    ensures
        reserve_fits(buckets, at),
        commit_fits(buckets, at),
{
    assert forall|i: int| 0 <= i < buckets.len() implies (#[trigger] buckets[i]).reserved(at).rtat
        <= u64::MAX && buckets[i].committed(at).tat <= u64::MAX by {
        let bucket = buckets[i];
        assert(bucket.has_room(tokens));
        let tokens_at_least_one = larger(tokens, 1);
        assert(bucket.interval <= bucket.interval * tokens_at_least_one) by (nonlinear_arith)
            requires
                bucket.interval >= 0,
                tokens_at_least_one >= 1,
        ;
    }
}

/// The room promise: while the time and all horizons lie within the limit of the
/// clock, every call fits it, whatever is asked for.
pub proof fn law_room_is_enough<K: PartialEq>(
    view: EngineView<K>,
    now: int,
    tokens: int,
    demand: Seq<Pin<K>>,
    idxs: Seq<usize>,
    pool: int,
    key: K,
    label: Seq<char>,
    remaining: int,
    capacity: int,
)
    requires
        view.has_room(now, tokens),
        0 <= remaining,
        capacity <= tokens,
        picks_valid(view.pools, idxs),
        0 <= pool < view.pools.len(),
    ensures
        claim_fits(view, demand, now),
        do_commit_fits(view, idxs, now),
        keyed_reconcile_fits(view, pool, key, label, remaining, capacity, now),
{
    assert forall|picks: Seq<usize>, at: u64| #[trigger]
        is_peek(view, demand, now, Some((picks, at))) implies admit_fits(
        view,
        picks,
        at as int,
    ) by {
        assert forall|p: int| 0 <= p < view.pools.len() && p < picks.len() implies (
        #[trigger] picks[p]) < view.pools[p].len() by {
            assert(is_choice(view.pools[p], demand[p], now, picks[p] as int));
        }
        lemma_room_bounds_overall(view, picks, view.pools.len() as int, tokens, now);
        lemma_room_fits(view.shared, tokens, at as int);
        assert forall|p: int| 0 <= p < view.pools.len() && p < picks.len() implies reserve_fits(
            view.pools[p][#[trigger] picks[p] as int].buckets,
            at as int,
        ) by {
            let picked = view.pools[p][picks[p] as int];
            lemma_room_fits(picked.buckets, tokens, at as int);
        }
    }
    lemma_room_fits(view.shared, tokens, now);
    assert forall|p: int| 0 <= p < view.pools.len() && p < idxs.len() implies commit_fits(
        view.pools[p][#[trigger] idxs[p] as int].buckets,
        now,
    ) by {
        let picked = view.pools[p][idxs[p] as int];
        lemma_room_fits(picked.buckets, tokens, now);
    }
    assert forall|i: int| #[trigger]
        is_first_with_key(view.pools[pool], key, i) implies reconcile_fits(
        view.pools[pool][i].buckets,
        label,
        remaining,
        capacity,
        now,
    ) by {
        let buckets = view.pools[pool][i].buckets;
        assert forall|k: int| 0 <= k < buckets.len() && (#[trigger] buckets[k]).label
            == label implies buckets[k].reconciled(remaining, capacity, now).tat <= u64::MAX by {
            let bucket = buckets[k];
            assert(bucket.has_room(tokens));
            let debt = larger(larger(capacity, 1) - remaining, 0);
            let most = larger(tokens, 1);
            assert(bucket.interval * debt <= bucket.interval * most) by (nonlinear_arith)
                requires
                    bucket.interval >= 0,
                    0 <= debt <= most,
            ;
        }
    }
}

} // verus!
