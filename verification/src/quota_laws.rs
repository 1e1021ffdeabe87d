//! What holds of a quota engine across calls: horizons, the commit gate, the
//! rate, releases and dead resources.
use vstd::prelude::*;
use vstd::std_specs::cmp::PartialEqSpec;

use crate::quota::{
    all_released, all_reserved, claimed, effective_capacity, eligible, gate_time,
    is_aliveness, is_choice, is_claim, is_first_with_key, is_peek, is_reading, keys_of,
    label_reconciled, larger, no_key, none_eligible, overall_commit_slack, overall_reserve_slack,
    picks_valid, smaller, top_commit_slack, top_reserve_slack, BucketView, EngineView, Pin,
    ResourceView,
};

verus! {

/// Where a bucket stands in an engine.
pub enum Place {
    Shared(int),
    Own { pool: int, resource: int, bucket: int },
}

/// Whether the engine has a bucket there.
pub open spec fn has_place<K>(view: EngineView<K>, place: Place) -> bool {
    match place {
        Place::Shared(i) => 0 <= i < view.shared.len(),
        Place::Own { pool, resource, bucket } => {
            &&& 0 <= pool < view.pools.len()
            &&& 0 <= resource < view.pools[pool].len()
            &&& 0 <= bucket < view.pools[pool][resource].buckets.len()
        },
    }
}

/// The bucket that stands there.
pub open spec fn bucket_at<K>(view: EngineView<K>, place: Place) -> BucketView {
    match place {
        Place::Shared(i) => view.shared[i],
        Place::Own { pool, resource, bucket } => view.pools[pool][resource].buckets[bucket],
    }
}

/// Whether a call for these picks reaches the bucket: shared ones always.
pub open spec fn touched(idxs: Seq<usize>, place: Place) -> bool {
    match place {
        Place::Shared(_) => true,
        Place::Own { pool, resource, .. } => pool < idxs.len() && idxs[pool] == resource,
    }
}

/// Whether two engines have their buckets in the same places.
pub open spec fn same_shape<K>(a: EngineView<K>, b: EngineView<K>) -> bool {
    &&& a.shared.len() == b.shared.len()
    &&& a.pools.len() == b.pools.len()
    &&& forall|p: int|
        0 <= p < a.pools.len() ==> (#[trigger] a.pools[p]).len() == b.pools[p].len()
    &&& forall|p: int, r: int|
        #![trigger a.pools[p][r]]
        0 <= p < a.pools.len() && 0 <= r < a.pools[p].len() ==> a.pools[p][r].buckets.len()
            == b.pools[p][r].buckets.len()
}

/// A call that changes an engine.
pub enum EngineCall<K> {
    Admission { idxs: Seq<usize>, at: int },
    Commit { idxs: Seq<usize>, at: int },
    Release { idxs: Seq<usize> },
    Reading {
        pool: int,
        key: K,
        label: Seq<char>,
        remaining: int,
        capacity: int,
        now: int,
    },
    Aliveness { pool: int, key: K, alive: bool },
}

/// What the call makes of an engine.
pub open spec fn is_call<K: PartialEq>(
    before: EngineView<K>,
    call: EngineCall<K>,
    after: EngineView<K>,
) -> bool {
    match call {
        EngineCall::Admission { idxs, at } => {
            &&& picks_valid(before.pools, idxs)
            &&& after == before.admitted(idxs, at)
        },
        EngineCall::Commit { idxs, at } => {
            &&& picks_valid(before.pools, idxs)
            &&& after == before.committed(idxs, at)
        },
        EngineCall::Release { idxs } => {
            &&& picks_valid(before.pools, idxs)
            &&& after == before.released(idxs)
        },
        EngineCall::Reading { pool, key, label, remaining, capacity, now } => {
            &&& 0 <= pool < before.pools.len()
            &&& is_reading(before, pool, key, label, remaining, capacity, now, after)
        },
        EngineCall::Aliveness { pool, key, alive } => {
            &&& 0 <= pool < before.pools.len()
            &&& is_aliveness(before, pool, key, alive, after)
        },
    }
}

/// Whether each call leads from one state to the next.
pub open spec fn is_history<K: PartialEq>(
    states: Seq<EngineView<K>>,
    calls: Seq<EngineCall<K>>,
) -> bool {
    &&& states.len() == calls.len() + 1
    &&& forall|n: int|
        0 <= n < calls.len() ==> is_call(states[n], #[trigger] calls[n], states[n + 1])
}

/// What the call makes of one bucket.
pub open spec fn on_bucket<K>(
    before: BucketView,
    call: EngineCall<K>,
    place: Place,
    after: BucketView,
) -> bool {
    match call {
        EngineCall::Admission { idxs, at } => after == if touched(idxs, place) {
            before.reserved(at)
        } else {
            before
        },
        EngineCall::Commit { idxs, at } => after == if touched(idxs, place) {
            before.committed(at)
        } else {
            before
        },
        EngineCall::Release { idxs } => after == if touched(idxs, place) {
            before.released()
        } else {
            before
        },
        EngineCall::Reading { pool, label, remaining, capacity, now, .. } => {
            ||| after == before
            ||| before.label == label && place is Own && place->pool == pool && after
                == before.reconciled(remaining, capacity, now)
        },
        EngineCall::Aliveness { .. } => after == before,
    }
}

/// A key names its first resource, or none.
proof fn lemma_first_key<K: PartialEq>(pool: Seq<ResourceView<K>>, key: K)
    ensures
        no_key(pool, key) || exists|i: int| is_first_with_key(pool, key, i),
    decreases pool.len(),
{
    if pool.len() > 0 {
        let rest = pool.drop_last();
        let last = pool.len() - 1;
        lemma_first_key(rest, key);
        if exists|i: int| is_first_with_key(rest, key, i) {
            let i = choose|i: int| is_first_with_key(rest, key, i);
            assert forall|j: int| 0 <= j < i implies !(#[trigger] pool[j]).key.eq_spec(&key) by {
                assert(rest[j] == pool[j]);
            }
            assert(rest[i] == pool[i]);
            assert(is_first_with_key(pool, key, i));
        } else {
            assert forall|j: int| 0 <= j < last implies !(#[trigger] pool[j]).key.eq_spec(
                &key,
            ) by {
                assert(rest[j] == pool[j]);
            }
            if pool[last].key.eq_spec(&key) {
                assert(is_first_with_key(pool, key, last));
            }
        }
    }
}

/// Every call keeps the places and does to each bucket what it says.
proof fn lemma_call_on_bucket<K: PartialEq>(
    before: EngineView<K>,
    call: EngineCall<K>,
    after: EngineView<K>,
)
    requires
        is_call(before, call, after),
    ensures
        same_shape(before, after),
        forall|place: Place|
            has_place(before, place) ==> on_bucket(
                bucket_at(before, place),
                call,
                place,
                #[trigger] bucket_at(after, place),
            ),
{
    match call {
        EngineCall::Reading { pool, key, .. } => {
            lemma_first_key(before.pools[pool], key);
            if exists|i: int| is_first_with_key(before.pools[pool], key, i) {
                let i = choose|i: int| is_first_with_key(before.pools[pool], key, i);
                assert(is_first_with_key(before.pools[pool], key, i));
            }
        },
        EngineCall::Aliveness { pool, key, .. } => {
            lemma_first_key(before.pools[pool], key);
            if exists|i: int| is_first_with_key(before.pools[pool], key, i) {
                let i = choose|i: int| is_first_with_key(before.pools[pool], key, i);
                assert(is_first_with_key(before.pools[pool], key, i));
            }
        },
        _ => {},
    }
    assert forall|place: Place| has_place(before, place) implies on_bucket(
        bucket_at(before, place),
        call,
        place,
        #[trigger] bucket_at(after, place),
    ) by {
        match place {
            Place::Shared(i) => {},
            Place::Own { pool, resource, bucket } => {
                assert(before.pools[pool][resource].buckets.len() > bucket);
            },
        }
    }
}

/// Every bucket of the engine keeps its commits behind its reservations.
pub open spec fn engine_wf<K>(view: EngineView<K>) -> bool {
    forall|place: Place| has_place(view, place) ==> (#[trigger] bucket_at(view, place)).wf()
}

/// A call on one bucket.
pub enum BucketCall {
    Reserve(int),
    Commit(int),
    Release,
    Reading { remaining: int, capacity: int, now: int },
}

/// The bucket after a call.
pub open spec fn after_call(bucket: BucketView, call: BucketCall) -> BucketView {
    match call {
        BucketCall::Reserve(at) => bucket.reserved(at),
        BucketCall::Commit(at) => bucket.committed(at),
        BucketCall::Release => bucket.released(),
        BucketCall::Reading { remaining, capacity, now } => bucket.reconciled(
            remaining,
            capacity,
            now,
        ),
    }
}

/// The bucket after some calls, in order.
pub open spec fn after_calls(bucket: BucketView, calls: Seq<BucketCall>) -> BucketView
    decreases calls.len(),
{
    if calls.len() == 0 {
        bucket
    } else {
        after_call(after_calls(bucket, calls.drop_last()), calls.last())
    }
}

/// Whatever is called on a bucket, its commit horizon stays behind its
/// reservations, and its label, interval and tolerance stay as they were.
pub proof fn law_horizons_stay_ordered(bucket: BucketView, calls: Seq<BucketCall>)
    requires
        bucket.wf(),
    ensures
        after_calls(bucket, calls).wf(),
        after_calls(bucket, calls).tat >= bucket.tat,
        after_calls(bucket, calls).label == bucket.label,
        after_calls(bucket, calls).interval == bucket.interval,
        after_calls(bucket, calls).tolerance == bucket.tolerance,
    decreases calls.len(),
{
    if calls.len() > 0 {
        law_horizons_stay_ordered(bucket, calls.drop_last());
    }
}

/// Whatever is called on an engine, readings included, every bucket keeps its
/// commit horizon behind its reservations.
pub proof fn law_engine_stays_ordered<K: PartialEq>(
    states: Seq<EngineView<K>>,
    calls: Seq<EngineCall<K>>,
    n: int,
)
    requires
        is_history(states, calls),
        engine_wf(states[0]),
        0 <= n < states.len(),
    ensures
        engine_wf(states[n]),
    decreases n,
{
    if n > 0 {
        law_engine_stays_ordered(states, calls, n - 1);
        let before = states[n - 1];
        let after = states[n];
        assert(is_call(before, calls[n - 1], after));
        lemma_call_on_bucket(before, calls[n - 1], after);
        assert forall|place: Place| has_place(after, place) implies (#[trigger] bucket_at(
            after,
            place,
        )).wf() by {
            lemma_shape_has_places(before, after, place);
            assert(bucket_at(before, place).wf());
        }
    }
}

proof fn lemma_shape_has_places<K>(a: EngineView<K>, b: EngineView<K>, place: Place)
    requires
        same_shape(a, b),
    ensures
        has_place(a, place) == has_place(b, place),
{
    match place {
        Place::Shared(_) => {},
        Place::Own { pool, resource, .. } => {
            if 0 <= pool < a.pools.len() {
                assert(a.pools[pool].len() == b.pools[pool].len());
                if 0 <= resource < a.pools[pool].len() {
                    assert(a.pools[pool][resource].buckets.len()
                        == b.pools[pool][resource].buckets.len());
                }
            }
        },
    }
}

/// Whether no commit horizon of `b` lies before that of `a`.
pub open spec fn commits_not_before<K>(a: EngineView<K>, b: EngineView<K>) -> bool {
    &&& same_shape(a, b)
    &&& forall|place: Place|
        has_place(a, place) ==> {
            &&& (#[trigger] bucket_at(b, place)).tat >= bucket_at(a, place).tat
            &&& bucket_at(b, place).tolerance == bucket_at(a, place).tolerance
        }
}

proof fn lemma_top_follows(a: Seq<BucketView>, b: Seq<BucketView>, now: int)
    requires
        a.len() == b.len(),
        forall|i: int|
            0 <= i < a.len() ==> (#[trigger] b[i]).tat >= a[i].tat && b[i].tolerance
                == a[i].tolerance,
    ensures
        top_commit_slack(a, now) <= top_commit_slack(b, now),
    decreases a.len(),
{
    if a.len() > 0 {
        assert forall|i: int| 0 <= i < a.drop_last().len() implies (#[trigger] b.drop_last()[i]).tat
            >= a.drop_last()[i].tat && b.drop_last()[i].tolerance == a.drop_last()[i].tolerance by {
            assert(b[i].tat >= a[i].tat);
        }
        lemma_top_follows(a.drop_last(), b.drop_last(), now);
        assert(b[b.len() - 1].tat >= a[a.len() - 1].tat);
    }
}

proof fn lemma_overall_follows<K>(
    a: EngineView<K>,
    b: EngineView<K>,
    idxs: Seq<usize>,
    n: int,
    now: int,
)
    requires
        commits_not_before(a, b),
        picks_valid(a.pools, idxs),
        0 <= n <= a.pools.len(),
        n <= idxs.len(),
    ensures
        overall_commit_slack(a, idxs, n, now) <= overall_commit_slack(b, idxs, n, now),
    decreases n,
{
    if n <= 0 {
        assert forall|i: int| 0 <= i < a.shared.len() implies (#[trigger] b.shared[i]).tat
            >= a.shared[i].tat && b.shared[i].tolerance == a.shared[i].tolerance by {
            assert(has_place(a, Place::Shared(i)));
            assert(bucket_at(b, Place::Shared(i)) == b.shared[i]);
        }
        lemma_top_follows(a.shared, b.shared, now);
    } else {
        lemma_overall_follows(a, b, idxs, n - 1, now);
        let pool = n - 1;
        let resource = idxs[pool] as int;
        assert(idxs[pool] < a.pools[pool].len());
        let mine = a.pools[pool][resource].buckets;
        let other = b.pools[pool][resource].buckets;
        assert forall|i: int| 0 <= i < mine.len() implies (#[trigger] other[i]).tat >= mine[i].tat
            && other[i].tolerance == mine[i].tolerance by {
            let place = Place::Own { pool, resource, bucket: i };
            assert(has_place(a, place));
            assert(bucket_at(b, place) == other[i]);
        }
        lemma_top_follows(mine, other, now);
    }
}

/// No commit may come earlier where no commit horizon lies earlier.
proof fn lemma_gate_follows<K>(a: EngineView<K>, b: EngineView<K>, idxs: Seq<usize>, now: int)
    requires
        commits_not_before(a, b),
        picks_valid(a.pools, idxs),
    ensures
        gate_time(a, idxs, now) <= gate_time(b, idxs, now),
{
    lemma_overall_follows(a, b, idxs, smaller(a.pools.len() as int, idxs.len() as int), now);
}

proof fn lemma_same_commits<K>(a: EngineView<K>, b: EngineView<K>)
    requires
        same_shape(a, b),
        forall|place: Place|
            has_place(a, place) ==> {
                &&& (#[trigger] bucket_at(b, place)).tat == bucket_at(a, place).tat
                &&& bucket_at(b, place).tolerance == bucket_at(a, place).tolerance
            },
    ensures
        commits_not_before(a, b),
        commits_not_before(b, a),
{
    assert forall|place: Place| has_place(b, place) implies {
        &&& (#[trigger] bucket_at(a, place)).tat >= bucket_at(b, place).tat
        &&& bucket_at(a, place).tolerance == bucket_at(b, place).tolerance
    } by {
        lemma_shape_has_places(a, b, place);
        assert(bucket_at(b, place).tat == bucket_at(a, place).tat);
    }
}

/// Admission holds places in the queue and spends nothing: commits may come as
/// early as before, for all picks and at all times, the reservations of each
/// reached bucket move on by one interval, and all others stay.
pub proof fn law_admission_spends_nothing<K: PartialEq>(
    view: EngineView<K>,
    idxs: Seq<usize>,
    at: int,
    others: Seq<usize>,
    now: int,
)
    requires
        picks_valid(view.pools, idxs),
        picks_valid(view.pools, others),
    ensures
        gate_time(view.admitted(idxs, at), others, now) == gate_time(view, others, now),
        same_shape(view, view.admitted(idxs, at)),
        forall|place: Place|
            has_place(view, place) ==> (#[trigger] bucket_at(view.admitted(idxs, at), place)) == (
            BucketView {
                rtat: if touched(idxs, place) {
                    larger(bucket_at(view, place).rtat, at) + bucket_at(view, place).interval
                } else {
                    bucket_at(view, place).rtat
                },
                ..bucket_at(view, place)
            }),
{
    let after = view.admitted(idxs, at);
    lemma_call_on_bucket(view, EngineCall::Admission { idxs, at }, after);
    lemma_same_commits(view, after);
    lemma_gate_follows(view, after, others, now);
    lemma_picks_stay_valid(view, after, others);
    lemma_gate_follows(after, view, others, now);
}

proof fn lemma_picks_stay_valid<K>(a: EngineView<K>, b: EngineView<K>, idxs: Seq<usize>)
    requires
        same_shape(a, b),
        picks_valid(a.pools, idxs),
    ensures
        picks_valid(b.pools, idxs),
{
    assert forall|p: int| 0 <= p < b.pools.len() && p < idxs.len() implies (#[trigger] idxs[p])
        < b.pools[p].len() by {
        assert(a.pools[p].len() == b.pools[p].len());
    }
}

/// A release frees admission headroom and nothing else: commits may come as
/// early as before, no reservation horizon moves forward, and none moves back by more
/// than an interval or behind its commits.
pub proof fn law_release_keeps_commits<K: PartialEq>(
    view: EngineView<K>,
    idxs: Seq<usize>,
    others: Seq<usize>,
    now: int,
)
    requires
        engine_wf(view),
        picks_valid(view.pools, idxs),
        picks_valid(view.pools, others),
    ensures
        gate_time(view.released(idxs), others, now) == gate_time(view, others, now),
        same_shape(view, view.released(idxs)),
        forall|place: Place|
            has_place(view, place) ==> {
                let bucket = bucket_at(view, place);
                let freed = #[trigger] bucket_at(view.released(idxs), place);
                &&& freed == (BucketView { rtat: freed.rtat, ..bucket })
                &&& bucket.tat <= freed.rtat
                &&& bucket.rtat - bucket.interval <= freed.rtat <= bucket.rtat
            },
{
    let after = view.released(idxs);
    lemma_call_on_bucket(view, EngineCall::Release { idxs }, after);
    assert forall|place: Place| has_place(view, place) implies {
        let bucket = bucket_at(view, place);
        let freed = #[trigger] bucket_at(after, place);
        &&& freed == (BucketView { rtat: freed.rtat, ..bucket })
        &&& bucket.tat <= freed.rtat
        &&& bucket.rtat - bucket.interval <= freed.rtat <= bucket.rtat
    } by {
        assert(bucket_at(view, place).wf());
    }
    lemma_same_commits(view, after);
    lemma_gate_follows(view, after, others, now);
    lemma_picks_stay_valid(view, after, others);
    lemma_gate_follows(after, view, others, now);
}

/// A release undoes an admission that had to queue behind earlier ones: the
/// engine is as it was, so that it answers every peek and every gate as before.
pub proof fn law_release_undoes_a_queued_admission<K>(
    view: EngineView<K>,
    idxs: Seq<usize>,
    at: int,
)
    requires
        engine_wf(view),
        picks_valid(view.pools, idxs),
        forall|place: Place|
            has_place(view, place) && touched(idxs, place) ==> at <= (#[trigger] bucket_at(
                view,
                place,
            )).rtat,
    ensures
        view.admitted(idxs, at).released(idxs) == view,
{
    let held = view.admitted(idxs, at);
    let back = held.released(idxs);
    assert forall|i: int| 0 <= i < view.shared.len() implies #[trigger] back.shared[i]
        == view.shared[i] by {
        let bucket = bucket_at(view, Place::Shared(i));
        assert(has_place(view, Place::Shared(i)));
        assert(bucket.wf() && at <= bucket.rtat);
    }
    assert(back.shared =~= view.shared);
    assert forall|p: int| 0 <= p < view.pools.len() implies #[trigger] back.pools[p]
        == view.pools[p] by {
        if p < idxs.len() {
            let r = idxs[p] as int;
            assert(idxs[p] < view.pools[p].len());
            let mine = view.pools[p][r];
            assert(held.pools[p][r].buckets == all_reserved(mine.buckets, at));
            assert(back.pools[p][r].buckets == all_released(all_reserved(mine.buckets, at)));
            assert forall|i: int| 0 <= i < mine.buckets.len() implies
                #[trigger] back.pools[p][r].buckets[i] == mine.buckets[i] by {
                let place = Place::Own { pool: p, resource: r, bucket: i };
                assert(has_place(view, place) && touched(idxs, place));
                assert(bucket_at(view, place).wf() && at <= bucket_at(view, place).rtat);
            }
            assert(back.pools[p][r].buckets =~= mine.buckets);
        }
        assert(back.pools[p] =~= view.pools[p]);
    }
    assert(back.pools =~= view.pools);
}

/// A reading from the server never relaxes anything: no gate opens earlier, and
/// no horizon moves back. Only buckets of that label of the first resource with
/// that key can change, so that an unknown key or label changes nothing.
pub proof fn law_reading_only_tightens<K: PartialEq>(
    before: EngineView<K>,
    pool: int,
    key: K,
    label: Seq<char>,
    remaining: int,
    capacity: int,
    now: int,
    after: EngineView<K>,
    idxs: Seq<usize>,
    time: int,
)
    requires
        0 <= pool < before.pools.len(),
        is_reading(before, pool, key, label, remaining, capacity, now, after),
        picks_valid(before.pools, idxs),
    ensures
        gate_time(after, idxs, time) >= gate_time(before, idxs, time),
        same_shape(before, after),
        forall|place: Place|
            has_place(before, place) ==> {
                let old_bucket = bucket_at(before, place);
                let new_bucket = #[trigger] bucket_at(after, place);
                &&& new_bucket.tat >= old_bucket.tat
                &&& new_bucket.rtat >= old_bucket.rtat
                &&& new_bucket == old_bucket || {
                    &&& old_bucket.label == label
                    &&& place is Own
                    &&& place->pool == pool
                    &&& is_first_with_key(before.pools[pool], key, place->resource)
                    &&& new_bucket == old_bucket.reconciled(remaining, capacity, now)
                }
            },
        no_key(before.pools[pool], key) ==> after == before,
        (forall|i: int, b: int|
            #![trigger before.pools[pool][i].buckets[b]]
            is_first_with_key(before.pools[pool], key, i) && 0 <= b
                < before.pools[pool][i].buckets.len() ==> before.pools[pool][i].buckets[b].label
                != label) ==> after == before,
{
    let call = EngineCall::Reading { pool, key, label, remaining, capacity, now };
    lemma_call_on_bucket(before, call, after);
    lemma_first_key(before.pools[pool], key);
    if exists|i: int| is_first_with_key(before.pools[pool], key, i) {
        let first = choose|i: int| is_first_with_key(before.pools[pool], key, i);
        assert(is_first_with_key(before.pools[pool], key, first));
        let mine = before.pools[pool][first];
        let read = label_reconciled(mine.buckets, label, remaining, capacity, now);
        assert(after == before.resource_set(pool, first, ResourceView { buckets: read, ..mine }));
        if forall|i: int, b: int|
            #![trigger before.pools[pool][i].buckets[b]]
            is_first_with_key(before.pools[pool], key, i) && 0 <= b
                < before.pools[pool][i].buckets.len() ==> before.pools[pool][i].buckets[b].label
                != label {
            assert forall|b: int| 0 <= b < mine.buckets.len() implies #[trigger] read[b]
                == mine.buckets[b] by {
                assert(before.pools[pool][first].buckets[b].label != label);
            }
            assert(read =~= mine.buckets);
            assert(after.pools[pool] =~= before.pools[pool]);
            assert(after.pools =~= before.pools);
        }
    }
    lemma_gate_follows(before, after, idxs, time);
}

/// How many of the calls from `first` up to `last` commit on the bucket.
pub open spec fn commits_between<K>(
    calls: Seq<EngineCall<K>>,
    place: Place,
    first: int,
    last: int,
) -> int
    decreases last - first,
{
    if last <= first {
        0
    } else {
        commits_between(calls, place, first, last - 1) + if commits_on(calls[last - 1], place) {
            1int
        } else {
            0
        }
    }
}

/// Whether the call commits on the bucket.
pub open spec fn commits_on<K>(call: EngineCall<K>, place: Place) -> bool {
    call matches EngineCall::Commit { idxs, .. } && touched(idxs, place)
}

proof fn lemma_commits_move_the_horizon<K: PartialEq>(
    states: Seq<EngineView<K>>,
    calls: Seq<EngineCall<K>>,
    place: Place,
    first: int,
    n: int,
)
    requires
        is_history(states, calls),
        has_place(states[first], place),
        bucket_at(states[first], place).interval >= 0,
        0 <= first < n < states.len(),
        commits_on(calls[first], place),
    ensures
        has_place(states[n], place),
        bucket_at(states[n], place).interval == bucket_at(states[first], place).interval,
        bucket_at(states[n], place).tolerance == bucket_at(states[first], place).tolerance,
        bucket_at(states[n], place).tat >= calls[first]->Commit_at + commits_between(
            calls,
            place,
            first,
            n,
        ) * bucket_at(states[first], place).interval,
    decreases n - first,
{
    let before = states[n - 1];
    let after = states[n];
    let call = calls[n - 1];
    let interval = bucket_at(states[first], place).interval;
    assert(is_call(before, call, after));
    lemma_call_on_bucket(before, call, after);
    lemma_shape_has_places(before, after, place);
    let count = commits_between(calls, place, first, n - 1);
    assert((count + 1) * interval == count * interval + interval) by (nonlinear_arith);
    if n - 1 > first {
        lemma_commits_move_the_horizon(states, calls, place, first, n - 1);
        assert(on_bucket(bucket_at(before, place), call, place, bucket_at(after, place)));
    } else {
        assert(count == 0);
        assert(on_bucket(bucket_at(before, place), call, place, bucket_at(after, place)));
    }
}

proof fn lemma_top_covers(buckets: Seq<BucketView>, now: int, i: int)
    requires
        0 <= i < buckets.len(),
    ensures
        top_commit_slack(buckets, now) >= buckets[i].commit_slack(now),
    decreases buckets.len(),
{
    if i < buckets.len() - 1 {
        lemma_top_covers(buckets.drop_last(), now, i);
    }
}

proof fn lemma_overall_covers<K>(
    view: EngineView<K>,
    idxs: Seq<usize>,
    n: int,
    now: int,
    place: Place,
)
    requires
        has_place(view, place),
        touched(idxs, place),
        0 <= n <= view.pools.len(),
        n <= idxs.len(),
        place matches Place::Own { pool, .. } ==> pool < n,
    ensures
        overall_commit_slack(view, idxs, n, now) >= bucket_at(view, place).commit_slack(now),
    decreases n,
{
    if n <= 0 {
        lemma_top_covers(view.shared, now, place->Shared_0);
    } else if place is Own && place->pool == n - 1 {
        lemma_top_covers(
            view.pools[n - 1][place->resource].buckets,
            now,
            place->bucket,
        );
    } else {
        lemma_overall_covers(view, idxs, n - 1, now, place);
    }
}

/// The rate promise. A bucket has `capacity` tokens and gets one per interval.
/// Commits wait for their gate. Then, whatever admissions, releases, readings
/// and other commits lie in between, a commit comes no earlier than an interval
/// for every commit since an earlier one, but for `capacity - 1` of them.
pub proof fn law_commits_respect_the_rate<K: PartialEq>(
    states: Seq<EngineView<K>>,
    calls: Seq<EngineCall<K>>,
    place: Place,
    capacity: int,
    first: int,
    last: int,
)
    requires
        is_history(states, calls),
        0 <= first < last < calls.len(),
        has_place(states[first], place),
        bucket_at(states[first], place).interval >= 0,
        bucket_at(states[first], place).tolerance == bucket_at(states[first], place).interval * (
        capacity - 1),
        commits_on(calls[first], place),
        commits_on(calls[last], place),
        gate_time(states[last], calls[last]->Commit_idxs, calls[last]->Commit_at)
            <= calls[last]->Commit_at,
    ensures
        calls[last]->Commit_at - calls[first]->Commit_at >= (commits_between(
            calls,
            place,
            first,
            last,
        ) - (capacity - 1)) * bucket_at(states[first], place).interval,
{
    lemma_commits_move_the_horizon(states, calls, place, first, last);
    let idxs = calls[last]->Commit_idxs;
    let at = calls[last]->Commit_at;
    let view = states[last];
    let count = commits_between(calls, place, first, last);
    let interval = bucket_at(states[first], place).interval;
    lemma_overall_covers(
        view,
        idxs,
        smaller(view.pools.len() as int, idxs.len() as int),
        at,
        place,
    );
    assert(bucket_at(view, place).commit_slack(at) <= 0);
    assert(count * interval - interval * (capacity - 1) == (count - (capacity - 1)) * interval)
        by (nonlinear_arith);
}

/// A peek has one answer.
pub proof fn law_peeks_have_one_answer<K: PartialEq>(
    view: EngineView<K>,
    demand: Seq<Pin<K>>,
    now: int,
    one: Option<(Seq<usize>, u64)>,
    other: Option<(Seq<usize>, u64)>,
)
    requires
        demand.len() == view.pools.len(),
        is_peek(view, demand, now, one),
        is_peek(view, demand, now, other),
    ensures
        one == other,
{
    if one is None && other is Some {
        lemma_no_pick_without_resource(view, demand, now, other->0);
    }
    if other is None && one is Some {
        lemma_no_pick_without_resource(view, demand, now, one->0);
    }
    if one is Some && other is Some {
        let (a, _) = one->0;
        let (b, _) = other->0;
        assert forall|p: int| 0 <= p < a.len() implies #[trigger] a[p] == b[p] by {
            assert(is_choice(view.pools[p], demand[p], now, a[p] as int));
            assert(is_choice(view.pools[p], demand[p], now, b[p] as int));
            assert(eligible(view.pools[p], demand[p], a[p] as int));
            assert(eligible(view.pools[p], demand[p], b[p] as int));
        }
        assert(a =~= b);
    }
}

proof fn lemma_no_pick_without_resource<K: PartialEq>(
    view: EngineView<K>,
    demand: Seq<Pin<K>>,
    now: int,
    answer: (Seq<usize>, u64),
)
    requires
        is_peek(view, demand, now, Some(answer)),
    ensures
        !is_peek(view, demand, now, None),
{
    let (idxs, _) = answer;
    assert forall|p: int| 0 <= p < view.pools.len() implies !#[trigger] none_eligible(
        view.pools[p],
        demand[p],
    ) by {
        assert(is_choice(view.pools[p], demand[p], now, idxs[p] as int));
        assert(eligible(view.pools[p], demand[p], idxs[p] as int));
    }
}

/// A claim is what a peek answered, admitted: its time and its keys are those
/// of the peek, and the engine is advanced by exactly its picks. It comes only
/// where every pool has a live resource that fits.
pub proof fn law_claims_follow_the_peek<K: PartialEq + Clone>(
    before: EngineView<K>,
    demand: Seq<Pin<K>>,
    now: int,
    send_at: u64,
    picks: Seq<K>,
    after: EngineView<K>,
    answer: Option<(Seq<usize>, u64)>,
)
    requires
        demand.len() == before.pools.len(),
        claimed(before, demand, now, send_at, picks, after),
        is_peek(before, demand, now, answer),
    ensures
        answer matches Some((idxs, at)) && {
            &&& send_at == at
            &&& keys_of(before.pools, idxs, picks)
            &&& after == before.admitted(idxs, at as int)
        },
        forall|p: int|
            0 <= p < before.pools.len() ==> !#[trigger] none_eligible(before.pools[p], demand[p]),
{
    let idxs = choose|idxs: Seq<usize>| is_claim(before, demand, now, idxs, send_at, picks, after);
    law_peeks_have_one_answer(before, demand, now, answer, Some((idxs, send_at)));
    assert forall|p: int| 0 <= p < before.pools.len() implies !#[trigger] none_eligible(
        before.pools[p],
        demand[p],
    ) by {
        if none_eligible(before.pools[p], demand[p]) {
            assert(is_peek(before, demand, now, None));
            lemma_no_pick_without_resource(before, demand, now, (idxs, send_at));
        }
    }
}

/// The engine that has one bucket, which every call shares.
pub open spec fn one_bucket<K>(bucket: BucketView) -> EngineView<K> {
    EngineView { shared: seq![bucket], pools: Seq::empty() }
}

/// The burst promise: of a fresh bucket that keeps `safety` of its `capacity`
/// tokens back, but never all, the others can be claimed at once. After them
/// comes one per interval.
pub proof fn law_a_burst_is_paced<K: PartialEq + Clone>(
    label: Seq<char>,
    capacity: u32,
    interval: u64,
    safety: u32,
    now: u64,
    states: Seq<EngineView<K>>,
    sends: Seq<u64>,
    picks: Seq<Seq<K>>,
    n: int,
)
    requires
        interval * (effective_capacity(capacity as int, safety as int) - 1) <= u64::MAX,
        states.len() == sends.len() + 1,
        picks.len() == sends.len(),
        states[0] == one_bucket::<K>(
            BucketView {
                label,
                interval: interval as int,
                tolerance: interval * (effective_capacity(capacity as int, safety as int) - 1),
                tat: now as int,
                rtat: now as int,
            },
        ),
        forall|k: int|
            0 <= k < sends.len() ==> claimed(
                states[k],
                Seq::empty(),
                now as int,
                #[trigger] sends[k],
                picks[k],
                states[k + 1],
            ),
        0 <= n < sends.len(),
    ensures
        sends[n] == now + larger(
            n + 1 - effective_capacity(capacity as int, safety as int),
            0,
        ) * interval,
{
    let tokens = effective_capacity(capacity as int, safety as int);
    lemma_claims_queue(label, interval, tokens, now, states, sends, picks, n);
    lemma_claim_of_one_bucket(states[n], now, sends[n], picks[n], states[n + 1]);
    assert(n * interval - interval * (tokens - 1) == (n + 1 - tokens) * interval)
        by (nonlinear_arith);
    if n + 1 - tokens <= 0 {
        assert((n + 1 - tokens) * interval <= 0) by (nonlinear_arith)
            requires
                n + 1 - tokens <= 0,
                interval >= 0,
        ;
        assert(0 * interval == 0);
    } else {
        assert((n + 1 - tokens) * interval >= 0) by (nonlinear_arith)
            requires
                n + 1 - tokens > 0,
                interval >= 0,
        ;
    }
}

proof fn lemma_claim_of_one_bucket<K: PartialEq + Clone>(
    before: EngineView<K>,
    now: u64,
    send_at: u64,
    picks: Seq<K>,
    after: EngineView<K>,
)
    requires
        before.shared.len() == 1,
        before.pools.len() == 0,
        before.shared[0].rtat - before.shared[0].tolerance >= -u64::MAX,
        claimed(before, Seq::empty(), now as int, send_at, picks, after),
    ensures
        send_at == now + larger(before.shared[0].reserve_slack(now as int), 0),
        after.shared == seq![before.shared[0].reserved(send_at as int)],
        after.pools.len() == 0,
{
    let idxs = choose|idxs: Seq<usize>|
        is_claim(before, Seq::empty(), now as int, idxs, send_at, picks, after);
    assert(is_peek(before, Seq::empty(), now as int, Some((idxs, send_at))));
    assert(before.shared.drop_last().len() == 0);
    assert(top_reserve_slack(before.shared.drop_last(), now as int) == i128::MIN);
    assert(overall_reserve_slack(before, idxs, 0, now as int) == top_reserve_slack(
        before.shared,
        now as int,
    ));
    assert(top_reserve_slack(before.shared, now as int) == before.shared[0].reserve_slack(
        now as int,
    ));
    assert(after.shared =~= seq![before.shared[0].reserved(send_at as int)]);
}

proof fn lemma_claims_queue<K: PartialEq + Clone>(
    label: Seq<char>,
    interval: u64,
    tokens: int,
    now: u64,
    states: Seq<EngineView<K>>,
    sends: Seq<u64>,
    picks: Seq<Seq<K>>,
    n: int,
)
    requires
        tokens >= 1,
        interval * (tokens - 1) <= u64::MAX,
        states.len() == sends.len() + 1,
        picks.len() == sends.len(),
        states[0] == one_bucket::<K>(
            BucketView {
                label,
                interval: interval as int,
                tolerance: interval * (tokens - 1),
                tat: now as int,
                rtat: now as int,
            },
        ),
        forall|k: int|
            0 <= k < sends.len() ==> claimed(
                states[k],
                Seq::empty(),
                now as int,
                #[trigger] sends[k],
                picks[k],
                states[k + 1],
            ),
        0 <= n < states.len(),
    ensures
        states[n].pools.len() == 0,
        states[n].shared.len() == 1,
        states[n].shared[0] == (BucketView {
            label,
            interval: interval as int,
            tolerance: interval * (tokens - 1),
            tat: now as int,
            rtat: now + n * interval,
        }),
        n * interval >= 0,
    decreases n,
{
    assert(interval * (tokens - 1) >= 0) by (nonlinear_arith)
        requires
            tokens >= 1,
            interval >= 0,
    ;
    assert(n * interval >= 0) by (nonlinear_arith)
        requires
            n >= 0,
            interval >= 0,
    ;
    if n > 0 {
        lemma_claims_queue(label, interval, tokens, now, states, sends, picks, n - 1);
        let before = states[n - 1];
        assert(claimed(
            before,
            Seq::empty(),
            now as int,
            sends[n - 1],
            picks[n - 1],
            states[n - 1 + 1],
        ));
        lemma_claim_of_one_bucket(before, now, sends[n - 1], picks[n - 1], states[n]);
        assert(n * interval == (n - 1) * interval + interval) by (nonlinear_arith);
    } else {
        assert(0 * interval == 0);
    }
}

/// A dead resource is never picked: a pin to its key finds nothing, and a free
/// choice takes another. A key that no resource of the pool has changes nothing.
pub proof fn law_the_dead_are_not_picked<K: PartialEq>(
    before: EngineView<K>,
    pool: int,
    key: K,
    after: EngineView<K>,
    demand: Seq<Pin<K>>,
    now: int,
    answer: Option<(Seq<usize>, u64)>,
)
    requires
        0 <= pool < before.pools.len(),
        forall|i: int, j: int|
            #![trigger before.pools[pool][i], before.pools[pool][j]]
            0 <= i < before.pools[pool].len() && 0 <= j < before.pools[pool].len()
                && before.pools[pool][i].key.eq_spec(&key) && before.pools[pool][j].key.eq_spec(
                &key,
            ) ==> i == j,
        is_aliveness(before, pool, key, false, after),
        demand.len() == before.pools.len(),
        is_peek(after, demand, now, answer),
    ensures
        demand[pool] == Pin::Fixed(key) ==> answer is None,
        answer matches Some((idxs, _)) ==> !after.pools[pool][idxs[pool] as int].key.eq_spec(&key),
        no_key(before.pools[pool], key) ==> after == before,
{
    lemma_first_key(before.pools[pool], key);
    let mine = before.pools[pool];
    if exists|i: int| is_first_with_key(mine, key, i) {
        let first = choose|i: int| is_first_with_key(mine, key, i);
        assert(is_first_with_key(mine, key, first));
        assert(after.pools[pool] == mine.update(
            first,
            ResourceView { alive: false, ..mine[first] },
        ));
        assert forall|i: int|
            0 <= i < mine.len() && (#[trigger] after.pools[pool][i]).key.eq_spec(&key) implies
            !after.pools[pool][i].alive by {
            assert(before.pools[pool][i].key.eq_spec(&key));
            assert(before.pools[pool][first].key.eq_spec(&key));
        }
    } else {
        assert forall|i: int| 0 <= i < mine.len() implies !(
        #[trigger] after.pools[pool][i]).key.eq_spec(&key) by {
            assert(!mine[i].key.eq_spec(&key));
        }
    }
    if answer is Some {
        let (idxs, _) = answer->0;
        assert(is_choice(after.pools[pool], demand[pool], now, idxs[pool] as int));
        assert(eligible(after.pools[pool], demand[pool], idxs[pool] as int));
    }
}

/// A live resource that is told dead and then alive leaves the engine as it was.
pub proof fn law_revival_undoes_death<K: PartialEq>(
    before: EngineView<K>,
    pool: int,
    key: K,
    dead: EngineView<K>,
    back: EngineView<K>,
)
    requires
        0 <= pool < before.pools.len(),
        forall|i: int|
            is_first_with_key(before.pools[pool], key, i) ==> (
            #[trigger] before.pools[pool][i]).alive,
        is_aliveness(before, pool, key, false, dead),
        is_aliveness(dead, pool, key, true, back),
    ensures
        back == before,
{
    let mine = before.pools[pool];
    lemma_first_key(mine, key);
    if exists|i: int| is_first_with_key(mine, key, i) {
        let first = choose|i: int| is_first_with_key(mine, key, i);
        assert(is_first_with_key(mine, key, first));
        assert(mine[first].alive);
        let gone = ResourceView { alive: false, ..mine[first] };
        assert(dead == before.resource_set(pool, first, gone));
        assert(dead.pools[pool] == mine.update(first, gone));
        assert forall|j: int| 0 <= j < first implies !(#[trigger] dead.pools[pool][j]).key.eq_spec(
            &key,
        ) by {
            assert(!mine[j].key.eq_spec(&key));
        }
        assert(is_first_with_key(dead.pools[pool], key, first));
        assert(back == dead.resource_set(
            pool,
            first,
            ResourceView { alive: true, ..dead.pools[pool][first] },
        ));
        assert(back.pools[pool] =~= mine);
        assert(back.pools =~= before.pools);
    } else {
        assert(dead == before);
    }
}

/// What a reading says of a bucket, exactly. The server told at `now` that
/// `remaining` of `capacity` tokens are left, so that the others were spent: the
/// bucket commits as one that has this debt, and never earlier than it did.
pub proof fn law_a_reading_is_a_debt<K: PartialEq>(
    before: EngineView<K>,
    pool: int,
    key: K,
    label: Seq<char>,
    remaining: int,
    capacity: int,
    now: int,
    after: EngineView<K>,
    i: int,
    b: int,
)
    requires
        0 <= pool < before.pools.len(),
        is_reading(before, pool, key, label, remaining, capacity, now, after),
        0 <= i < before.pools[pool].len(),
        before.pools[pool][i].key.eq_spec(&key),
        forall|j: int| 0 <= j < i ==> !(#[trigger] before.pools[pool][j]).key.eq_spec(&key),
        0 <= b < before.pools[pool][i].buckets.len(),
        before.pools[pool][i].buckets[b].label == label,
        before.pools[pool][i].buckets[b].interval >= 0,
        capacity >= 1,
    ensures
        ({
            let old_bucket = before.pools[pool][i].buckets[b];
            let new_bucket = after.pools[pool][i].buckets[b];
            let spent = now + old_bucket.interval * (capacity - remaining);
            &&& new_bucket.tat >= old_bucket.tat
            &&& new_bucket.tat >= now
            &&& new_bucket.tat >= spent
            &&& new_bucket.tat == old_bucket.tat || new_bucket.tat == now || new_bucket.tat == spent
            &&& new_bucket.rtat >= old_bucket.rtat
            &&& new_bucket.rtat >= new_bucket.tat
            &&& new_bucket.rtat == old_bucket.rtat || new_bucket.rtat == new_bucket.tat
            &&& new_bucket.label == old_bucket.label
            &&& new_bucket.interval == old_bucket.interval
            &&& new_bucket.tolerance == old_bucket.tolerance
        }),
{
    assert(is_first_with_key(before.pools[pool], key, i));
    let old_bucket = before.pools[pool][i].buckets[b];
    let debt = capacity - remaining;
    assert(debt >= 0 ==> old_bucket.interval * debt >= 0) by (nonlinear_arith)
        requires
            old_bucket.interval >= 0,
    ;
    assert(debt <= 0 ==> old_bucket.interval * debt <= 0) by (nonlinear_arith)
        requires
            old_bucket.interval >= 0,
    ;
    assert(old_bucket.interval * 0 == 0);
}

/// A reading without a capacity counts as one of a single token.
pub proof fn law_a_reading_counts_one_token_at_least(
    bucket: BucketView,
    remaining: int,
    capacity: int,
    now: int,
)
    requires
        capacity <= 1,
    ensures
        bucket.reconciled(remaining, capacity, now) == bucket.reconciled(remaining, 1, now),
        remaining == 0 ==> bucket.reconciled(remaining, capacity, now).tat >= now
            + bucket.interval,
{
    assert(bucket.interval * 1 == bucket.interval);
}

/// A reading touches nothing but the buckets of its label, of the first resource
/// that has its key.
pub proof fn law_a_reading_is_of_one_bucket<K: PartialEq>(
    before: EngineView<K>,
    pool: int,
    key: K,
    label: Seq<char>,
    remaining: int,
    capacity: int,
    now: int,
    after: EngineView<K>,
    i: int,
)
    requires
        0 <= pool < before.pools.len(),
        is_reading(before, pool, key, label, remaining, capacity, now, after),
        0 <= i < before.pools[pool].len(),
        before.pools[pool][i].key.eq_spec(&key),
        forall|j: int| 0 <= j < i ==> !(#[trigger] before.pools[pool][j]).key.eq_spec(&key),
    ensures
        after.shared == before.shared,
        after.pools.len() == before.pools.len(),
        forall|p: int|
            0 <= p < before.pools.len() && p != pool ==> #[trigger] after.pools[p]
                == before.pools[p],
        after.pools[pool].len() == before.pools[pool].len(),
        forall|r: int|
            0 <= r < before.pools[pool].len() && r != i ==> #[trigger] after.pools[pool][r]
                == before.pools[pool][r],
        after.pools[pool][i].key == before.pools[pool][i].key,
        after.pools[pool][i].alive == before.pools[pool][i].alive,
        after.pools[pool][i].buckets.len() == before.pools[pool][i].buckets.len(),
        forall|b: int|
            0 <= b < before.pools[pool][i].buckets.len()
                && before.pools[pool][i].buckets[b].label != label
                ==> #[trigger] after.pools[pool][i].buckets[b] == before.pools[pool][i].buckets[b],
{
    assert(is_first_with_key(before.pools[pool], key, i));
}

/// The bucket after `n` commits at `now`.
pub open spec fn after_commits(bucket: BucketView, now: int, n: nat) -> BucketView
    decreases n,
{
    if n == 0 {
        bucket
    } else {
        after_commits(bucket, now, (n - 1) as nat).committed(now)
    }
}

/// The tokens promise: of a bucket of `capacity` tokens, of which the server said
/// that `remaining` are left, at most so many commits are authorized at that
/// time. Each further one waits one interval more.
pub proof fn law_a_reading_leaves_its_tokens(
    bucket: BucketView,
    remaining: int,
    capacity: int,
    now: int,
    n: nat,
)
    requires
        capacity >= 1,
        bucket.interval >= 0,
        bucket.tolerance == bucket.interval * (capacity - 1),
    ensures
        ({
            let last = after_commits(bucket.reconciled(remaining, capacity, now), now, n);
            &&& last.tat - last.tolerance >= now + (n + 1 - remaining) * bucket.interval
            &&& bucket.tat <= now && 0 <= remaining <= capacity ==> last.tat - last.tolerance
                == now + (n + 1 - remaining) * bucket.interval
        }),
    decreases n,
{
    let interval = bucket.interval;
    let read = bucket.reconciled(remaining, capacity, now);
    let debt = capacity - remaining;
    if n == 0 {
        assert(interval * debt - interval * (capacity - 1) == (1 - remaining) * interval)
            by (nonlinear_arith)
            requires
                debt == capacity - remaining,
        ;
        assert(debt >= 0 ==> interval * debt >= 0) by (nonlinear_arith)
            requires
                interval >= 0,
        ;
        assert(debt <= 0 ==> interval * debt <= 0) by (nonlinear_arith)
            requires
                interval >= 0,
        ;
        assert(interval * 0 == 0);
    } else {
        law_a_reading_leaves_its_tokens(bucket, remaining, capacity, now, (n - 1) as nat);
        lemma_commits_keep_the_bucket(read, now, (n - 1) as nat);
        assert((n + 1 - remaining) * interval == (n - remaining) * interval + interval)
            by (nonlinear_arith);
        assert(interval * debt >= 0 || debt < 0) by (nonlinear_arith)
            requires
                interval >= 0,
        ;
    }
}

proof fn lemma_commits_keep_the_bucket(bucket: BucketView, now: int, n: nat)
    requires
        bucket.interval >= 0,
    ensures
        after_commits(bucket, now, n).interval == bucket.interval,
        after_commits(bucket, now, n).tolerance == bucket.tolerance,
        after_commits(bucket, now, n).label == bucket.label,
        after_commits(bucket, now, n).tat >= bucket.tat,
    decreases n,
{
    if n > 0 {
        lemma_commits_keep_the_bucket(bucket, now, (n - 1) as nat);
    }
}

/// A commit spends one token of every bucket that it reaches, no more and no less:
/// the commit horizon moves on by one interval, from where it was or from the
/// time of the commit. The reservations stay ahead of it, and all other buckets
/// stay as they were.
pub proof fn law_a_commit_spends_one_token<K: PartialEq>(
    view: EngineView<K>,
    idxs: Seq<usize>,
    at: int,
)
    requires
        picks_valid(view.pools, idxs),
    ensures
        same_shape(view, view.committed(idxs, at)),
        forall|place: Place|
            has_place(view, place) ==> {
                let bucket = bucket_at(view, place);
                let spent = #[trigger] bucket_at(view.committed(idxs, at), place);
                if touched(idxs, place) {
                    &&& spent.tat >= bucket.tat + bucket.interval
                    &&& spent.tat >= at + bucket.interval
                    &&& spent.tat == bucket.tat + bucket.interval || spent.tat == at
                        + bucket.interval
                    &&& spent.rtat >= bucket.rtat
                    &&& spent.rtat >= spent.tat
                    &&& spent.rtat == bucket.rtat || spent.rtat == spent.tat
                    &&& spent.label == bucket.label
                    &&& spent.interval == bucket.interval
                    &&& spent.tolerance == bucket.tolerance
                } else {
                    spent == bucket
                }
            },
{
    lemma_call_on_bucket(
        view,
        EngineCall::Commit { idxs, at },
        view.committed(idxs, at),
    );
}

/// A release frees exactly one interval of reservations of every bucket that it
/// reaches, as far as the commits leave it free. All other buckets stay as they
/// were.
pub proof fn law_a_release_frees_one_place<K: PartialEq>(view: EngineView<K>, idxs: Seq<usize>)
    requires
        picks_valid(view.pools, idxs),
    ensures
        same_shape(view, view.released(idxs)),
        forall|place: Place|
            has_place(view, place) ==> {
                let bucket = bucket_at(view, place);
                let freed = #[trigger] bucket_at(view.released(idxs), place);
                if touched(idxs, place) {
                    &&& freed.rtat >= bucket.tat
                    &&& freed.rtat >= bucket.rtat - bucket.interval
                    &&& freed.rtat == bucket.tat || freed.rtat == bucket.rtat - bucket.interval
                    &&& freed == (BucketView { rtat: freed.rtat, ..bucket })
                } else {
                    freed == bucket
                }
            },
{
    lemma_call_on_bucket(view, EngineCall::Release { idxs }, view.released(idxs));
}

/// No call on buckets changes what resources there are, their keys or which of
/// them live.
pub proof fn law_calls_keep_the_resources<K: PartialEq>(
    view: EngineView<K>,
    idxs: Seq<usize>,
    at: int,
    p: int,
    r: int,
)
    requires
        picks_valid(view.pools, idxs),
        0 <= p < view.pools.len(),
        0 <= r < view.pools[p].len(),
    ensures
        view.admitted(idxs, at).pools[p][r].key == view.pools[p][r].key,
        view.admitted(idxs, at).pools[p][r].alive == view.pools[p][r].alive,
        view.committed(idxs, at).pools[p][r].key == view.pools[p][r].key,
        view.committed(idxs, at).pools[p][r].alive == view.pools[p][r].alive,
        view.released(idxs).pools[p][r].key == view.pools[p][r].key,
        view.released(idxs).pools[p][r].alive == view.pools[p][r].alive,
{
}

proof fn lemma_top_commit_bounded(buckets: Seq<BucketView>, now: int, most: int)
    requires
        most >= i128::MIN,
        forall|i: int|
            0 <= i < buckets.len() ==> (#[trigger] buckets[i]).tat - now - buckets[i].tolerance
                <= most,
    ensures
        top_commit_slack(buckets, now) <= most,
    decreases buckets.len(),
{
    if buckets.len() > 0 {
        let rest = buckets.drop_last();
        assert forall|i: int| 0 <= i < rest.len() implies (#[trigger] rest[i]).tat - now
            - rest[i].tolerance <= most by {
            assert(buckets[i].tat - now - buckets[i].tolerance <= most);
        }
        lemma_top_commit_bounded(rest, now, most);
        assert(buckets[buckets.len() - 1].tat - now - buckets[buckets.len() - 1].tolerance
            <= most);
    }
}

proof fn lemma_top_reserve_bounded(buckets: Seq<BucketView>, now: int, most: int)
    requires
        most >= i128::MIN,
        forall|i: int|
            0 <= i < buckets.len() ==> (#[trigger] buckets[i]).rtat - now - buckets[i].tolerance
                <= most,
    ensures
        top_reserve_slack(buckets, now) <= most,
    decreases buckets.len(),
{
    if buckets.len() > 0 {
        let rest = buckets.drop_last();
        assert forall|i: int| 0 <= i < rest.len() implies (#[trigger] rest[i]).rtat - now
            - rest[i].tolerance <= most by {
            assert(buckets[i].rtat - now - buckets[i].tolerance <= most);
        }
        lemma_top_reserve_bounded(rest, now, most);
        assert(buckets[buckets.len() - 1].rtat - now - buckets[buckets.len() - 1].tolerance
            <= most);
    }
}

proof fn lemma_top_reserve_covers(buckets: Seq<BucketView>, now: int, i: int)
    requires
        0 <= i < buckets.len(),
    ensures
        top_reserve_slack(buckets, now) >= buckets[i].rtat - now - buckets[i].tolerance,
    decreases buckets.len(),
{
    if i < buckets.len() - 1 {
        lemma_top_reserve_covers(buckets.drop_last(), now, i);
    }
}

proof fn lemma_overall_reserve_covers<K>(
    view: EngineView<K>,
    idxs: Seq<usize>,
    n: int,
    now: int,
    place: Place,
)
    requires
        has_place(view, place),
        touched(idxs, place),
        0 <= n <= view.pools.len(),
        n <= idxs.len(),
        place matches Place::Own { pool, .. } ==> pool < n,
    ensures
        overall_reserve_slack(view, idxs, n, now) >= bucket_at(view, place).rtat - now - bucket_at(
            view,
            place,
        ).tolerance,
    decreases n,
{
    if n <= 0 {
        lemma_top_reserve_covers(view.shared, now, place->Shared_0);
    } else if place is Own && place->pool == n - 1 {
        lemma_top_reserve_covers(
            view.pools[n - 1][place->resource].buckets,
            now,
            place->bucket,
        );
    } else {
        lemma_overall_reserve_covers(view, idxs, n - 1, now, place);
    }
}

/// Whether every bucket that these picks reach authorizes a commit at the time.
pub open spec fn commits_by<K>(view: EngineView<K>, idxs: Seq<usize>, time: int) -> bool {
    forall|place: Place|
        has_place(view, place) && touched(idxs, place) ==> (#[trigger] bucket_at(view, place)).tat
            - bucket_at(view, place).tolerance <= time
}

/// Whether every bucket that these picks reach admits a reservation at the time.
pub open spec fn admits_by<K>(view: EngineView<K>, idxs: Seq<usize>, time: int) -> bool {
    forall|place: Place|
        has_place(view, place) && touched(idxs, place) ==> (#[trigger] bucket_at(view, place)).rtat
            - bucket_at(view, place).tolerance <= time
}

proof fn lemma_overall_commit_bounded<K>(
    view: EngineView<K>,
    idxs: Seq<usize>,
    n: int,
    now: int,
    time: int,
)
    requires
        picks_valid(view.pools, idxs),
        commits_by(view, idxs, time),
        time >= now,
        0 <= n <= view.pools.len(),
        n <= idxs.len(),
    ensures
        overall_commit_slack(view, idxs, n, now) <= time - now,
    decreases n,
{
    if n <= 0 {
        assert forall|i: int| 0 <= i < view.shared.len() implies (#[trigger] view.shared[i]).tat
            - now - view.shared[i].tolerance <= time - now by {
            assert(bucket_at(view, Place::Shared(i)) == view.shared[i]);
        }
        lemma_top_commit_bounded(view.shared, now, time - now);
    } else {
        lemma_overall_commit_bounded(view, idxs, n - 1, now, time);
        let pool = n - 1;
        let resource = idxs[pool] as int;
        assert(idxs[pool] < view.pools[pool].len());
        let mine = view.pools[pool][resource].buckets;
        assert forall|i: int| 0 <= i < mine.len() implies (#[trigger] mine[i]).tat - now
            - mine[i].tolerance <= time - now by {
            assert(bucket_at(view, Place::Own { pool, resource, bucket: i }) == mine[i]);
        }
        lemma_top_commit_bounded(mine, now, time - now);
    }
}

proof fn lemma_overall_reserve_bounded<K>(
    view: EngineView<K>,
    idxs: Seq<usize>,
    n: int,
    now: int,
    time: int,
)
    requires
        picks_valid(view.pools, idxs),
        admits_by(view, idxs, time),
        time >= now,
        0 <= n <= view.pools.len(),
        n <= idxs.len(),
    ensures
        overall_reserve_slack(view, idxs, n, now) <= time - now,
    decreases n,
{
    if n <= 0 {
        assert forall|i: int| 0 <= i < view.shared.len() implies (#[trigger] view.shared[i]).rtat
            - now - view.shared[i].tolerance <= time - now by {
            assert(bucket_at(view, Place::Shared(i)) == view.shared[i]);
        }
        lemma_top_reserve_bounded(view.shared, now, time - now);
    } else {
        lemma_overall_reserve_bounded(view, idxs, n - 1, now, time);
        let pool = n - 1;
        let resource = idxs[pool] as int;
        assert(idxs[pool] < view.pools[pool].len());
        let mine = view.pools[pool][resource].buckets;
        assert forall|i: int| 0 <= i < mine.len() implies (#[trigger] mine[i]).rtat - now
            - mine[i].tolerance <= time - now by {
            assert(bucket_at(view, Place::Own { pool, resource, bucket: i }) == mine[i]);
        }
        lemma_top_reserve_bounded(mine, now, time - now);
    }
}

/// A commit is let through at the earliest time from `now` on at which
/// every bucket that the picks reach authorizes a commit.
pub proof fn law_a_commit_waits_for_the_earliest_time<K>(
    view: EngineView<K>,
    idxs: Seq<usize>,
    now: int,
    time: int,
)
    requires
        picks_valid(view.pools, idxs),
    ensures
        gate_time(view, idxs, now) >= now,
        commits_by(view, idxs, gate_time(view, idxs, now)),
        time >= now && commits_by(view, idxs, time) ==> gate_time(view, idxs, now) <= time,
{
    let n = if view.pools.len() <= idxs.len() {
        view.pools.len() as int
    } else {
        idxs.len() as int
    };
    assert forall|place: Place| has_place(view, place) && touched(idxs, place) implies (
    #[trigger] bucket_at(view, place)).tat - bucket_at(view, place).tolerance <= gate_time(
        view,
        idxs,
        now,
    ) by {
        lemma_overall_covers(view, idxs, n, now, place);
    }
    if time >= now && commits_by(view, idxs, time) {
        lemma_overall_commit_bounded(view, idxs, n, now, time);
    }
}

/// The admission promise: a peek answers the earliest time from `now` on at which
/// every bucket that its picks reach admits a reservation.
pub proof fn law_a_peek_is_the_earliest_time<K: PartialEq>(
    view: EngineView<K>,
    demand: Seq<Pin<K>>,
    now: int,
    idxs: Seq<usize>,
    at: u64,
    time: int,
)
    requires
        demand.len() == view.pools.len(),
        is_peek(view, demand, now, Some((idxs, at))),
    ensures
        at >= now,
        admits_by(view, idxs, at as int),
        time >= now && admits_by(view, idxs, time) ==> at <= time,
{
    let n = view.pools.len() as int;
    law_picks_serve_the_demand(view, demand, now, idxs, at);
    assert forall|place: Place| has_place(view, place) && touched(idxs, place) implies (
    #[trigger] bucket_at(view, place)).rtat - bucket_at(view, place).tolerance <= at by {
        lemma_overall_reserve_covers(view, idxs, n, now, place);
    }
    if time >= now && admits_by(view, idxs, time) {
        lemma_overall_reserve_bounded(view, idxs, n, now, time);
    }
}

/// Whether a resource can serve the pin: it lives, and has the key where the pin
/// names one.
pub open spec fn serves<K: PartialEq>(resource: ResourceView<K>, pin: Pin<K>) -> bool {
    resource.alive && match pin {
        Pin::Fixed(key) => resource.key.eq_spec(&key),
        Pin::Free => true,
    }
}

/// A peek picks a resource of every pool, one that lives and has the key that the
/// demand names.
pub proof fn law_picks_serve_the_demand<K: PartialEq>(
    view: EngineView<K>,
    demand: Seq<Pin<K>>,
    now: int,
    idxs: Seq<usize>,
    at: u64,
)
    requires
        demand.len() == view.pools.len(),
        is_peek(view, demand, now, Some((idxs, at))),
    ensures
        idxs.len() == view.pools.len(),
        picks_valid(view.pools, idxs),
        forall|p: int|
            0 <= p < idxs.len() ==> {
                &&& (#[trigger] idxs[p]) < view.pools[p].len()
                &&& serves(view.pools[p][idxs[p] as int], demand[p])
            },
{
    assert forall|p: int| 0 <= p < idxs.len() implies {
        &&& (#[trigger] idxs[p]) < view.pools[p].len()
        &&& serves(view.pools[p][idxs[p] as int], demand[p])
    } by {
        assert(is_choice(view.pools[p], demand[p], now, idxs[p] as int));
    }
}

/// A peek finds nothing exactly where some pool has no resource that serves its
/// pin.
pub proof fn law_a_peek_fails_only_without_resources<K: PartialEq>(
    view: EngineView<K>,
    demand: Seq<Pin<K>>,
    now: int,
    answer: Option<(Seq<usize>, u64)>,
)
    requires
        demand.len() == view.pools.len(),
        is_peek(view, demand, now, answer),
    ensures
        answer is None <==> exists|p: int|
            0 <= p < view.pools.len() && #[trigger] no_server(view.pools[p], demand[p]),
{
    if answer is None {
        let p = choose|p: int|
            0 <= p < view.pools.len() && #[trigger] none_eligible(view.pools[p], demand[p]);
        assert forall|r: int| 0 <= r < view.pools[p].len() implies !serves(
            #[trigger] view.pools[p][r],
            demand[p],
        ) by {
            assert(!eligible(view.pools[p], demand[p], r));
        }
        assert(no_server(view.pools[p], demand[p]));
    } else {
        let (idxs, at) = answer->0;
        law_picks_serve_the_demand(view, demand, now, idxs, at);
        assert forall|p: int| 0 <= p < view.pools.len() implies !#[trigger] no_server(
            view.pools[p],
            demand[p],
        ) by {
            let r = idxs[p] as int;
            assert(serves(view.pools[p][r], demand[p]));
        }
    }
}

/// Whether no resource of the pool serves the pin.
pub open spec fn no_server<K: PartialEq>(pool: Seq<ResourceView<K>>, pin: Pin<K>) -> bool {
    forall|r: int| 0 <= r < pool.len() ==> !serves(#[trigger] pool[r], pin)
}

/// Whether all buckets of the resource admit a reservation at the time.
pub open spec fn rested_by<K>(resource: ResourceView<K>, time: int) -> bool {
    forall|b: int|
        0 <= b < resource.buckets.len() ==> (#[trigger] resource.buckets[b]).rtat
            - resource.buckets[b].tolerance <= time
}

/// The choice promise: a free pin takes the resource that is rested first. At
/// every time at which another live one admits a reservation, the chosen one does
/// too; and of equally rested ones the first is taken.
pub proof fn law_a_free_pin_takes_the_most_rested<K: PartialEq>(
    view: EngineView<K>,
    demand: Seq<Pin<K>>,
    now: int,
    idxs: Seq<usize>,
    at: u64,
    p: int,
    other: int,
    time: int,
)
    requires
        demand.len() == view.pools.len(),
        is_peek(view, demand, now, Some((idxs, at))),
        0 <= p < view.pools.len(),
        demand[p] is Free,
        0 <= other < view.pools[p].len(),
        view.pools[p][other].alive,
        time - now >= i128::MIN,
    ensures
        rested_by(view.pools[p][other], time) ==> rested_by(
            view.pools[p][idxs[p] as int],
            time,
        ),
        other < idxs[p] ==> exists|sooner: int| #[trigger]
            rested_by(view.pools[p][idxs[p] as int], sooner) && !rested_by(
                view.pools[p][other],
                sooner,
            ),
{
    let pool = view.pools[p];
    let i = idxs[p] as int;
    assert(is_choice(pool, demand[p], now, i));
    assert(eligible(pool, demand[p], other));
    let mine = top_reserve_slack(pool[i].buckets, now);
    let theirs = top_reserve_slack(pool[other].buckets, now);
    assert(mine <= theirs);
    if rested_by(pool[other], time) {
        lemma_top_reserve_bounded(pool[other].buckets, now, time - now);
        assert forall|b: int| 0 <= b < pool[i].buckets.len() implies (
        #[trigger] pool[i].buckets[b]).rtat - pool[i].buckets[b].tolerance <= time by {
            lemma_top_reserve_covers(pool[i].buckets, now, b);
        }
    }
    if other < i {
        let sooner = now + mine;
        lemma_top_is_counted(pool[i].buckets, now);
        assert forall|b: int| 0 <= b < pool[i].buckets.len() implies (
        #[trigger] pool[i].buckets[b]).rtat - pool[i].buckets[b].tolerance <= sooner by {
            lemma_top_reserve_covers(pool[i].buckets, now, b);
        }
        assert(rested_by(pool[i], sooner));
        if rested_by(pool[other], sooner) {
            lemma_top_reserve_bounded(pool[other].buckets, now, mine);
        }
    }
}

proof fn lemma_top_is_counted(buckets: Seq<BucketView>, now: int)
    ensures
        top_reserve_slack(buckets, now) >= i128::MIN,
    decreases buckets.len(),
{
    if buckets.len() > 0 {
        lemma_top_is_counted(buckets.drop_last(), now);
    }
}

/// A pin to a key takes the first live resource that has it.
pub proof fn law_a_fixed_pin_takes_the_first<K: PartialEq>(
    view: EngineView<K>,
    demand: Seq<Pin<K>>,
    now: int,
    idxs: Seq<usize>,
    at: u64,
    p: int,
    other: int,
)
    requires
        demand.len() == view.pools.len(),
        is_peek(view, demand, now, Some((idxs, at))),
        0 <= p < view.pools.len(),
        demand[p] is Fixed,
        0 <= other < view.pools[p].len(),
        serves(view.pools[p][other], demand[p]),
    ensures
        idxs[p] <= other,
{
    assert(is_choice(view.pools[p], demand[p], now, idxs[p] as int));
    assert(eligible(view.pools[p], demand[p], other));
}

/// A claim hands out the keys of the resources that it took, one of each pool.
pub proof fn law_a_claim_names_what_it_took<K: PartialEq + Clone>(
    before: EngineView<K>,
    demand: Seq<Pin<K>>,
    now: int,
    idxs: Seq<usize>,
    send_at: u64,
    picks: Seq<K>,
    after: EngineView<K>,
)
    requires
        demand.len() == before.pools.len(),
        is_claim(before, demand, now, idxs, send_at, picks, after),
    ensures
        is_peek(before, demand, now, Some((idxs, send_at))),
        picks.len() == before.pools.len(),
        forall|p: int|
            0 <= p < picks.len() ==> vstd::pervasive::cloned(
                before.pools[p][idxs[p] as int].key,
                #[trigger] picks[p],
            ),
{
}

/// Telling that a resource lives or is dead sets this flag of the first resource
/// with the key, and changes nothing else.
pub proof fn law_aliveness_sets_one_flag<K: PartialEq>(
    before: EngineView<K>,
    pool: int,
    key: K,
    alive: bool,
    after: EngineView<K>,
    i: int,
)
    requires
        0 <= pool < before.pools.len(),
        is_aliveness(before, pool, key, alive, after),
        0 <= i < before.pools[pool].len(),
        before.pools[pool][i].key.eq_spec(&key),
        forall|j: int| 0 <= j < i ==> !(#[trigger] before.pools[pool][j]).key.eq_spec(&key),
    ensures
        after.shared == before.shared,
        after.pools.len() == before.pools.len(),
        forall|p: int|
            0 <= p < before.pools.len() && p != pool ==> #[trigger] after.pools[p]
                == before.pools[p],
        after.pools[pool].len() == before.pools[pool].len(),
        forall|r: int|
            0 <= r < before.pools[pool].len() && r != i ==> #[trigger] after.pools[pool][r]
                == before.pools[pool][r],
        after.pools[pool][i].alive == alive,
        after.pools[pool][i].key == before.pools[pool][i].key,
        after.pools[pool][i].buckets == before.pools[pool][i].buckets,
{
    assert(is_first_with_key(before.pools[pool], key, i));
}

/// A key that no resource of the pool has changes nothing, whether a reading or
/// aliveness is told of it.
pub proof fn law_unknown_keys_change_nothing<K: PartialEq>(
    before: EngineView<K>,
    pool: int,
    key: K,
    alive: bool,
    label: Seq<char>,
    remaining: int,
    capacity: int,
    now: int,
    after: EngineView<K>,
)
    requires
        0 <= pool < before.pools.len(),
        forall|j: int|
            0 <= j < before.pools[pool].len() ==> !(
            #[trigger] before.pools[pool][j]).key.eq_spec(&key),
        is_aliveness(before, pool, key, alive, after) || is_reading(
            before,
            pool,
            key,
            label,
            remaining,
            capacity,
            now,
            after,
        ),
    ensures
        after == before,
{
    assert(no_key(before.pools[pool], key));
}

/// The safety promise: the burst of a bucket is its capacity without the safety,
/// and one token where the safety leaves none.
pub proof fn law_safety_is_held_back(capacity: int, safety: int)
    ensures
        capacity - safety >= 1 ==> effective_capacity(capacity, safety) == capacity - safety,
        capacity - safety <= 1 ==> effective_capacity(capacity, safety) == 1,
{
}

} // verus!
