//! The decisions of a shared quota: admit a reservation before a deadline,
//! hold its commit until the live gate opens, adapt to what the server
//! reports, and give back what was never committed.
//!
//! The handle takes the time of each call. Waiting for the time it answers,
//! and waking every waiting committer after a commit or an update, is the
//! caller's part.
use vstd::prelude::*;
use vstd::std_specs::cmp::PartialEqSpec;

use crate::quota::{
    claim_fits, do_commit_fits, gate_time, is_aliveness, is_choice, is_claim, is_peek,
    is_reading, keyed_reconcile_fits, larger, picks_valid, EngineView, Pin, QuotaEngine,
};
use crate::quota_laws::{law_a_peek_is_the_earliest_time, law_peeks_have_one_answer};

verus! {

/// A held permit. It counts against admission until it is committed or
/// released, and remembers which resources it reserved.
#[derive(Clone, Debug)]
pub struct Reservation<K> {
    pub picks: Vec<K>,
    /// Validity ceiling for the prepared work.
    pub expires_at: u64,
    idxs: Vec<usize>,
    done: bool,
}

/// What a reservation is: the keys it was given, its validity ceiling, the
/// resource held in each pool, and whether it was committed or released.
pub struct ReservationView<K> {
    pub picks: Seq<K>,
    pub expires_at: int,
    pub held: Seq<usize>,
    pub settled: bool,
}

impl<K> View for Reservation<K> {
    type V = ReservationView<K>;

    closed spec fn view(&self) -> ReservationView<K> {
        ReservationView {
            picks: self.picks@,
            expires_at: self.expires_at as int,
            held: self.idxs@,
            settled: self.done,
        }
    }
}

/// What a commit attempt answers.
#[derive(Clone, Copy, Debug, PartialEq, Eq, Structural)]
pub enum CommitGate {
    /// The commit is authorized now.
    Authorized,
    /// Ask again at this time, or when the horizon moved.
    WaitUntil(u64),
}

/// Whether a reservation was granted: a peek answered within the deadline and
/// its picks were admitted.
pub open spec fn is_granted<K: PartialEq + Clone>(
    before: EngineView<K>,
    demand: Seq<Pin<K>>,
    now: int,
    deadline: int,
    validity: int,
    reserve_at: u64,
    reservation: Reservation<K>,
    after: EngineView<K>,
) -> bool {
    &&& is_claim(
        before,
        demand,
        now,
        reservation@.held,
        reserve_at,
        reservation@.picks,
        after,
    )
    &&& reserve_at <= deadline
    &&& reservation@.expires_at == larger(now, reserve_at as int) + validity
    &&& !reservation@.settled
}

pub open spec fn granted<K: PartialEq + Clone>(
    before: EngineView<K>,
    demand: Seq<Pin<K>>,
    now: int,
    deadline: int,
    validity: int,
    reservation: Reservation<K>,
    after: EngineView<K>,
) -> bool {
    exists|reserve_at: u64|
        is_granted(before, demand, now, deadline, validity, reserve_at, reservation, after)
}

/// Whether a reservation is refused: no eligible resource, or a backlog past
/// the deadline.
pub open spec fn refused<K: PartialEq + Clone>(
    view: EngineView<K>,
    demand: Seq<Pin<K>>,
    now: int,
    deadline: int,
) -> bool {
    ||| is_peek(view, demand, now, None)
    ||| exists|idxs: Seq<usize>, at: u64| #[trigger]
        is_peek(view, demand, now, Some((idxs, at))) && at > deadline
}

/// The engine behind a shared quota.
pub struct QuotaHandle<K> {
    engine: QuotaEngine<K>,
}

impl<K> View for QuotaHandle<K> {
    type V = EngineView<K>;

    closed spec fn view(&self) -> EngineView<K> {
        self.engine@
    }
}

impl<K: PartialEq + Clone> QuotaHandle<K> {
    pub fn new(engine: QuotaEngine<K>) -> (handle: QuotaHandle<K>)
        ensures
            handle@ == engine@,
    {
        QuotaHandle { engine }
    }

    /// Whether the clock has room at `now` for every call: a reservation, a
    /// commit, and an update of up to `tokens` spent tokens.
    pub fn has_room(&self, now: u64, tokens: u32) -> (room: bool)
        ensures
            room == self@.has_room(now as int, tokens as int),
    {
        self.engine.has_room(now, tokens)
    }

    /// Admits a reservation if a commit looks feasible before `deadline`,
    /// counting everything already reserved. Nothing changes on a refusal.
    pub fn reserve(
        &mut self,
        demand: &[Pin<K>],
        deadline: u64,
        validity: u64,
        now: u64,
    ) -> (reservation: Option<Reservation<K>>)
        requires
            K::obeys_eq_spec(),
            demand.len() == old(self)@.pools.len(),
            claim_fits(old(self)@, demand@, now as int),
            larger(now as int, deadline as int) + validity <= u64::MAX,
        ensures
            match reservation {
                Some(held) => granted(
                    old(self)@,
                    demand@,
                    now as int,
                    deadline as int,
                    validity as int,
                    held,
                    final(self)@,
                ),
                None => refused(old(self)@, demand@, now as int, deadline as int) && final(self)@
                    == old(self)@,
            },
    {
        let ghost before = self@;
        match self.engine.peek_reserve(demand, now) {
            None => {
                assert(is_peek(before, demand@, now as int, None));
                None
            },
            Some((idxs, reserve_at)) => {
                assert(is_peek(before, demand@, now as int, Some((idxs@, reserve_at))));
                if reserve_at > deadline {
                    return None;
                }
                assert forall|p: int| 0 <= p < before.pools.len() && p < idxs@.len() implies (
                #[trigger] idxs@[p]) < before.pools[p].len() by {
                    assert(is_choice(
                        before.pools[p],
                        demand@[p],
                        now as int,
                        idxs@[p] as int,
                    ));
                }
                let picks: Vec<K> = self.engine.admit_reservation(idxs.as_slice(), reserve_at);
                let from: u64 = if now >= reserve_at { now } else { reserve_at };
                let held: Reservation<K> = Reservation {
                    picks,
                    expires_at: from + validity,
                    idxs,
                    done: false,
                };
                assert(is_granted(
                    before,
                    demand@,
                    now as int,
                    deadline as int,
                    validity as int,
                    reserve_at,
                    held,
                    self@,
                ));
                Some(held)
            },
        }
    }

    /// Asks the live commit gate: spends the quota and settles the reservation
    /// when it is open, and otherwise says when to ask again.
    pub fn commit(&mut self, reservation: &mut Reservation<K>, now: u64) -> (gate: CommitGate)
        requires
            picks_valid(old(self)@.pools, old(reservation)@.held),
            do_commit_fits(old(self)@, old(reservation)@.held, now as int),
        ensures
            match gate {
                CommitGate::Authorized => {
                    &&& gate_time(old(self)@, old(reservation)@.held, now as int) <= now
                    &&& final(self)@ == old(self)@.committed(old(reservation)@.held, now as int)
                    &&& final(reservation)@ == (ReservationView {
                        settled: true,
                        ..old(reservation)@
                    })
                },
                CommitGate::WaitUntil(at) => {
                    &&& at == gate_time(old(self)@, old(reservation)@.held, now as int)
                    &&& at > now
                    &&& final(self)@ == old(self)@
                    &&& final(reservation)@ == old(reservation)@
                },
            },
    {
        let earliest: u64 = self.engine.earliest_commit(reservation.idxs.as_slice(), now);
        if earliest <= now {
            self.engine.do_commit(reservation.idxs.as_slice(), now);
            reservation.done = true;
            CommitGate::Authorized
        } else {
            CommitGate::WaitUntil(earliest)
        }
    }

    /// Tightens the commit horizon from the state that the server reported.
    pub fn update(
        &mut self,
        pool: usize,
        key: &K,
        bucket: &'static str,
        remaining: u32,
        capacity: u32,
        now: u64,
    )
        requires
            K::obeys_eq_spec(),
            pool < old(self)@.pools.len(),
            keyed_reconcile_fits(
                old(self)@,
                pool as int,
                *key,
                bucket@,
                remaining as int,
                capacity as int,
                now as int,
            ),
        ensures
            is_reading(
                old(self)@,
                pool as int,
                *key,
                bucket@,
                remaining as int,
                capacity as int,
                now as int,
                final(self)@,
            ),
    {
        self.engine.reconcile(pool, key, bucket, remaining, capacity, now);
    }

    pub fn set_alive(&mut self, pool: usize, key: &K, alive: bool)
        requires
            K::obeys_eq_spec(),
            pool < old(self)@.pools.len(),
        ensures
            is_aliveness(old(self)@, pool as int, *key, alive, final(self)@),
    {
        self.engine.set_alive(pool, key, alive);
    }

    /// Cancels a reservation that was not committed. A second call does nothing.
    pub fn release(&mut self, reservation: &mut Reservation<K>)
        requires
            picks_valid(old(self)@.pools, old(reservation)@.held),
        ensures
            final(self)@ == if old(reservation)@.settled {
                old(self)@
            } else {
                old(self)@.released(old(reservation)@.held)
            },
            final(reservation)@ == (ReservationView { settled: true, ..old(reservation)@ }),
    {
        if !reservation.done {
            self.engine.release(reservation.idxs.as_slice());
            reservation.done = true;
        }
    }
}

/// The reservation promise: what is granted is the answer of a peek that lies
/// within the deadline. It is valid for the whole time that was asked for, counted
/// from the time at which it is admitted, and holds the picks of the peek.
pub proof fn law_grants_keep_the_deadline<K: PartialEq + Clone>(
    before: EngineView<K>,
    demand: Seq<Pin<K>>,
    now: int,
    deadline: int,
    validity: int,
    reservation: Reservation<K>,
    after: EngineView<K>,
    answer: Option<(Seq<usize>, u64)>,
)
    requires
        demand.len() == before.pools.len(),
        granted(before, demand, now, deadline, validity, reservation, after),
        is_peek(before, demand, now, answer),
    ensures
        answer matches Some((idxs, at)) && {
            &&& now <= at <= deadline
            &&& reservation@.held == idxs
            &&& reservation@.expires_at == at + validity
            &&& after == before.admitted(idxs, at as int)
        },
        !reservation@.settled,
{
    let at = choose|at: u64|
        is_granted(before, demand, now, deadline, validity, at, reservation, after);
    let held = reservation@.held;
    law_peeks_have_one_answer(before, demand, now, answer, Some((held, at)));
    law_a_peek_is_the_earliest_time(before, demand, now, held, at, now);
}

/// A reservation is refused exactly if no resource serves the demand, or if it
/// could be admitted only after the deadline.
pub proof fn law_refusals_are_for_the_deadline<K: PartialEq + Clone>(
    view: EngineView<K>,
    demand: Seq<Pin<K>>,
    now: int,
    deadline: int,
    answer: Option<(Seq<usize>, u64)>,
)
    requires
        demand.len() == view.pools.len(),
        is_peek(view, demand, now, answer),
    ensures
        refused(view, demand, now, deadline) <==> match answer {
            Some((_, at)) => at > deadline,
            None => true,
        },
{
    if refused(view, demand, now, deadline) {
        if is_peek(view, demand, now, None) {
            law_peeks_have_one_answer(view, demand, now, answer, None);
        } else {
            let (idxs, at) = choose|idxs: Seq<usize>, at: u64| #[trigger]
                is_peek(view, demand, now, Some((idxs, at))) && at > deadline;
            law_peeks_have_one_answer(view, demand, now, answer, Some((idxs, at)));
        }
    }
    if answer is Some {
        let (idxs, at) = answer->0;
        assert(is_peek(view, demand, now, Some((idxs, at))));
    }
}

} // verus!
