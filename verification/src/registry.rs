//! Hands out the least-used live webhook for each upload.
use vstd::prelude::*;

use crate::webhook::{Webhook, WebhookSlot};

verus! {

/// A webhook in rotation: how often it was used, and its index.
#[derive(Clone, Copy, Debug, PartialEq, Eq, Structural)]
pub struct HeapEntry {
    pub used: u64,
    pub idx: usize,
}

impl HeapEntry {
    /// Least used first, then by index.
    pub open spec fn precedes(self, other: HeapEntry) -> bool {
        self.used < other.used || (self.used == other.used && self.idx <= other.idx)
    }
}

/// Whether the entries are in order.
pub open spec fn in_order(entries: Seq<HeapEntry>) -> bool {
    forall|i: int, j: int|
        #![trigger entries[i], entries[j]]
        0 <= i <= j < entries.len() ==> entries[i].precedes(entries[j])
}

/// Whether `at` is where a new entry goes: after everything that precedes it.
pub open spec fn is_place(entries: Seq<HeapEntry>, entry: HeapEntry, at: int) -> bool {
    &&& 0 <= at <= entries.len()
    &&& forall|i: int| 0 <= i < at ==> (#[trigger] entries[i]).precedes(entry)
    &&& forall|i: int| at <= i < entries.len() ==> !(#[trigger] entries[i]).precedes(entry)
}

/// What a registry is: the state of each webhook, and those in rotation.
pub struct RegistryView {
    pub slots: Seq<WebhookSlot>,
    pub rotation: Seq<HeapEntry>,
}

impl RegistryView {
    /// The rotation is in order and names known webhooks.
    pub open spec fn wf(self) -> bool {
        &&& in_order(self.rotation)
        &&& forall|i: int|
            0 <= i < self.rotation.len() ==> (#[trigger] self.rotation[i]).idx < self.slots.len()
    }

    /// Whether the webhook is in rotation.
    pub open spec fn in_rotation(self, idx: int) -> bool {
        exists|k: int| 0 <= k < self.rotation.len() && (#[trigger] self.rotation[k]).idx == idx
    }

    /// No webhook is in rotation twice, and each stands there with its count. So
    /// it is while every `finish` answers a pick.
    pub open spec fn faithful(self) -> bool {
        &&& self.wf()
        &&& forall|i: int|
            0 <= i < self.rotation.len() ==> (#[trigger] self.rotation[i]).used
                == self.slots[self.rotation[i].idx as int].used
        &&& forall|i: int, j: int|
            #![trigger self.rotation[i], self.rotation[j]]
            0 <= i < j < self.rotation.len() ==> self.rotation[i].idx != self.rotation[j].idx
    }

    /// Whether entry `i` of the rotation is alive.
    pub open spec fn alive(self, i: int) -> bool {
        !self.slots[self.rotation[i].idx as int].dead
    }
}

/// A registry that was not used yet: every webhook is in rotation.
pub open spec fn is_fresh(registry: RegistryView) -> bool {
    &&& forall|i: int|
        0 <= i < registry.slots.len() ==> (#[trigger] registry.slots[i]).used == 0
            && !registry.slots[i].dead
    &&& registry.rotation == Seq::new(
        registry.slots.len(),
        |i: int| HeapEntry { used: 0, idx: i as usize },
    )
}

/// Whether entry `k` is the first live one and was taken, with those before it.
pub open spec fn takes_entry(
    before: RegistryView,
    picked: Option<usize>,
    k: int,
    after: RegistryView,
) -> bool {
    &&& 0 <= k < before.rotation.len()
    &&& picked == Some(before.rotation[k].idx)
    &&& before.alive(k)
    &&& forall|i: int| 0 <= i < k ==> !#[trigger] before.alive(i)
    &&& after.rotation == before.rotation.skip(k + 1)
}

/// What a pick answers and leaves: the first live entry, with those before it
/// dropped.
pub open spec fn is_pick(before: RegistryView, picked: Option<usize>, after: RegistryView) -> bool {
    &&& after.slots == before.slots
    &&& match picked {
        Some(_) => exists|k: int| #[trigger] takes_entry(before, picked, k, after),
        None => {
            &&& forall|i: int| 0 <= i < before.rotation.len() ==> !#[trigger] before.alive(i)
            &&& after.rotation.len() == 0
        },
    }
}

/// What marking a webhook dead leaves.
pub open spec fn is_death(before: RegistryView, idx: usize, after: RegistryView) -> bool {
    &&& idx < before.slots.len()
    &&& after.rotation == before.rotation
    &&& after.slots == before.slots.update(
        idx as int,
        WebhookSlot { dead: true, ..before.slots[idx as int] },
    )
}

/// What finishing a webhook leaves: its count is one higher, and it is put back
/// in order where it lives.
pub open spec fn is_finish(before: RegistryView, idx: usize, after: RegistryView) -> bool {
    let slot = before.slots[idx as int];
    let entry = HeapEntry { used: (slot.used + 1) as u64, idx };
    &&& idx < before.slots.len()
    &&& slot.used < u64::MAX
    &&& after.slots == before.slots.update(
        idx as int,
        WebhookSlot { used: (slot.used + 1) as u64, ..slot },
    )
    &&& if slot.dead {
        after.rotation == before.rotation
    } else {
        exists|at: int| #[trigger]
            is_place(before.rotation, entry, at) && after.rotation == before.rotation.insert(
                at,
                entry,
            )
    }
}

/// Holds every webhook. A picked one leaves the rotation until `finish` puts it
/// back, so that concurrent uploads fan out; dead ones never come back.
pub struct WebhookRegistry {
    slots: Vec<WebhookSlot>,
    rotation: Vec<HeapEntry>,
}

impl View for WebhookRegistry {
    type V = RegistryView;

    closed spec fn view(&self) -> RegistryView {
        RegistryView { slots: self.slots@, rotation: self.rotation@ }
    }
}

impl WebhookRegistry {
    pub fn new(webhooks: Vec<Webhook>) -> (registry: WebhookRegistry)
        ensures
            registry@.wf(),
            is_fresh(registry@),
            registry@.slots.len() == webhooks.len(),
            forall|i: int|
                0 <= i < webhooks.len() ==> {
                    let slot = #[trigger] registry@.slots[i];
                    slot.id@ == webhooks[i].id@ && slot.token@ == webhooks[i].token@
                },
    {
        let mut slots: Vec<WebhookSlot> = Vec::new();
        let mut rotation: Vec<HeapEntry> = Vec::new();
        let mut i: usize = 0;
        while i < webhooks.len()
            invariant
                i <= webhooks.len(),
                slots.len() == i,
                rotation.len() == i,
                forall|k: int|
                    0 <= k < i ==> {
                        let slot = #[trigger] slots[k];
                        &&& slot.id@ == webhooks[k].id@
                        &&& slot.token@ == webhooks[k].token@
                        &&& slot.used == 0
                        &&& !slot.dead
                    },
                forall|k: int|
                    0 <= k < i ==> #[trigger] rotation[k] == (HeapEntry {
                        used: 0,
                        idx: k as usize,
                    }),
            decreases webhooks.len() - i,
        {
            slots.push(WebhookSlot::new(webhooks[i].clone()));
            rotation.push(HeapEntry { used: 0, idx: i });
            i += 1;
        }
        assert(rotation@ =~= Seq::new(
            webhooks@.len(),
            |i: int| HeapEntry { used: 0, idx: i as usize },
        ));
        WebhookRegistry { slots, rotation }
    }

    pub fn slot(&self, idx: usize) -> (slot: &WebhookSlot)
        requires
            idx < self@.slots.len(),
        ensures
            *slot == self@.slots[idx as int],
    {
        &self.slots[idx]
    }

    /// Takes the least-used live webhook out of rotation. Dead ones before it
    /// are dropped. Nothing is returned where no live webhook is free.
    pub fn pick(&mut self) -> (picked: Option<usize>)
        requires
            old(self)@.wf(),
        ensures
            final(self)@.wf(),
            is_pick(old(self)@, picked, final(self)@),
    {
        let ghost before = self@;
        let mut k: usize = 0;
        while k < self.rotation.len()
            invariant
                before == self@,
                before == old(self)@,
                before.wf(),
                k <= self.rotation.len(),
                forall|i: int| 0 <= i < k ==> !#[trigger] before.alive(i),
            decreases self.rotation.len() - k,
        {
            assert(before.rotation[k as int].idx < before.slots.len());
            let idx: usize = self.rotation[k].idx;
            if !self.slots[idx].dead {
                let rest: Vec<HeapEntry> = self.rotation.split_off(k + 1);
                self.rotation = rest;
                proof {
                    assert(self.rotation@ =~= before.rotation.skip(k + 1));
                    assert(takes_entry(before, Some(idx), k as int, self@));
                }
                return Some(idx);
            }
            assert(!before.alive(k as int));
            k += 1;
        }
        self.rotation = Vec::new();
        None
    }

    /// Marks a webhook permanently unusable; it is not put back into rotation.
    pub fn mark_dead(&mut self, idx: usize)
        requires
            old(self)@.wf(),
            idx < old(self)@.slots.len(),
        ensures
            final(self)@.wf(),
            is_death(old(self)@, idx, final(self)@),
    {
        let ghost before = self@;
        self.slots[idx].dead = true;
        assert(self@.slots =~= before.slots.update(
            idx as int,
            WebhookSlot { dead: true, ..before.slots[idx as int] },
        ));
    }

    /// Counts one attempt and puts the webhook back into rotation if it is
    /// still alive.
    pub fn finish(&mut self, idx: usize)
        requires
            old(self)@.wf(),
            idx < old(self)@.slots.len(),
            old(self)@.slots[idx as int].used < u64::MAX,
        ensures
            final(self)@.wf(),
            is_finish(old(self)@, idx, final(self)@),
    {
        let ghost before = self@;
        let used: u64 = self.slots[idx].used + 1;
        self.slots[idx].used = used;
        assert(self@.slots =~= before.slots.update(
            idx as int,
            WebhookSlot { used, ..before.slots[idx as int] },
        ));
        if !self.slots[idx].dead {
            let entry: HeapEntry = HeapEntry { used, idx };
            let mut at: usize = 0;
            while at < self.rotation.len() && (self.rotation[at].used < used || (
            self.rotation[at].used == used && self.rotation[at].idx <= idx))
                invariant
                    entry.used == used,
                    entry.idx == idx,
                    self.rotation@ == before.rotation,
                    at <= self.rotation.len(),
                    forall|i: int| 0 <= i < at ==> (#[trigger] before.rotation[i]).precedes(entry),
                decreases self.rotation.len() - at,
            {
                at += 1;
            }
            proof {
                assert forall|i: int| at <= i < before.rotation.len() implies !(
                #[trigger] before.rotation[i]).precedes(entry) by {
                    assert(!before.rotation[at as int].precedes(entry));
                    assert(before.rotation[at as int].precedes(before.rotation[i]));
                }
                assert(is_place(before.rotation, entry, at as int));
            }
            self.rotation.insert(at, entry);
        }
    }
}

/// A call on a registry, with what a pick answered.
pub enum RegistryCall {
    Pick(Option<usize>),
    MarkDead(usize),
    Finish(usize),
}

/// What the call leaves.
pub open spec fn is_registry_call(
    before: RegistryView,
    call: RegistryCall,
    after: RegistryView,
) -> bool {
    match call {
        RegistryCall::Pick(picked) => is_pick(before, picked, after),
        RegistryCall::MarkDead(idx) => is_death(before, idx, after),
        RegistryCall::Finish(idx) => is_finish(before, idx, after),
    }
}

/// Whether the webhook was picked in the first `n` calls and not finished since.
pub open spec fn in_use(calls: Seq<RegistryCall>, n: int, idx: usize) -> bool
    decreases n,
{
    if n <= 0 {
        false
    } else {
        match calls[n - 1] {
            RegistryCall::Pick(picked) => picked == Some(idx) || in_use(calls, n - 1, idx),
            RegistryCall::MarkDead(_) => in_use(calls, n - 1, idx),
            RegistryCall::Finish(other) => other != idx && in_use(calls, n - 1, idx),
        }
    }
}

/// The states of a registry from the first on, each left by a call. Every
/// `finish` answers a pick.
pub open spec fn is_registry_history(
    states: Seq<RegistryView>,
    calls: Seq<RegistryCall>,
) -> bool {
    &&& states.len() == calls.len() + 1
    &&& is_fresh(states[0])
    &&& states[0].slots.len() <= usize::MAX
    &&& forall|n: int|
        0 <= n < calls.len() ==> is_registry_call(states[n], #[trigger] calls[n], states[n + 1])
    &&& forall|n: int|
        #![trigger calls[n]]
        0 <= n < calls.len() ==> (calls[n] matches RegistryCall::Finish(idx) ==> in_use(
            calls,
            n,
            idx,
        ))
}

/// Live webhooks are in rotation where they are not in use.
pub open spec fn keeps_track(registry: RegistryView, calls: Seq<RegistryCall>, n: int) -> bool {
    &&& registry.faithful()
    &&& forall|idx: usize|
        idx < registry.slots.len() && !registry.slots[idx as int].dead ==> #[trigger] in_use(
            calls,
            n,
            idx,
        ) != registry.in_rotation(idx as int)
    &&& forall|idx: usize|
        idx < registry.slots.len() && #[trigger] in_use(calls, n, idx) ==> !registry.in_rotation(
            idx as int,
        )
}

proof fn lemma_history_keeps_track(
    states: Seq<RegistryView>,
    calls: Seq<RegistryCall>,
    n: int,
)
    requires
        is_registry_history(states, calls),
        0 <= n < states.len(),
    ensures
        keeps_track(states[n], calls, n),
    decreases n,
{
    if n == 0 {
        let first = states[0];
        assert forall|idx: usize| idx < first.slots.len() implies #[trigger] first.in_rotation(
            idx as int,
        ) by {
            assert(first.rotation[idx as int].idx == idx);
        }
    } else {
        lemma_history_keeps_track(states, calls, n - 1);
        assert(is_registry_call(states[n - 1], calls[n - 1], states[n - 1 + 1]));
        match calls[n - 1] {
            RegistryCall::Pick(picked) => lemma_pick_keeps_track(
                states[n - 1],
                picked,
                states[n],
                calls,
                n,
            ),
            RegistryCall::MarkDead(idx) => lemma_death_keeps_track(
                states[n - 1],
                idx,
                states[n],
                calls,
                n,
            ),
            RegistryCall::Finish(idx) => lemma_finish_keeps_track(
                states[n - 1],
                idx,
                states[n],
                calls,
                n,
            ),
        }
    }
}

proof fn lemma_pick_keeps_track(
    before: RegistryView,
    picked: Option<usize>,
    after: RegistryView,
    calls: Seq<RegistryCall>,
    n: int,
)
    requires
        n > 0,
        calls[n - 1] == RegistryCall::Pick(picked),
        is_pick(before, picked, after),
        keeps_track(before, calls, n - 1),
    ensures
        keeps_track(after, calls, n),
{
    let cut: int = match picked {
        Some(_) => 1 + choose|k: int| #[trigger] takes_entry(before, picked, k, after),
        None => before.rotation.len() as int,
    };
    assert(after.rotation =~= before.rotation.skip(cut));
    assert forall|i: int| 0 <= i < after.rotation.len() implies #[trigger] after.rotation[i]
        == before.rotation[i + cut] by {}
    assert(after.faithful());
    assert forall|idx: usize| #![trigger in_use(calls, n, idx)] idx < after.slots.len() implies {
        &&& !after.slots[idx as int].dead ==> in_use(calls, n, idx) != after.in_rotation(idx as int)
        &&& in_use(calls, n, idx) ==> !after.in_rotation(idx as int)
    } by {
        let was = in_use(calls, n - 1, idx);
        if after.in_rotation(idx as int) {
            let k = choose|k: int|
                0 <= k < after.rotation.len() && (#[trigger] after.rotation[k]).idx == idx;
            assert(before.rotation[k + cut].idx == idx);
            assert(before.in_rotation(idx as int));
            if picked == Some(idx) {
                assert(before.rotation[cut - 1].idx == idx);
            }
        } else if before.in_rotation(idx as int) {
            let k = choose|k: int|
                0 <= k < before.rotation.len() && (#[trigger] before.rotation[k]).idx == idx;
            if k >= cut {
                assert(after.rotation[k - cut].idx == idx);
            } else {
                assert(before.alive(k) == !before.slots[idx as int].dead);
                if picked is Some && k == cut - 1 {
                    assert(picked == Some(idx));
                }
            }
        }
    }
}

proof fn lemma_death_keeps_track(
    before: RegistryView,
    dead: usize,
    after: RegistryView,
    calls: Seq<RegistryCall>,
    n: int,
)
    requires
        n > 0,
        calls[n - 1] == RegistryCall::MarkDead(dead),
        is_death(before, dead, after),
        keeps_track(before, calls, n - 1),
    ensures
        keeps_track(after, calls, n),
{
    assert(after.faithful());
    assert forall|idx: usize| #![trigger in_use(calls, n, idx)] idx < after.slots.len() implies {
        &&& !after.slots[idx as int].dead ==> in_use(calls, n, idx) != after.in_rotation(idx as int)
        &&& in_use(calls, n, idx) ==> !after.in_rotation(idx as int)
    } by {
        assert(in_use(calls, n, idx) == in_use(calls, n - 1, idx));
        assert(after.in_rotation(idx as int) == before.in_rotation(idx as int));
    }
}

proof fn lemma_finish_keeps_track(
    before: RegistryView,
    done: usize,
    after: RegistryView,
    calls: Seq<RegistryCall>,
    n: int,
)
    requires
        n > 0,
        calls[n - 1] == RegistryCall::Finish(done),
        in_use(calls, n - 1, done),
        is_finish(before, done, after),
        keeps_track(before, calls, n - 1),
    ensures
        keeps_track(after, calls, n),
{
    let slot = before.slots[done as int];
    let entry = HeapEntry { used: (slot.used + 1) as u64, idx: done };
    assert(!before.in_rotation(done as int));
    if slot.dead {
        assert(after.faithful());
        assert forall|idx: usize| #![trigger in_use(calls, n, idx)] idx
            < after.slots.len() implies {
            &&& !after.slots[idx as int].dead ==> in_use(calls, n, idx) != after.in_rotation(
                idx as int,
            )
            &&& in_use(calls, n, idx) ==> !after.in_rotation(idx as int)
        } by {
            assert(after.in_rotation(idx as int) == before.in_rotation(idx as int));
            let was = in_use(calls, n - 1, idx);
        }
    } else {
        let at = choose|at: int| #[trigger]
            is_place(before.rotation, entry, at) && after.rotation == before.rotation.insert(
                at,
                entry,
            );
        assert forall|i: int| 0 <= i < after.rotation.len() implies (#[trigger] after.rotation[i])
            == (if i < at {
            before.rotation[i]
        } else if i == at {
            entry
        } else {
            before.rotation[i - 1]
        }) by {}
        assert forall|i: int| 0 <= i < before.rotation.len() implies (
        #[trigger] before.rotation[i]).idx != done by {}
        assert(after.faithful());
        assert forall|idx: usize| #![trigger in_use(calls, n, idx)] idx
            < after.slots.len() implies {
            &&& !after.slots[idx as int].dead ==> in_use(calls, n, idx) != after.in_rotation(
                idx as int,
            )
            &&& in_use(calls, n, idx) ==> !after.in_rotation(idx as int)
        } by {
            let was = in_use(calls, n - 1, idx);
            if idx == done {
                assert(after.rotation[at].idx == idx);
            } else {
                if before.in_rotation(idx as int) {
                    let k = choose|k: int|
                        0 <= k < before.rotation.len() && (#[trigger] before.rotation[k]).idx
                            == idx;
                    let moved = if k < at { k } else { k + 1 };
                    assert(after.rotation[moved].idx == idx);
                }
                if after.in_rotation(idx as int) {
                    let k = choose|k: int|
                        0 <= k < after.rotation.len() && (#[trigger] after.rotation[k]).idx
                            == idx;
                    let moved = if k < at { k } else { k - 1 };
                    assert(before.rotation[moved].idx == idx);
                }
            }
        }
    }
}

/// The fairness promise, while every `finish` answers a pick: a pick takes the
/// least used of the live webhooks that are not in use, the first of them where
/// several are used alike, and that one is in use from then on. It finds none
/// only where there is none. It changes no count and kills no webhook.
pub proof fn law_picks_take_the_least_used(
    states: Seq<RegistryView>,
    calls: Seq<RegistryCall>,
    n: int,
    picked: Option<usize>,
)
    requires
        is_registry_history(states, calls),
        0 <= n < calls.len(),
        calls[n] == RegistryCall::Pick(picked),
    ensures
        states[n + 1].slots == states[n].slots,
        match picked {
            Some(i) => {
                &&& i < states[n].slots.len()
                &&& !states[n].slots[i as int].dead
                &&& !in_use(calls, n, i)
                &&& in_use(calls, n + 1, i)
                &&& forall|j: usize|
                    j < states[n].slots.len() && !states[n].slots[j as int].dead
                        && !#[trigger] in_use(calls, n, j) ==> states[n].slots[i as int].used
                        < states[n].slots[j as int].used || (states[n].slots[i as int].used
                        == states[n].slots[j as int].used && i <= j)
            },
            None => forall|j: usize|
                j < states[n].slots.len() ==> states[n].slots[j as int].dead || #[trigger] in_use(
                    calls,
                    n,
                    j,
                ),
        },
{
    let before = states[n];
    lemma_history_keeps_track(states, calls, n);
    assert(is_registry_call(before, calls[n], states[n + 1]));
    assert(is_pick(before, picked, states[n + 1]));
    match picked {
        Some(i) => {
            let k = choose|k: int| #[trigger] takes_entry(before, picked, k, states[n + 1]);
            assert(before.rotation[k].idx == i);
            assert(before.in_rotation(i as int));
            assert forall|j: usize|
                j < before.slots.len() && !before.slots[j as int].dead && !#[trigger] in_use(
                    calls,
                    n,
                    j,
                ) implies before.slots[i as int].used < before.slots[j as int].used || (
            before.slots[i as int].used == before.slots[j as int].used && i <= j) by {
                assert(before.in_rotation(j as int));
                let m = choose|m: int|
                    0 <= m < before.rotation.len() && (#[trigger] before.rotation[m]).idx == j;
                assert(before.alive(m));
                assert(before.rotation[k].precedes(before.rotation[m]));
            }
        },
        None => {
            assert forall|j: usize| j < before.slots.len() implies before.slots[j as int].dead
                || #[trigger] in_use(calls, n, j) by {
                if !before.slots[j as int].dead && !in_use(calls, n, j) {
                    assert(before.in_rotation(j as int));
                    let m = choose|m: int|
                        0 <= m < before.rotation.len() && (#[trigger] before.rotation[m]).idx == j;
                    assert(!before.alive(m));
                }
            }
        },
    }
}

/// A fresh registry has every webhook in rotation, none of them used or dead.
pub proof fn law_fresh_webhooks_are_in_rotation(registry: RegistryView, i: int)
    requires
        is_fresh(registry),
        registry.slots.len() <= usize::MAX,
        0 <= i < registry.slots.len(),
    ensures
        registry.rotation.len() == registry.slots.len(),
        registry.in_rotation(i),
        registry.slots[i].used == 0,
        !registry.slots[i].dead,
{
    assert(registry.rotation[i].idx == i);
}

/// Finishing a webhook counts one use of it. It comes back into rotation exactly
/// if it lives, and nothing else of any webhook changes.
pub proof fn law_finishing_counts_one_use(
    before: RegistryView,
    idx: usize,
    after: RegistryView,
    j: int,
)
    requires
        is_finish(before, idx, after),
        0 <= j < before.slots.len(),
    ensures
        after.slots.len() == before.slots.len(),
        j == idx ==> after.slots[j].used == before.slots[j].used + 1,
        j != idx ==> after.slots[j].used == before.slots[j].used,
        after.slots[j].dead == before.slots[j].dead,
        after.slots[j].id == before.slots[j].id,
        after.slots[j].token == before.slots[j].token,
        after.in_rotation(j) <==> before.in_rotation(j) || (j == idx && !before.slots[j].dead),
{
    let slot = before.slots[idx as int];
    let entry = HeapEntry { used: (slot.used + 1) as u64, idx };
    if !slot.dead {
        let at = choose|at: int| #[trigger]
            is_place(before.rotation, entry, at) && after.rotation == before.rotation.insert(
                at,
                entry,
            );
        assert(after.rotation[at] == entry);
        if before.in_rotation(j) {
            let k = choose|k: int|
                0 <= k < before.rotation.len() && (#[trigger] before.rotation[k]).idx == j;
            let moved = if k < at {
                k
            } else {
                k + 1
            };
            assert(after.rotation[moved].idx == j);
        }
        if after.in_rotation(j) {
            let k = choose|k: int|
                0 <= k < after.rotation.len() && (#[trigger] after.rotation[k]).idx == j;
            if k != at {
                let moved = if k < at {
                    k
                } else {
                    k - 1
                };
                assert(before.rotation[moved].idx == j);
            }
        }
    }
}

/// Marking a webhook dead changes nothing but that.
pub proof fn law_death_is_of_one_webhook(
    before: RegistryView,
    idx: usize,
    after: RegistryView,
    j: int,
)
    requires
        is_death(before, idx, after),
        0 <= j < before.slots.len(),
    ensures
        after.slots.len() == before.slots.len(),
        after.slots[j].dead == (before.slots[j].dead || j == idx),
        after.slots[j].used == before.slots[j].used,
        after.slots[j].id == before.slots[j].id,
        after.slots[j].token == before.slots[j].token,
        after.rotation == before.rotation,
{
}

/// How often the webhook was finished in the calls from `m` up to `n`.
pub open spec fn finishes(calls: Seq<RegistryCall>, m: int, n: int, idx: usize) -> int
    decreases n - m,
{
    if n <= m {
        0
    } else {
        finishes(calls, m, n - 1, idx) + if calls[n - 1] == RegistryCall::Finish(idx) {
            1int
        } else {
            0
        }
    }
}

/// The count of a webhook is the number of its uses that ended, whatever else was
/// called; and a webhook that is dead stays dead, so that it is never picked again.
pub proof fn law_counts_and_deaths_stay(
    states: Seq<RegistryView>,
    calls: Seq<RegistryCall>,
    m: int,
    n: int,
    idx: usize,
)
    requires
        is_registry_history(states, calls),
        0 <= m <= n < states.len(),
        idx < states[m].slots.len(),
    ensures
        states[n].slots.len() == states[m].slots.len(),
        states[n].slots[idx as int].used == states[m].slots[idx as int].used + finishes(
            calls,
            m,
            n,
            idx,
        ),
        states[n].slots[idx as int].id == states[m].slots[idx as int].id,
        states[n].slots[idx as int].token == states[m].slots[idx as int].token,
        states[m].slots[idx as int].dead ==> states[n].slots[idx as int].dead,
        states[m].slots[idx as int].dead && n < calls.len() ==> calls[n] != RegistryCall::Pick(
            Some(idx),
        ),
    decreases n - m,
{
    if m < n {
        law_counts_and_deaths_stay(states, calls, m, n - 1, idx);
        let before = states[n - 1];
        let after = states[n];
        assert(is_registry_call(before, calls[n - 1], states[n - 1 + 1]));
        match calls[n - 1] {
            RegistryCall::Finish(done) => {
                law_finishing_counts_one_use(before, done, after, idx as int);
            },
            RegistryCall::MarkDead(dead) => {
                law_death_is_of_one_webhook(before, dead, after, idx as int);
            },
            RegistryCall::Pick(_) => {},
        }
    }
    if n < calls.len() {
        if let RegistryCall::Pick(picked) = calls[n] {
            law_picks_take_the_least_used(states, calls, n, picked);
        }
    }
}

} // verus!
