//! A stream session with a fixed window: whole objects, no shared budget.
//!
//! As with the budgeted session, it decides and the caller performs.
use std::collections::VecDeque;

use bytes::Bytes;
use vstd::prelude::*;

use crate::request::ObjectMeta;
use crate::stream::{at_least, at_most, StreamError};
use crate::sums::{
    lemma_total_first, lemma_total_prefix, lemma_total_take, lemma_total_update, total,
};

verus! {

/// The window of a session is never empty.
#[derive(Clone, Copy, Debug, PartialEq, Eq, Structural)]
pub struct EmptyWindow;

impl EmptyWindow {
    pub fn message(&self) -> (text: &'static str)
        ensures
            text@ == "Ready + Data must contain at least one frame"@,
    {
        "Ready + Data must contain at least one frame"
    }
}

#[derive(Clone, Copy, Debug, PartialEq, Eq, Structural)]
pub struct StreamConfig {
    pub capacity_frames: usize,
    pub prefetch_frames: usize,
}

impl StreamConfig {
    pub fn new(capacity_frames: usize, prefetch_frames: usize) -> (config: Result<
        StreamConfig,
        EmptyWindow,
    >)
        ensures
            match config {
                Ok(c) => {
                    &&& capacity_frames > 0
                    &&& c == (StreamConfig { capacity_frames, prefetch_frames })
                },
                Err(_) => capacity_frames == 0,
            },
    {
        if capacity_frames == 0 {
            return Err(EmptyWindow);
        }
        Ok(StreamConfig { capacity_frames, prefetch_frames })
    }
}

/// What the plan of one object is. `buffer[k]` is frame `emitted + k`.
pub struct FixedPlanView {
    pub object: ObjectMeta,
    pub ticket: bool,
    pub open: bool,
    pub authorized: int,
    pub received: int,
    pub emitted: int,
    pub buffer: Seq<Bytes>,
}

impl FixedPlanView {
    pub open spec fn wf(self) -> bool {
        &&& 0 <= self.emitted <= self.received <= self.authorized <= self.object.frame_count
        &&& self.emitted < self.object.frame_count
        &&& self.emitted + self.buffer.len() == self.received
        &&& self.ticket ==> !self.open
        &&& self.received > 0 ==> self.open
    }

    pub open spec fn remaining(self) -> int {
        self.object.frame_count - self.emitted
    }

    pub open spec fn committed(self) -> int {
        self.authorized - self.emitted
    }

    pub open spec fn missing(self) -> int {
        self.object.frame_count - self.authorized
    }

    /// Its URL has to be polled: only an object within the window needs one.
    pub open spec fn polls_url(self) -> bool {
        self.authorized != self.emitted && !self.open && self.ticket
    }

    /// Its download has to be polled.
    pub open spec fn polls_download(self) -> bool {
        self.received != self.authorized && self.open
    }

    /// The plan with up to `room` more frames authorized.
    pub open spec fn granted(self, room: int) -> FixedPlanView {
        FixedPlanView {
            authorized: self.authorized + at_least(at_most(room, self.missing()), 0),
            ..self
        }
    }
}

pub open spec fn fixed_remaining(plans: Seq<FixedPlanView>) -> Seq<int> {
    plans.map_values(|p: FixedPlanView| p.remaining())
}

pub open spec fn fixed_committed(plans: Seq<FixedPlanView>) -> Seq<int> {
    plans.map_values(|p: FixedPlanView| p.committed())
}

pub open spec fn fixed_missing(plans: Seq<FixedPlanView>) -> Seq<int> {
    plans.map_values(|p: FixedPlanView| p.missing())
}

pub open spec fn fixed_buffered(plans: Seq<FixedPlanView>) -> Seq<int> {
    plans.map_values(|p: FixedPlanView| p.buffer.len() as int)
}

/// The plans with `room` more frames authorized, first plans first.
pub open spec fn fixed_granted(plans: Seq<FixedPlanView>, room: int) -> Seq<FixedPlanView> {
    Seq::new(
        plans.len(),
        |i: int| plans[i].granted(room - total(fixed_missing(plans).take(i))),
    )
}

/// What a session is.
pub struct FixedSessionView {
    pub plans: Seq<FixedPlanView>,
    pub capacity_frames: int,
    pub prefetch_frames: int,
    pub source_ended: bool,
}

impl FixedSessionView {
    pub open spec fn wf(self) -> bool {
        &&& forall|i: int| 0 <= i < self.plans.len() ==> (#[trigger] self.plans[i]).wf()
        &&& forall|i: int| 1 <= i < self.plans.len() ==> (#[trigger] self.plans[i]).emitted == 0
        &&& 0 < self.capacity_frames <= usize::MAX
        &&& 0 <= self.prefetch_frames <= usize::MAX
    }

    pub open spec fn with_plan(self, i: int, plan: FixedPlanView) -> FixedSessionView {
        FixedSessionView { plans: self.plans.update(i, plan), ..self }
    }

    /// The session after its first buffered frame left.
    pub open spec fn popped(self) -> FixedSessionView {
        let front = self.plans[0];
        let plan = FixedPlanView {
            emitted: front.emitted + 1,
            buffer: front.buffer.subrange(1, front.buffer.len() as int),
            ..front
        };
        FixedSessionView {
            plans: if plan.emitted == plan.object.frame_count {
                self.plans.skip(1)
            } else {
                self.plans.update(0, plan)
            },
            ..self
        }
    }
}

/// Runtime state for one object.
pub struct ObjectPlan {
    object: ObjectMeta,
    ticket: bool,
    open: bool,
    authorized: u32,
    received: u32,
    emitted: u32,
    buffer: VecDeque<Bytes>,
}

impl View for ObjectPlan {
    type V = FixedPlanView;

    closed spec fn view(&self) -> FixedPlanView {
        FixedPlanView {
            object: self.object,
            ticket: self.ticket,
            open: self.open,
            authorized: self.authorized as int,
            received: self.received as int,
            emitted: self.emitted as int,
            buffer: self.buffer@,
        }
    }
}

impl ObjectPlan {
    pub fn object(&self) -> (object: &ObjectMeta)
        ensures
            *object == self@.object,
    {
        &self.object
    }

    pub fn authorized_frames(&self) -> (frames: u32)
        ensures
            frames == self@.authorized,
    {
        self.authorized
    }

    pub fn buffered_frames(&self) -> (frames: usize)
        ensures
            frames == self@.buffer.len(),
    {
        self.buffer.len()
    }
}

pub open spec fn fixed_plan_views(plans: Seq<ObjectPlan>) -> Seq<FixedPlanView> {
    plans.map_values(|p: ObjectPlan| p@)
}

/// A single-owner state machine that delivers from the front object only.
pub struct StreamSession {
    plans: Vec<ObjectPlan>,
    capacity_frames: usize,
    prefetch_frames: usize,
    source_ended: bool,
}

impl View for StreamSession {
    type V = FixedSessionView;

    closed spec fn view(&self) -> FixedSessionView {
        FixedSessionView {
            plans: fixed_plan_views(self.plans@),
            capacity_frames: self.capacity_frames as int,
            prefetch_frames: self.prefetch_frames as int,
            source_ended: self.source_ended,
        }
    }
}

impl StreamSession {
    pub fn new(config: StreamConfig) -> (session: StreamSession)
        requires
            config.capacity_frames > 0,
        ensures
            session@.wf(),
            session@ == (FixedSessionView {
                plans: Seq::empty(),
                capacity_frames: config.capacity_frames as int,
                prefetch_frames: config.prefetch_frames as int,
                source_ended: false,
            }),
    {
        let session: StreamSession = StreamSession {
            plans: Vec::new(),
            capacity_frames: config.capacity_frames,
            prefetch_frames: config.prefetch_frames,
            source_ended: false,
        };
        assert(session@.plans =~= Seq::<FixedPlanView>::empty());
        session
    }

    pub fn plans(&self) -> (plans: &Vec<ObjectPlan>)
        ensures
            fixed_plan_views(plans@) == self@.plans,
    {
        &self.plans
    }

    pub fn set_capacity_frames(&mut self, capacity_frames: usize) -> (set: Result<(), EmptyWindow>)
        requires
            old(self)@.wf(),
        ensures
            final(self)@.wf(),
            match set {
                Ok(_) => {
                    &&& capacity_frames > 0
                    &&& final(self)@ == (FixedSessionView {
                        capacity_frames: capacity_frames as int,
                        ..old(self)@
                    })
                },
                Err(_) => capacity_frames == 0 && final(self)@ == old(self)@,
            },
    {
        if capacity_frames == 0 {
            return Err(EmptyWindow);
        }
        self.capacity_frames = capacity_frames;
        Ok(())
    }

    pub fn set_prefetch_frames(&mut self, prefetch_frames: usize)
        requires
            old(self)@.wf(),
        ensures
            final(self)@.wf(),
            final(self)@ == (FixedSessionView {
                prefetch_frames: prefetch_frames as int,
                ..old(self)@
            }),
    {
        self.prefetch_frames = prefetch_frames;
    }

    pub fn buffered_frames(&self) -> (frames: usize)
        requires
            self@.wf(),
            total(fixed_buffered(self@.plans)) <= usize::MAX,
        ensures
            frames == total(fixed_buffered(self@.plans)),
    {
        let ghost items = fixed_buffered(self@.plans);
        let mut sum: usize = 0;
        let mut i: usize = 0;
        while i < self.plans.len()
            invariant
                items == fixed_buffered(self@.plans),
                total(items) <= usize::MAX,
                i <= self.plans.len(),
                sum == total(items.take(i as int)),
            decreases self.plans.len() - i,
        {
            proof {
                assert(self@.plans[i as int] == self.plans[i as int]@);
                lemma_total_take(items, i as int);
                lemma_total_prefix(items, i + 1);
            }
            sum = sum + self.plans[i].buffered_frames();
            i += 1;
        }
        proof {
            assert(items.take(i as int) =~= items);
        }
        sum
    }

    /// Planned frames that are not delivered yet.
    fn planned_frames(&self) -> (frames: u128)
        requires
            self@.wf(),
        ensures
            frames == total(fixed_remaining(self@.plans)),
    {
        let ghost items = fixed_remaining(self@.plans);
        let mut sum: u128 = 0;
        let mut i: usize = 0;
        while i < self.plans.len()
            invariant
                self@.wf(),
                items == fixed_remaining(self@.plans),
                i <= self.plans.len(),
                sum == total(items.take(i as int)),
                sum <= i * u32::MAX,
            decreases self.plans.len() - i,
        {
            proof {
                assert(self@.plans[i as int] == self.plans[i as int]@);
                assert(self@.plans[i as int].wf());
                lemma_total_take(items, i as int);
            }
            sum = sum + (self.plans[i].object.frame_count - self.plans[i].emitted) as u128;
            i += 1;
        }
        proof {
            assert(items.take(i as int) =~= items);
        }
        sum
    }

    /// Frames that may be downloaded and are not delivered yet.
    fn committed_frames(&self) -> (frames: u128)
        requires
            self@.wf(),
        ensures
            frames == total(fixed_committed(self@.plans)),
    {
        let ghost items = fixed_committed(self@.plans);
        let mut sum: u128 = 0;
        let mut i: usize = 0;
        while i < self.plans.len()
            invariant
                self@.wf(),
                items == fixed_committed(self@.plans),
                i <= self.plans.len(),
                sum == total(items.take(i as int)),
                sum <= i * u32::MAX,
            decreases self.plans.len() - i,
        {
            proof {
                assert(self@.plans[i as int] == self.plans[i as int]@);
                assert(self@.plans[i as int].wf());
                lemma_total_take(items, i as int);
            }
            sum = sum + (self.plans[i].authorized - self.plans[i].emitted) as u128;
            i += 1;
        }
        proof {
            assert(items.take(i as int) =~= items);
        }
        sum
    }

    /// Whether the source has to be asked for another object.
    pub fn wants_object(&self) -> (wanted: bool)
        requires
            self@.wf(),
        ensures
            wanted == (total(fixed_remaining(self@.plans)) < self@.capacity_frames
                + self@.prefetch_frames && !self@.source_ended),
    {
        let target: u128 = self.capacity_frames as u128 + self.prefetch_frames as u128;
        self.planned_frames() < target && !self.source_ended
    }

    /// Plans the next object of the source; its URL has to be resolved.
    pub fn object_arrived(&mut self, object: ObjectMeta) -> (planned: Result<(), StreamError>)
        requires
            old(self)@.wf(),
        ensures
            final(self)@.wf(),
            match planned {
                Ok(_) => {
                    &&& object.frame_count > 0
                    &&& final(self)@ == (FixedSessionView {
                        plans: old(self)@.plans.push(
                            FixedPlanView {
                                object,
                                ticket: true,
                                open: false,
                                authorized: 0,
                                received: 0,
                                emitted: 0,
                                buffer: Seq::empty(),
                            },
                        ),
                        ..old(self)@
                    })
                },
                Err(e) => {
                    &&& object.frame_count == 0
                    &&& e == StreamError::EmptyObject
                    &&& final(self)@ == old(self)@
                },
            },
    {
        if object.frame_count == 0 {
            return Err(StreamError::EmptyObject);
        }
        let ghost before = self@;
        self.plans.push(
            ObjectPlan {
                object,
                ticket: true,
                open: false,
                authorized: 0,
                received: 0,
                emitted: 0,
                buffer: VecDeque::new(),
            },
        );
        proof {
            assert(self@.plans =~= before.plans.push(self.plans@.last()@));
        }
        Ok(())
    }

    /// Notes that the source has no more objects.
    pub fn source_finished(&mut self)
        requires
            old(self)@.wf(),
        ensures
            final(self)@.wf(),
            final(self)@ == (FixedSessionView { source_ended: true, ..old(self)@ }),
    {
        self.source_ended = true;
    }

    /// Extends the rights to download, first objects first, until the window is
    /// committed. Rights once given are never taken back.
    pub fn authorize(&mut self)
        requires
            old(self)@.wf(),
        ensures
            final(self)@.wf(),
            final(self)@ == (FixedSessionView {
                plans: fixed_granted(
                    old(self)@.plans,
                    old(self)@.capacity_frames - total(fixed_committed(old(self)@.plans)),
                ),
                ..old(self)@
            }),
            total(fixed_committed(final(self)@.plans)) <= at_least(
                old(self)@.capacity_frames,
                total(fixed_committed(old(self)@.plans)),
            ),
    {
        let ghost before = self@;
        let committed: u128 = self.committed_frames();
        let ghost room = before.capacity_frames - committed;
        let ghost target = fixed_granted(before.plans, room);
        let mut available: u128 = (self.capacity_frames as u128).saturating_sub(committed);
        let mut i: usize = 0;
        proof {
            assert(fixed_missing(before.plans).take(0) =~= Seq::<int>::empty());
        }
        while i < self.plans.len()
            invariant
                before == old(self)@,
                before.wf(),
                room == before.capacity_frames - total(fixed_committed(before.plans)),
                target == fixed_granted(before.plans, room),
                self@ == (FixedSessionView { plans: self@.plans, ..before }),
                self@.plans.len() == before.plans.len(),
                i <= self.plans.len(),
                available == at_least(room - total(fixed_missing(before.plans).take(i as int)), 0),
                forall|k: int| 0 <= k < i ==> (#[trigger] self@.plans[k]) == target[k],
                forall|k: int|
                    i <= k < before.plans.len() ==> (#[trigger] self@.plans[k]) == before.plans[k],
                total(fixed_committed(self@.plans)) + available == at_least(
                    before.capacity_frames,
                    total(fixed_committed(before.plans)),
                ),
            decreases self.plans.len() - i,
        {
            let ghost current = self@;
            proof {
                assert(self@.plans[i as int] == self.plans[i as int]@);
                assert(before.plans[i as int].wf());
                lemma_total_take(fixed_missing(before.plans), i as int);
            }
            let missing: u32 = self.plans[i].object.frame_count - self.plans[i].authorized;
            let added: u32 = if (missing as u128) <= available {
                missing
            } else {
                available as u32
            };
            self.plans[i].authorized = self.plans[i].authorized + added;
            available = available - added as u128;
            proof {
                assert(self.plans[i as int]@ == target[i as int]);
                assert(self@.plans =~= current.plans.update(i as int, target[i as int]));
                assert(fixed_committed(self@.plans) =~= fixed_committed(current.plans).update(
                    i as int,
                    target[i as int].committed(),
                ));
                lemma_total_update(
                    fixed_committed(current.plans),
                    i as int,
                    target[i as int].committed(),
                );
            }
            i += 1;
        }
        proof {
            assert(self@.plans =~= target);
            assert forall|k: int| 0 <= k < target.len() implies (#[trigger] target[k]).wf() by {
                assert(before.plans[k].wf());
            }
        }
    }

    /// Whether the URL of plan `i` has to be polled.
    pub fn polls_url(&self, i: usize) -> (polled: bool)
        requires
            i < self@.plans.len(),
        ensures
            polled == self@.plans[i as int].polls_url(),
    {
        assert(self@.plans[i as int] == self.plans[i as int]@);
        self.plans[i].authorized != self.plans[i].emitted && !self.plans[i].open
            && self.plans[i].ticket
    }

    proof fn lemma_plan_replaced(&self, before: FixedSessionView, i: int, plan: FixedPlanView)
        requires
            before.wf(),
            0 <= i < before.plans.len(),
            self.plans@.len() == before.plans.len(),
            self.plans@[i]@ == plan,
            forall|k: int|
                0 <= k < before.plans.len() && k != i ==> (#[trigger] self.plans@[k])@
                    == before.plans[k],
            self@ == (FixedSessionView { plans: self@.plans, ..before }),
            plan.wf(),
            plan.emitted == before.plans[i].emitted,
        ensures
            self@ == before.with_plan(i, plan),
            self@.wf(),
    {
        assert(self@.plans =~= before.plans.update(i, plan));
    }

    /// Notes that the URL of plan `i` was resolved and its download opened.
    pub fn download_opened(&mut self, i: usize)
        requires
            old(self)@.wf(),
            i < old(self)@.plans.len(),
        ensures
            final(self)@.wf(),
            final(self)@ == old(self)@.with_plan(
                i as int,
                FixedPlanView { ticket: false, open: true, ..old(self)@.plans[i as int] },
            ),
    {
        let ghost before = self@;
        assert(before.plans[i as int] == self.plans[i as int]@);
        assert(before.plans[i as int].wf());
        self.plans[i].ticket = false;
        self.plans[i].open = true;
        proof {
            let plan = FixedPlanView { ticket: false, open: true, ..before.plans[i as int] };
            self.lemma_plan_replaced(before, i as int, plan);
        }
    }

    /// Drops the ticket of plan `i` after its resolution failed.
    pub fn url_failed(&mut self, i: usize)
        requires
            old(self)@.wf(),
            i < old(self)@.plans.len(),
        ensures
            final(self)@.wf(),
            final(self)@ == old(self)@.with_plan(
                i as int,
                FixedPlanView { ticket: false, ..old(self)@.plans[i as int] },
            ),
    {
        let ghost before = self@;
        assert(before.plans[i as int] == self.plans[i as int]@);
        assert(before.plans[i as int].wf());
        self.plans[i].ticket = false;
        proof {
            let plan = FixedPlanView { ticket: false, ..before.plans[i as int] };
            self.lemma_plan_replaced(before, i as int, plan);
        }
    }

    /// Whether the download of plan `i` has to be polled.
    pub fn polls_download(&self, i: usize) -> (polled: bool)
        requires
            i < self@.plans.len(),
        ensures
            polled == self@.plans[i as int].polls_download(),
    {
        assert(self@.plans[i as int] == self.plans[i as int]@);
        self.plans[i].received != self.plans[i].authorized && self.plans[i].open
    }

    /// Takes what the download of plan `i` gave: its next frame, or its end,
    /// which comes too early while a frame is awaited.
    pub fn frame_arrived(&mut self, i: usize, frame: Option<Bytes>) -> (arrived: Result<
        (),
        StreamError,
    >)
        requires
            old(self)@.wf(),
            i < old(self)@.plans.len(),
            old(self)@.plans[i as int].polls_download(),
        ensures
            final(self)@.wf(),
            ({
                let plan = old(self)@.plans[i as int];
                match frame {
                    Some(f) => {
                        &&& arrived is Ok
                        &&& final(self)@ == old(self)@.with_plan(
                            i as int,
                            FixedPlanView {
                                received: plan.received + 1,
                                buffer: plan.buffer.push(f),
                                ..plan
                            },
                        )
                    },
                    None => {
                        &&& arrived == Err::<(), StreamError>(StreamError::EndedEarly)
                        &&& final(self)@ == old(self)@
                    },
                }
            }),
    {
        match frame {
            None => Err(StreamError::EndedEarly),
            Some(frame) => {
                let ghost before = self@;
                assert(before.plans[i as int] == self.plans[i as int]@);
                assert(before.plans[i as int].wf());
                self.plans[i].buffer.push_back(frame);
                self.plans[i].received = self.plans[i].received + 1;
                proof {
                    let old_plan = before.plans[i as int];
                    let plan = FixedPlanView {
                        received: old_plan.received + 1,
                        buffer: old_plan.buffer.push(frame),
                        ..old_plan
                    };
                    self.lemma_plan_replaced(before, i as int, plan);
                }
                Ok(())
            },
        }
    }

    /// Takes the next frame of the stream from the front object.
    pub fn pop_ready(&mut self) -> (frame: Option<Bytes>)
        requires
            old(self)@.wf(),
        ensures
            final(self)@.wf(),
            match frame {
                Some(f) => {
                    &&& old(self)@.plans.len() > 0
                    &&& old(self)@.plans[0].buffer.len() > 0
                    &&& f == old(self)@.plans[0].buffer[0]
                    &&& final(self)@ == old(self)@.popped()
                },
                None => {
                    &&& old(self)@.plans.len() == 0 || old(self)@.plans[0].buffer.len() == 0
                    &&& final(self)@ == old(self)@
                },
            },
    {
        if self.plans.len() == 0 {
            return None;
        }
        let ghost before = self@;
        assert(before.plans[0] == self.plans@[0]@);
        assert(before.plans[0].wf());
        let frame: Bytes = match self.plans[0].buffer.pop_front() {
            Some(frame) => frame,
            None => {
                proof {
                    assert(self@.plans =~= before.plans);
                }
                return None;
            },
        };
        self.plans[0].emitted = self.plans[0].emitted + 1;
        if self.plans[0].emitted == self.plans[0].object.frame_count {
            let _front: ObjectPlan = self.plans.remove(0);
            assert(self@.plans =~= before.plans.skip(1));
        } else {
            assert(self@.plans =~= before.popped().plans);
        }
        Some(frame)
    }

    /// Whether nothing is left to deliver.
    pub fn is_complete(&self) -> (complete: bool)
        ensures
            complete == (self@.source_ended && self@.plans.len() == 0),
    {
        self.source_ended && self.plans.len() == 0
    }
}

/// What is counted of a plan are its frames: those not delivered, those that may be
/// downloaded and are not delivered, those that may not, and those that wait.
pub proof fn law_fixed_counts_are_of_frames(plans: Seq<FixedPlanView>, i: int)
    requires
        0 <= i < plans.len(),
    ensures
        fixed_remaining(plans).len() == plans.len(),
        fixed_committed(plans).len() == plans.len(),
        fixed_missing(plans).len() == plans.len(),
        fixed_buffered(plans).len() == plans.len(),
        plans[i].emitted + fixed_remaining(plans)[i] == plans[i].object.frame_count,
        plans[i].emitted + fixed_committed(plans)[i] == plans[i].authorized,
        plans[i].authorized + fixed_missing(plans)[i] == plans[i].object.frame_count,
        fixed_buffered(plans)[i] == plans[i].buffer.len(),
{
}

/// Of the frames that may be authorized, exactly as many are as there is room for, or
/// all that are missing.
pub proof fn law_fixed_room_is_used(plans: Seq<FixedPlanView>, room: int)
    requires
        forall|k: int| 0 <= k < plans.len() ==> (#[trigger] plans[k]).wf(),
        0 <= room,
    ensures
        total(fixed_committed(fixed_granted(plans, room))) == total(fixed_committed(plans)) + if room
            <= total(fixed_missing(plans)) {
            room
        } else {
            total(fixed_missing(plans))
        },
    decreases plans.len(),
{
    let missing = fixed_missing(plans);
    let committed = fixed_committed(plans);
    let granted = fixed_granted(plans, room);
    if plans.len() > 0 {
        let shorter = plans.drop_last();
        let n = plans.len() - 1;
        assert forall|k: int| 0 <= k < shorter.len() implies (#[trigger] shorter[k]).wf() by {
            assert(plans[k].wf());
        }
        law_fixed_room_is_used(shorter, room);
        assert(plans[n].wf());
        assert(missing.drop_last() =~= fixed_missing(shorter));
        assert(committed.drop_last() =~= fixed_committed(shorter));
        assert forall|k: int| 0 <= k < n implies #[trigger] fixed_granted(shorter, room)[k]
            == granted[k] by {
            assert(fixed_missing(shorter).take(k) =~= missing.take(k));
        }
        assert(fixed_committed(granted).drop_last() =~= fixed_committed(
            fixed_granted(shorter, room),
        ));
        assert(missing.take(n) =~= fixed_missing(shorter));
        assert(fixed_committed(granted).last() == granted[n].committed());
        assert forall|k: int| 0 <= k < fixed_missing(shorter).len() implies 0
            <= #[trigger] fixed_missing(shorter)[k] by {
            assert(shorter[k].wf());
        }
        lemma_total_prefix(fixed_missing(shorter), 0);
        assert(fixed_missing(shorter).take(0) =~= Seq::<int>::empty());
    }
}

/// Authorizing changes nothing of a plan but how many frames it may download. That
/// never falls, and it grows only where every earlier object may be downloaded whole.
pub proof fn law_fixed_rights_are_given_in_order(
    plans: Seq<FixedPlanView>,
    room: int,
    i: int,
    j: int,
)
    requires
        forall|k: int| 0 <= k < plans.len() ==> (#[trigger] plans[k]).wf(),
        0 <= i < j < plans.len(),
    ensures
        ({
            let granted = fixed_granted(plans, room);
            &&& granted.len() == plans.len()
            &&& granted[j] == (FixedPlanView { authorized: granted[j].authorized, ..plans[j] })
            &&& plans[j].authorized <= granted[j].authorized <= plans[j].object.frame_count
            &&& granted[j].authorized > plans[j].authorized ==> granted[i].authorized
                == plans[i].object.frame_count
        }),
{
    let missing = fixed_missing(plans);
    assert(plans[i].wf());
    assert(plans[j].wf());
    assert forall|k: int| 0 <= k < missing.len() implies 0 <= #[trigger] missing[k] by {
        assert(plans[k].wf());
    }
    lemma_total_take(missing, i);
    let head = missing.take(j);
    assert(head.take(i + 1) =~= missing.take(i + 1));
    lemma_total_prefix(head, i + 1);
}

/// The first object gets rights as long as there is room; they never fall.
pub proof fn law_fixed_rights_begin_at_the_front(plans: Seq<FixedPlanView>, room: int)
    requires
        plans.len() > 0,
        plans[0].wf(),
    ensures
        ({
            let front = fixed_granted(plans, room)[0];
            &&& front == (FixedPlanView { authorized: front.authorized, ..plans[0] })
            &&& plans[0].authorized <= front.authorized <= plans[0].object.frame_count
            &&& room > 0 ==> front.authorized == plans[0].object.frame_count || front.authorized
                == plans[0].authorized + room
            &&& room <= 0 ==> front.authorized == plans[0].authorized
        }),
{
    assert(fixed_missing(plans).take(0) =~= Seq::<int>::empty());
}

/// The URL of an object is waited for while there is a frame of it to download and no
/// download is open; the download is waited for while a frame that it may fetch is
/// missing. Never both.
pub proof fn law_fixed_plans_are_polled_for_frames(plan: FixedPlanView)
    requires
        plan.wf(),
    ensures
        plan.polls_url() <==> plan.ticket && plan.emitted < plan.authorized,
        plan.polls_download() <==> plan.open && plan.received < plan.authorized,
        !(plan.polls_url() && plan.polls_download()),
{
}

/// The frames that wait to be delivered, in the order of the plans.
pub open spec fn fixed_waiting(plans: Seq<FixedPlanView>) -> Seq<Bytes>
    decreases plans.len(),
{
    if plans.len() == 0 {
        Seq::empty()
    } else {
        plans[0].buffer + fixed_waiting(plans.skip(1))
    }
}

/// Taking a frame takes the first that waits, leaves the others in their order, and
/// leaves one frame less to deliver.
pub proof fn law_a_fixed_frame_was_the_first(session: FixedSessionView)
    requires
        session.wf(),
        session.plans.len() > 0,
        session.plans[0].buffer.len() > 0,
    ensures
        fixed_waiting(session.plans) == seq![session.plans[0].buffer[0]] + fixed_waiting(
            session.popped().plans,
        ),
        total(fixed_remaining(session.plans)) == total(fixed_remaining(session.popped().plans)) + 1,
        session.popped() == (FixedSessionView { plans: session.popped().plans, ..session }),
{
    let front = session.plans[0];
    let after = session.popped();
    assert(front.wf());
    lemma_total_first(fixed_remaining(session.plans));
    assert(fixed_remaining(session.plans).skip(1) =~= fixed_remaining(session.plans.skip(1)));
    if front.emitted + 1 == front.object.frame_count {
        assert(front.buffer =~= seq![front.buffer[0]]);
    } else {
        assert(after.plans.skip(1) =~= session.plans.skip(1));
        assert(front.buffer =~= seq![front.buffer[0]] + after.plans[0].buffer);
        lemma_total_first(fixed_remaining(after.plans));
        assert(fixed_remaining(after.plans).skip(1) =~= fixed_remaining(after.plans.skip(1)));
    }
    assert(fixed_waiting(session.plans) =~= seq![front.buffer[0]] + fixed_waiting(after.plans));
}

} // verus!
