//! One download stream: objects are planned ahead of the consumer, downloads
//! are opened within the frames that the memory budget grants, frames are
//! buffered per object and leave in order.
//!
//! The session decides and the caller performs: it polls the object source,
//! resolves URLs, runs the downloads, and reports what happened.
use std::collections::VecDeque;
use std::ops::Range;

use bytes::Bytes;
use vstd::prelude::*;

use crate::budget::{FrameBudget, FrameBudgetError, FrameBudgetView, FramePermit};
use crate::request::{ObjectMeta, StreamRequest};
use crate::sizing::WindowSizing;
use crate::sums::{
    lemma_total_first, lemma_total_le, lemma_total_prefix, lemma_total_push, lemma_total_take,
    lemma_total_update, total,
};

verus! {

/// A URL that grants access until it expires, in seconds of Unix time.
#[derive(Debug, PartialEq, Eq)]
pub struct SignedUrl {
    value: String,
    expires_at: Option<u64>,
}

impl Clone for SignedUrl {
    fn clone(&self) -> (copy: Self)
        ensures
            copy == *self,
    {
        SignedUrl { value: self.value.clone(), expires_at: self.expires_at }
    }
}

/// What a signed URL is.
pub struct SignedUrlView {
    pub value: Seq<char>,
    pub expires_at: Option<u64>,
}

impl View for SignedUrl {
    type V = SignedUrlView;

    closed spec fn view(&self) -> SignedUrlView {
        SignedUrlView { value: self.value@, expires_at: self.expires_at }
    }
}

impl SignedUrl {
    pub fn new(value: &str, expires_at: Option<u64>) -> (url: SignedUrl)
        ensures
            url@ == (SignedUrlView { value: value@, expires_at }),
    {
        SignedUrl { value: value.to_owned(), expires_at }
    }

    pub fn as_str(&self) -> (value: &str)
        ensures
            value@ == self@.value,
    {
        self.value.as_str()
    }

    pub fn expires_at(&self) -> (expires_at: Option<u64>)
        ensures
            expires_at == self@.expires_at,
    {
        self.expires_at
    }
}

#[derive(Clone, Copy, Debug, PartialEq, Eq, Structural)]
pub enum StreamError {
    EmptyObject,
    FrameIndexOverflow,
    TooManyFrames,
    EndedEarly,
}

impl StreamError {
    pub fn message(&self) -> (text: &'static str)
        ensures
            text@ == match *self {
                StreamError::EmptyObject => "object contains no frames"@,
                StreamError::FrameIndexOverflow => "global frame index overflow"@,
                StreamError::TooManyFrames => "object returned more frames than requested"@,
                StreamError::EndedEarly => "object ended before its last frame"@,
            },
    {
        match self {
            StreamError::EmptyObject => "object contains no frames",
            StreamError::FrameIndexOverflow => "global frame index overflow",
            StreamError::TooManyFrames => "object returned more frames than requested",
            StreamError::EndedEarly => "object ended before its last frame",
        }
    }
}

/// What the plan of one object is. Frames are numbered within the object;
/// `base` is the number of its first frame in the whole stream. `buffer[k]` is
/// frame `emitted + k`.
pub struct PlanView {
    pub object: ObjectMeta,
    pub base: int,
    pub start: int,
    pub end: int,
    pub ticket: bool,
    pub url: Option<SignedUrl>,
    pub open: bool,
    pub authorized: int,
    pub received: int,
    pub emitted: int,
    pub finished: bool,
    pub buffer: Seq<Bytes>,
}

impl PlanView {
    pub open spec fn wf(self) -> bool {
        &&& 0 <= self.base
        &&& 0 <= self.start < self.end <= u32::MAX
        &&& self.start <= self.emitted <= self.received <= self.authorized <= self.end
        &&& self.emitted + self.buffer.len() == self.received
        &&& self.finished ==> self.received == self.end
        &&& self.ticket ==> self.url is None && !self.open
        &&& self.open ==> self.url is None
        &&& self.received > self.start ==> self.open
        &&& self.finished ==> self.open
    }

    /// Frames not delivered yet.
    pub open spec fn remaining(self) -> int {
        self.end - self.emitted
    }

    /// Frames that may be downloaded and are not delivered yet.
    pub open spec fn committed(self) -> int {
        self.authorized - self.emitted
    }

    /// Frames that may not be downloaded yet.
    pub open spec fn missing(self) -> int {
        self.end - self.authorized
    }

    /// Nothing is left to do for the object.
    pub open spec fn done(self) -> bool {
        self.finished && self.emitted == self.end
    }

    /// Its download has to be polled.
    pub open spec fn polled(self) -> bool {
        &&& !self.finished
        &&& !(self.received == self.authorized && self.received < self.end)
        &&& self.open
    }

    /// Its download is authorized and waits for its URL.
    pub open spec fn limits(self) -> bool {
        self.ticket && self.authorized > self.emitted && !self.open
    }

    /// The plan after its first buffered frame left.
    pub open spec fn popped(self) -> PlanView {
        PlanView {
            emitted: self.emitted + 1,
            buffer: self.buffer.subrange(1, self.buffer.len() as int),
            ..self
        }
    }

    /// Its download can be opened.
    pub open spec fn can_open(self) -> bool {
        self.authorized != self.emitted && !self.open && self.url is Some
    }

    /// The plan with up to `room` more frames authorized.
    pub open spec fn granted(self, room: int) -> PlanView {
        let added = if room <= 0 {
            0
        } else if room < self.missing() {
            room
        } else {
            self.missing()
        };
        PlanView { authorized: self.authorized + added, ..self }
    }
}

pub open spec fn remaining_of(plans: Seq<PlanView>) -> Seq<int> {
    plans.map_values(|p: PlanView| p.remaining())
}

pub open spec fn committed_of(plans: Seq<PlanView>) -> Seq<int> {
    plans.map_values(|p: PlanView| p.committed())
}

pub open spec fn missing_of(plans: Seq<PlanView>) -> Seq<int> {
    plans.map_values(|p: PlanView| p.missing())
}

pub open spec fn buffered_of(plans: Seq<PlanView>) -> Seq<int> {
    plans.map_values(|p: PlanView| p.buffer.len() as int)
}

/// The plans with `room` more frames authorized, first plans first.
pub open spec fn plans_granted(plans: Seq<PlanView>, room: int) -> Seq<PlanView> {
    Seq::new(
        plans.len(),
        |i: int| plans[i].granted(room - total(missing_of(plans).take(i))),
    )
}

pub open spec fn at_least(a: int, b: int) -> int {
    if a >= b { a } else { b }
}

pub open spec fn at_most(a: int, b: int) -> int {
    if a <= b { a } else { b }
}

/// What a session is: the plans in order, the requested frames `first..end`,
/// the frames held from the budget, whether it waits for more, the number of
/// the next object's first frame, whether the source ended, and how many
/// frames were delivered.
pub struct SessionView {
    pub plans: Seq<PlanView>,
    pub first: int,
    pub end: int,
    pub allocation: int,
    pub waiting: bool,
    pub cursor: int,
    pub source_ended: bool,
    pub delivered: int,
}

impl SessionView {
    /// The requested frames that the objects seen so far cover.
    pub open spec fn covered(self) -> int {
        at_least(at_most(self.cursor, self.end), self.first)
    }

    /// The plans follow each other without a gap, only the first has delivered
    /// frames, and together they cover what is left of the objects seen so far.
    pub open spec fn contiguous(self) -> bool {
        &&& forall|i: int, j: int|
            #![trigger self.plans[i], self.plans[j]]
            0 <= i && j == i + 1 && j < self.plans.len() ==> self.plans[i].base
                + self.plans[i].end == self.plans[j].base + self.plans[j].start
        &&& forall|i: int|
            1 <= i < self.plans.len() ==> (#[trigger] self.plans[i]).emitted == self.plans[i].start
        &&& self.plans.len() > 0 ==> self.plans[0].base + self.plans[0].emitted == self.first
            + self.delivered
        &&& self.plans.len() > 0 ==> self.plans.last().base + self.plans.last().end
            == self.covered()
        &&& self.plans.len() == 0 ==> self.first + self.delivered == self.covered()
    }

    pub open spec fn wf(self) -> bool {
        &&& forall|i: int| 0 <= i < self.plans.len() ==> (#[trigger] self.plans[i]).wf()
        &&& 0 <= self.first < self.end <= u64::MAX
        &&& 0 <= self.cursor <= u64::MAX
        &&& 0 <= self.delivered
        &&& 0 <= self.allocation <= usize::MAX
        &&& total(committed_of(self.plans)) <= self.allocation
        &&& total(remaining_of(self.plans)) <= self.cursor
        &&& self.contiguous()
    }

    /// The budget has the frames that the session holds.
    pub open spec fn held_from(self, budget: FrameBudgetView) -> bool {
        budget.wf() && budget.free + self.allocation <= budget.total
    }

    /// All requested frames are delivered, or the source has no more.
    pub open spec fn complete(self) -> bool {
        self.plans.len() == 0 && (self.source_ended || self.cursor >= self.end)
    }

    /// More objects are wanted to fill the window.
    pub open spec fn wants_object(self, window: WindowSizing) -> bool {
        &&& total(remaining_of(self.plans)) < window.ready_data_frames
            + window.url_prefetch_frames
        &&& self.cursor < self.end
        &&& !self.source_ended
    }

    /// Frames of the window that the allocation covers; one where the window
    /// is not known.
    pub open spec fn capacity(self, desired: Option<usize>) -> int {
        match desired {
            Some(frames) => at_most(frames as int, self.allocation),
            None => 1,
        }
    }

    /// The plan that an object with `count` frames gets.
    pub open spec fn plan_for(self, object: ObjectMeta) -> PlanView {
        let object_end = self.cursor + object.frame_count;
        let start = at_least(self.cursor, self.first) - self.cursor;
        PlanView {
            object,
            base: self.cursor,
            start,
            end: at_most(object_end, self.end) - self.cursor,
            ticket: true,
            url: None,
            open: false,
            authorized: start,
            received: start,
            emitted: start,
            finished: false,
            buffer: Seq::empty(),
        }
    }

    /// Some frame of the object is requested.
    pub open spec fn useful(self, object: ObjectMeta) -> bool {
        at_least(self.cursor, self.first) < at_most(self.cursor + object.frame_count, self.end)
    }

    /// The session with plan `i` replaced.
    pub open spec fn with_plan(self, i: int, plan: PlanView) -> SessionView {
        SessionView { plans: self.plans.update(i, plan), ..self }
    }

    /// The session after the first buffered frame left: the front plan goes
    /// when nothing is left of it, and the frames held shrink to what the window
    /// or the rights to download need.
    pub open spec fn popped(self, desired: Option<usize>) -> SessionView {
        let plan = self.plans[0].popped();
        let plans = if plan.done() {
            self.plans.skip(1)
        } else {
            self.plans.update(0, plan)
        };
        SessionView {
            plans,
            allocation: at_most(
                self.allocation,
                at_least(self.capacity(desired), total(committed_of(plans))),
            ),
            delivered: self.delivered + 1,
            ..self
        }
    }

    /// The session without the done plans at its front.
    pub open spec fn trimmed(self) -> SessionView
        decreases self.plans.len(),
    {
        if self.plans.len() > 0 && self.plans[0].done() {
            SessionView { plans: self.plans.skip(1), ..self }.trimmed()
        } else {
            self
        }
    }
}

/// Runtime state for one object. Frames of one object arrive in order; later
/// objects may fill their buffer while the front object holds up the output.
pub struct ObjectPlan {
    object: ObjectMeta,
    local_frames: Range<u32>,
    ticket: bool,
    url: Option<SignedUrl>,
    open: bool,
    authorized: u32,
    received: u32,
    emitted: u32,
    finished: bool,
    buffer: VecDeque<Bytes>,
    base: Ghost<int>,
}

impl View for ObjectPlan {
    type V = PlanView;

    closed spec fn view(&self) -> PlanView {
        PlanView {
            object: self.object,
            base: self.base@,
            start: self.local_frames.start as int,
            end: self.local_frames.end as int,
            ticket: self.ticket,
            url: self.url,
            open: self.open,
            authorized: self.authorized as int,
            received: self.received as int,
            emitted: self.emitted as int,
            finished: self.finished,
            buffer: self.buffer@,
        }
    }
}

impl ObjectPlan {
    pub fn object(&self) -> (object: &ObjectMeta)
        ensures
            *object == self@.object,
    {
        &self.object
    }

    pub fn authorized_frames(&self) -> (frames: u32)
        requires
            self@.wf(),
        ensures
            frames == self@.authorized - self@.start,
    {
        self.authorized - self.local_frames.start
    }

    pub fn buffered_frames(&self) -> (frames: usize)
        ensures
            frames == self@.buffer.len(),
    {
        self.buffer.len()
    }

    pub fn local_frames(&self) -> (frames: Range<u32>)
        ensures
            frames.start == self@.start,
            frames.end == self@.end,
    {
        self.local_frames.start..self.local_frames.end
    }

    fn remaining(&self) -> (frames: u32)
        requires
            self@.wf(),
        ensures
            frames == self@.remaining(),
    {
        self.local_frames.end - self.emitted
    }

    fn committed(&self) -> (frames: u32)
        requires
            self@.wf(),
        ensures
            frames == self@.committed(),
    {
        self.authorized - self.emitted
    }
}

/// A download to open: the object, its URL, and the useful frames.
pub struct DownloadStart {
    pub object: ObjectMeta,
    pub url: SignedUrl,
    pub frames: Range<u32>,
}

/// What the driver of a session does with its output.
#[derive(Clone, Copy, Debug, PartialEq, Eq, Structural)]
pub enum DriverStep {
    /// Close it: all frames were delivered.
    Close,
    /// Hand it the next frame, if it takes one, and flush it.
    Offer,
    /// Flush it.
    Flush,
}

/// What the output answered when it was asked whether it takes a frame.
#[derive(Clone, Copy, Debug, PartialEq, Eq, Structural)]
pub enum SinkAnswer {
    Ready,
    Pending,
    Failed,
}

/// What to do after the output answered.
pub enum Offered {
    /// Send it the frame.
    Send(Bytes),
    /// Send it nothing now.
    Nothing,
    /// End the stream with the error of the output.
    Stop,
}

/// What becomes of a session and its front frame when the output answers: the
/// frame leaves only where the output is ready for it.
pub open spec fn is_offer(
    before: SessionView,
    answer: SinkAnswer,
    desired: Option<usize>,
    offered: Offered,
    after: SessionView,
) -> bool {
    let ready = before.plans.len() > 0 && before.plans[0].buffer.len() > 0;
    match answer {
        SinkAnswer::Ready => if ready {
            &&& offered == Offered::Send(before.plans[0].buffer[0])
            &&& after == before.popped(desired)
        } else {
            &&& offered == Offered::Nothing
            &&& after == before
        },
        SinkAnswer::Pending => offered == Offered::Nothing && after == before,
        SinkAnswer::Failed => offered == Offered::Stop && after == before,
    }
}

/// A single-owner state machine that buffers frames per object and delivers
/// from the front object only.
pub struct StreamSession {
    plans: Vec<ObjectPlan>,
    request: StreamRequest,
    allocation: FramePermit,
    waiting: bool,
    source_cursor: u64,
    source_ended: bool,
    delivered: Ghost<int>,
}

pub open spec fn plan_views(plans: Seq<ObjectPlan>) -> Seq<PlanView> {
    plans.map_values(|p: ObjectPlan| p@)
}

impl View for StreamSession {
    type V = SessionView;

    closed spec fn view(&self) -> SessionView {
        SessionView {
            plans: plan_views(self.plans@),
            first: self.request.start(),
            end: self.request.end(),
            allocation: self.allocation@,
            waiting: self.waiting,
            cursor: self.source_cursor as int,
            source_ended: self.source_ended,
            delivered: self.delivered@,
        }
    }
}

impl StreamSession {
    /// A session that holds one frame, and as many more of the desired window
    /// as are free.
    pub fn new(request: StreamRequest, budget: &mut FrameBudget, desired: usize) -> (session:
        Result<StreamSession, FrameBudgetError>)
        requires
            request.wf(),
            old(budget)@.wf(),
        ensures
            match session {
                Ok(s) => {
                    &&& old(budget)@.free > 0
                    &&& s@.wf()
                    &&& s@.held_from(final(budget)@)
                    &&& s@ == (SessionView {
                        plans: Seq::empty(),
                        first: request.start(),
                        end: request.end(),
                        allocation: at_most(at_least(desired as int, 1), old(budget)@.free),
                        waiting: false,
                        cursor: 0,
                        source_ended: false,
                        delivered: 0,
                    })
                    &&& final(budget)@ == (FrameBudgetView {
                        free: old(budget)@.free - s@.allocation,
                        ..old(budget)@
                    })
                },
                Err(e) => {
                    &&& old(budget)@.free == 0
                    &&& e == FrameBudgetError::Unavailable
                    &&& final(budget)@ == old(budget)@
                },
            },
    {
        match budget.try_reserve(1) {
            Err(error) => Err(error),
            Ok(allocation) => {
                let mut session: StreamSession = StreamSession {
                    plans: Vec::new(),
                    request,
                    allocation,
                    waiting: false,
                    source_cursor: 0,
                    source_ended: false,
                    delivered: Ghost(0),
                };
                proof {
                    assert(session@.plans =~= Seq::<PlanView>::empty());
                    assert(committed_of(session@.plans) =~= Seq::<int>::empty());
                    assert(remaining_of(session@.plans) =~= Seq::<int>::empty());
                }
                session.grow_available(desired, budget);
                Ok(session)
            },
        }
    }

    pub fn plans(&self) -> (plans: &Vec<ObjectPlan>)
        ensures
            plan_views(plans@) == self@.plans,
    {
        &self.plans
    }

    /// Takes what is free of the frames missing to the desired window.
    fn grow_available(&mut self, desired: usize, budget: &mut FrameBudget)
        requires
            old(self)@.wf(),
            old(self)@.held_from(old(budget)@),
        ensures
            final(self)@.wf(),
            final(self)@.held_from(final(budget)@),
            final(self)@ == (SessionView {
                allocation: if desired > old(self)@.allocation {
                    at_most(desired as int, old(self)@.allocation + old(budget)@.free)
                } else {
                    old(self)@.allocation
                },
                ..old(self)@
            }),
            final(budget)@.total == old(budget)@.total,
            final(budget)@.free + final(self)@.allocation == old(budget)@.free + old(
                self,
            )@.allocation,
    {
        let missing: usize = desired.saturating_sub(self.allocation.frames());
        let free: usize = budget.available();
        let wanted: usize = if missing <= free { missing } else { free };
        if wanted > 0 {
            match budget.try_reserve(wanted) {
                Ok(extra) => self.allocation.merge(extra),
                Err(_) => {},
            }
        }
    }

    /// Frames that may be downloaded and are not delivered yet.
    fn committed_frames(&self) -> (frames: usize)
        requires
            self@.wf(),
        ensures
            frames == total(committed_of(self@.plans)),
    {
        let ghost items = committed_of(self@.plans);
        let mut sum: usize = 0;
        let mut i: usize = 0;
        while i < self.plans.len()
            invariant
                self@.wf(),
                items == committed_of(self@.plans),
                i <= self.plans.len(),
                sum == total(items.take(i as int)),
            decreases self.plans.len() - i,
        {
            proof {
                assert(self@.plans[i as int] == self.plans[i as int]@);
                lemma_total_take(items, i as int);
                assert forall|k: int| 0 <= k < items.len() implies 0 <= #[trigger] items[k] by {
                    assert(self@.plans[k].wf());
                }
                lemma_total_prefix(items, i + 1);
            }
            sum = sum + self.plans[i].committed() as usize;
            i += 1;
        }
        proof {
            assert(items.take(i as int) =~= items);
        }
        sum
    }

    /// Planned frames that are not delivered yet.
    fn planned_frames(&self) -> (frames: u64)
        requires
            self@.wf(),
        ensures
            frames == total(remaining_of(self@.plans)),
    {
        let ghost items = remaining_of(self@.plans);
        let mut sum: u64 = 0;
        let mut i: usize = 0;
        while i < self.plans.len()
            invariant
                self@.wf(),
                items == remaining_of(self@.plans),
                i <= self.plans.len(),
                sum == total(items.take(i as int)),
            decreases self.plans.len() - i,
        {
            proof {
                assert(self@.plans[i as int] == self.plans[i as int]@);
                lemma_total_take(items, i as int);
                assert forall|k: int| 0 <= k < items.len() implies 0 <= #[trigger] items[k] by {
                    assert(self@.plans[k].wf());
                }
                lemma_total_prefix(items, i + 1);
            }
            sum = sum + self.plans[i].remaining() as u64;
            i += 1;
        }
        proof {
            assert(items.take(i as int) =~= items);
        }
        sum
    }

    pub fn buffered_frames(&self) -> (frames: usize)
        requires
            self@.wf(),
        ensures
            frames == total(buffered_of(self@.plans)),
    {
        let ghost items = buffered_of(self@.plans);
        let mut sum: usize = 0;
        let mut i: usize = 0;
        proof {
            assert forall|k: int| 0 <= k < items.len() implies #[trigger] items[k] <= committed_of(
                self@.plans,
            )[k] by {
                assert(self@.plans[k].wf());
            }
            lemma_total_le(items, committed_of(self@.plans));
        }
        while i < self.plans.len()
            invariant
                self@.wf(),
                items == buffered_of(self@.plans),
                total(items) <= self@.allocation,
                i <= self.plans.len(),
                sum == total(items.take(i as int)),
            decreases self.plans.len() - i,
        {
            proof {
                assert(self@.plans[i as int] == self.plans[i as int]@);
                lemma_total_take(items, i as int);
                lemma_total_prefix(items, i + 1);
            }
            sum = sum + self.plans[i].buffered_frames();
            i += 1;
        }
        proof {
            assert(items.take(i as int) =~= items);
        }
        sum
    }

    /// Frames of the desired window that the allocation covers. `None` stands
    /// for a window that cannot be computed.
    pub fn capacity_frames(&self, desired: Option<usize>) -> (frames: usize)
        ensures
            frames == self@.capacity(desired),
    {
        match desired {
            Some(frames) => {
                let held: usize = self.allocation.frames();
                if frames <= held { frames } else { held }
            },
            None => 1,
        }
    }

    /// Frames that the session holds from the budget.
    pub fn allocated_frames(&self) -> (frames: usize)
        ensures
            frames == self@.allocation,
    {
        self.allocation.frames()
    }

    /// Whether the session waits for frames of the budget.
    pub fn is_waiting(&self) -> (waiting: bool)
        ensures
            waiting == self@.waiting,
    {
        self.waiting
    }

    /// Follows the desired window: takes free frames when it grew, and gives
    /// back what it no longer needs and nothing is committed to. Returns the
    /// frames of the window that may be used now.
    pub fn refresh_allocation(&mut self, desired: usize, budget: &mut FrameBudget) -> (capacity:
        usize)
        requires
            old(self)@.wf(),
            old(self)@.held_from(old(budget)@),
        ensures
            final(self)@.wf(),
            final(self)@.held_from(final(budget)@),
            ({
                let reach = old(self)@.allocation + old(budget)@.free;
                let committed = total(committed_of(old(self)@.plans));
                &&& capacity == at_most(desired as int, reach)
                &&& final(self)@ == (SessionView {
                    allocation: at_least(capacity as int, committed),
                    waiting: desired > reach,
                    ..old(self)@
                })
            }),
            final(budget)@.total == old(budget)@.total,
            final(budget)@.free + final(self)@.allocation == old(budget)@.free + old(
                self,
            )@.allocation,
    {
        self.grow_available(desired, budget);
        self.waiting = desired > self.allocation.frames();
        let capacity: usize = self.capacity_frames(Some(desired));
        let committed: usize = self.committed_frames();
        let kept: usize = if capacity >= committed { capacity } else { committed };
        self.allocation.shrink_to(kept, budget);
        capacity
    }

    /// Whether the source has to be asked for another object.
    pub fn wants_object(&self, window: WindowSizing) -> (wanted: bool)
        requires
            self@.wf(),
        ensures
            wanted == self@.wants_object(window),
    {
        let target: u128 = window.ready_data_frames as u128 + window.url_prefetch_frames as u128;
        let planned: u64 = self.planned_frames();
        (planned as u128) < target && self.source_cursor < self.request.frames().end
            && !self.source_ended
    }

    /// Plans the next object of the source. Returns whether a URL has to be
    /// resolved for it; an object outside the request needs none.
    pub fn object_arrived(&mut self, object: ObjectMeta) -> (planned: Result<bool, StreamError>)
        requires
            old(self)@.wf(),
        ensures
            final(self)@.wf(),
            match planned {
                Ok(useful) => {
                    &&& object.frame_count > 0
                    &&& old(self)@.cursor + object.frame_count <= u64::MAX
                    &&& useful == old(self)@.useful(object)
                    &&& final(self)@ == (SessionView {
                        plans: if useful {
                            old(self)@.plans.push(old(self)@.plan_for(object))
                        } else {
                            old(self)@.plans
                        },
                        cursor: old(self)@.cursor + object.frame_count,
                        ..old(self)@
                    })
                },
                Err(e) => {
                    &&& e == if object.frame_count == 0 {
                        StreamError::EmptyObject
                    } else {
                        StreamError::FrameIndexOverflow
                    }
                    &&& object.frame_count == 0 || old(self)@.cursor + object.frame_count
                        > u64::MAX
                    &&& final(self)@ == old(self)@
                },
            },
    {
        if object.frame_count == 0 {
            return Err(StreamError::EmptyObject);
        }
        let object_start: u64 = self.source_cursor;
        let object_end: u64 = match object_start.checked_add(object.frame_count as u64) {
            Some(end) => end,
            None => {
                return Err(StreamError::FrameIndexOverflow);
            },
        };
        let ghost before = self@;
        let ghost expected = before.plan_for(object);
        let requested: Range<u64> = self.request.frames();
        let useful_start: u64 = if object_start >= requested.start {
            object_start
        } else {
            requested.start
        };
        let useful_end: u64 = if object_end <= requested.end { object_end } else { requested.end };
        self.source_cursor = object_end;
        if useful_start >= useful_end {
            proof {
                assert(self@.plans == before.plans);
            }
            return Ok(false);
        }
        let first_frame: u32 = (useful_start - object_start) as u32;
        let last_frame: u32 = (useful_end - object_start) as u32;
        let plan: ObjectPlan = ObjectPlan {
            object,
            local_frames: first_frame..last_frame,
            ticket: true,
            url: None,
            open: false,
            authorized: first_frame,
            received: first_frame,
            emitted: first_frame,
            finished: false,
            buffer: VecDeque::new(),
            base: Ghost(object_start as int),
        };
        assert(plan@ == expected);
        self.plans.push(plan);
        proof {
            assert(self@.plans =~= before.plans.push(expected));
            assert(committed_of(self@.plans) =~= committed_of(before.plans).push(0));
            assert(remaining_of(self@.plans) =~= remaining_of(before.plans).push(
                expected.remaining(),
            ));
            lemma_total_push(committed_of(before.plans), 0);
            lemma_total_push(remaining_of(before.plans), expected.remaining());
        }
        Ok(true)
    }

    /// Notes that the source has no more objects.
    pub fn source_finished(&mut self)
        requires
            old(self)@.wf(),
        ensures
            final(self)@.wf(),
            final(self)@ == (SessionView { source_ended: true, ..old(self)@ }),
    {
        self.source_ended = true;
    }

    /// Extends the rights to download, first objects first, until `capacity`
    /// frames are committed. Rights once given are never taken back.
    pub fn authorize(&mut self, capacity_frames: usize)
        requires
            old(self)@.wf(),
            capacity_frames <= old(self)@.allocation,
        ensures
            final(self)@.wf(),
            final(self)@ == (SessionView {
                plans: plans_granted(
                    old(self)@.plans,
                    capacity_frames - total(committed_of(old(self)@.plans)),
                ),
                ..old(self)@
            }),
    {
        let ghost before = self@;
        let committed: usize = self.committed_frames();
        let ghost room = capacity_frames - committed;
        let ghost target = plans_granted(before.plans, room);
        let mut available: usize = capacity_frames.saturating_sub(committed);
        let mut i: usize = 0;
        proof {
            assert(missing_of(before.plans).take(0) =~= Seq::<int>::empty());
        }
        while i < self.plans.len()
            invariant
                before == old(self)@,
                before.wf(),
                room == capacity_frames - total(committed_of(before.plans)),
                target == plans_granted(before.plans, room),
                self@ == (SessionView { plans: self@.plans, ..before }),
                self@.plans.len() == before.plans.len(),
                i <= self.plans.len(),
                available == at_least(room - total(missing_of(before.plans).take(i as int)), 0),
                forall|k: int| 0 <= k < i ==> (#[trigger] self@.plans[k]) == target[k],
                forall|k: int|
                    i <= k < before.plans.len() ==> (#[trigger] self@.plans[k]) == before.plans[k],
                total(committed_of(self@.plans)) + available == at_least(
                    capacity_frames as int,
                    total(committed_of(before.plans)),
                ),
            decreases self.plans.len() - i,
        {
            let ghost current = self@;
            proof {
                assert(self@.plans[i as int] == self.plans[i as int]@);
                assert(before.plans[i as int].wf());
                lemma_total_take(missing_of(before.plans), i as int);
            }
            let missing: u32 = self.plans[i].local_frames.end - self.plans[i].authorized;
            let added: u32 = if (missing as usize) <= available {
                missing
            } else {
                available as u32
            };
            self.plans[i].authorized = self.plans[i].authorized + added;
            available = available - added as usize;
            proof {
                assert(self.plans[i as int]@ == target[i as int]);
                assert(self@.plans =~= current.plans.update(i as int, target[i as int]));
                assert(committed_of(self@.plans) =~= committed_of(current.plans).update(
                    i as int,
                    target[i as int].committed(),
                ));
                lemma_total_update(
                    committed_of(current.plans),
                    i as int,
                    target[i as int].committed(),
                );
            }
            i += 1;
        }
        proof {
            assert(self@.plans =~= target);
            assert forall|k: int| 0 <= k < target.len() implies (#[trigger] target[k]).wf() by {
                assert(before.plans[k].wf());
            }
            assert(remaining_of(target) =~= remaining_of(before.plans));
        }
    }

    /// Whether the URL of plan `i` is being resolved.
    pub fn has_ticket(&self, i: usize) -> (pending: bool)
        requires
            i < self@.plans.len(),
        ensures
            pending == self@.plans[i as int].ticket,
    {
        assert(self@.plans[i as int] == self.plans[i as int]@);
        self.plans[i].ticket
    }

    /// The first plan whose download is authorized and waits for its URL: the
    /// only one whose URL the session has to be woken for.
    pub fn limiting_ticket(&self) -> (limiting: Option<usize>)
        requires
            self@.wf(),
        ensures
            match limiting {
                Some(i) => {
                    &&& i < self@.plans.len()
                    &&& self@.plans[i as int].limits()
                    &&& forall|j: int| 0 <= j < i ==> !(#[trigger] self@.plans[j]).limits()
                },
                None => forall|j: int|
                    0 <= j < self@.plans.len() ==> !(#[trigger] self@.plans[j]).limits(),
            },
    {
        let mut i: usize = 0;
        while i < self.plans.len()
            invariant
                self@.wf(),
                i <= self.plans.len(),
                forall|j: int| 0 <= j < i ==> !(#[trigger] self@.plans[j]).limits(),
            decreases self.plans.len() - i,
        {
            assert(self@.plans[i as int] == self.plans[i as int]@);
            if self.plans[i].ticket && self.plans[i].authorized > self.plans[i].emitted
                && !self.plans[i].open {
                return Some(i);
            }
            i += 1;
        }
        None
    }

    /// Keeps the URL that was resolved for plan `i`.
    pub fn url_resolved(&mut self, i: usize, url: SignedUrl)
        requires
            old(self)@.wf(),
            i < old(self)@.plans.len(),
            old(self)@.plans[i as int].ticket,
        ensures
            final(self)@.wf(),
            final(self)@ == old(self)@.with_plan(
                i as int,
                PlanView { ticket: false, url: Some(url), ..old(self)@.plans[i as int] },
            ),
    {
        let ghost before = self@;
        assert(before.plans[i as int] == self.plans[i as int]@);
        assert(before.plans[i as int].wf());
        self.plans[i].url = Some(url);
        self.plans[i].ticket = false;
        proof {
            let plan = PlanView { ticket: false, url: Some(url), ..before.plans[i as int] };
            self.lemma_plan_replaced(before, i as int, plan);
        }
    }

    /// Drops the ticket of plan `i` after its resolution failed.
    pub fn url_failed(&mut self, i: usize)
        requires
            old(self)@.wf(),
            i < old(self)@.plans.len(),
        ensures
            final(self)@.wf(),
            final(self)@ == old(self)@.with_plan(
                i as int,
                PlanView { ticket: false, ..old(self)@.plans[i as int] },
            ),
    {
        let ghost before = self@;
        assert(before.plans[i as int] == self.plans[i as int]@);
        assert(before.plans[i as int].wf());
        self.plans[i].ticket = false;
        proof {
            let plan = PlanView { ticket: false, ..before.plans[i as int] };
            self.lemma_plan_replaced(before, i as int, plan);
        }
    }

    proof fn lemma_plan_replaced(&self, before: SessionView, i: int, plan: PlanView)
        requires
            before.wf(),
            0 <= i < before.plans.len(),
            self.plans@.len() == before.plans.len(),
            self.plans@[i]@ == plan,
            forall|k: int|
                0 <= k < before.plans.len() && k != i ==> (#[trigger] self.plans@[k])@
                    == before.plans[k],
            self@ == (SessionView { plans: self@.plans, ..before }),
            plan.wf(),
            plan.base == before.plans[i].base,
            plan.start == before.plans[i].start,
            plan.end == before.plans[i].end,
            plan.emitted == before.plans[i].emitted,
            plan.authorized == before.plans[i].authorized,
        ensures
            self@ == before.with_plan(i, plan),
            self@.wf(),
    {
        assert(self@.plans =~= before.plans.update(i, plan));
        assert(committed_of(self@.plans) =~= committed_of(before.plans));
        assert(remaining_of(self@.plans) =~= remaining_of(before.plans));
    }

    /// Opens the download of plan `i` if it is authorized, its URL is known and
    /// it is not open yet.
    pub fn open_download(&mut self, i: usize) -> (download: Option<DownloadStart>)
        requires
            old(self)@.wf(),
            i < old(self)@.plans.len(),
        ensures
            final(self)@.wf(),
            ({
                let plan = old(self)@.plans[i as int];
                match download {
                    Some(d) => {
                        &&& plan.can_open()
                        &&& d.object == plan.object
                        &&& Some(d.url) == plan.url
                        &&& d.frames.start == plan.start
                        &&& d.frames.end == plan.end
                        &&& final(self)@ == old(self)@.with_plan(
                            i as int,
                            PlanView { url: None, open: true, ..plan },
                        )
                    },
                    None => !plan.can_open() && final(self)@ == old(self)@,
                }
            }),
    {
        let ghost before = self@;
        assert(before.plans[i as int] == self.plans[i as int]@);
        assert(before.plans[i as int].wf());
        if self.plans[i].authorized == self.plans[i].emitted || self.plans[i].open {
            return None;
        }
        let taken: Option<SignedUrl> = self.plans[i].url.take();
        match taken {
            None => {
                proof {
                    assert(self@.plans =~= before.plans);
                }
                None
            },
            Some(url) => {
                self.plans[i].open = true;
                let object: ObjectMeta = self.plans[i].object.clone();
                let frames: Range<u32> = self.plans[i].local_frames();
                proof {
                    let plan = PlanView { url: None, open: true, ..before.plans[i as int] };
                    self.lemma_plan_replaced(before, i as int, plan);
                }
                Some(DownloadStart { object, url, frames })
            },
        }
    }

    /// Whether the download of plan `i` has to be polled.
    pub fn polls_download(&self, i: usize) -> (polled: bool)
        requires
            i < self@.plans.len(),
        ensures
            polled == self@.plans[i as int].polled(),
    {
        assert(self@.plans[i as int] == self.plans[i as int]@);
        let plan: &ObjectPlan = &self.plans[i];
        !plan.finished && !(plan.received == plan.authorized && plan.received
            < plan.local_frames.end) && plan.open
    }

    /// Buffers the next frame of plan `i`.
    pub fn frame_arrived(&mut self, i: usize, frame: Bytes) -> (arrived: Result<(), StreamError>)
        requires
            old(self)@.wf(),
            i < old(self)@.plans.len(),
            old(self)@.plans[i as int].polled(),
        ensures
            final(self)@.wf(),
            ({
                let plan = old(self)@.plans[i as int];
                match arrived {
                    Ok(_) => {
                        &&& plan.received < plan.end
                        &&& final(self)@ == old(self)@.with_plan(
                            i as int,
                            PlanView {
                                received: plan.received + 1,
                                buffer: plan.buffer.push(frame),
                                ..plan
                            },
                        )
                    },
                    Err(e) => {
                        &&& plan.received == plan.end
                        &&& e == StreamError::TooManyFrames
                        &&& final(self)@ == old(self)@
                    },
                }
            }),
    {
        let ghost before = self@;
        assert(before.plans[i as int] == self.plans[i as int]@);
        assert(before.plans[i as int].wf());
        if self.plans[i].received == self.plans[i].local_frames.end {
            return Err(StreamError::TooManyFrames);
        }
        self.plans[i].buffer.push_back(frame);
        self.plans[i].received = self.plans[i].received + 1;
        proof {
            let old_plan = before.plans[i as int];
            let plan = PlanView {
                received: old_plan.received + 1,
                buffer: old_plan.buffer.push(frame),
                ..old_plan
            };
            self.lemma_plan_replaced(before, i as int, plan);
        }
        Ok(())
    }

    /// Notes that the download of plan `i` ended.
    pub fn download_ended(&mut self, i: usize) -> (ended: Result<(), StreamError>)
        requires
            old(self)@.wf(),
            i < old(self)@.plans.len(),
            old(self)@.plans[i as int].polled(),
        ensures
            final(self)@.wf(),
            ({
                let plan = old(self)@.plans[i as int];
                match ended {
                    Ok(_) => {
                        &&& plan.received == plan.end
                        &&& final(self)@ == old(self)@.with_plan(
                            i as int,
                            PlanView { finished: true, ..plan },
                        )
                    },
                    Err(e) => {
                        &&& plan.received != plan.end
                        &&& e == StreamError::EndedEarly
                        &&& final(self)@ == old(self)@
                    },
                }
            }),
    {
        let ghost before = self@;
        assert(before.plans[i as int] == self.plans[i as int]@);
        assert(before.plans[i as int].wf());
        if self.plans[i].received != self.plans[i].local_frames.end {
            return Err(StreamError::EndedEarly);
        }
        self.plans[i].finished = true;
        proof {
            let plan = PlanView { finished: true, ..before.plans[i as int] };
            self.lemma_plan_replaced(before, i as int, plan);
        }
        Ok(())
    }

    /// Drops the front plan, which has nothing left to do.
    fn drop_front(&mut self)
        requires
            old(self)@.wf(),
            old(self)@.plans.len() > 0,
            old(self)@.plans[0].done(),
        ensures
            final(self)@.wf(),
            final(self)@ == (SessionView { plans: old(self)@.plans.skip(1), ..old(self)@ }),
    {
        let ghost before = self@;
        assert(before.plans[0] == self.plans@[0]@);
        assert(before.plans[0].wf());
        let _front: ObjectPlan = self.plans.remove(0);
        proof {
            assert(self@.plans =~= before.plans.skip(1));
            assert(committed_of(self@.plans) =~= committed_of(before.plans).skip(1));
            assert(remaining_of(self@.plans) =~= remaining_of(before.plans).skip(1));
            lemma_total_first(committed_of(before.plans));
            lemma_total_first(remaining_of(before.plans));
            if before.plans.len() > 1 {
                assert(before.plans[1].emitted == before.plans[1].start);
                assert(before.plans[0].base + before.plans[0].end == before.plans[1].base
                    + before.plans[1].start);
                assert(self@.plans[0] == before.plans[1]);
            }
            assert forall|i: int, j: int|
                #![trigger self@.plans[i], self@.plans[j]]
                0 <= i && j == i + 1 && j < self@.plans.len() implies self@.plans[i].base
                + self@.plans[i].end == self@.plans[j].base + self@.plans[j].start by {
                assert(self@.plans[i] == before.plans[i + 1]);
                assert(self@.plans[j] == before.plans[j + 1]);
            }
        }
    }

    /// Takes the next frame of the stream from the front object, and gives back
    /// the frames of the budget that neither the window nor a right to download
    /// needs.
    pub fn pop_ready(&mut self, desired: Option<usize>, budget: &mut FrameBudget) -> (frame: Option<
        Bytes,
    >)
        requires
            old(self)@.wf(),
            old(self)@.held_from(old(budget)@),
        ensures
            final(self)@.wf(),
            final(self)@.held_from(final(budget)@),
            final(budget)@.total == old(budget)@.total,
            final(budget)@.free + final(self)@.allocation == old(budget)@.free + old(
                self,
            )@.allocation,
            match frame {
                Some(f) => {
                    &&& old(self)@.plans.len() > 0
                    &&& old(self)@.plans[0].buffer.len() > 0
                    &&& f == old(self)@.plans[0].buffer[0]
                    &&& final(self)@ == old(self)@.popped(desired)
                },
                None => {
                    &&& old(self)@.plans.len() == 0 || old(self)@.plans[0].buffer.len() == 0
                    &&& final(self)@ == old(self)@
                },
            },
    {
        if self.plans.len() == 0 {
            return None;
        }
        let ghost before = self@;
        assert(before.plans[0] == self.plans@[0]@);
        assert(before.plans[0].wf());
        let frame: Bytes = match self.plans[0].buffer.pop_front() {
            Some(frame) => frame,
            None => {
                proof {
                    assert(self@.plans =~= before.plans);
                }
                return None;
            },
        };
        self.plans[0].emitted = self.plans[0].emitted + 1;
        proof {
            self.delivered@ = self.delivered@ + 1;
            let plan = before.plans[0].popped();
            assert(self@.plans =~= before.plans.update(0, plan));
            assert(committed_of(self@.plans) =~= committed_of(before.plans).update(
                0,
                plan.committed(),
            ));
            assert(remaining_of(self@.plans) =~= remaining_of(before.plans).update(
                0,
                plan.remaining(),
            ));
            lemma_total_update(committed_of(before.plans), 0, plan.committed());
            lemma_total_update(remaining_of(before.plans), 0, plan.remaining());
            assert(self@.wf());
        }
        if self.plans[0].emitted == self.plans[0].local_frames.end && self.plans[0].finished {
            self.drop_front();
            assert(self@.plans =~= before.plans.skip(1));
        }
        let capacity: usize = self.capacity_frames(desired);
        let committed: usize = self.committed_frames();
        let kept: usize = if capacity >= committed { capacity } else { committed };
        self.allocation.shrink_to(kept, budget);
        Some(frame)
    }

    /// Hands the next frame out where the output is ready for it.
    pub fn offer(
        &mut self,
        answer: SinkAnswer,
        desired: Option<usize>,
        budget: &mut FrameBudget,
    ) -> (offered: Offered)
        requires
            old(self)@.wf(),
            old(self)@.held_from(old(budget)@),
        ensures
            final(self)@.wf(),
            final(self)@.held_from(final(budget)@),
            final(budget)@.total == old(budget)@.total,
            final(budget)@.free + final(self)@.allocation == old(budget)@.free + old(
                self,
            )@.allocation,
            is_offer(old(self)@, answer, desired, offered, final(self)@),
    {
        match answer {
            SinkAnswer::Ready => match self.pop_ready(desired, budget) {
                Some(frame) => Offered::Send(frame),
                None => Offered::Nothing,
            },
            SinkAnswer::Pending => Offered::Nothing,
            SinkAnswer::Failed => Offered::Stop,
        }
    }

    /// Drops the front plans that have nothing left to do.
    pub fn discard_finished(&mut self)
        requires
            old(self)@.wf(),
        ensures
            final(self)@.wf(),
            final(self)@ == old(self)@.trimmed(),
    {
        loop
            invariant
                self@.wf(),
                self@.trimmed() == old(self)@.trimmed(),
            ensures
                self@.wf(),
                self@ == old(self)@.trimmed(),
            decreases self.plans.len(),
        {
            if self.plans.len() == 0 {
                break;
            }
            assert(self@.plans[0] == self.plans@[0]@);
            if self.plans[0].finished && self.plans[0].emitted == self.plans[0].local_frames.end {
                self.drop_front();
            } else {
                break;
            }
        }
    }

    /// Whether nothing is left to deliver.
    pub fn is_complete(&self) -> (complete: bool)
        ensures
            complete == self@.complete(),
    {
        self.plans.len() == 0 && (self.source_ended || self.source_cursor
            >= self.request.frames().end)
    }

    /// What to do with the output after a round of filling.
    pub fn driver_step(&self) -> (step: DriverStep)
        ensures
            step == if self@.complete() {
                DriverStep::Close
            } else if self@.plans.len() > 0 {
                DriverStep::Offer
            } else {
                DriverStep::Flush
            },
    {
        if self.is_complete() {
            DriverStep::Close
        } else if self.plans.len() > 0 {
            DriverStep::Offer
        } else {
            DriverStep::Flush
        }
    }

    /// Gives all frames back to the budget.
    pub fn close(self, budget: &mut FrameBudget)
        requires
            self@.held_from(old(budget)@),
        ensures
            final(budget)@ == (FrameBudgetView {
                free: old(budget)@.free + self@.allocation,
                ..old(budget)@
            }),
    {
        self.allocation.release(budget);
    }
}

/// The memory promise: the frames that a session buffers never exceed the
/// frames it holds from the budget.
pub proof fn law_buffers_stay_within_the_budget(session: SessionView, budget: FrameBudgetView)
    requires
        session.wf(),
        session.held_from(budget),
    ensures
        total(buffered_of(session.plans)) <= session.allocation <= budget.total,
{
    assert forall|k: int| 0 <= k < session.plans.len() implies #[trigger] buffered_of(
        session.plans,
    )[k] <= committed_of(session.plans)[k] by {
        assert(session.plans[k].wf());
    }
    lemma_total_le(buffered_of(session.plans), committed_of(session.plans));
}

/// The order promise: the front frame of a session is always the next frame of
/// the request, and delivering it moves on by exactly one.
pub proof fn law_frames_leave_in_order(session: SessionView, desired: Option<usize>)
    requires
        session.wf(),
        session.plans.len() > 0,
        session.plans[0].buffer.len() > 0,
    ensures
        session.plans[0].base + session.plans[0].emitted == session.first + session.delivered,
        session.first + session.delivered < session.end,
        session.popped(desired).delivered == session.delivered + 1,
{
    assert(session.plans[0].wf());
    let last = session.plans.len() - 1;
    lemma_plans_ascend(session, last);
    assert(session.plans[last].wf());
}

proof fn lemma_plans_ascend(session: SessionView, i: int)
    requires
        session.wf(),
        0 <= i < session.plans.len(),
    ensures
        session.plans[0].base + session.plans[0].end <= session.plans[i].base
            + session.plans[i].end,
    decreases i,
{
    if i > 0 {
        lemma_plans_ascend(session, i - 1);
        assert(session.plans[i - 1].base + session.plans[i - 1].end == session.plans[i].base
            + session.plans[i].start);
        assert(session.plans[i].wf());
    }
}

/// The completeness promise: a session that is complete because the source
/// passed the end of the request has delivered every requested frame.
pub proof fn law_complete_means_all_delivered(session: SessionView)
    requires
        session.wf(),
        session.complete(),
        session.cursor >= session.end,
    ensures
        session.delivered == session.end - session.first,
{
}

/// Rights to download are never revoked, whatever the window.
pub proof fn law_authorization_only_grows(plans: Seq<PlanView>, room: int, i: int)
    requires
        0 <= i < plans.len(),
        plans[i].wf(),
    ensures
        plans[i].authorized <= plans_granted(plans, room)[i].authorized <= plans[i].end,
{
}

/// Head of line: an object gets rights only after every earlier object has all
/// of its own.
pub proof fn law_earlier_objects_first(plans: Seq<PlanView>, room: int, i: int, j: int)
    requires
        0 <= i < j < plans.len(),
        forall|k: int| 0 <= k < plans.len() ==> (#[trigger] plans[k]).wf(),
        plans_granted(plans, room)[j].authorized > plans[j].authorized,
    ensures
        plans_granted(plans, room)[i].authorized == plans[i].end,
{
    let missing = missing_of(plans);
    assert forall|k: int| 0 <= k < missing.len() implies 0 <= #[trigger] missing[k] by {
        assert(plans[k].wf());
    }
    lemma_total_take(missing, i);
    let head = missing.take(j);
    assert(head.take(i + 1) =~= missing.take(i + 1));
    lemma_total_prefix(head, i + 1);
}

/// The rights promise: of the frames that may be authorized, exactly as many are
/// as there is room for, or all that are missing.
pub proof fn law_room_is_used(plans: Seq<PlanView>, room: int)
    requires
        forall|k: int| 0 <= k < plans.len() ==> (#[trigger] plans[k]).wf(),
        0 <= room,
    ensures
        total(committed_of(plans_granted(plans, room))) == total(committed_of(plans)) + if room
            <= total(missing_of(plans)) {
            room
        } else {
            total(missing_of(plans))
        },
    decreases plans.len(),
{
    let missing = missing_of(plans);
    let committed = committed_of(plans);
    let granted = plans_granted(plans, room);
    if plans.len() > 0 {
        let shorter = plans.drop_last();
        let n = plans.len() - 1;
        assert forall|k: int| 0 <= k < shorter.len() implies (#[trigger] shorter[k]).wf() by {
            assert(plans[k].wf());
        }
        law_room_is_used(shorter, room);
        assert(plans[n].wf());
        assert(missing.drop_last() =~= missing_of(shorter));
        assert(committed.drop_last() =~= committed_of(shorter));
        assert forall|k: int| 0 <= k < n implies #[trigger] plans_granted(shorter, room)[k]
            == granted[k] by {
            assert(missing_of(shorter).take(k) =~= missing.take(k));
        }
        assert(committed_of(granted).drop_last() =~= committed_of(plans_granted(shorter, room)));
        assert(missing.take(n) =~= missing_of(shorter));
        assert(committed_of(granted).last() == granted[n].committed());
        assert forall|k: int| 0 <= k < missing_of(shorter).len() implies 0
            <= #[trigger] missing_of(shorter)[k] by {
            assert(shorter[k].wf());
        }
        lemma_total_prefix(missing_of(shorter), 0);
        assert(missing_of(shorter).take(0) =~= Seq::<int>::empty());
    }
}

/// Authorizing changes nothing of a plan but how many frames it may download.
pub proof fn law_rights_are_all_that_is_granted(plans: Seq<PlanView>, room: int, i: int)
    requires
        0 <= i < plans.len(),
    ensures
        plans_granted(plans, room).len() == plans.len(),
        plans_granted(plans, room)[i] == (PlanView {
            authorized: plans_granted(plans, room)[i].authorized,
            ..plans[i]
        }),
{
}

/// Another object is asked for exactly while the source has some, the request
/// reaches past those that it gave, and the window is not full of frames that
/// were not delivered.
pub proof fn law_objects_fill_the_window(session: SessionView, window: WindowSizing)
    ensures
        session.wants_object(window) <==> {
            &&& !session.source_ended
            &&& session.end > session.cursor
            &&& window.ready_data_frames + window.url_prefetch_frames > total(
                session.plans.map_values(|p: PlanView| p.end - p.emitted),
            )
        },
{
    assert(session.plans.map_values(|p: PlanView| p.end - p.emitted) =~= remaining_of(
        session.plans,
    ));
}

/// The window of a session is what is desired as far as the budget gave it, and one
/// frame while nothing is known.
pub proof fn law_the_window_is_held(session: SessionView, desired: usize)
    ensures
        session.capacity(None) == 1,
        session.capacity(Some(desired)) <= desired,
        session.capacity(Some(desired)) <= session.allocation,
        session.capacity(Some(desired)) == desired || session.capacity(Some(desired))
            == session.allocation,
{
}

/// Delivering a frame gives back what the session holds beyond its window and its
/// rights, and no more.
pub proof fn law_delivery_gives_frames_back(session: SessionView, desired: Option<usize>)
    requires
        session.wf(),
        session.plans.len() > 0,
        session.plans[0].buffer.len() > 0,
    ensures
        ({
            let after = session.popped(desired);
            let rights = total(after.plans.map_values(|p: PlanView| p.authorized - p.emitted));
            &&& after.allocation <= session.allocation
            &&& rights <= after.allocation
            &&& after.allocation > rights ==> after.allocation <= session.capacity(desired)
            &&& after.allocation < session.allocation ==> after.allocation >= session.capacity(
                desired,
            )
            &&& after.delivered == session.delivered + 1
            &&& after.cursor == session.cursor
            &&& after.first == session.first
            &&& after.end == session.end
        }),
{
    let plan = session.plans[0].popped();
    let after = session.popped(desired);
    let items = committed_of(session.plans);
    assert(session.plans[0].wf());
    assert(after.plans.map_values(|p: PlanView| p.authorized - p.emitted) =~= committed_of(
        after.plans,
    ));
    if plan.done() {
        assert(committed_of(after.plans) =~= items.skip(1));
        lemma_total_first(items);
    } else {
        assert(committed_of(after.plans) =~= items.update(0, plan.committed()));
        lemma_total_update(items, 0, plan.committed());
    }
}

/// A download is polled exactly while it is open and not at its end, and has
/// either rights to another frame or all its frames, so that its end is awaited.
pub proof fn law_downloads_are_polled_for_their_frames(plan: PlanView)
    requires
        plan.wf(),
    ensures
        plan.polled() <==> plan.open && !plan.finished && (plan.received < plan.authorized
            || plan.received == plan.end),
        plan.can_open() <==> plan.url is Some && !plan.open && plan.emitted < plan.authorized,
        plan.limits() <==> plan.ticket && !plan.open && plan.emitted < plan.authorized,
        plan.done() <==> plan.finished && plan.emitted == plan.end,
{
}

/// The plan of an object names exactly the requested frames of it.
pub proof fn law_plans_name_the_requested_frames(session: SessionView, object: ObjectMeta, g: int)
    requires
        session.wf(),
        session.useful(object),
    ensures
        ({
            let plan = session.plan_for(object);
            &&& plan.object == object
            &&& plan.base == session.cursor
            &&& plan.base + plan.start <= g < plan.base + plan.end <==> {
                &&& session.first <= g < session.end
                &&& session.cursor <= g < session.cursor + object.frame_count
            }
            &&& plan.emitted == plan.start && plan.received == plan.start && plan.authorized
                == plan.start
            &&& plan.ticket && !plan.open && !plan.finished && plan.url is None
            &&& plan.buffer.len() == 0
        }),
{
}

/// An object is planned exactly if one of its frames is requested.
pub proof fn law_useful_objects_hold_a_requested_frame(session: SessionView, object: ObjectMeta)
    requires
        session.wf(),
    ensures
        session.useful(object) <==> exists|g: int| #[trigger]
            is_between(session.first, g, session.end) && is_between(
                session.cursor,
                g,
                session.cursor + object.frame_count,
            ),
{
    if session.useful(object) {
        let g = at_least(session.cursor, session.first);
        assert(is_between(session.first, g, session.end));
    }
}

/// Whether a number lies from `low` up to `high`.
pub open spec fn is_between(low: int, number: int, high: int) -> bool {
    low <= number < high
}

/// Trimming drops the done plans at the front, all of them and no others.
pub proof fn law_trimming_drops_done_plans(session: SessionView)
    ensures
        exists|n: int| #[trigger] drops_done(session, n) && session.trimmed().plans
            == session.plans.skip(n),
    decreases session.plans.len(),
{
    if session.plans.len() > 0 && session.plans[0].done() {
        let shorter = SessionView { plans: session.plans.skip(1), ..session };
        law_trimming_drops_done_plans(shorter);
        let n = choose|n: int| #[trigger] drops_done(shorter, n) && shorter.trimmed().plans
            == shorter.plans.skip(n);
        assert(session.plans.skip(n + 1) =~= shorter.plans.skip(n));
        assert forall|i: int| 0 <= i < n + 1 implies (#[trigger] session.plans[i]).done() by {
            if i > 0 {
                assert(shorter.plans[i - 1] == session.plans[i]);
            }
        }
        if n + 1 < session.plans.len() {
            assert(shorter.plans[n] == session.plans[n + 1]);
        }
        assert(drops_done(session, n + 1));
    } else {
        assert(session.plans.skip(0) =~= session.plans);
        assert(drops_done(session, 0));
    }
}

/// Whether exactly the first `n` plans are done before one that is not.
pub open spec fn drops_done(session: SessionView, n: int) -> bool {
    &&& 0 <= n <= session.plans.len()
    &&& forall|i: int| 0 <= i < n ==> (#[trigger] session.plans[i]).done()
    &&& n < session.plans.len() ==> !session.plans[n].done()
}

/// A frame is handed to the sink only when the sink is ready and the front object has
/// one: the oldest. Otherwise the session stays as it is.
pub proof fn law_only_ready_frames_are_offered(
    before: SessionView,
    answer: SinkAnswer,
    desired: Option<usize>,
    offered: Offered,
    after: SessionView,
)
    requires
        is_offer(before, answer, desired, offered, after),
    ensures
        offered is Send <==> answer == SinkAnswer::Ready && before.plans.len() > 0
            && before.plans[0].buffer.len() > 0,
        offered matches Offered::Send(frame) ==> frame == before.plans[0].buffer[0],
        !(offered is Send) ==> after == before,
        offered is Stop <==> answer == SinkAnswer::Failed,
{
}

} // verus!
