//! Sliding window over a lazy source of objects.
//!
//! Zones of the window are derived from global frame numbers; an object is
//! never copied between them. The controller decides which objects to plan,
//! which URLs to fetch and how far downloads may run; the caller reads the
//! source and performs the actions.
use std::collections::VecDeque;
use std::ops::Range;

use bytes::Bytes;
use vstd::prelude::*;

use crate::request::{ObjectId, ObjectMeta};
use crate::stream::{at_least, at_most};
use crate::sums::{lemma_total_prefix, lemma_total_take, total};
use crate::text::{decimal, push_decimal, push_text, same_text};

verus! {

pub type FrameIndex = u64;

#[derive(Clone, Copy, Debug, PartialEq, Eq, Structural)]
pub enum UrlState {
    Requested,
    Ready,
    Failed,
}

#[derive(Debug, PartialEq, Eq)]
pub struct PlanZones {
    pub ready: Option<Range<u32>>,
    pub data: Option<Range<u32>>,
    pub prefetch: Option<Range<u32>>,
}

#[derive(Clone, Copy, Debug, PartialEq, Eq, Structural)]
pub struct WindowBoundaries {
    pub sent: FrameIndex,
    pub ready_until: FrameIndex,
    pub data_end: FrameIndex,
    pub prefetch_end: FrameIndex,
    pub planned_until: FrameIndex,
}

#[derive(Debug, PartialEq, Eq)]
pub enum WindowAction {
    FetchUrl { object_id: ObjectId },
    OpenDownload { object_id: ObjectId, authorized_local_end: u32 },
    AdvanceDownload { object_id: ObjectId, authorized_local_end: u32 },
}

#[derive(Debug, PartialEq, Eq)]
pub enum WindowError<E> {
    Source(E),
    ZeroCapacity,
    EmptyObject(ObjectId),
    DuplicateObject(ObjectId),
    UnknownObject(ObjectId),
    DownloadNotOpen(ObjectId),
    FrameNotAuthorized { object_id: ObjectId, local_frame: u32, authorized_local_end: u32 },
    FrameIndexOverflow,
}

impl<E> WindowError<E> {
    /// The text of the error; `source` is that of the source's own error.
    pub open spec fn text(self, source: Seq<char>) -> Seq<char> {
        match self {
            WindowError::Source(_) => "object source failed: "@ + source,
            WindowError::ZeroCapacity => "Ready + Data must contain at least one frame"@,
            WindowError::EmptyObject(id) => "object "@ + id@ + " contains no frames"@,
            WindowError::DuplicateObject(id) => "duplicate object "@ + id@,
            WindowError::UnknownObject(id) => "unknown object "@ + id@,
            WindowError::DownloadNotOpen(id) => "download "@ + id@ + " is not open"@,
            WindowError::FrameNotAuthorized { object_id, local_frame, authorized_local_end } =>
            "object "@ + object_id@ + " frame "@ + decimal(local_frame as nat)
                + " is beyond authorized end "@ + decimal(authorized_local_end as nat),
            WindowError::FrameIndexOverflow => "global frame index overflow"@,
        }
    }

    pub fn message(&self, source: &str) -> (text: String)
        ensures
            text@ == self.text(source@),
    {
        let mut text: String = String::new();
        match self {
            WindowError::Source(_) => {
                push_text(&mut text, "object source failed: ");
                push_text(&mut text, source);
            },
            WindowError::ZeroCapacity => push_text(
                &mut text,
                "Ready + Data must contain at least one frame",
            ),
            WindowError::EmptyObject(id) => {
                push_text(&mut text, "object ");
                push_text(&mut text, id.as_str());
                push_text(&mut text, " contains no frames");
            },
            WindowError::DuplicateObject(id) => {
                push_text(&mut text, "duplicate object ");
                push_text(&mut text, id.as_str());
            },
            WindowError::UnknownObject(id) => {
                push_text(&mut text, "unknown object ");
                push_text(&mut text, id.as_str());
            },
            WindowError::DownloadNotOpen(id) => {
                push_text(&mut text, "download ");
                push_text(&mut text, id.as_str());
                push_text(&mut text, " is not open");
            },
            WindowError::FrameNotAuthorized { object_id, local_frame, authorized_local_end } => {
                push_text(&mut text, "object ");
                push_text(&mut text, object_id.as_str());
                push_text(&mut text, " frame ");
                push_decimal(&mut text, *local_frame as u64);
                push_text(&mut text, " is beyond authorized end ");
                push_decimal(&mut text, *authorized_local_end as u64);
            },
            WindowError::FrameIndexOverflow => push_text(&mut text, "global frame index overflow"),
        }
        assert(text@ =~= self.text(source@));
        text
    }
}

#[derive(Clone, Copy, Debug, PartialEq, Eq, Structural)]
pub struct WindowConfig {
    pub capacity_frames: usize,
    pub prefetch_frames: FrameIndex,
}

impl WindowConfig {
    pub fn new(capacity_frames: usize, prefetch_frames: FrameIndex) -> (config: Result<
        WindowConfig,
        WindowError<()>,
    >)
        ensures
            match config {
                Ok(c) => {
                    &&& capacity_frames > 0
                    &&& c.capacity_frames == capacity_frames
                    &&& c.prefetch_frames == prefetch_frames
                },
                Err(e) => capacity_frames == 0 && e == WindowError::<()>::ZeroCapacity,
            },
    {
        if capacity_frames == 0 {
            return Err(WindowError::ZeroCapacity);
        }
        Ok(WindowConfig { capacity_frames, prefetch_frames })
    }
}

/// What a planned object is. Frames are numbered within the object; `start` is
/// the number of its first frame in the whole stream.
pub struct WindowPlanView {
    pub object: ObjectMeta,
    pub start: int,
    pub url: UrlState,
    pub started: bool,
    pub authorized: int,
    pub received: int,
    pub emitted: int,
    pub buffer: Seq<Bytes>,
}

impl WindowPlanView {
    pub open spec fn end(self) -> int {
        self.start + self.object.frame_count
    }

    pub open spec fn wf(self) -> bool {
        &&& 0 <= self.start
        &&& self.end() <= u64::MAX
        &&& 0 <= self.emitted <= self.received <= self.authorized <= self.object.frame_count
        &&& self.emitted < self.object.frame_count
        &&& self.emitted + self.buffer.len() == self.received
        &&& !self.started ==> self.authorized == 0
    }

    /// The frames of the object between two global frame numbers.
    pub open spec fn intersection(self, from: int, to: int) -> Option<(int, int)> {
        let first = at_least(self.start, from);
        let last = at_most(self.end(), to);
        if first < last {
            Some((first - self.start, last - self.start))
        } else {
            None
        }
    }

    /// How far the download of the object may run when data reaches `data_end`.
    pub open spec fn reach(self, data_end: int) -> int {
        at_most(data_end, self.end()) - self.start
    }

    /// The object has a URL and lies within the data zone.
    pub open spec fn in_data(self, data_end: int) -> bool {
        self.url == UrlState::Ready && self.start < data_end
    }

    /// The plan after downloads were scheduled up to `data_end`.
    pub open spec fn scheduled(self, data_end: int) -> WindowPlanView {
        if self.in_data(data_end) && (!self.started || self.reach(data_end) > self.authorized) {
            WindowPlanView { started: true, authorized: self.reach(data_end), ..self }
        } else {
            self
        }
    }

    /// What the caller has to do when downloads are scheduled up to `data_end`.
    pub open spec fn action(self, data_end: int) -> Option<WindowAction> {
        if !self.in_data(data_end) {
            None
        } else if !self.started {
            Some(
                WindowAction::OpenDownload {
                    object_id: self.object.id,
                    authorized_local_end: self.reach(data_end) as u32,
                },
            )
        } else if self.reach(data_end) > self.authorized {
            Some(
                WindowAction::AdvanceDownload {
                    object_id: self.object.id,
                    authorized_local_end: self.reach(data_end) as u32,
                },
            )
        } else {
            None
        }
    }
}

/// The actions of the plans, in order.
pub open spec fn actions_of(plans: Seq<WindowPlanView>, data_end: int) -> Seq<WindowAction>
    decreases plans.len(),
{
    if plans.len() == 0 {
        Seq::empty()
    } else {
        let rest = actions_of(plans.drop_last(), data_end);
        match plans.last().action(data_end) {
            Some(action) => rest.push(action),
            None => rest,
        }
    }
}

pub open spec fn all_scheduled(plans: Seq<WindowPlanView>, data_end: int) -> Seq<WindowPlanView> {
    plans.map_values(|p: WindowPlanView| p.scheduled(data_end))
}

/// The furthest frame that a started download may reach, and at least `sent`.
pub open spec fn committed_end(plans: Seq<WindowPlanView>, sent: int) -> int
    decreases plans.len(),
{
    if plans.len() == 0 {
        sent
    } else {
        let rest = committed_end(plans.drop_last(), sent);
        if plans.last().started {
            at_least(rest, plans.last().start + plans.last().authorized)
        } else {
            rest
        }
    }
}

/// Where the frames that are ready without a gap end, from plan `i` on.
pub open spec fn ready_from(plans: Seq<WindowPlanView>, i: int, planned_until: int) -> int
    decreases plans.len() - i,
{
    if i < 0 || i >= plans.len() {
        planned_until
    } else if plans[i].received < plans[i].object.frame_count {
        plans[i].start + plans[i].received
    } else {
        ready_from(plans, i + 1, planned_until)
    }
}

/// What a window is.
pub struct WindowView {
    pub plans: Seq<WindowPlanView>,
    pub capacity_frames: int,
    pub prefetch_frames: int,
    pub sent: int,
    pub planned_until: int,
    pub source_ended: bool,
}

impl WindowView {
    /// The plans follow each other without a gap from the next frame to send to
    /// the last planned one, and only the first has sent frames.
    pub open spec fn contiguous(self) -> bool {
        &&& forall|i: int, j: int|
            #![trigger self.plans[i], self.plans[j]]
            0 <= i && j == i + 1 && j < self.plans.len() ==> self.plans[i].end()
                == self.plans[j].start
        &&& forall|i: int| 1 <= i < self.plans.len() ==> (#[trigger] self.plans[i]).emitted == 0
        &&& self.plans.len() > 0 ==> self.plans[0].start + self.plans[0].emitted == self.sent
        &&& self.plans.len() > 0 ==> self.plans.last().end() == self.planned_until
        &&& self.plans.len() == 0 ==> self.sent == self.planned_until
    }

    pub open spec fn distinct(self) -> bool {
        forall|i: int, j: int|
            #![trigger self.plans[i], self.plans[j]]
            0 <= i < j < self.plans.len() ==> self.plans[i].object.id@ != self.plans[j].object.id@
    }

    pub open spec fn wf(self) -> bool {
        &&& forall|i: int| 0 <= i < self.plans.len() ==> (#[trigger] self.plans[i]).wf()
        &&& 0 < self.capacity_frames <= usize::MAX
        &&& 0 <= self.prefetch_frames <= u64::MAX
        &&& 0 <= self.sent <= self.planned_until <= u64::MAX
        &&& self.contiguous()
        &&& self.distinct()
    }

    pub open spec fn ready_until(self) -> int {
        ready_from(self.plans, 0, self.planned_until)
    }

    /// End of the data zone: the wanted width, or what is already committed.
    pub open spec fn data_end(self) -> int {
        let wanted = at_least(
            at_most(self.sent + self.capacity_frames, u64::MAX as int),
            committed_end(self.plans, self.sent),
        );
        if self.source_ended {
            at_most(wanted, self.planned_until)
        } else {
            wanted
        }
    }

    pub open spec fn prefetch_end(self) -> int {
        let wanted = at_most(self.data_end() + self.prefetch_frames, u64::MAX as int);
        if self.source_ended {
            at_most(wanted, self.planned_until)
        } else {
            wanted
        }
    }

    /// Whether plan `i` has the id.
    pub open spec fn has_id(self, i: int, id: Seq<char>) -> bool {
        0 <= i < self.plans.len() && self.plans[i].object.id@ == id
    }

    pub open spec fn knows(self, id: Seq<char>) -> bool {
        exists|i: int| self.has_id(i, id)
    }

    pub open spec fn with_plan(self, i: int, plan: WindowPlanView) -> WindowView {
        WindowView { plans: self.plans.update(i, plan), ..self }
    }

    pub open spec fn scheduled(self) -> WindowView {
        WindowView { plans: all_scheduled(self.plans, self.data_end()), ..self }
    }

    /// The plan that the next object gets.
    pub open spec fn plan_for(self, object: ObjectMeta) -> WindowPlanView {
        WindowPlanView {
            object,
            start: self.planned_until,
            url: UrlState::Requested,
            started: false,
            authorized: 0,
            received: 0,
            emitted: 0,
            buffer: Seq::empty(),
        }
    }

    /// The window after its first ready frame left.
    pub open spec fn popped(self) -> WindowView {
        let front = self.plans[0];
        let plan = WindowPlanView {
            emitted: front.emitted + 1,
            buffer: front.buffer.subrange(1, front.buffer.len() as int),
            ..front
        };
        WindowView {
            plans: if plan.emitted == plan.object.frame_count {
                self.plans.skip(1)
            } else {
                self.plans.update(0, plan)
            },
            sent: self.sent + 1,
            ..self
        }
    }
}

/// One object with one sequential buffer.
pub struct WindowPlan {
    object: ObjectMeta,
    start: FrameIndex,
    url: UrlState,
    download_started: bool,
    authorized_end: u32,
    received: u32,
    emitted: u32,
    buffer: VecDeque<Bytes>,
}

impl View for WindowPlan {
    type V = WindowPlanView;

    closed spec fn view(&self) -> WindowPlanView {
        WindowPlanView {
            object: self.object,
            start: self.start as int,
            url: self.url,
            started: self.download_started,
            authorized: self.authorized_end as int,
            received: self.received as int,
            emitted: self.emitted as int,
            buffer: self.buffer@,
        }
    }
}

/// Whether a range is the given pair.
pub open spec fn is_range(range: Option<Range<u32>>, pair: Option<(int, int)>) -> bool {
    match (range, pair) {
        (Some(r), Some((start, end))) => r.start == start && r.end == end,
        (None, None) => true,
        _ => false,
    }
}

impl WindowPlan {
    pub fn object(&self) -> (object: &ObjectMeta)
        ensures
            *object == self@.object,
    {
        &self.object
    }

    pub fn global_frames(&self) -> (frames: Range<FrameIndex>)
        requires
            self@.wf(),
        ensures
            frames.start == self@.start,
            frames.end == self@.end(),
    {
        self.start..self.end()
    }

    pub fn url_state(&self) -> (state: UrlState)
        ensures
            state == self@.url,
    {
        self.url
    }

    pub fn authorized_local_end(&self) -> (end: u32)
        ensures
            end == self@.authorized,
    {
        self.authorized_end
    }

    pub fn next_received_local(&self) -> (frame: u32)
        ensures
            frame == self@.received,
    {
        self.received
    }

    pub fn next_emitted_local(&self) -> (frame: u32)
        ensures
            frame == self@.emitted,
    {
        self.emitted
    }

    pub fn buffered_frames(&self) -> (frames: usize)
        ensures
            frames == self@.buffer.len(),
    {
        self.buffer.len()
    }

    fn end(&self) -> (end: FrameIndex)
        requires
            self@.wf(),
        ensures
            end == self@.end(),
    {
        self.start + self.object.frame_count as u64
    }

    fn local_intersection(&self, from: FrameIndex, to: FrameIndex) -> (range: Option<Range<u32>>)
        requires
            self@.wf(),
        ensures
            is_range(range, self@.intersection(from as int, to as int)),
    {
        let end: u64 = self.end();
        let first: u64 = if self.start >= from { self.start } else { from };
        let last: u64 = if end <= to { end } else { to };
        if first < last {
            Some((first - self.start) as u32..(last - self.start) as u32)
        } else {
            None
        }
    }
}

pub open spec fn window_plan_views(plans: Seq<WindowPlan>) -> Seq<WindowPlanView> {
    plans.map_values(|p: WindowPlan| p@)
}

/// What the source of a window gave.
pub enum SourceEvent {
    Object(ObjectMeta),
    Ended,
}

/// A window that is being filled up from its source.
pub struct Refill {
    /// Frames up to here are planned.
    pub target: FrameIndex,
    /// Actions gathered so far.
    pub actions: Vec<WindowAction>,
}

/// What has to be done to fill a window up.
pub enum RefillStep {
    /// The source has to be read.
    Read,
    /// Nothing more; these actions have to be performed.
    Done(Vec<WindowAction>),
}

/// Sliding window over a lazy source of objects.
///
/// `capacity_frames` is the wanted Ready + Data width. Rights to download are
/// never revoked, so shrinking drains as frames leave.
pub struct WindowController {
    plans: Vec<WindowPlan>,
    capacity_frames: usize,
    prefetch_frames: FrameIndex,
    sent: FrameIndex,
    planned_until: FrameIndex,
    source_ended: bool,
}

impl View for WindowController {
    type V = WindowView;

    closed spec fn view(&self) -> WindowView {
        WindowView {
            plans: window_plan_views(self.plans@),
            capacity_frames: self.capacity_frames as int,
            prefetch_frames: self.prefetch_frames as int,
            sent: self.sent as int,
            planned_until: self.planned_until as int,
            source_ended: self.source_ended,
        }
    }
}

impl WindowController {
    pub fn new(config: WindowConfig) -> (window: Result<WindowController, WindowError<()>>)
        ensures
            match window {
                Ok(w) => {
                    &&& config.capacity_frames > 0
                    &&& w@.wf()
                    &&& w@ == (WindowView {
                        plans: Seq::empty(),
                        capacity_frames: config.capacity_frames as int,
                        prefetch_frames: config.prefetch_frames as int,
                        sent: 0,
                        planned_until: 0,
                        source_ended: false,
                    })
                },
                Err(e) => config.capacity_frames == 0 && e == WindowError::<()>::ZeroCapacity,
            },
    {
        if config.capacity_frames == 0 {
            return Err(WindowError::ZeroCapacity);
        }
        let window: WindowController = WindowController {
            plans: Vec::new(),
            capacity_frames: config.capacity_frames,
            prefetch_frames: config.prefetch_frames,
            sent: 0,
            planned_until: 0,
            source_ended: false,
        };
        assert(window@.plans =~= Seq::<WindowPlanView>::empty());
        Ok(window)
    }

    pub fn plans(&self) -> (plans: &Vec<WindowPlan>)
        ensures
            window_plan_views(plans@) == self@.plans,
    {
        &self.plans
    }

    pub fn capacity_frames(&self) -> (frames: usize)
        ensures
            frames == self@.capacity_frames,
    {
        self.capacity_frames
    }

    fn ready_until(&self) -> (end: FrameIndex)
        requires
            self@.wf(),
        ensures
            end == self@.ready_until(),
            self@.sent <= end,
    {
        let mut ready: u64 = self.sent;
        let mut i: usize = 0;
        while i < self.plans.len()
            invariant_except_break
                i <= self.plans.len(),
                self@.ready_until() == ready_from(self@.plans, i as int, self@.planned_until),
                i < self.plans.len() ==> ready == self@.plans[i as int].start
                    + self@.plans[i as int].emitted,
                i == self.plans.len() ==> ready == self@.planned_until,
                self@.sent <= ready,
            invariant
                self@.wf(),
            ensures
                ready == self@.ready_until(),
                self@.sent <= ready,
            decreases self.plans.len() - i,
        {
            proof {
                assert(self@.plans[i as int] == self.plans[i as int]@);
                assert(self@.plans[i as int].wf());
                if i + 1 < self.plans.len() {
                    assert(self@.plans[i as int].end() == self@.plans[i + 1].start);
                    assert(self@.plans[i + 1].emitted == 0);
                }
            }
            ready = ready + self.plans[i].buffer.len() as u64;
            if self.plans[i].received < self.plans[i].object.frame_count {
                break;
            }
            i += 1;
        }
        ready
    }

    fn committed_end(&self) -> (end: FrameIndex)
        requires
            self@.wf(),
        ensures
            end == committed_end(self@.plans, self@.sent),
    {
        let mut end: u64 = self.sent;
        let mut i: usize = 0;
        proof {
            assert(self@.plans.take(0) =~= Seq::<WindowPlanView>::empty());
        }
        while i < self.plans.len()
            invariant
                self@.wf(),
                i <= self.plans.len(),
                end == committed_end(self@.plans.take(i as int), self@.sent),
            decreases self.plans.len() - i,
        {
            proof {
                assert(self@.plans[i as int] == self.plans[i as int]@);
                assert(self@.plans[i as int].wf());
                assert(self@.plans.take(i + 1).drop_last() =~= self@.plans.take(i as int));
            }
            if self.plans[i].download_started {
                let reached: u64 = self.plans[i].start + self.plans[i].authorized_end as u64;
                if reached > end {
                    end = reached;
                }
            }
            i += 1;
        }
        proof {
            assert(self@.plans.take(i as int) =~= self@.plans);
        }
        end
    }

    pub fn boundaries(&self) -> (boundaries: WindowBoundaries)
        requires
            self@.wf(),
        ensures
            boundaries.sent == self@.sent,
            boundaries.ready_until == self@.ready_until(),
            boundaries.data_end == self@.data_end(),
            boundaries.prefetch_end == self@.prefetch_end(),
            boundaries.planned_until == self@.planned_until,
    {
        let ready_until: u64 = self.ready_until();
        let target: u64 = self.sent.saturating_add(self.capacity_frames as u64);
        let committed: u64 = self.committed_end();
        let mut data_end: u64 = if target >= committed { target } else { committed };
        if self.source_ended && data_end > self.planned_until {
            data_end = self.planned_until;
        }
        let mut prefetch_end: u64 = data_end.saturating_add(self.prefetch_frames);
        if self.source_ended && prefetch_end > self.planned_until {
            prefetch_end = self.planned_until;
        }
        WindowBoundaries {
            sent: self.sent,
            ready_until,
            data_end,
            prefetch_end,
            planned_until: self.planned_until,
        }
    }

    pub fn ready_frames(&self) -> (frames: FrameIndex)
        requires
            self@.wf(),
        ensures
            frames == self@.ready_until() - self@.sent,
    {
        self.ready_until() - self.sent
    }

    fn find_plan(&self, object_id: &ObjectId) -> (found: Option<usize>)
        requires
            self@.wf(),
        ensures
            match found {
                Some(i) => self@.has_id(i as int, object_id@),
                None => !self@.knows(object_id@),
            },
    {
        let mut i: usize = 0;
        while i < self.plans.len()
            invariant
                i <= self.plans.len(),
                forall|k: int| 0 <= k < i ==> !self@.has_id(k, object_id@),
            decreases self.plans.len() - i,
        {
            assert(self@.plans[i as int] == self.plans[i as int]@);
            if same_text(self.plans[i].object.id.as_str(), object_id.as_str()) {
                return Some(i);
            }
            i += 1;
        }
        None
    }

    pub fn plan_zones(&self, object_id: &ObjectId) -> (zones: Option<PlanZones>)
        requires
            self@.wf(),
        ensures
            zones is Some <==> self@.knows(object_id@),
            zones matches Some(z) ==> forall|i: int| #[trigger]
                self@.has_id(i, object_id@) ==> {
                    let plan = self@.plans[i];
                    &&& is_range(z.ready, plan.intersection(self@.sent, self@.ready_until()))
                    &&& is_range(z.data, plan.intersection(self@.ready_until(), self@.data_end()))
                    &&& is_range(
                        z.prefetch,
                        plan.intersection(self@.data_end(), self@.prefetch_end()),
                    )
                },
    {
        match self.find_plan(object_id) {
            None => None,
            Some(i) => {
                let window: WindowBoundaries = self.boundaries();
                let plan: &WindowPlan = &self.plans[i];
                proof {
                    assert(self@.plans[i as int] == plan@);
                    assert(plan@.wf());
                    assert forall|k: int| #[trigger] self@.has_id(k, object_id@) implies k == i by {
                        assert(self@.has_id(i as int, object_id@));
                        assert(self@.plans[k].object.id@ == self@.plans[i as int].object.id@);
                    }
                }
                Some(
                    PlanZones {
                        ready: plan.local_intersection(window.sent, window.ready_until),
                        data: plan.local_intersection(window.ready_until, window.data_end),
                        prefetch: plan.local_intersection(window.data_end, window.prefetch_end),
                    },
                )
            },
        }
    }

    pub fn buffered_frames(&self) -> (frames: usize)
        requires
            self@.wf(),
            total(buffer_sizes(self@.plans)) <= usize::MAX,
        ensures
            frames == total(buffer_sizes(self@.plans)),
    {
        let ghost items = buffer_sizes(self@.plans);
        let mut sum: usize = 0;
        let mut i: usize = 0;
        while i < self.plans.len()
            invariant
                items == buffer_sizes(self@.plans),
                total(items) <= usize::MAX,
                i <= self.plans.len(),
                sum == total(items.take(i as int)),
            decreases self.plans.len() - i,
        {
            proof {
                assert(self@.plans[i as int] == self.plans[i as int]@);
                lemma_total_take(items, i as int);
                lemma_total_prefix(items, i + 1);
            }
            sum = sum + self.plans[i].buffered_frames();
            i += 1;
        }
        proof {
            assert(items.take(i as int) =~= items);
        }
        sum
    }

    /// Opens or extends every download that the data zone covers.
    pub fn schedule_downloads(&mut self) -> (actions: Vec<WindowAction>)
        requires
            old(self)@.wf(),
        ensures
            final(self)@.wf(),
            final(self)@ == old(self)@.scheduled(),
            actions@ == actions_of(old(self)@.plans, old(self)@.data_end()),
    {
        let ghost before = self@;
        let data_end: u64 = self.boundaries().data_end;
        let ghost target = all_scheduled(before.plans, data_end as int);
        let mut actions: Vec<WindowAction> = Vec::new();
        let mut i: usize = 0;
        proof {
            assert(before.plans.take(0) =~= Seq::<WindowPlanView>::empty());
        }
        while i < self.plans.len()
            invariant
                before == old(self)@,
                before.wf(),
                data_end == before.data_end(),
                target == all_scheduled(before.plans, data_end as int),
                self@ == (WindowView { plans: self@.plans, ..before }),
                self@.plans.len() == before.plans.len(),
                i <= self.plans.len(),
                forall|k: int| 0 <= k < i ==> (#[trigger] self@.plans[k]) == target[k],
                forall|k: int|
                    i <= k < before.plans.len() ==> (#[trigger] self@.plans[k]) == before.plans[k],
                actions@ == actions_of(before.plans.take(i as int), data_end as int),
            decreases self.plans.len() - i,
        {
            let ghost current = self@;
            proof {
                assert(self@.plans[i as int] == self.plans[i as int]@);
                assert(before.plans[i as int].wf());
                assert(before.plans.take(i + 1).drop_last() =~= before.plans.take(i as int));
            }
            if self.plans[i].url == UrlState::Ready && self.plans[i].start < data_end {
                let end: u64 = self.plans[i].end();
                let last: u64 = if data_end <= end { data_end } else { end };
                let authorized_end: u32 = (last - self.plans[i].start) as u32;
                if !self.plans[i].download_started {
                    self.plans[i].download_started = true;
                    self.plans[i].authorized_end = authorized_end;
                    actions.push(
                        WindowAction::OpenDownload {
                            object_id: self.plans[i].object.id.clone(),
                            authorized_local_end: authorized_end,
                        },
                    );
                } else if authorized_end > self.plans[i].authorized_end {
                    self.plans[i].authorized_end = authorized_end;
                    actions.push(
                        WindowAction::AdvanceDownload {
                            object_id: self.plans[i].object.id.clone(),
                            authorized_local_end: authorized_end,
                        },
                    );
                }
            }
            proof {
                assert(self.plans[i as int]@ == target[i as int]);
                assert(self@.plans =~= current.plans.update(i as int, target[i as int]));
            }
            i += 1;
        }
        proof {
            assert(before.plans.take(i as int) =~= before.plans);
            assert(self@.plans =~= target);
            assert forall|k: int| 0 <= k < target.len() implies (#[trigger] target[k]).wf() by {
                assert(before.plans[k].wf());
            }
        }
        actions
    }

    /// Whether the source has to be read further to plan up to `target`.
    pub fn wants_object(&self, target: FrameIndex) -> (wanted: bool)
        ensures
            wanted == (self@.planned_until < target && !self@.source_ended),
    {
        self.planned_until < target && !self.source_ended
    }

    /// Plans the next object of the source; its URL has to be fetched.
    pub fn push_object(&mut self, object: ObjectMeta) -> (action: Result<
        WindowAction,
        WindowError<()>,
    >)
        requires
            old(self)@.wf(),
        ensures
            final(self)@.wf(),
            match action {
                Ok(a) => {
                    &&& object.frame_count > 0
                    &&& !old(self)@.knows(object.id@)
                    &&& old(self)@.planned_until + object.frame_count <= u64::MAX
                    &&& a == (WindowAction::FetchUrl { object_id: object.id })
                    &&& final(self)@ == (WindowView {
                        plans: old(self)@.plans.push(old(self)@.plan_for(object)),
                        planned_until: old(self)@.planned_until + object.frame_count,
                        ..old(self)@
                    })
                },
                Err(e) => {
                    &&& final(self)@ == old(self)@
                    &&& if object.frame_count == 0 {
                        e == WindowError::<()>::EmptyObject(object.id)
                    } else if old(self)@.knows(object.id@) {
                        e == WindowError::<()>::DuplicateObject(object.id)
                    } else {
                        &&& e == WindowError::<()>::FrameIndexOverflow
                        &&& old(self)@.planned_until + object.frame_count > u64::MAX
                    }
                },
            },
    {
        if object.frame_count == 0 {
            return Err(WindowError::EmptyObject(object.id));
        }
        if let Some(i) = self.find_plan(&object.id) {
            assert(self@.has_id(i as int, object.id@));
            return Err(WindowError::DuplicateObject(object.id));
        }
        let start: u64 = self.planned_until;
        let end: u64 = match start.checked_add(object.frame_count as u64) {
            Some(end) => end,
            None => {
                return Err(WindowError::FrameIndexOverflow);
            },
        };
        let ghost before = self@;
        let ghost expected = before.plan_for(object);
        self.planned_until = end;
        let object_id: ObjectId = object.id.clone();
        self.plans.push(
            WindowPlan {
                object,
                start,
                url: UrlState::Requested,
                download_started: false,
                authorized_end: 0,
                received: 0,
                emitted: 0,
                buffer: VecDeque::new(),
            },
        );
        proof {
            assert(self.plans@.last()@ == expected);
            assert(self@.plans =~= before.plans.push(expected));
            assert forall|i: int, j: int|
                #![trigger self@.plans[i], self@.plans[j]]
                0 <= i < j < self@.plans.len() implies self@.plans[i].object.id@
                != self@.plans[j].object.id@ by {
                if j == before.plans.len() {
                    assert(!before.has_id(i, object.id@));
                }
            }
        }
        Ok(WindowAction::FetchUrl { object_id })
    }

    /// Notes that the source has no more objects.
    pub fn source_finished(&mut self)
        requires
            old(self)@.wf(),
        ensures
            final(self)@.wf(),
            final(self)@ == (WindowView { source_ended: true, ..old(self)@ }),
    {
        self.source_ended = true;
    }

    /// Starts to read the source up to where the prefetch zone now ends.
    pub fn begin_refill(&self) -> (refill: Refill)
        requires
            self@.wf(),
        ensures
            refill.target == self@.prefetch_end(),
            refill.actions@.len() == 0,
    {
        Refill { target: self.boundaries().prefetch_end, actions: Vec::new() }
    }

    /// Takes what the source gave. An object is planned and its URL has to be
    /// fetched.
    pub fn refill_event(&mut self, refill: &mut Refill, event: SourceEvent) -> (taken: Result<
        (),
        WindowError<()>,
    >)
        requires
            old(self)@.wf(),
        ensures
            final(self)@.wf(),
            final(refill).target == old(refill).target,
            match event {
                SourceEvent::Ended => {
                    &&& taken is Ok
                    &&& final(self)@ == (WindowView { source_ended: true, ..old(self)@ })
                    &&& final(refill).actions@ == old(refill).actions@
                },
                SourceEvent::Object(object) => match taken {
                    Ok(_) => {
                        &&& object.frame_count > 0
                        &&& !old(self)@.knows(object.id@)
                        &&& old(self)@.planned_until + object.frame_count <= u64::MAX
                        &&& final(self)@ == (WindowView {
                            plans: old(self)@.plans.push(old(self)@.plan_for(object)),
                            planned_until: old(self)@.planned_until + object.frame_count,
                            ..old(self)@
                        })
                        &&& final(refill).actions@ == old(refill).actions@.push(
                            WindowAction::FetchUrl { object_id: object.id },
                        )
                    },
                    Err(e) => {
                        &&& final(self)@ == old(self)@
                        &&& final(refill).actions@ == old(refill).actions@
                        &&& if object.frame_count == 0 {
                            e == WindowError::<()>::EmptyObject(object.id)
                        } else if old(self)@.knows(object.id@) {
                            e == WindowError::<()>::DuplicateObject(object.id)
                        } else {
                            &&& e == WindowError::<()>::FrameIndexOverflow
                            &&& old(self)@.planned_until + object.frame_count > u64::MAX
                        }
                    },
                },
            },
    {
        match event {
            SourceEvent::Ended => {
                self.source_finished();
                Ok(())
            },
            SourceEvent::Object(object) => match self.push_object(object) {
                Ok(action) => {
                    refill.actions.push(action);
                    Ok(())
                },
                Err(error) => Err(error),
            },
        }
    }

    /// Says whether the source has to be read on. Once it has not, schedules
    /// downloads and hands all actions out, the URLs to fetch first.
    pub fn refill_step(&mut self, refill: &mut Refill) -> (step: RefillStep)
        requires
            old(self)@.wf(),
        ensures
            final(self)@.wf(),
            final(refill).target == old(refill).target,
            ({
                let wanted = old(self)@.planned_until < old(refill).target
                    && !old(self)@.source_ended;
                match step {
                    RefillStep::Read => {
                        &&& wanted
                        &&& final(self)@ == old(self)@
                        &&& final(refill).actions@ == old(refill).actions@
                    },
                    RefillStep::Done(actions) => {
                        &&& !wanted
                        &&& final(self)@ == old(self)@.scheduled()
                        &&& actions@ == old(refill).actions@ + actions_of(
                            old(self)@.plans,
                            old(self)@.data_end(),
                        )
                        &&& final(refill).actions@.len() == 0
                    },
                }
            }),
    {
        if self.wants_object(refill.target) {
            return RefillStep::Read;
        }
        let mut scheduled: Vec<WindowAction> = self.schedule_downloads();
        let mut actions: Vec<WindowAction> = Vec::new();
        actions.append(&mut refill.actions);
        actions.append(&mut scheduled);
        RefillStep::Done(actions)
    }

    pub fn set_capacity_frames(&mut self, capacity_frames: usize) -> (set: Result<
        (),
        WindowError<()>,
    >)
        requires
            old(self)@.wf(),
        ensures
            final(self)@.wf(),
            match set {
                Ok(_) => {
                    &&& capacity_frames > 0
                    &&& final(self)@ == (WindowView {
                        capacity_frames: capacity_frames as int,
                        ..old(self)@
                    })
                },
                Err(e) => {
                    &&& capacity_frames == 0
                    &&& e == WindowError::<()>::ZeroCapacity
                    &&& final(self)@ == old(self)@
                },
            },
    {
        if capacity_frames == 0 {
            return Err(WindowError::ZeroCapacity);
        }
        self.capacity_frames = capacity_frames;
        Ok(())
    }

    pub fn set_prefetch_frames(&mut self, prefetch_frames: FrameIndex)
        requires
            old(self)@.wf(),
        ensures
            final(self)@.wf(),
            final(self)@ == (WindowView {
                prefetch_frames: prefetch_frames as int,
                ..old(self)@
            }),
    {
        self.prefetch_frames = prefetch_frames;
    }

    proof fn lemma_plan_replaced(&self, before: WindowView, i: int, plan: WindowPlanView)
        requires
            before.wf(),
            0 <= i < before.plans.len(),
            self.plans@.len() == before.plans.len(),
            self.plans@[i]@ == plan,
            forall|k: int|
                0 <= k < before.plans.len() && k != i ==> (#[trigger] self.plans@[k])@
                    == before.plans[k],
            self@ == (WindowView { plans: self@.plans, ..before }),
            plan.wf(),
            plan.object == before.plans[i].object,
            plan.start == before.plans[i].start,
            plan.emitted == before.plans[i].emitted,
        ensures
            self@ == before.with_plan(i, plan),
            self@.wf(),
    {
        assert(self@.plans =~= before.plans.update(i, plan));
    }

    /// Notes that the URL of an object is known, and schedules downloads.
    pub fn url_ready(&mut self, object_id: &ObjectId) -> (actions: Result<
        Vec<WindowAction>,
        WindowError<()>,
    >)
        requires
            old(self)@.wf(),
        ensures
            final(self)@.wf(),
            match actions {
                Ok(a) => {
                    &&& old(self)@.knows(object_id@)
                    &&& forall|i: int| #[trigger]
                        old(self)@.has_id(i, object_id@) ==> {
                            let ready = old(self)@.with_plan(
                                i,
                                WindowPlanView { url: UrlState::Ready, ..old(self)@.plans[i] },
                            );
                            &&& final(self)@ == ready.scheduled()
                            &&& a@ == actions_of(ready.plans, ready.data_end())
                        }
                },
                Err(e) => {
                    &&& !old(self)@.knows(object_id@)
                    &&& e == WindowError::<()>::UnknownObject(*object_id)
                    &&& final(self)@ == old(self)@
                },
            },
    {
        match self.find_plan(object_id) {
            None => Err(WindowError::UnknownObject(object_id.clone())),
            Some(i) => {
                let ghost before = self@;
                assert(before.plans[i as int] == self.plans[i as int]@);
                assert(before.plans[i as int].wf());
                self.plans[i].url = UrlState::Ready;
                proof {
                    let plan = WindowPlanView { url: UrlState::Ready, ..before.plans[i as int] };
                    self.lemma_plan_replaced(before, i as int, plan);
                    lemma_id_is_unique(before, i as int, object_id@);
                }
                Ok(self.schedule_downloads())
            },
        }
    }

    pub fn url_failed(&mut self, object_id: &ObjectId) -> (noted: Result<(), WindowError<()>>)
        requires
            old(self)@.wf(),
        ensures
            final(self)@.wf(),
            match noted {
                Ok(_) => {
                    &&& old(self)@.knows(object_id@)
                    &&& forall|i: int| #[trigger]
                        old(self)@.has_id(i, object_id@) ==> final(self)@ == old(self)@.with_plan(
                            i,
                            WindowPlanView { url: UrlState::Failed, ..old(self)@.plans[i] },
                        )
                },
                Err(e) => {
                    &&& !old(self)@.knows(object_id@)
                    &&& e == WindowError::<()>::UnknownObject(*object_id)
                    &&& final(self)@ == old(self)@
                },
            },
    {
        match self.find_plan(object_id) {
            None => Err(WindowError::UnknownObject(object_id.clone())),
            Some(i) => {
                let ghost before = self@;
                assert(before.plans[i as int] == self.plans[i as int]@);
                assert(before.plans[i as int].wf());
                self.plans[i].url = UrlState::Failed;
                proof {
                    let plan = WindowPlanView { url: UrlState::Failed, ..before.plans[i as int] };
                    self.lemma_plan_replaced(before, i as int, plan);
                    lemma_id_is_unique(before, i as int, object_id@);
                }
                Ok(())
            },
        }
    }

    /// Buffers the next sequential frame of an object.
    pub fn frame_ready(&mut self, object_id: &ObjectId, payload: Bytes) -> (buffered: Result<
        (),
        WindowError<()>,
    >)
        requires
            old(self)@.wf(),
        ensures
            final(self)@.wf(),
            match buffered {
                Ok(_) => {
                    &&& old(self)@.knows(object_id@)
                    &&& forall|i: int| #[trigger]
                        old(self)@.has_id(i, object_id@) ==> {
                            let plan = old(self)@.plans[i];
                            &&& plan.started
                            &&& plan.received < plan.authorized
                            &&& final(self)@ == old(self)@.with_plan(
                                i,
                                WindowPlanView {
                                    received: plan.received + 1,
                                    buffer: plan.buffer.push(payload),
                                    ..plan
                                },
                            )
                        }
                },
                Err(e) => {
                    &&& final(self)@ == old(self)@
                    &&& if !old(self)@.knows(object_id@) {
                        e == WindowError::<()>::UnknownObject(*object_id)
                    } else {
                        forall|i: int| #[trigger]
                            old(self)@.has_id(i, object_id@) ==> {
                                let plan = old(self)@.plans[i];
                                if !plan.started {
                                    e == WindowError::<()>::DownloadNotOpen(*object_id)
                                } else {
                                    &&& plan.received == plan.authorized
                                    &&& e == (WindowError::<()>::FrameNotAuthorized {
                                        object_id: *object_id,
                                        local_frame: plan.received as u32,
                                        authorized_local_end: plan.authorized as u32,
                                    })
                                }
                            }
                    }
                },
            },
    {
        match self.find_plan(object_id) {
            None => Err(WindowError::UnknownObject(object_id.clone())),
            Some(i) => {
                let ghost before = self@;
                proof {
                    assert(before.plans[i as int] == self.plans[i as int]@);
                    assert(before.plans[i as int].wf());
                    lemma_id_is_unique(before, i as int, object_id@);
                }
                if !self.plans[i].download_started {
                    return Err(WindowError::DownloadNotOpen(object_id.clone()));
                }
                if self.plans[i].received >= self.plans[i].authorized_end {
                    return Err(
                        WindowError::FrameNotAuthorized {
                            object_id: object_id.clone(),
                            local_frame: self.plans[i].received,
                            authorized_local_end: self.plans[i].authorized_end,
                        },
                    );
                }
                self.plans[i].buffer.push_back(payload);
                self.plans[i].received = self.plans[i].received + 1;
                proof {
                    let old_plan = before.plans[i as int];
                    let plan = WindowPlanView {
                        received: old_plan.received + 1,
                        buffer: old_plan.buffer.push(payload),
                        ..old_plan
                    };
                    self.lemma_plan_replaced(before, i as int, plan);
                }
                Ok(())
            },
        }
    }

    /// Takes the next frame in global order. Later objects may be buffered but
    /// never bypass the front one.
    pub fn pop_ready(&mut self) -> (frame: Option<Bytes>)
        requires
            old(self)@.wf(),
        ensures
            final(self)@.wf(),
            match frame {
                Some(f) => {
                    &&& old(self)@.plans.len() > 0
                    &&& old(self)@.plans[0].buffer.len() > 0
                    &&& f == old(self)@.plans[0].buffer[0]
                    &&& final(self)@ == old(self)@.popped()
                },
                None => {
                    &&& old(self)@.plans.len() == 0 || old(self)@.plans[0].buffer.len() == 0
                    &&& final(self)@ == old(self)@
                },
            },
    {
        if self.plans.len() == 0 {
            return None;
        }
        let ghost before = self@;
        assert(before.plans[0] == self.plans@[0]@);
        assert(before.plans[0].wf());
        let frame: Bytes = match self.plans[0].buffer.pop_front() {
            Some(frame) => frame,
            None => {
                proof {
                    assert(self@.plans =~= before.plans);
                }
                return None;
            },
        };
        proof {
            lemma_planned_past_front(before);
        }
        self.plans[0].emitted = self.plans[0].emitted + 1;
        self.sent = self.sent + 1;
        if self.plans[0].emitted == self.plans[0].object.frame_count {
            let _front: WindowPlan = self.plans.remove(0);
            proof {
                assert(self@.plans =~= before.plans.skip(1));
                if before.plans.len() > 1 {
                    assert(before.plans[0].end() == before.plans[1].start);
                    assert(before.plans[1].emitted == 0);
                    assert(self@.plans[0] == before.plans[1]);
                }
                assert forall|i: int, j: int|
                    #![trigger self@.plans[i], self@.plans[j]]
                    0 <= i && j == i + 1 && j < self@.plans.len() implies self@.plans[i].end()
                    == self@.plans[j].start by {
                    assert(self@.plans[i] == before.plans[i + 1]);
                    assert(self@.plans[j] == before.plans[j + 1]);
                }
                assert forall|i: int, j: int|
                    #![trigger self@.plans[i], self@.plans[j]]
                    0 <= i < j < self@.plans.len() implies self@.plans[i].object.id@
                    != self@.plans[j].object.id@ by {
                    assert(self@.plans[i] == before.plans[i + 1]);
                    assert(self@.plans[j] == before.plans[j + 1]);
                }
            }
        } else {
            proof {
                assert(self@.plans =~= before.popped().plans);
            }
        }
        Some(frame)
    }
}

pub open spec fn buffer_sizes(plans: Seq<WindowPlanView>) -> Seq<int> {
    plans.map_values(|p: WindowPlanView| p.buffer.len() as int)
}

proof fn lemma_id_is_unique(window: WindowView, i: int, id: Seq<char>)
    requires
        window.wf(),
        window.has_id(i, id),
    ensures
        forall|k: int| #[trigger] window.has_id(k, id) ==> k == i,
        window.knows(id),
{
    assert forall|k: int| #[trigger] window.has_id(k, id) implies k == i by {
        assert(window.plans[k].object.id@ == window.plans[i].object.id@);
    }
}

proof fn lemma_plans_ascend(window: WindowView, i: int)
    requires
        window.wf(),
        0 <= i < window.plans.len(),
    ensures
        window.plans[0].end() <= window.plans[i].end(),
    decreases i,
{
    if i > 0 {
        lemma_plans_ascend(window, i - 1);
        assert(window.plans[i - 1].end() == window.plans[i].start);
        assert(window.plans[i].wf());
    }
}

proof fn lemma_planned_past_front(window: WindowView)
    requires
        window.wf(),
        window.plans.len() > 0,
    ensures
        window.sent < window.plans[0].end() <= window.planned_until,
{
    assert(window.plans[0].wf());
    lemma_plans_ascend(window, window.plans.len() - 1);
}

/// The order promise: the front frame of a window is always the next frame of
/// the stream, and taking it moves on by exactly one.
pub proof fn law_front_frame_is_next(window: WindowView)
    requires
        window.wf(),
        window.plans.len() > 0,
        window.plans[0].buffer.len() > 0,
    ensures
        window.plans[0].start + window.plans[0].emitted == window.sent,
        window.sent < window.planned_until,
        window.popped().sent == window.sent + 1,
{
    lemma_planned_past_front(window);
}

/// Rights to download are never revoked: a smaller window only stops new ones.
pub proof fn law_grants_are_never_revoked(plan: WindowPlanView, data_end: int)
    requires
        plan.wf(),
    ensures
        plan.scheduled(data_end).authorized >= plan.authorized,
        plan.scheduled(data_end).started || !plan.started,
{
}

/// The zones follow each other: what is ready ends within what is planned, data
/// reaches at least to every right to download, and prefetch lies beyond data.
pub proof fn law_zones_are_ordered(window: WindowView)
    requires
        window.wf(),
    ensures
        window.sent <= window.ready_until() <= window.planned_until,
        window.sent <= window.data_end(),
        window.data_end() <= window.prefetch_end() || window.prefetch_end()
            == window.planned_until,
        forall|i: int|
            0 <= i < window.plans.len() && (#[trigger] window.plans[i]).started
                ==> window.plans[i].start + window.plans[i].authorized <= window.data_end(),
{
    lemma_ready_within_plan(window, 0);
    if window.plans.len() > 0 {
        lemma_planned_past_front(window);
    }
    lemma_committed_within_plan(window, window.plans.len() as int);
    assert(window.plans.take(window.plans.len() as int) =~= window.plans);
}

proof fn lemma_ready_within_plan(window: WindowView, i: int)
    requires
        window.wf(),
        0 <= i <= window.plans.len(),
    ensures
        ready_from(window.plans, i, window.planned_until) <= window.planned_until,
        i < window.plans.len() ==> window.plans[i].start + window.plans[i].emitted <= ready_from(
            window.plans,
            i,
            window.planned_until,
        ),
    decreases window.plans.len() - i,
{
    if i < window.plans.len() {
        assert(window.plans[i].wf());
        lemma_ends_within_plan(window, i);
        lemma_ready_within_plan(window, i + 1);
        if i + 1 < window.plans.len() {
            assert(window.plans[i].end() == window.plans[i + 1].start);
            assert(window.plans[i + 1].wf());
        }
    }
}

proof fn lemma_ends_within_plan(window: WindowView, i: int)
    requires
        window.wf(),
        0 <= i < window.plans.len(),
    ensures
        window.plans[i].end() <= window.planned_until,
    decreases window.plans.len() - i,
{
    if i + 1 < window.plans.len() {
        lemma_ends_within_plan(window, i + 1);
        assert(window.plans[i].end() == window.plans[i + 1].start);
        assert(window.plans[i + 1].wf());
    }
}

proof fn lemma_committed_within_plan(window: WindowView, n: int)
    requires
        window.wf(),
        0 <= n <= window.plans.len(),
    ensures
        window.sent <= committed_end(window.plans.take(n), window.sent) <= window.planned_until,
        forall|i: int|
            0 <= i < n && (#[trigger] window.plans[i]).started ==> window.plans[i].start
                + window.plans[i].authorized <= committed_end(window.plans.take(n), window.sent),
    decreases n,
{
    if n > 0 {
        lemma_committed_within_plan(window, n - 1);
        assert(window.plans.take(n).drop_last() =~= window.plans.take(n - 1));
        assert(window.plans[n - 1].wf());
        lemma_ends_within_plan(window, n - 1);
    }
}

/// Whether the rights of some started download end at frame `end`.
pub open spec fn some_right_ends_at(plans: Seq<WindowPlanView>, end: int) -> bool {
    exists|i: int|
        #![trigger plans[i]]
        0 <= i < plans.len() && plans[i].started && plans[i].start + plans[i].authorized == end
}

proof fn lemma_committed_is_a_right(plans: Seq<WindowPlanView>, sent: int)
    ensures
        committed_end(plans, sent) >= sent,
        committed_end(plans, sent) > sent ==> some_right_ends_at(plans, committed_end(plans, sent)),
    decreases plans.len(),
{
    if plans.len() > 0 {
        let shorter = plans.drop_last();
        let end = committed_end(plans, sent);
        lemma_committed_is_a_right(shorter, sent);
        if committed_end(shorter, sent) == end && end > sent {
            let i = choose|i: int|
                #![trigger shorter[i]]
                0 <= i < shorter.len() && shorter[i].started && shorter[i].start
                    + shorter[i].authorized == end;
            assert(plans[i] == shorter[i]);
        } else if end > sent {
            assert(plans[plans.len() - 1].started);
        }
    }
}

/// The data zone is as wide as wanted: it ends earlier only at the last frame
/// number or where the source ended, and later only where rights to download that
/// were given before end. It holds all such rights.
pub proof fn law_data_is_as_wide_as_wanted(window: WindowView)
    requires
        window.wf(),
    ensures
        window.data_end() < window.sent + window.capacity_frames ==> window.data_end() == u64::MAX
            || (window.source_ended && window.data_end() == window.planned_until),
        window.data_end() > window.sent + window.capacity_frames ==> some_right_ends_at(
            window.plans,
            window.data_end(),
        ),
        window.data_end() <= u64::MAX,
        window.source_ended ==> window.data_end() <= window.planned_until,
        forall|i: int|
            0 <= i < window.plans.len() && (#[trigger] window.plans[i]).started
                ==> window.plans[i].start + window.plans[i].authorized <= window.data_end(),
{
    law_zones_are_ordered(window);
    lemma_committed_is_a_right(window.plans, window.sent);
    lemma_committed_within_plan(window, window.plans.len() as int);
    assert(window.plans.take(window.plans.len() as int) =~= window.plans);
}

/// URLs are prefetched for as many frames beyond the data zone as wanted, and for
/// fewer only up to the last frame number or to where the source ended.
pub proof fn law_prefetch_is_as_wide_as_wanted(window: WindowView)
    requires
        window.wf(),
    ensures
        window.prefetch_end() <= window.data_end() + window.prefetch_frames,
        window.prefetch_end() < window.data_end() + window.prefetch_frames ==> (
        window.prefetch_end() == u64::MAX || (window.source_ended && window.prefetch_end()
            == window.planned_until)),
        window.prefetch_end() <= u64::MAX,
        window.source_ended ==> window.prefetch_end() <= window.planned_until,
{
    law_data_is_as_wide_as_wanted(window);
}

proof fn lemma_later_plans_start_later(window: WindowView, i: int, k: int)
    requires
        window.wf(),
        0 <= i < k < window.plans.len(),
    ensures
        window.plans[i].end() <= window.plans[k].start,
    decreases k - i,
{
    assert(window.plans[k - 1].end() == window.plans[k].start);
    if i < k - 1 {
        lemma_later_plans_start_later(window, i, k - 1);
        assert(window.plans[k - 1].wf());
    }
}

proof fn lemma_ready_without_gap(window: WindowView, i: int)
    requires
        window.wf(),
        0 <= i <= window.plans.len(),
    ensures
        ({
            let ready = ready_from(window.plans, i, window.planned_until);
            &&& i < window.plans.len() ==> window.plans[i].start <= ready
            &&& forall|k: int|
                i <= k < window.plans.len() && (#[trigger] window.plans[k]).end() <= ready
                    ==> window.plans[k].received == window.plans[k].object.frame_count
            &&& forall|k: int|
                i <= k < window.plans.len() && (#[trigger] window.plans[k]).start <= ready
                    < window.plans[k].end() ==> window.plans[k].start + window.plans[k].received
                    == ready
        }),
    decreases window.plans.len() - i,
{
    if i < window.plans.len() {
        let ready = ready_from(window.plans, i, window.planned_until);
        let plan = window.plans[i];
        assert(plan.wf());
        lemma_ready_without_gap(window, i + 1);
        if plan.received < plan.object.frame_count {
            assert forall|k: int| i < k < window.plans.len() implies ready < (
            #[trigger] window.plans[k]).start by {
                lemma_later_plans_start_later(window, i, k);
            }
            assert forall|k: int| i < k < window.plans.len() implies ready < (
            #[trigger] window.plans[k]).end() by {
                assert(window.plans[k].wf());
            }
        } else {
            assert(plan.end() <= ready) by {
                if i + 1 < window.plans.len() {
                    assert(window.plans[i].end() == window.plans[i + 1].start);
                } else {
                    assert(ready == ready_from(window.plans, i + 1, window.planned_until));
                }
            }
        }
    }
}

/// What is ready ends at the first frame that was not received: every object before
/// was received whole, and of the object in which it ends all frames before it.
pub proof fn law_ready_frames_have_no_gap(window: WindowView)
    requires
        window.wf(),
    ensures
        window.sent <= window.ready_until() <= window.planned_until,
        forall|i: int|
            0 <= i < window.plans.len() && (#[trigger] window.plans[i]).end()
                <= window.ready_until() ==> window.plans[i].received
                == window.plans[i].object.frame_count,
        forall|i: int|
            0 <= i < window.plans.len() && (#[trigger] window.plans[i]).start
                <= window.ready_until() < window.plans[i].end() ==> window.plans[i].start
                + window.plans[i].received == window.ready_until(),
{
    lemma_ready_without_gap(window, 0);
    law_zones_are_ordered(window);
}

/// Scheduling lets an object with a URL download exactly its frames before the end
/// of the data zone, beside those that it could before, and changes nothing else.
pub proof fn law_downloads_reach_the_data_end(plan: WindowPlanView, data_end: int, frame: int)
    requires
        plan.wf(),
        0 <= frame < plan.object.frame_count,
    ensures
        ({
            let after = plan.scheduled(data_end);
            &&& after == (WindowPlanView {
                started: after.started,
                authorized: after.authorized,
                ..plan
            })
            &&& after.authorized <= plan.object.frame_count
            &&& frame < after.authorized <==> frame < plan.authorized || (plan.url
                == UrlState::Ready && plan.start + frame < data_end)
            &&& after.started <==> plan.started || (plan.url == UrlState::Ready && plan.start
                < data_end)
        }),
{
}

/// An action is due exactly where scheduling changed the rights of a plan. It opens a
/// download that was not started and advances one that was, up to the new rights.
pub proof fn law_actions_tell_the_new_rights(plan: WindowPlanView, data_end: int)
    requires
        plan.wf(),
    ensures
        ({
            let after = plan.scheduled(data_end);
            match plan.action(data_end) {
                None => after == plan,
                Some(WindowAction::OpenDownload { object_id, authorized_local_end }) => {
                    &&& object_id == plan.object.id
                    &&& authorized_local_end == after.authorized
                    &&& !plan.started && after.started
                },
                Some(WindowAction::AdvanceDownload { object_id, authorized_local_end }) => {
                    &&& object_id == plan.object.id
                    &&& authorized_local_end == after.authorized
                    &&& plan.started && after.authorized > plan.authorized
                },
                Some(WindowAction::FetchUrl { .. }) => true,
            }
        }),
        !(plan.action(data_end) matches Some(WindowAction::FetchUrl { .. })),
{
}

/// Scheduling goes over the plans in order: each is scheduled by itself, and its
/// action, where one is due, follows those of the plans before it.
pub proof fn law_plans_are_scheduled_in_order(window: WindowView, i: int)
    requires
        0 <= i < window.plans.len(),
    ensures
        window.scheduled() == (WindowView { plans: window.scheduled().plans, ..window }),
        window.scheduled().plans.len() == window.plans.len(),
        window.scheduled().plans[i] == window.plans[i].scheduled(window.data_end()),
        ({
            let before = actions_of(window.plans.take(i), window.data_end());
            let after = actions_of(window.plans.take(i + 1), window.data_end());
            match window.plans[i].action(window.data_end()) {
                Some(action) => after == before.push(action),
                None => after == before,
            }
        }),
        actions_of(window.plans.take(0), window.data_end()).len() == 0,
{
    assert(window.plans.take(i + 1).drop_last() =~= window.plans.take(i));
    assert(window.plans.take(i + 1).last() == window.plans[i]);
}

/// A frame of an object lies in the object's part of a zone exactly when it lies in
/// the zone.
pub proof fn law_zones_hold_their_frames(
    plan: WindowPlanView,
    from: int,
    to: int,
    range: Option<Range<u32>>,
    frame: int,
)
    requires
        plan.wf(),
        is_range(range, plan.intersection(from, to)),
        0 <= frame < plan.object.frame_count,
    ensures
        match range {
            Some(part) => {
                &&& part.start < part.end <= plan.object.frame_count
                &&& part.start <= frame < part.end <==> from <= plan.start + frame < to
            },
            None => !(from <= plan.start + frame < to),
        },
{
}

/// The frames that wait to be sent, in the order of the plans.
pub open spec fn waiting_frames(plans: Seq<WindowPlanView>) -> Seq<Bytes>
    decreases plans.len(),
{
    if plans.len() == 0 {
        Seq::empty()
    } else {
        plans[0].buffer + waiting_frames(plans.skip(1))
    }
}

/// Taking a frame takes the first that waits and leaves the others in their order.
pub proof fn law_a_taken_frame_was_the_first(window: WindowView)
    requires
        window.wf(),
        window.plans.len() > 0,
        window.plans[0].buffer.len() > 0,
    ensures
        waiting_frames(window.plans) == seq![window.plans[0].buffer[0]] + waiting_frames(
            window.popped().plans,
        ),
        window.popped() == (WindowView {
            plans: window.popped().plans,
            sent: window.sent + 1,
            ..window
        }),
        window.popped().contiguous(),
{
    let front = window.plans[0];
    let after = window.popped();
    assert(front.wf());
    if front.emitted + 1 == front.object.frame_count {
        assert(front.buffer =~= seq![front.buffer[0]]);
        if window.plans.len() > 1 {
            assert(window.plans[0].end() == window.plans[1].start);
            assert(window.plans[1].emitted == 0);
        }
        assert forall|i: int, j: int|
            #![trigger after.plans[i], after.plans[j]]
            0 <= i && j == i + 1 && j < after.plans.len() implies after.plans[i].end()
            == after.plans[j].start by {
            assert(window.plans[i + 1].end() == window.plans[j + 1].start);
        }
    } else {
        assert(after.plans.skip(1) =~= window.plans.skip(1));
        assert(front.buffer =~= seq![front.buffer[0]] + after.plans[0].buffer);
        assert forall|i: int, j: int|
            #![trigger after.plans[i], after.plans[j]]
            0 <= i && j == i + 1 && j < after.plans.len() implies after.plans[i].end()
            == after.plans[j].start by {
            assert(window.plans[i].end() == window.plans[j].start);
        }
    }
    assert(waiting_frames(window.plans) =~= seq![front.buffer[0]] + waiting_frames(after.plans));
}

/// A newly planned object follows the last planned frame; it has no URL, no rights
/// and no frames.
pub proof fn law_new_objects_follow_the_last(window: WindowView, object: ObjectMeta)
    ensures
        ({
            let plan = window.plan_for(object);
            &&& plan.object == object
            &&& plan.start == window.planned_until
            &&& plan.end() - plan.start == object.frame_count
            &&& plan.url == UrlState::Requested
            &&& !plan.started
            &&& plan.authorized == 0 && plan.received == 0 && plan.emitted == 0
            &&& plan.buffer.len() == 0
        }),
{
}

} // verus!
