//! Which bytes of which objects a logical read needs.
use vstd::prelude::*;

use crate::byte::{ceil_div, div_ceil};
use crate::frame::TAG_SIZE;
use crate::join::{joined, lemma_joined_at, lemma_joined_cut, lemma_joined_part};
use crate::request::ObjectMeta;
use crate::stream::{at_least, at_most};
use crate::text::{decimal, push_decimal, push_text};
use crate::upload::lemma_ceil_div;

verus! {

/// Frame size where a request names none.
pub const DEFAULT_FRAME_SIZE: u32 = 65_536;

/// A range of bytes of one object, both ends within it.
#[derive(Clone, Copy, Debug, PartialEq, Eq, Structural)]
pub struct PhysicalRange {
    start: u64,
    end_inclusive: u64,
}

/// What a physical range is.
pub struct PhysicalRangeView {
    pub start: int,
    pub end_inclusive: int,
}

impl PhysicalRangeView {
    /// A range holds at least one byte, and its length is counted in 64 bits.
    pub open spec fn wf(self) -> bool {
        0 <= self.start <= self.end_inclusive && self.end_inclusive - self.start < u64::MAX
    }
}

impl View for PhysicalRange {
    type V = PhysicalRangeView;

    closed spec fn view(&self) -> PhysicalRangeView {
        PhysicalRangeView { start: self.start as int, end_inclusive: self.end_inclusive as int }
    }
}

impl PhysicalRange {
    pub fn new(start: u64, end_inclusive: u64) -> (range: PhysicalRange)
        requires
            start <= end_inclusive,
        ensures
            range@ == (PhysicalRangeView {
                start: start as int,
                end_inclusive: end_inclusive as int,
            }),
    {
        PhysicalRange { start, end_inclusive }
    }

    pub fn start(self) -> (start: u64)
        ensures
            start == self@.start,
    {
        self.start
    }

    pub fn end_inclusive(self) -> (end: u64)
        ensures
            end == self@.end_inclusive,
    {
        self.end_inclusive
    }

    pub fn len(self) -> (len: u64)
        requires
            self@.wf(),
        ensures
            len == self@.end_inclusive - self@.start + 1,
    {
        self.end_inclusive - self.start + 1
    }

    /// A planned physical range is never empty.
    pub fn is_empty(self) -> (empty: bool)
        requires
            self@.wf(),
        ensures
            !empty,
            empty == (self@.end_inclusive - self@.start + 1 == 0),
    {
        false
    }

    pub fn to_header_value(self) -> (value: String)
        ensures
            value@ == "bytes="@ + decimal(self@.start as nat) + "-"@ + decimal(
                self@.end_inclusive as nat,
            ),
    {
        let mut value: String = String::new();
        push_text(&mut value, "bytes=");
        push_decimal(&mut value, self.start);
        push_text(&mut value, "-");
        push_decimal(&mut value, self.end_inclusive);
        assert(value@ =~= "bytes="@ + decimal(self@.start as nat) + "-"@ + decimal(
            self@.end_inclusive as nat,
        ));
        value
    }
}

#[derive(Clone, Copy, Debug, PartialEq, Eq, Structural)]
pub enum StreamRequestError {
    FrameTooSmall,
    ShortNonFinalObject { object_index: usize, frame_count: u32, expected: u32 },
    LogicalLengthOverflow,
    RequestedRangeOverflow,
}

/// Frames of the first `n` objects.
pub open spec fn frames_before(objects: Seq<ObjectMeta>, n: int) -> int
    decreases n,
{
    if n <= 0 {
        0
    } else {
        frames_before(objects, n - 1) + objects[n - 1].frame_count
    }
}

proof fn lemma_frames_before(objects: Seq<ObjectMeta>, i: int, j: int)
    requires
        0 <= i <= j,
    ensures
        0 <= frames_before(objects, i) <= frames_before(objects, j),
    decreases j,
{
    if i < j {
        lemma_frames_before(objects, i, j - 1);
    } else if i > 0 {
        lemma_frames_before(objects, i - 1, i - 1);
    }
}

/// A logical read over the frames of a list of objects.
pub struct LogicalRead {
    offset: u64,
    size: u64,
    objects: Vec<ObjectMeta>,
    frame_size: u32,
}

/// What a logical read is.
pub struct LogicalReadView {
    pub offset: int,
    pub size: int,
    pub objects: Seq<ObjectMeta>,
    pub frame_size: int,
}

impl LogicalReadView {
    pub open spec fn payload_size(self) -> int {
        self.frame_size - TAG_SIZE
    }

    /// Plaintext bytes of all objects.
    pub open spec fn logical_len(self) -> int {
        frames_before(self.objects, self.objects.len() as int) * self.payload_size()
    }

    pub open spec fn requested_end(self) -> int {
        self.offset + self.size
    }

    pub open spec fn wf(self) -> bool {
        &&& TAG_SIZE < self.frame_size <= u32::MAX
        &&& 0 <= self.offset
        &&& 0 <= self.size
        &&& self.requested_end() <= u64::MAX
        &&& frames_before(self.objects, self.objects.len() as int) <= u64::MAX
        &&& self.logical_len() <= u64::MAX
    }

    /// Where the read ends: at its requested end or at the end of the stream.
    pub open spec fn logical_end(self) -> int {
        at_most(self.requested_end(), self.logical_len())
    }

    pub open spec fn first_frame(self) -> int {
        self.offset / self.payload_size()
    }

    pub open spec fn end_frame(self) -> int {
        ceil_div(self.logical_end(), self.payload_size())
    }

    /// First requested frame of object `k`.
    pub open spec fn plan_first(self, k: int) -> int {
        at_least(self.first_frame(), frames_before(self.objects, k))
    }

    /// End of the requested frames of object `k`.
    pub open spec fn plan_end(self, k: int) -> int {
        at_most(self.end_frame(), frames_before(self.objects, k + 1))
    }

    /// The part of the read in object `k`.
    pub open spec fn plan(self, k: int) -> ReadPlanView {
        let base = frames_before(self.objects, k);
        let first = self.plan_first(k);
        let end = self.plan_end(k);
        ReadPlanView {
            object_index: k,
            first_global_frame: first,
            end_global_frame: end,
            first_frame_in_object: first - base,
            end_frame_in_object: end - base,
            physical_range: PhysicalRangeView {
                start: (first - base) * self.frame_size,
                end_inclusive: (end - base) * self.frame_size - 1,
            },
            logical_start: at_least(self.offset, first * self.payload_size()),
            logical_end: at_most(self.logical_end(), end * self.payload_size()),
        }
    }

    /// The parts of the read in the first `n` objects, in order.
    pub open spec fn plans(self, n: int) -> Seq<ReadPlanView>
        decreases n,
    {
        if n <= 0 {
            Seq::empty()
        } else if self.plan_first(n - 1) < self.plan_end(n - 1) {
            self.plans(n - 1).push(self.plan(n - 1))
        } else {
            self.plans(n - 1)
        }
    }

    /// All parts of the read.
    pub open spec fn all_plans(self) -> Seq<ReadPlanView> {
        if self.offset >= self.logical_end() {
            Seq::empty()
        } else {
            self.plans(self.objects.len() as int)
        }
    }
}

impl View for LogicalRead {
    type V = LogicalReadView;

    closed spec fn view(&self) -> LogicalReadView {
        LogicalReadView {
            offset: self.offset as int,
            size: self.size as int,
            objects: self.objects@,
            frame_size: self.frame_size as int,
        }
    }
}

/// Whether object `i` is too short to be followed by another.
pub open spec fn is_short(objects: Seq<ObjectMeta>, frames_per_object: int, i: int) -> bool {
    0 <= i < objects.len() - 1 && objects[i].frame_count < frames_per_object
}

impl LogicalRead {
    pub fn new(
        offset: Option<u64>,
        size: u64,
        objects: Vec<ObjectMeta>,
        frame_size: Option<u32>,
        frames_per_object: u32,
    ) -> (read: Result<LogicalRead, StreamRequestError>)
        ensures
            ({
                let view = LogicalReadView {
                    offset: offset.unwrap_or(0) as int,
                    size: size as int,
                    objects: objects@,
                    frame_size: frame_size.unwrap_or(DEFAULT_FRAME_SIZE) as int,
                };
                let too_small = view.frame_size <= TAG_SIZE;
                let short = exists|i: int| is_short(objects@, frames_per_object as int, i);
                let overflows = view.logical_len() > u64::MAX;
                match read {
                    Ok(r) => r@ == view && view.wf() && !short,
                    Err(StreamRequestError::FrameTooSmall) => too_small,
                    Err(
                        StreamRequestError::ShortNonFinalObject {
                            object_index,
                            frame_count,
                            expected,
                        },
                    ) => {
                        &&& !too_small
                        &&& is_short(objects@, frames_per_object as int, object_index as int)
                        &&& forall|i: int| #[trigger]
                            is_short(objects@, frames_per_object as int, i) ==> object_index <= i
                        &&& frame_count == objects@[object_index as int].frame_count
                        &&& expected == frames_per_object
                    },
                    Err(StreamRequestError::LogicalLengthOverflow) => {
                        !too_small && !short && overflows
                    },
                    Err(StreamRequestError::RequestedRangeOverflow) => {
                        &&& !too_small
                        &&& !short
                        &&& !overflows
                        &&& view.requested_end() > u64::MAX
                    },
                }
            }),
    {
        let from: u64 = match offset {
            Some(offset) => offset,
            None => 0,
        };
        let wire_size: u32 = match frame_size {
            Some(frame_size) => frame_size,
            None => DEFAULT_FRAME_SIZE,
        };
        if wire_size as usize <= TAG_SIZE {
            return Err(StreamRequestError::FrameTooSmall);
        }
        let mut index: usize = 0;
        while index < objects.len()
            invariant
                wire_size == frame_size.unwrap_or(DEFAULT_FRAME_SIZE),
                wire_size > TAG_SIZE,
                index <= objects.len(),
                forall|i: int|
                    0 <= i < index ==> !is_short(objects@, frames_per_object as int, i),
            decreases objects.len() - index,
        {
            if index < objects.len() - 1 && objects[index].frame_count < frames_per_object {
                proof {
                    assert(is_short(objects@, frames_per_object as int, index as int));
                    assert forall|i: int|
                        is_short(objects@, frames_per_object as int, i) implies index <= i by {
                        assert(0 <= i);
                    }
                }
                return Err(
                    StreamRequestError::ShortNonFinalObject {
                        object_index: index,
                        frame_count: objects[index].frame_count,
                        expected: frames_per_object,
                    },
                );
            }
            index += 1;
        }
        let read: LogicalRead = LogicalRead { offset: from, size, objects, frame_size: wire_size };
        let len: Option<u64> = read.logical_len();
        if len.is_none() {
            return Err(StreamRequestError::LogicalLengthOverflow);
        }
        match from.checked_add(size) {
            None => Err(StreamRequestError::RequestedRangeOverflow),
            Some(_) => {
                proof {
                    assert(frames_before(read.objects@, read.objects@.len() as int) <= u64::MAX)
                        by {
                        lemma_frames_before(read.objects@, 0, read.objects@.len() as int);
                        let frames = frames_before(read.objects@, read.objects@.len() as int);
                        let payload = read@.payload_size();
                        assert(frames <= frames * payload) by (nonlinear_arith)
                            requires
                                frames >= 0,
                                payload >= 1,
                        ;
                    }
                }
                Ok(read)
            },
        }
    }

    pub fn offset(&self) -> (offset: u64)
        ensures
            offset == self@.offset,
    {
        self.offset
    }

    pub fn objects(&self) -> (objects: &Vec<ObjectMeta>)
        ensures
            objects@ == self@.objects,
    {
        &self.objects
    }

    pub fn frame_size(&self) -> (size: u32)
        ensures
            size == self@.frame_size,
    {
        self.frame_size
    }

    pub fn frame_payload_size(&self) -> (size: u64)
        requires
            self@.frame_size > TAG_SIZE,
        ensures
            size == self@.payload_size(),
    {
        self.frame_size as u64 - TAG_SIZE as u64
    }

    /// Plaintext bytes of all objects, where 64 bits count them.
    pub fn logical_len(&self) -> (len: Option<u64>)
        requires
            self@.frame_size > TAG_SIZE,
        ensures
            match len {
                Some(l) => l == self@.logical_len(),
                None => self@.logical_len() > u64::MAX,
            },
    {
        let payload: u64 = self.frame_payload_size();
        let mut frames: u64 = 0;
        let mut i: usize = 0;
        proof {
            assert(frames_before(self@.objects, 0) == 0);
        }
        while i < self.objects.len()
            invariant
                i <= self.objects.len(),
                payload == self@.payload_size(),
                payload >= 1,
                frames == frames_before(self@.objects, i as int),
            decreases self.objects.len() - i,
        {
            let count: u32 = self.objects[i].frame_count;
            assert(frames_before(self@.objects, i + 1) == frames + count);
            frames = match frames.checked_add(count as u64) {
                Some(sum) => sum,
                None => {
                    proof {
                        let n = self@.objects.len() as int;
                        lemma_frames_before(self@.objects, i + 1, n);
                        let all = frames_before(self@.objects, n);
                        assert(all * payload > u64::MAX) by (nonlinear_arith)
                            requires
                                all > u64::MAX,
                                payload >= 1,
                        ;
                    }
                    return None;
                },
            };
            i += 1;
        }
        frames.checked_mul(payload)
    }

    pub fn requested_end(&self) -> (end: u64)
        requires
            self@.wf(),
        ensures
            end == self@.requested_end(),
    {
        self.offset + self.size
    }
}

/// One range request. Logical bounds are absolute offsets in the plaintext
/// stream and say which part to expose once the frames are decoded.
#[derive(Clone, Copy, Debug, PartialEq, Eq, Structural)]
pub struct ObjectReadPlan {
    pub object_index: usize,
    pub first_global_frame: u64,
    pub end_global_frame_exclusive: u64,
    pub first_frame_in_object: u32,
    pub end_frame_in_object_exclusive: u32,
    pub physical_range: PhysicalRange,
    pub logical_start: u64,
    pub logical_end_exclusive: u64,
}

/// What one part of a read is.
pub struct ReadPlanView {
    pub object_index: int,
    pub first_global_frame: int,
    pub end_global_frame: int,
    pub first_frame_in_object: int,
    pub end_frame_in_object: int,
    pub physical_range: PhysicalRangeView,
    pub logical_start: int,
    pub logical_end: int,
}

impl View for ObjectReadPlan {
    type V = ReadPlanView;

    open spec fn view(&self) -> ReadPlanView {
        ReadPlanView {
            object_index: self.object_index as int,
            first_global_frame: self.first_global_frame as int,
            end_global_frame: self.end_global_frame_exclusive as int,
            first_frame_in_object: self.first_frame_in_object as int,
            end_frame_in_object: self.end_frame_in_object_exclusive as int,
            physical_range: self.physical_range@,
            logical_start: self.logical_start as int,
            logical_end: self.logical_end_exclusive as int,
        }
    }
}

impl ObjectReadPlan {
    pub fn frame_count(&self) -> (frames: u64)
        requires
            self@.first_global_frame <= self@.end_global_frame,
        ensures
            frames == self@.end_global_frame - self@.first_global_frame,
    {
        self.end_global_frame_exclusive - self.first_global_frame
    }
}

pub open spec fn read_plan_views(plans: Seq<ObjectReadPlan>) -> Seq<ReadPlanView> {
    plans.map_values(|p: ObjectReadPlan| p@)
}

/// The parts of a read, object by object.
#[derive(Clone, Debug)]
pub struct ReadPlanner {
    plans: Vec<ObjectReadPlan>,
    logical_end_exclusive: u64,
}

impl ReadPlanner {
    pub closed spec fn spec_plans(self) -> Seq<ReadPlanView> {
        read_plan_views(self.plans@)
    }

    pub closed spec fn spec_end(self) -> int {
        self.logical_end_exclusive as int
    }

    pub fn new(request: &LogicalRead) -> (planner: ReadPlanner)
        requires
            request@.wf(),
        ensures
            planner.spec_plans() == request@.all_plans(),
            planner.spec_end() == request@.logical_end(),
    {
        let payload_size: u64 = request.frame_payload_size();
        let stream_len: u64 = match request.logical_len() {
            Some(len) => len,
            None => 0,
        };
        let requested_end: u64 = request.requested_end();
        let logical_end_exclusive: u64 = if requested_end <= stream_len {
            requested_end
        } else {
            stream_len
        };
        let mut plans: Vec<ObjectReadPlan> = Vec::new();
        if request.offset() >= logical_end_exclusive {
            assert(read_plan_views(plans@) =~= Seq::<ReadPlanView>::empty());
            return ReadPlanner { plans, logical_end_exclusive };
        }
        let ghost view = request@;
        let first_requested_frame: u64 = request.offset() / payload_size;
        let end_requested_frame_exclusive: u64 = div_ceil(logical_end_exclusive, payload_size);
        let mut base: u64 = 0;
        let mut k: usize = 0;
        proof {
            assert(read_plan_views(plans@) =~= view.plans(0));
        }
        while k < request.objects().len()
            invariant_except_break
                base == frames_before(view.objects, k as int),
                read_plan_views(plans@) == view.plans(k as int),
            invariant
                k <= view.objects.len(),
                view == request@,
                view.wf(),
                payload_size == view.payload_size(),
                logical_end_exclusive == view.logical_end(),
                view.offset < view.logical_end(),
                first_requested_frame == view.first_frame(),
                end_requested_frame_exclusive == view.end_frame(),
            ensures
                read_plan_views(plans@) == view.plans(view.objects.len() as int),
            decreases view.objects.len() - k,
        {
            proof {
                lemma_frames_before(view.objects, k + 1, view.objects.len() as int);
                lemma_frames_before(view.objects, 0, k as int);
            }
            let count: u32 = request.objects()[k].frame_count;
            let object_end: u64 = base + count as u64;
            assert(object_end == frames_before(view.objects, k + 1));
            let first_global_frame: u64 = if first_requested_frame >= base {
                first_requested_frame
            } else {
                base
            };
            let end_global_frame_exclusive: u64 = if end_requested_frame_exclusive <= object_end {
                end_requested_frame_exclusive
            } else {
                object_end
            };
            let ghost before = plans@;
            if first_global_frame < end_global_frame_exclusive {
                let first_local: u32 = (first_global_frame - base) as u32;
                let end_local: u32 = (end_global_frame_exclusive - base) as u32;
                let frame_size: u64 = request.frame_size() as u64;
                proof {
                    lemma_plan_bounds(
                        view,
                        k as int,
                        first_global_frame as int,
                        end_global_frame_exclusive as int,
                    );
                    assert(first_local * frame_size <= u32::MAX * u32::MAX) by (nonlinear_arith)
                        requires
                            first_local <= u32::MAX,
                            frame_size <= u32::MAX,
                    ;
                    assert(end_local * frame_size <= u32::MAX * u32::MAX) by (nonlinear_arith)
                        requires
                            end_local <= u32::MAX,
                            frame_size <= u32::MAX,
                    ;
                    assert(first_local * frame_size + frame_size <= end_local * frame_size)
                        by (nonlinear_arith)
                        requires
                            first_local + 1 <= end_local,
                            frame_size >= 0,
                    ;
                }
                let physical_start: u64 = first_local as u64 * frame_size;
                let physical_end_exclusive: u64 = end_local as u64 * frame_size;
                let frame_start: u64 = first_global_frame * payload_size;
                let frame_end: u64 = end_global_frame_exclusive * payload_size;
                let offset: u64 = request.offset();
                let plan: ObjectReadPlan = ObjectReadPlan {
                    object_index: k,
                    first_global_frame,
                    end_global_frame_exclusive,
                    first_frame_in_object: first_local,
                    end_frame_in_object_exclusive: end_local,
                    physical_range: PhysicalRange::new(physical_start, physical_end_exclusive - 1),
                    logical_start: if offset >= frame_start { offset } else { frame_start },
                    logical_end_exclusive: if logical_end_exclusive <= frame_end {
                        logical_end_exclusive
                    } else {
                        frame_end
                    },
                };
                assert(plan@ == view.plan(k as int));
                plans.push(plan);
                assert(read_plan_views(plans@) =~= read_plan_views(before).push(plan@));
            }
            base = object_end;
            k += 1;
            if base >= end_requested_frame_exclusive {
                proof {
                    lemma_no_later_plans(view, k as int, view.objects.len() as int);
                }
                break;
            }
        }
        ReadPlanner { plans, logical_end_exclusive }
    }

    pub fn plans(&self) -> (plans: &Vec<ObjectReadPlan>)
        ensures
            read_plan_views(plans@) == self.spec_plans(),
    {
        &self.plans
    }

    pub fn logical_end_exclusive(&self) -> (end: u64)
        ensures
            end == self.spec_end(),
    {
        self.logical_end_exclusive
    }
}

proof fn lemma_plan_bounds(view: LogicalReadView, k: int, first: int, end: int)
    requires
        view.wf(),
        0 <= k < view.objects.len(),
        0 <= first < end <= frames_before(view.objects, k + 1),
    ensures
        0 <= first * view.payload_size() <= u64::MAX,
        0 <= end * view.payload_size() <= u64::MAX,
{
    let all = frames_before(view.objects, view.objects.len() as int);
    lemma_frames_before(view.objects, k + 1, view.objects.len() as int);
    let payload = view.payload_size();
    assert(0 <= first * payload <= end * payload <= all * payload) by (nonlinear_arith)
        requires
            0 <= first < end <= all,
            payload >= 0,
    ;
}

proof fn lemma_no_later_plans(view: LogicalReadView, k: int, n: int)
    requires
        0 <= k <= n,
        frames_before(view.objects, k) >= view.end_frame(),
    ensures
        view.plans(n) == view.plans(k),
    decreases n,
{
    if k < n {
        lemma_no_later_plans(view, k, n - 1);
        lemma_frames_before(view.objects, k, n - 1);
    }
}

/// Each part starts where the one before it ends.
pub open spec fn chained(plans: Seq<ReadPlanView>) -> bool {
    forall|i: int, j: int|
        #![trigger plans[i], plans[j]]
        0 <= i && j == i + 1 && j < plans.len() ==> {
            &&& plans[i].end_global_frame == plans[j].first_global_frame
            &&& plans[i].logical_end == plans[j].logical_start
            &&& plans[i].object_index < plans[j].object_index
        }
}

proof fn lemma_plans_chain(view: LogicalReadView, n: int)
    requires
        view.wf(),
        view.offset < view.logical_end(),
        0 <= n <= view.objects.len(),
    ensures
        chained(view.plans(n)),
        view.plans(n).len() == 0 <==> frames_before(view.objects, n) <= view.first_frame(),
        view.plans(n).len() > 0 ==> {
            &&& view.plans(n)[0].first_global_frame == view.first_frame()
            &&& view.plans(n)[0].logical_start == view.offset
            &&& view.plans(n).last().end_global_frame == at_most(
                view.end_frame(),
                frames_before(view.objects, n),
            )
            &&& view.plans(n).last().logical_end == at_most(
                view.logical_end(),
                view.plans(n).last().end_global_frame * view.payload_size(),
            )
            &&& view.plans(n).last().object_index < n
        },
    decreases n,
{
    let payload = view.payload_size();
    let first = view.first_frame();
    let end = view.end_frame();
    vstd::arithmetic::div_mod::lemma_fundamental_div_mod(view.offset, payload);
    lemma_ceil_div(view.logical_end(), payload);
    assert(0 <= first && first * payload <= view.offset < (first + 1) * payload)
        by (nonlinear_arith)
        requires
            view.offset == payload * first + view.offset % payload,
            0 <= view.offset % payload < payload,
            first == view.offset / payload,
            view.offset >= 0,
            payload > 0,
    ;
    assert(first < end) by (nonlinear_arith)
        requires
            first * payload <= view.offset < view.logical_end() <= end * payload,
            payload > 0,
    ;
    assert(frames_before(view.objects, 0) == 0);
    if n > 0 {
        lemma_plans_chain(view, n - 1);
        lemma_frames_before(view.objects, n - 1, n);
        let base = frames_before(view.objects, n - 1);
        let shorter = view.plans(n - 1);
        if view.plan_first(n - 1) < view.plan_end(n - 1) && shorter.len() > 0 {
            let last = shorter.last();
            assert(base > first);
            assert(last.end_global_frame == base);
            assert((first + 1) * payload <= base * payload <= (end - 1) * payload)
                by (nonlinear_arith)
                requires
                    first + 1 <= base <= end - 1,
                    payload > 0,
            ;
            assert((end - 1) * payload == end * payload - payload) by (nonlinear_arith);
            assert(view.plan(n - 1).logical_start == base * payload);
            assert(last.logical_end == base * payload);
            let plans = view.plans(n);
            assert forall|i: int, j: int|
                #![trigger plans[i], plans[j]]
                0 <= i && j == i + 1 && j < plans.len() implies {
                &&& plans[i].end_global_frame == plans[j].first_global_frame
                &&& plans[i].logical_end == plans[j].logical_start
                &&& plans[i].object_index < plans[j].object_index
            } by {
                assert(plans[i] == shorter[i]);
                if j < shorter.len() {
                    assert(plans[j] == shorter[j]);
                }
            }
        }
    }
}

/// The planning promise: the parts of a read cover it from its offset to its
/// end without gap or overlap, in the order of the objects.
pub proof fn law_plans_cover_the_read(view: LogicalReadView)
    requires
        view.wf(),
        view.offset < view.logical_end(),
    ensures
        view.all_plans().len() > 0,
        view.all_plans()[0].logical_start == view.offset,
        view.all_plans().last().logical_end == view.logical_end(),
        chained(view.all_plans()),
{
    let n = view.objects.len() as int;
    let payload = view.payload_size();
    let all = frames_before(view.objects, n);
    lemma_plans_chain(view, n);
    lemma_ceil_div(view.logical_end(), payload);
    vstd::arithmetic::div_mod::lemma_fundamental_div_mod(view.offset, payload);
    let first = view.first_frame();
    let end = view.end_frame();
    assert(first * payload <= view.offset) by (nonlinear_arith)
        requires
            view.offset == payload * first + view.offset % payload,
            0 <= view.offset % payload,
    ;
    assert(first < all) by (nonlinear_arith)
        requires
            first * payload <= view.offset < all * payload,
            payload > 0,
    ;
    assert(end <= all) by (nonlinear_arith)
        requires
            end * payload < view.logical_end() + payload,
            view.logical_end() <= all * payload,
            payload > 0,
    ;
}

/// Every part asks for whole frames of its object.
pub proof fn law_plans_ask_for_whole_frames(view: LogicalReadView, k: int)
    requires
        view.wf(),
        0 <= k < view.objects.len(),
        view.plan_first(k) < view.plan_end(k),
    ensures
        view.plan(k).physical_range.end_inclusive - view.plan(k).physical_range.start + 1 == (
        view.plan(k).end_frame_in_object - view.plan(k).first_frame_in_object) * view.frame_size,
{
    let plan = view.plan(k);
    assert(plan.end_frame_in_object * view.frame_size - plan.first_frame_in_object
        * view.frame_size == (plan.end_frame_in_object - plan.first_frame_in_object)
        * view.frame_size) by (nonlinear_arith);
}

proof fn lemma_plan_of_object(view: LogicalReadView, n: int, i: int)
    requires
        0 <= n <= view.objects.len(),
        0 <= i < view.plans(n).len(),
    ensures
        ({
            let k = view.plans(n)[i].object_index;
            &&& 0 <= k < n
            &&& view.plans(n)[i] == view.plan(k)
            &&& view.plan_first(k) < view.plan_end(k)
        }),
    decreases n,
{
    if i < view.plans(n - 1).len() {
        lemma_plan_of_object(view, n - 1, i);
    }
}

/// A part of a read starts in its first frame and ends in its last one.
proof fn lemma_part_is_tight(view: LogicalReadView, k: int)
    requires
        view.wf(),
        view.offset < view.logical_end(),
        0 <= k < view.objects.len(),
        view.plan_first(k) < view.plan_end(k),
    ensures
        ({
            let plan = view.plan(k);
            let payload = view.frame_size - TAG_SIZE;
            let first = plan.first_global_frame;
            let end = plan.end_global_frame;
            &&& first * payload <= plan.logical_start < (first + 1) * payload
            &&& (end - 1) * payload < plan.logical_end <= end * payload
            &&& view.offset <= plan.logical_start < plan.logical_end
            &&& plan.logical_end <= view.offset + view.size
        }),
{
    let payload = view.payload_size();
    let first = view.first_frame();
    let end = view.end_frame();
    let from = view.plan_first(k);
    let to = view.plan_end(k);
    vstd::arithmetic::div_mod::lemma_fundamental_div_mod(view.offset, payload);
    lemma_ceil_div(view.logical_end(), payload);
    assert(first * payload <= view.offset < (first + 1) * payload) by (nonlinear_arith)
        requires
            view.offset == payload * first + view.offset % payload,
            0 <= view.offset % payload < payload,
            payload > 0,
    ;
    assert((end - 1) * payload < view.logical_end() <= end * payload) by (nonlinear_arith)
        requires
            view.logical_end() <= end * payload < view.logical_end() + payload,
    ;
    assert(first * payload <= from * payload && from * payload < (from + 1) * payload
        && to * payload <= end * payload && (from + 1) * payload <= to * payload && (to - 1)
        * payload < to * payload && from * payload <= (end - 1) * payload) by (nonlinear_arith)
        requires
            first <= from < to <= end,
            payload > 0,
    ;
    if from > first {
        assert((first + 1) * payload <= from * payload) by (nonlinear_arith)
            requires
                first + 1 <= from,
                payload > 0,
        ;
    }
    if to < end {
        assert(to * payload <= (end - 1) * payload) by (nonlinear_arith)
            requires
                to <= end - 1,
                payload > 0,
        ;
    }
}

/// The place promise: each part of a read asks for some frames of its object,
/// by the bytes where they lie in it: frame `j` of an object starts at byte
/// `j * frame_size` of the object.
pub proof fn law_parts_lie_where_their_frames_lie(view: LogicalReadView, i: int)
    requires
        view.wf(),
        0 <= i < view.all_plans().len(),
    ensures
        ({
            let part = view.all_plans()[i];
            &&& 0 <= part.object_index < view.objects.len()
            &&& 0 <= part.first_frame_in_object < part.end_frame_in_object
            &&& part.end_frame_in_object <= view.objects[part.object_index].frame_count
            &&& part.physical_range.start == part.first_frame_in_object * view.frame_size
            &&& part.physical_range.end_inclusive + 1 == part.end_frame_in_object
                * view.frame_size
            &&& part.end_global_frame - part.first_global_frame == part.end_frame_in_object
                - part.first_frame_in_object
        }),
{
    lemma_plan_of_object(view, view.objects.len() as int, i);
}

/// The stored bytes that a part of a read asks for are exactly the frames that
/// it names of its object.
pub proof fn law_parts_ask_for_their_frames(view: LogicalReadView, i: int, sealed: Seq<Seq<u8>>)
    requires
        view.wf(),
        0 <= i < view.all_plans().len(),
        sealed.len() == view.objects[view.all_plans()[i].object_index].frame_count,
        forall|k: int| 0 <= k < sealed.len() ==> (#[trigger] sealed[k]).len() == view.frame_size,
    ensures
        ({
            let part = view.all_plans()[i];
            &&& 0 <= part.physical_range.start
            &&& part.physical_range.end_inclusive < joined(sealed).len()
            &&& joined(sealed).subrange(
                part.physical_range.start,
                part.physical_range.end_inclusive + 1,
            ) == joined(
                sealed.subrange(part.first_frame_in_object, part.end_frame_in_object),
            )
        }),
{
    law_parts_lie_where_their_frames_lie(view, i);
    let part = view.all_plans()[i];
    let first = part.first_frame_in_object;
    let end = part.end_frame_in_object;
    let size = view.frame_size;
    let parts = sealed.subrange(first, end);
    lemma_joined_part(sealed, size, first);
    assert forall|k: int| 0 <= k < parts.len() implies #[trigger] parts[k] == joined(
        sealed,
    ).subrange((first + k) * size, (first + k + 1) * size) by {
        lemma_joined_part(sealed, size, first + k);
    }
    assert(end * size <= sealed.len() * size) by (nonlinear_arith)
        requires
            end <= sealed.len(),
            size > 0,
    ;
    lemma_joined_cut(joined(sealed), parts, first, size);
}

/// The bytes that a part of a read exposes, of the plaintext of its object: the
/// frames that it names, clipped to its logical bounds.
pub open spec fn exposed(part: ReadPlanView, body: Seq<u8>, payload_size: int) -> Seq<u8> {
    let decoded = body.subrange(
        part.first_frame_in_object * payload_size,
        part.end_frame_in_object * payload_size,
    );
    let start = part.first_global_frame * payload_size;
    decoded.subrange(part.logical_start - start, part.logical_end - start)
}

/// What the first `n` parts of a read expose, in order.
pub open spec fn exposed_parts(
    parts: Seq<ReadPlanView>,
    bodies: Seq<Seq<u8>>,
    payload_size: int,
    n: int,
) -> Seq<u8>
    decreases n,
{
    if n <= 0 {
        Seq::empty()
    } else {
        exposed_parts(parts, bodies, payload_size, n - 1) + exposed(
            parts[n - 1],
            bodies[parts[n - 1].object_index],
            payload_size,
        )
    }
}

/// Whether the bodies are the plaintext of the objects: as many frames each as
/// the object counts.
pub open spec fn are_bodies(
    objects: Seq<ObjectMeta>,
    bodies: Seq<Seq<u8>>,
    payload_size: int,
) -> bool {
    &&& bodies.len() == objects.len()
    &&& forall|k: int|
        0 <= k < bodies.len() ==> (#[trigger] bodies[k]).len() == objects[k].frame_count
            * payload_size
}

proof fn lemma_bodies_before(view: LogicalReadView, bodies: Seq<Seq<u8>>, n: int)
    requires
        are_bodies(view.objects, bodies, view.payload_size()),
        0 <= n <= bodies.len(),
    ensures
        joined(bodies.take(n)).len() == frames_before(view.objects, n) * view.payload_size(),
    decreases n,
{
    let payload = view.payload_size();
    if n == 0 {
        assert(bodies.take(0).len() == 0);
        assert(0 * payload == 0);
    } else {
        lemma_bodies_before(view, bodies, n - 1);
        assert(bodies.take(n).drop_last() =~= bodies.take(n - 1));
        assert(bodies.take(n).last() == bodies[n - 1]);
        let before = frames_before(view.objects, n - 1);
        let count = view.objects[n - 1].frame_count as int;
        assert((before + count) * payload == before * payload + count * payload)
            by (nonlinear_arith);
    }
}

proof fn lemma_exposed(view: LogicalReadView, bodies: Seq<Seq<u8>>, k: int)
    requires
        view.wf(),
        view.offset < view.logical_end(),
        are_bodies(view.objects, bodies, view.payload_size()),
        0 <= k < view.objects.len(),
        view.plan_first(k) < view.plan_end(k),
    ensures
        0 <= view.plan(k).logical_start <= view.plan(k).logical_end <= joined(bodies).len(),
        exposed(view.plan(k), bodies[k], view.payload_size()) == joined(bodies).subrange(
            view.plan(k).logical_start,
            view.plan(k).logical_end,
        ),
{
    let payload = view.payload_size();
    let part = view.plan(k);
    let base = frames_before(view.objects, k);
    let count = view.objects[k].frame_count as int;
    let whole = joined(bodies);
    let at = joined(bodies.take(k)).len() as int;
    let first = part.first_frame_in_object;
    let end = part.end_frame_in_object;
    lemma_bodies_before(view, bodies, k);
    lemma_joined_at(bodies, k);
    lemma_part_is_tight(view, k);
    assert(bodies[k].len() == count * payload);
    assert(at == base * payload);
    assert((base + first) * payload == base * payload + first * payload && (base + end) * payload
        == base * payload + end * payload) by (nonlinear_arith);
    assert(0 <= first * payload <= end * payload <= count * payload) by (nonlinear_arith)
        requires
            0 <= first <= end <= count,
            payload > 0,
    ;
    let mine = exposed(part, bodies[k], payload);
    let theirs = whole.subrange(part.logical_start, part.logical_end);
    assert(mine.len() == theirs.len());
    assert forall|x: int| 0 <= x < mine.len() implies #[trigger] mine[x] == theirs[x] by {
        let y = part.logical_start + x - at;
        assert(mine[x] == bodies[k][y]);
        assert(whole.subrange(at, at + bodies[k].len())[y] == bodies[k][y]);
    }
    assert(mine =~= theirs);
}

/// The read promise: the frames that the parts of a read name, decoded and
/// clipped to their logical bounds, are one after the other exactly the bytes
/// from the offset on that were asked for, as far as the objects reach. Without
/// such bytes there are no parts.
pub proof fn law_parts_expose_the_read(view: LogicalReadView, bodies: Seq<Seq<u8>>)
    requires
        view.wf(),
        are_bodies(view.objects, bodies, view.frame_size - TAG_SIZE),
    ensures
        ({
            let whole = joined(bodies);
            let asked = view.offset + view.size;
            let end = if asked <= whole.len() {
                asked
            } else {
                whole.len() as int
            };
            let parts = view.all_plans();
            &&& view.logical_end() == end
            &&& if view.offset < end {
                exposed_parts(parts, bodies, view.frame_size - TAG_SIZE, parts.len() as int)
                    == whole.subrange(view.offset, end)
            } else {
                parts.len() == 0
            }
        }),
{
    let whole = joined(bodies);
    let n = view.objects.len() as int;
    lemma_bodies_before(view, bodies, n);
    assert(bodies.take(n) =~= bodies);
    if view.offset < view.logical_end() {
        law_plans_cover_the_read(view);
        lemma_exposed_parts(view, bodies, view.all_plans().len() as int);
    }
}

proof fn lemma_exposed_parts(view: LogicalReadView, bodies: Seq<Seq<u8>>, m: int)
    requires
        view.wf(),
        view.offset < view.logical_end(),
        are_bodies(view.objects, bodies, view.payload_size()),
        0 < m <= view.all_plans().len(),
    ensures
        0 <= view.offset <= view.all_plans()[m - 1].logical_end <= joined(bodies).len(),
        exposed_parts(view.all_plans(), bodies, view.payload_size(), m) == joined(
            bodies,
        ).subrange(view.offset, view.all_plans()[m - 1].logical_end),
    decreases m,
{
    let parts = view.all_plans();
    let payload = view.payload_size();
    let part = parts[m - 1];
    law_plans_cover_the_read(view);
    lemma_plan_of_object(view, view.objects.len() as int, m - 1);
    lemma_exposed(view, bodies, part.object_index);
    lemma_part_is_tight(view, part.object_index);
    if m > 1 {
        lemma_exposed_parts(view, bodies, m - 1);
        assert(parts[m - 2].logical_end == parts[m - 1].logical_start);
    } else {
        assert(exposed_parts(parts, bodies, payload, 0) =~= Seq::<u8>::empty());
    }
    assert(exposed_parts(parts, bodies, payload, m) =~= joined(bodies).subrange(
        view.offset,
        part.logical_end,
    ));
}

/// A read has no parts that it does not need: each starts in its first frame
/// and ends in its last one.
pub proof fn law_parts_are_tight(view: LogicalReadView, i: int)
    requires
        view.wf(),
        0 <= i < view.all_plans().len(),
    ensures
        ({
            let part = view.all_plans()[i];
            let payload = view.frame_size - TAG_SIZE;
            &&& part.first_global_frame * payload <= part.logical_start
            &&& part.logical_start < (part.first_global_frame + 1) * payload
            &&& (part.end_global_frame - 1) * payload < part.logical_end
            &&& part.logical_end <= part.end_global_frame * payload
            &&& part.logical_start < part.logical_end
        }),
{
    lemma_plan_of_object(view, view.objects.len() as int, i);
    lemma_part_is_tight(view, view.all_plans()[i].object_index);
}

/// Every object but the last has to be full.
pub proof fn law_only_the_last_object_may_be_short(objects: Seq<ObjectMeta>, frames_per_object: int)
    ensures
        (exists|i: int| is_short(objects, frames_per_object, i)) <==> !(forall|i: int|
            0 <= i < objects.len() - 1 ==> (#[trigger] objects[i]).frame_count
                >= frames_per_object),
{
    if !(forall|i: int|
        0 <= i < objects.len() - 1 ==> (#[trigger] objects[i]).frame_count >= frames_per_object) {
        let i = choose|i: int|
            0 <= i < objects.len() - 1 && (#[trigger] objects[i]).frame_count < frames_per_object;
        assert(is_short(objects, frames_per_object, i));
    }
}

} // verus!
