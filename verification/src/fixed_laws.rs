//! What holds of a session with a fixed window over all its steps: the frames
//! leave in the order of the source.
use bytes::Bytes;
use vstd::prelude::*;

use crate::fixed_stream::{
    fixed_committed, fixed_granted, fixed_remaining, FixedPlanView, FixedSessionView,
};
use crate::request::ObjectMeta;
use crate::stream_laws::{frame_numbered, in_order_from};
use crate::sums::{
    lemma_total_first, lemma_total_prefix, lemma_total_push, lemma_total_take, lemma_total_update,
    total,
};

verus! {

/// One step of a session.
pub enum FixedStep {
    /// The source gave an object.
    Planned(ObjectMeta),
    SourceEnded,
    Resized { capacity: int, prefetch: int },
    Authorized,
    Opened { plan: int },
    UrlFailed { plan: int },
    /// A download gave its next frame.
    Arrived { plan: int, frame: Bytes },
    /// A frame was asked for.
    Popped(Option<Bytes>),
}

/// What the step makes of a session.
pub open spec fn is_fixed_step(
    before: FixedSessionView,
    step: FixedStep,
    after: FixedSessionView,
) -> bool {
    match step {
        FixedStep::Planned(object) => after == (FixedSessionView {
            plans: before.plans.push(
                FixedPlanView {
                    object,
                    ticket: true,
                    open: false,
                    authorized: 0,
                    received: 0,
                    emitted: 0,
                    buffer: Seq::empty(),
                },
            ),
            ..before
        }),
        FixedStep::SourceEnded => after == (FixedSessionView { source_ended: true, ..before }),
        FixedStep::Resized { capacity, prefetch } => after == (FixedSessionView {
            capacity_frames: capacity,
            prefetch_frames: prefetch,
            ..before
        }),
        FixedStep::Authorized => after == (FixedSessionView {
            plans: fixed_granted(
                before.plans,
                before.capacity_frames - total(fixed_committed(before.plans)),
            ),
            ..before
        }),
        FixedStep::Opened { plan } => {
            &&& 0 <= plan < before.plans.len()
            &&& after == before.with_plan(
                plan,
                FixedPlanView { ticket: false, open: true, ..before.plans[plan] },
            )
        },
        FixedStep::UrlFailed { plan } => {
            &&& 0 <= plan < before.plans.len()
            &&& after == before.with_plan(
                plan,
                FixedPlanView { ticket: false, ..before.plans[plan] },
            )
        },
        FixedStep::Arrived { plan, frame } => {
            &&& 0 <= plan < before.plans.len()
            &&& before.plans[plan].polls_download()
            &&& after == before.with_plan(
                plan,
                FixedPlanView {
                    received: before.plans[plan].received + 1,
                    buffer: before.plans[plan].buffer.push(frame),
                    ..before.plans[plan]
                },
            )
        },
        FixedStep::Popped(frame) => {
            let ready = before.plans.len() > 0 && before.plans[0].buffer.len() > 0;
            if ready {
                &&& frame == Some(before.plans[0].buffer[0])
                &&& after == before.popped()
            } else {
                &&& frame is None
                &&& after == before
            }
        },
    }
}

/// The states of a session from its start on, each left by a step.
pub open spec fn is_fixed_history(states: Seq<FixedSessionView>, steps: Seq<FixedStep>) -> bool {
    &&& states.len() == steps.len() + 1
    &&& states[0].plans.len() == 0
    &&& forall|n: int| 0 <= n < states.len() ==> (#[trigger] states[n]).wf()
    &&& forall|n: int|
        0 <= n < steps.len() ==> is_fixed_step(states[n], #[trigger] steps[n], states[n + 1])
}

/// The frames that left in the first `n` steps, in order.
pub open spec fn handed_out(steps: Seq<FixedStep>, n: int) -> Seq<Bytes>
    decreases n,
{
    if n <= 0 {
        Seq::empty()
    } else {
        match steps[n - 1] {
            FixedStep::Popped(Some(frame)) => handed_out(steps, n - 1).push(frame),
            _ => handed_out(steps, n - 1),
        }
    }
}

/// The frames of the objects that the source gave in the first `n` steps.
pub open spec fn given_frames(steps: Seq<FixedStep>, n: int) -> int
    decreases n,
{
    if n <= 0 {
        0
    } else {
        match steps[n - 1] {
            FixedStep::Planned(object) => given_frames(steps, n - 1) + object.frame_count,
            _ => given_frames(steps, n - 1),
        }
    }
}

/// The number of the next frame that plan `i` has to deliver, where `left`
/// frames were delivered: those that left and those of the plans before come
/// first.
pub open spec fn next_number(view: FixedSessionView, left: int, i: int) -> int {
    left + total(fixed_remaining(view.plans).take(i))
}

/// The frames that arrived in the first `n` steps, by their number.
pub open spec fn fixed_arrivals(
    states: Seq<FixedSessionView>,
    steps: Seq<FixedStep>,
    n: int,
) -> Map<int, Bytes>
    decreases n,
{
    if n <= 0 {
        Map::empty()
    } else {
        let before = fixed_arrivals(states, steps, n - 1);
        match steps[n - 1] {
            FixedStep::Arrived { plan, frame } => before.insert(
                next_number(states[n - 1], handed_out(steps, n - 1).len() as int, plan)
                    + states[n - 1].plans[plan].buffer.len(),
                frame,
            ),
            _ => before,
        }
    }
}

/// Whether frame `k` of the buffer of plan `i` is the one that arrived with its
/// number.
pub open spec fn fixed_frame_held(
    view: FixedSessionView,
    left: int,
    i: int,
    k: int,
    book: Map<int, Bytes>,
) -> bool {
    let number = next_number(view, left, i) + k;
    book.contains_key(number) && book[number] == view.plans[i].buffer[k]
}

/// Whether each buffered frame is the one that arrived with its number.
pub open spec fn fixed_buffers_hold(
    view: FixedSessionView,
    left: int,
    book: Map<int, Bytes>,
) -> bool {
    forall|i: int, k: int|
        0 <= i < view.plans.len() && 0 <= k < view.plans[i].buffer.len()
            ==> #[trigger] fixed_frame_held(view, left, i, k, book)
}

proof fn lemma_numbers_apart(view: FixedSessionView, i: int, j: int)
    requires
        view.wf(),
        0 <= i < j < view.plans.len(),
    ensures
        next_number(view, 0, i) + view.plans[i].remaining() <= next_number(view, 0, j),
        0 <= next_number(view, 0, i),
{
    let items = fixed_remaining(view.plans);
    assert forall|k: int| 0 <= k < items.len() implies 0 <= #[trigger] items[k] by {
        assert(view.plans[k].wf());
    }
    lemma_total_take(items, i);
    lemma_total_prefix(items.take(j), i + 1);
    assert(items.take(j).take(i + 1) =~= items.take(i + 1));
    lemma_total_prefix(items, i);
}

proof fn lemma_number_not_negative(view: FixedSessionView, i: int)
    requires
        view.wf(),
        0 <= i < view.plans.len(),
    ensures
        0 <= next_number(view, 0, i),
{
    let items = fixed_remaining(view.plans);
    assert forall|k: int| 0 <= k < items.len() implies 0 <= #[trigger] items[k] by {
        assert(view.plans[k].wf());
    }
    lemma_total_prefix(items, i);
}

proof fn lemma_fixed_arrival_holds(
    before: FixedSessionView,
    plan: int,
    frame: Bytes,
    after: FixedSessionView,
    frames: Seq<Bytes>,
    book: Map<int, Bytes>,
)
    requires
        before.wf(),
        is_fixed_step(before, FixedStep::Arrived { plan, frame }, after),
        fixed_buffers_hold(before, frames.len() as int, book),
        in_order_from(frames, 0, book),
    ensures
        ({
            let number = next_number(before, frames.len() as int, plan)
                + before.plans[plan].buffer.len();
            &&& fixed_buffers_hold(after, frames.len() as int, book.insert(number, frame))
            &&& in_order_from(frames, 0, book.insert(number, frame))
            &&& fixed_remaining(after.plans) == fixed_remaining(before.plans)
        }),
{
    let left = frames.len() as int;
    let number = next_number(before, left, plan) + before.plans[plan].buffer.len();
    let grown = book.insert(number, frame);
    assert(fixed_remaining(after.plans) =~= fixed_remaining(before.plans));
    assert(before.plans[plan].wf());
    lemma_number_not_negative(before, plan);
    assert forall|k: int| 0 <= k < frames.len() implies #[trigger] frame_numbered(
        frames,
        0,
        k,
        grown,
    ) by {
        assert(frame_numbered(frames, 0, k, book));
    }
    assert forall|i: int, k: int|
        0 <= i < after.plans.len() && 0 <= k < after.plans[i].buffer.len() implies
        #[trigger] fixed_frame_held(after, left, i, k, grown) by {
        assert(before.plans[i].wf());
        if i == plan {
            if k < before.plans[i].buffer.len() {
                assert(fixed_frame_held(before, left, i, k, book));
            }
        } else {
            assert(fixed_frame_held(before, left, i, k, book));
            if i < plan {
                lemma_numbers_apart(before, i, plan);
            } else {
                lemma_numbers_apart(before, plan, i);
            }
        }
    }
}

proof fn lemma_fixed_pop_holds(
    before: FixedSessionView,
    frames: Seq<Bytes>,
    book: Map<int, Bytes>,
)
    requires
        before.wf(),
        before.plans.len() > 0,
        before.plans[0].buffer.len() > 0,
        fixed_buffers_hold(before, frames.len() as int, book),
        in_order_from(frames, 0, book),
    ensures
        fixed_buffers_hold(before.popped(), (frames.len() + 1) as int, book),
        in_order_from(frames.push(before.plans[0].buffer[0]), 0, book),
        total(fixed_remaining(before.popped().plans)) == total(fixed_remaining(before.plans)) - 1,
{
    let left = frames.len() as int;
    let after = before.popped();
    let front = before.plans[0];
    let items = fixed_remaining(before.plans);
    let rest = fixed_remaining(after.plans);
    let gone = front.emitted + 1 == front.object.frame_count;
    assert(items.take(0) =~= Seq::<int>::empty());
    assert(fixed_frame_held(before, left, 0, 0, book));
    let more = frames.push(front.buffer[0]);
    assert forall|k: int| 0 <= k < more.len() implies #[trigger] frame_numbered(
        more,
        0,
        k,
        book,
    ) by {
        if k < frames.len() {
            assert(frame_numbered(frames, 0, k, book));
        }
    }
    if gone {
        assert(rest =~= items.skip(1));
        lemma_total_first(items);
    } else {
        assert(rest =~= items.update(0, front.remaining() - 1));
        lemma_total_update(items, 0, front.remaining() - 1);
    }
    assert forall|i: int, k: int|
        0 <= i < after.plans.len() && 0 <= k < after.plans[i].buffer.len() implies
        #[trigger] fixed_frame_held(after, left + 1, i, k, book) by {
        if gone {
            lemma_total_first(items.take(i + 1));
            assert(items.take(i + 1).skip(1) =~= rest.take(i));
            assert(fixed_frame_held(before, left, i + 1, k, book));
        } else if i == 0 {
            assert(rest.take(0) =~= Seq::<int>::empty());
            assert(fixed_frame_held(before, left, 0, k + 1, book));
        } else {
            lemma_total_update(items.take(i), 0, front.remaining() - 1);
            assert(items.take(i).update(0, front.remaining() - 1) =~= rest.take(i));
            assert(fixed_frame_held(before, left, i, k, book));
        }
    }
}

proof fn lemma_other_fixed_steps_hold(
    before: FixedSessionView,
    step: FixedStep,
    after: FixedSessionView,
    left: int,
    book: Map<int, Bytes>,
)
    requires
        is_fixed_step(before, step, after),
        !(step is Arrived),
        step matches FixedStep::Popped(frame) ==> frame is None,
        fixed_buffers_hold(before, left, book),
    ensures
        fixed_buffers_hold(after, left, book),
        total(fixed_remaining(after.plans)) == total(fixed_remaining(before.plans)) + match step {
            FixedStep::Planned(object) => object.frame_count as int,
            _ => 0,
        },
{
    let items = fixed_remaining(before.plans);
    let more = fixed_remaining(after.plans);
    match step {
        FixedStep::Planned(object) => {
            assert(more =~= items.push(object.frame_count as int));
            lemma_total_push(items, object.frame_count as int);
        },
        _ => {
            assert(more =~= items);
        },
    }
    assert forall|i: int, k: int|
        0 <= i < after.plans.len() && 0 <= k < after.plans[i].buffer.len() implies
        #[trigger] fixed_frame_held(after, left, i, k, book) by {
        assert(i < before.plans.len());
        assert(more.take(i) =~= items.take(i));
        assert(fixed_frame_held(before, left, i, k, book));
    }
}

proof fn lemma_fixed_follows(states: Seq<FixedSessionView>, steps: Seq<FixedStep>, n: int)
    requires
        is_fixed_history(states, steps),
        0 <= n < states.len(),
    ensures
        handed_out(steps, n).len() + total(fixed_remaining(states[n].plans)) == given_frames(
            steps,
            n,
        ),
        in_order_from(handed_out(steps, n), 0, fixed_arrivals(states, steps, n)),
        fixed_buffers_hold(
            states[n],
            handed_out(steps, n).len() as int,
            fixed_arrivals(states, steps, n),
        ),
    decreases n,
{
    if n == 0 {
        assert(fixed_remaining(states[0].plans) =~= Seq::<int>::empty());
    } else {
        lemma_fixed_follows(states, steps, n - 1);
        let before = states[n - 1];
        let after = states[n];
        let step = steps[n - 1];
        let book = fixed_arrivals(states, steps, n - 1);
        let frames = handed_out(steps, n - 1);
        assert(is_fixed_step(before, steps[n - 1], states[n - 1 + 1]));
        assert(before.wf());
        match step {
            FixedStep::Arrived { plan, frame } => {
                lemma_fixed_arrival_holds(before, plan, frame, after, frames, book);
            },
            FixedStep::Popped(frame) => {
                if frame is Some {
                    lemma_fixed_pop_holds(before, frames, book);
                } else {
                    lemma_other_fixed_steps_hold(before, step, after, frames.len() as int, book);
                }
            },
            _ => {
                lemma_other_fixed_steps_hold(before, step, after, frames.len() as int, book);
            },
        }
    }
}

/// The order promise over all steps: the frames that left are those that
/// arrived with the first numbers, none left out and none twice. They are
/// numbered in the order in which the source gave their objects: what left and
/// what the plans still have to deliver are all frames that it gave.
pub proof fn law_fixed_frames_leave_in_source_order(
    states: Seq<FixedSessionView>,
    steps: Seq<FixedStep>,
    n: int,
)
    requires
        is_fixed_history(states, steps),
        0 <= n < states.len(),
    ensures
        in_order_from(handed_out(steps, n), 0, fixed_arrivals(states, steps, n)),
        handed_out(steps, n).len() + total(fixed_remaining(states[n].plans)) == given_frames(
            steps,
            n,
        ),
{
    lemma_fixed_follows(states, steps, n);
}

} // verus!
