//! What holds of a window over all its steps: what leaves it is a prefix of what
//! entered it, in the order of the source.
use bytes::Bytes;
use vstd::prelude::*;

use crate::request::ObjectMeta;
use crate::stream_laws::{frame_numbered, in_order_from};
use crate::window::{UrlState, WindowPlanView, WindowView};

verus! {

/// One step of a window.
pub enum WindowStep {
    /// The source gave an object.
    Pushed(ObjectMeta),
    SourceEnded,
    /// Downloads were scheduled.
    Scheduled,
    Resized { capacity: int, prefetch: int },
    UrlReady { plan: int },
    UrlFailed { plan: int },
    /// A download gave its next frame.
    Arrived { plan: int, payload: Bytes },
    /// A frame was asked for.
    Popped(Option<Bytes>),
}

/// What the step makes of a window.
pub open spec fn is_window_step(before: WindowView, step: WindowStep, after: WindowView) -> bool {
    match step {
        WindowStep::Pushed(object) => after == (WindowView {
            plans: before.plans.push(before.plan_for(object)),
            planned_until: before.planned_until + object.frame_count,
            ..before
        }),
        WindowStep::SourceEnded => after == (WindowView { source_ended: true, ..before }),
        WindowStep::Scheduled => after == before.scheduled(),
        WindowStep::Resized { capacity, prefetch } => after == (WindowView {
            capacity_frames: capacity,
            prefetch_frames: prefetch,
            ..before
        }),
        WindowStep::UrlReady { plan } => {
            &&& 0 <= plan < before.plans.len()
            &&& after == before.with_plan(
                plan,
                WindowPlanView { url: UrlState::Ready, ..before.plans[plan] },
            ).scheduled()
        },
        WindowStep::UrlFailed { plan } => {
            &&& 0 <= plan < before.plans.len()
            &&& after == before.with_plan(
                plan,
                WindowPlanView { url: UrlState::Failed, ..before.plans[plan] },
            )
        },
        WindowStep::Arrived { plan, payload } => {
            &&& 0 <= plan < before.plans.len()
            &&& before.plans[plan].received < before.plans[plan].authorized
            &&& after == before.with_plan(
                plan,
                WindowPlanView {
                    received: before.plans[plan].received + 1,
                    buffer: before.plans[plan].buffer.push(payload),
                    ..before.plans[plan]
                },
            )
        },
        WindowStep::Popped(frame) => {
            let ready = before.plans.len() > 0 && before.plans[0].buffer.len() > 0;
            if ready {
                &&& frame == Some(before.plans[0].buffer[0])
                &&& after == before.popped()
            } else {
                &&& frame is None
                &&& after == before
            }
        },
    }
}

/// The states of a window from its start on, each left by a step.
pub open spec fn is_window_history(states: Seq<WindowView>, steps: Seq<WindowStep>) -> bool {
    &&& states.len() == steps.len() + 1
    &&& states[0].plans.len() == 0
    &&& states[0].sent == 0
    &&& states[0].planned_until == 0
    &&& forall|n: int| 0 <= n < states.len() ==> (#[trigger] states[n]).wf()
    &&& forall|n: int|
        0 <= n < steps.len() ==> is_window_step(states[n], #[trigger] steps[n], states[n + 1])
}

/// The frames that arrived in the first `n` steps, by their number: those of the
/// objects before come first.
pub open spec fn arrived(
    states: Seq<WindowView>,
    steps: Seq<WindowStep>,
    n: int,
) -> Map<int, Bytes>
    decreases n,
{
    if n <= 0 {
        Map::empty()
    } else {
        let before = arrived(states, steps, n - 1);
        match steps[n - 1] {
            WindowStep::Arrived { plan, payload } => before.insert(
                states[n - 1].plans[plan].start + states[n - 1].plans[plan].received,
                payload,
            ),
            _ => before,
        }
    }
}

/// The frames that left in the first `n` steps, in order.
pub open spec fn left(steps: Seq<WindowStep>, n: int) -> Seq<Bytes>
    decreases n,
{
    if n <= 0 {
        Seq::empty()
    } else {
        match steps[n - 1] {
            WindowStep::Popped(Some(frame)) => left(steps, n - 1).push(frame),
            _ => left(steps, n - 1),
        }
    }
}

/// The frames of the objects that the source gave in the first `n` steps.
pub open spec fn pushed_frames(steps: Seq<WindowStep>, n: int) -> int
    decreases n,
{
    if n <= 0 {
        0
    } else {
        match steps[n - 1] {
            WindowStep::Pushed(object) => pushed_frames(steps, n - 1) + object.frame_count,
            _ => pushed_frames(steps, n - 1),
        }
    }
}

/// Whether frame `k` of the buffer of plan `i` is the one that arrived with its
/// number.
pub open spec fn window_frame_held(
    view: WindowView,
    i: int,
    k: int,
    book: Map<int, Bytes>,
) -> bool {
    let number = view.plans[i].start + view.plans[i].emitted + k;
    book.contains_key(number) && book[number] == view.plans[i].buffer[k]
}

/// Whether each buffered frame is the one that arrived with its number.
pub open spec fn window_buffers_hold(view: WindowView, book: Map<int, Bytes>) -> bool {
    forall|i: int, k: int|
        0 <= i < view.plans.len() && 0 <= k < view.plans[i].buffer.len()
            ==> #[trigger] window_frame_held(view, i, k, book)
}

proof fn lemma_objects_apart(view: WindowView, i: int, j: int)
    requires
        view.wf(),
        0 <= i < j < view.plans.len(),
    ensures
        view.plans[i].end() <= view.plans[j].start,
    decreases j,
{
    assert(view.plans[j - 1].end() == view.plans[j].start);
    if i < j - 1 {
        lemma_objects_apart(view, i, j - 1);
        assert(view.plans[j - 1].wf());
    }
}

proof fn lemma_window_arrival_holds(
    before: WindowView,
    plan: int,
    payload: Bytes,
    after: WindowView,
    frames: Seq<Bytes>,
    book: Map<int, Bytes>,
)
    requires
        before.wf(),
        is_window_step(before, WindowStep::Arrived { plan, payload }, after),
        window_buffers_hold(before, book),
        in_order_from(frames, 0, book),
        frames.len() == before.sent,
    ensures
        ({
            let number = before.plans[plan].start + before.plans[plan].received;
            &&& window_buffers_hold(after, book.insert(number, payload))
            &&& in_order_from(frames, 0, book.insert(number, payload))
        }),
{
    let number = before.plans[plan].start + before.plans[plan].received;
    let grown = book.insert(number, payload);
    assert(before.plans[plan].wf());
    assert(before.plans[0].wf());
    if plan > 0 {
        lemma_objects_apart(before, 0, plan);
    }
    assert(number >= before.sent);
    assert forall|k: int| 0 <= k < frames.len() implies #[trigger] frame_numbered(
        frames,
        0,
        k,
        grown,
    ) by {
        assert(frame_numbered(frames, 0, k, book));
    }
    assert forall|i: int, k: int|
        0 <= i < after.plans.len() && 0 <= k < after.plans[i].buffer.len() implies
        #[trigger] window_frame_held(after, i, k, grown) by {
        assert(before.plans[i].wf());
        if i == plan {
            if k < before.plans[i].buffer.len() {
                assert(window_frame_held(before, i, k, book));
            }
        } else {
            assert(window_frame_held(before, i, k, book));
            if i < plan {
                lemma_objects_apart(before, i, plan);
            } else {
                lemma_objects_apart(before, plan, i);
            }
        }
    }
}

proof fn lemma_pop_holds(before: WindowView, frames: Seq<Bytes>, book: Map<int, Bytes>)
    requires
        before.wf(),
        before.plans.len() > 0,
        before.plans[0].buffer.len() > 0,
        window_buffers_hold(before, book),
        in_order_from(frames, 0, book),
        frames.len() == before.sent,
    ensures
        window_buffers_hold(before.popped(), book),
        in_order_from(frames.push(before.plans[0].buffer[0]), 0, book),
{
    let after = before.popped();
    let front = before.plans[0];
    assert(window_frame_held(before, 0, 0, book));
    let more = frames.push(front.buffer[0]);
    assert forall|k: int| 0 <= k < more.len() implies #[trigger] frame_numbered(
        more,
        0,
        k,
        book,
    ) by {
        if k < frames.len() {
            assert(frame_numbered(frames, 0, k, book));
        }
    }
    assert forall|i: int, k: int|
        0 <= i < after.plans.len() && 0 <= k < after.plans[i].buffer.len() implies
        #[trigger] window_frame_held(after, i, k, book) by {
        if front.emitted + 1 == front.object.frame_count {
            assert(window_frame_held(before, i + 1, k, book));
        } else if i == 0 {
            assert(window_frame_held(before, 0, k + 1, book));
        } else {
            assert(window_frame_held(before, i, k, book));
        }
    }
}

proof fn lemma_other_window_steps_hold(
    before: WindowView,
    step: WindowStep,
    after: WindowView,
    book: Map<int, Bytes>,
)
    requires
        is_window_step(before, step, after),
        !(step is Arrived),
        step matches WindowStep::Popped(frame) ==> frame is None,
        window_buffers_hold(before, book),
    ensures
        window_buffers_hold(after, book),
        after.sent == before.sent,
{
    assert forall|i: int, k: int|
        0 <= i < after.plans.len() && 0 <= k < after.plans[i].buffer.len() implies
        #[trigger] window_frame_held(after, i, k, book) by {
        assert(i < before.plans.len());
        assert(window_frame_held(before, i, k, book));
    }
}

/// The order promise over all steps: the frames that left are those that
/// arrived with the first numbers, none left out and none twice. They are
/// numbered in the order in which the source gave their objects.
pub proof fn law_frames_leave_in_source_order(
    states: Seq<WindowView>,
    steps: Seq<WindowStep>,
    n: int,
)
    requires
        is_window_history(states, steps),
        0 <= n < states.len(),
    ensures
        left(steps, n).len() == states[n].sent <= pushed_frames(steps, n),
        states[n].planned_until == pushed_frames(steps, n),
        in_order_from(left(steps, n), 0, arrived(states, steps, n)),
{
    lemma_window_follows(states, steps, n);
    assert(states[n].wf());
}

proof fn lemma_window_follows(states: Seq<WindowView>, steps: Seq<WindowStep>, n: int)
    requires
        is_window_history(states, steps),
        0 <= n < states.len(),
    ensures
        left(steps, n).len() == states[n].sent,
        states[n].planned_until == pushed_frames(steps, n),
        in_order_from(left(steps, n), 0, arrived(states, steps, n)),
        window_buffers_hold(states[n], arrived(states, steps, n)),
    decreases n,
{
    if n > 0 {
        lemma_window_follows(states, steps, n - 1);
        let before = states[n - 1];
        let after = states[n];
        let step = steps[n - 1];
        let book = arrived(states, steps, n - 1);
        let frames = left(steps, n - 1);
        assert(is_window_step(before, steps[n - 1], states[n - 1 + 1]));
        assert(before.wf());
        match step {
            WindowStep::Arrived { plan, payload } => {
                lemma_window_arrival_holds(before, plan, payload, after, frames, book);
            },
            WindowStep::Popped(frame) => {
                if frame is Some {
                    lemma_pop_holds(before, frames, book);
                } else {
                    lemma_other_window_steps_hold(before, step, after, book);
                }
            },
            _ => {
                lemma_other_window_steps_hold(before, step, after, book);
            },
        }
    }
}

} // verus!
