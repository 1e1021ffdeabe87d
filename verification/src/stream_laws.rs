//! What holds of a stream session over all its steps: the frames that leave are
//! the requested ones, in order.
use bytes::Bytes;
use vstd::prelude::*;

use crate::request::ObjectMeta;
use crate::stream::{
    committed_of, is_offer, plans_granted, Offered, PlanView, SessionView, SignedUrl, SinkAnswer,
};
use crate::sums::total;

verus! {

/// One step of a session and its output.
pub enum SessionStep {
    /// The source gave an object.
    Planned(ObjectMeta),
    SourceEnded,
    /// The session follows the window: it holds so many frames of the budget.
    Allocated { allocation: int, waiting: bool },
    Authorized { capacity: int },
    UrlResolved { plan: int, url: SignedUrl },
    UrlFailed { plan: int },
    Opened { plan: int },
    /// A download gave its next frame.
    Arrived { plan: int, frame: Bytes },
    Ended { plan: int },
    Trimmed,
    /// The output was asked, answered, and got what was offered.
    Asked { answer: SinkAnswer, desired: Option<usize>, offered: Offered },
    /// The output was closed.
    Closed,
}

/// What the step makes of a session.
pub open spec fn is_step(before: SessionView, step: SessionStep, after: SessionView) -> bool {
    match step {
        SessionStep::Planned(object) => {
            &&& object.frame_count > 0
            &&& before.cursor + object.frame_count <= u64::MAX
            &&& after == (SessionView {
                plans: if before.useful(object) {
                    before.plans.push(before.plan_for(object))
                } else {
                    before.plans
                },
                cursor: before.cursor + object.frame_count,
                ..before
            })
        },
        SessionStep::SourceEnded => after == (SessionView { source_ended: true, ..before }),
        SessionStep::Allocated { allocation, waiting } => after == (SessionView {
            allocation,
            waiting,
            ..before
        }),
        SessionStep::Authorized { capacity } => after == (SessionView {
            plans: plans_granted(before.plans, capacity - total(committed_of(before.plans))),
            ..before
        }),
        SessionStep::UrlResolved { plan, url } => {
            &&& 0 <= plan < before.plans.len()
            &&& after == before.with_plan(
                plan,
                PlanView { ticket: false, url: Some(url), ..before.plans[plan] },
            )
        },
        SessionStep::UrlFailed { plan } => {
            &&& 0 <= plan < before.plans.len()
            &&& after == before.with_plan(plan, PlanView { ticket: false, ..before.plans[plan] })
        },
        SessionStep::Opened { plan } => {
            &&& 0 <= plan < before.plans.len()
            &&& before.plans[plan].can_open()
            &&& after == before.with_plan(
                plan,
                PlanView { url: None, open: true, ..before.plans[plan] },
            )
        },
        SessionStep::Arrived { plan, frame } => {
            &&& 0 <= plan < before.plans.len()
            &&& before.plans[plan].polled()
            &&& before.plans[plan].received < before.plans[plan].end
            &&& after == before.with_plan(
                plan,
                PlanView {
                    received: before.plans[plan].received + 1,
                    buffer: before.plans[plan].buffer.push(frame),
                    ..before.plans[plan]
                },
            )
        },
        SessionStep::Ended { plan } => {
            &&& 0 <= plan < before.plans.len()
            &&& after == before.with_plan(plan, PlanView { finished: true, ..before.plans[plan] })
        },
        SessionStep::Trimmed => after == before.trimmed(),
        SessionStep::Asked { answer, desired, offered } => {
            &&& !before.complete()
            &&& is_offer(before, answer, desired, offered, after)
        },
        SessionStep::Closed => before.complete() && after == before,
    }
}

/// The states of a session from its start on, each left by a step.
pub open spec fn is_session_history(states: Seq<SessionView>, steps: Seq<SessionStep>) -> bool {
    &&& states.len() == steps.len() + 1
    &&& states[0].plans.len() == 0
    &&& states[0].cursor == 0
    &&& states[0].delivered == 0
    &&& forall|n: int| 0 <= n < states.len() ==> (#[trigger] states[n]).wf()
    &&& forall|n: int|
        0 <= n < steps.len() ==> is_step(states[n], #[trigger] steps[n], states[n + 1])
}

/// The frames that arrived in the first `n` steps, by their number in the whole
/// stream.
pub open spec fn arrivals(
    states: Seq<SessionView>,
    steps: Seq<SessionStep>,
    n: int,
) -> Map<int, Bytes>
    decreases n,
{
    if n <= 0 {
        Map::empty()
    } else {
        let before = arrivals(states, steps, n - 1);
        match steps[n - 1] {
            SessionStep::Arrived { plan, frame } => before.insert(
                states[n - 1].plans[plan].base + states[n - 1].plans[plan].received,
                frame,
            ),
            _ => before,
        }
    }
}

/// The frames that the output got in the first `n` steps, in order.
pub open spec fn sent(steps: Seq<SessionStep>, n: int) -> Seq<Bytes>
    decreases n,
{
    if n <= 0 {
        Seq::empty()
    } else {
        match steps[n - 1] {
            SessionStep::Asked { offered: Offered::Send(frame), .. } => sent(steps, n - 1).push(
                frame,
            ),
            _ => sent(steps, n - 1),
        }
    }
}

/// Whether frame `k` of the buffer of plan `i` is the one that arrived with its
/// number.
pub open spec fn frame_held(view: SessionView, i: int, k: int, book: Map<int, Bytes>) -> bool {
    let number = view.plans[i].base + view.plans[i].emitted + k;
    book.contains_key(number) && book[number] == view.plans[i].buffer[k]
}

/// Whether each buffered frame is the one that arrived with its number.
pub open spec fn buffers_hold(view: SessionView, book: Map<int, Bytes>) -> bool {
    forall|i: int, k: int|
        0 <= i < view.plans.len() && 0 <= k < view.plans[i].buffer.len() ==> #[trigger] frame_held(
            view,
            i,
            k,
            book,
        )
}

/// Whether frame `k` is the one that arrived with the number `first + k`.
pub open spec fn frame_numbered(
    frames: Seq<Bytes>,
    first: int,
    k: int,
    book: Map<int, Bytes>,
) -> bool {
    book.contains_key(first + k) && book[first + k] == frames[k]
}

/// Whether the frames are those that arrived with the numbers from `first` on.
pub open spec fn in_order_from(frames: Seq<Bytes>, first: int, book: Map<int, Bytes>) -> bool {
    forall|k: int| 0 <= k < frames.len() ==> #[trigger] frame_numbered(frames, first, k, book)
}

proof fn lemma_plans_apart(view: SessionView, i: int, j: int)
    requires
        view.wf(),
        0 <= i < j < view.plans.len(),
    ensures
        view.plans[i].base + view.plans[i].end <= view.plans[j].base + view.plans[j].start,
    decreases j,
{
    assert(view.plans[j - 1].base + view.plans[j - 1].end == view.plans[j].base
        + view.plans[j].start);
    if i < j - 1 {
        lemma_plans_apart(view, i, j - 1);
        assert(view.plans[j - 1].wf());
    }
}

proof fn lemma_trimmed_keeps_the_rest(view: SessionView)
    ensures
        view.trimmed() == (SessionView { plans: view.trimmed().plans, ..view }),
    decreases view.plans.len(),
{
    if view.plans.len() > 0 && view.plans[0].done() {
        lemma_trimmed_keeps_the_rest(SessionView { plans: view.plans.skip(1), ..view });
    }
}

proof fn lemma_trimmed_holds(view: SessionView, book: Map<int, Bytes>)
    requires
        buffers_hold(view, book),
    ensures
        buffers_hold(view.trimmed(), book),
    decreases view.plans.len(),
{
    if view.plans.len() > 0 && view.plans[0].done() {
        let shorter = SessionView { plans: view.plans.skip(1), ..view };
        assert forall|i: int, k: int|
            0 <= i < shorter.plans.len() && 0 <= k < shorter.plans[i].buffer.len() implies
            #[trigger] frame_held(shorter, i, k, book) by {
            assert(frame_held(view, i + 1, k, book));
        }
        lemma_trimmed_holds(shorter, book);
    }
}

proof fn lemma_arrival_holds(
    before: SessionView,
    plan: int,
    frame: Bytes,
    after: SessionView,
    frames: Seq<Bytes>,
    book: Map<int, Bytes>,
)
    requires
        before.wf(),
        is_step(before, SessionStep::Arrived { plan, frame }, after),
        buffers_hold(before, book),
        in_order_from(frames, before.first, book),
        frames.len() == before.delivered,
    ensures
        ({
            let number = before.plans[plan].base + before.plans[plan].received;
            &&& buffers_hold(after, book.insert(number, frame))
            &&& in_order_from(frames, before.first, book.insert(number, frame))
        }),
{
    let number = before.plans[plan].base + before.plans[plan].received;
    let grown = book.insert(number, frame);
    assert(before.plans[plan].wf());
    assert(before.plans[0].wf());
    if plan > 0 {
        lemma_plans_apart(before, 0, plan);
    }
    assert(number >= before.first + before.delivered);
    assert forall|k: int| 0 <= k < frames.len() implies #[trigger] frame_numbered(
        frames,
        before.first,
        k,
        grown,
    ) by {
        assert(frame_numbered(frames, before.first, k, book));
    }
    assert forall|i: int, k: int|
        0 <= i < after.plans.len() && 0 <= k < after.plans[i].buffer.len() implies
        #[trigger] frame_held(after, i, k, grown) by {
        assert(before.plans[i].wf());
        if i == plan {
            if k < before.plans[i].buffer.len() {
                assert(frame_held(before, i, k, book));
            }
        } else {
            assert(frame_held(before, i, k, book));
            if i < plan {
                lemma_plans_apart(before, i, plan);
            } else {
                lemma_plans_apart(before, plan, i);
            }
        }
    }
}

proof fn lemma_send_holds(
    before: SessionView,
    desired: Option<usize>,
    frames: Seq<Bytes>,
    book: Map<int, Bytes>,
)
    requires
        before.wf(),
        before.plans.len() > 0,
        before.plans[0].buffer.len() > 0,
        buffers_hold(before, book),
        in_order_from(frames, before.first, book),
        frames.len() == before.delivered,
    ensures
        buffers_hold(before.popped(desired), book),
        in_order_from(frames.push(before.plans[0].buffer[0]), before.first, book),
{
    let after = before.popped(desired);
    let front = before.plans[0];
    assert(front.base + front.emitted == before.first + before.delivered);
    assert(frame_held(before, 0, 0, book));
    let more = frames.push(front.buffer[0]);
    assert forall|k: int| 0 <= k < more.len() implies #[trigger] frame_numbered(
        more,
        before.first,
        k,
        book,
    ) by {
        if k < frames.len() {
            assert(frame_numbered(frames, before.first, k, book));
        }
    }
    assert forall|i: int, k: int|
        0 <= i < after.plans.len() && 0 <= k < after.plans[i].buffer.len() implies
        #[trigger] frame_held(after, i, k, book) by {
        if front.popped().done() {
            assert(frame_held(before, i + 1, k, book));
        } else if i == 0 {
            assert(frame_held(before, 0, k + 1, book));
        } else {
            assert(frame_held(before, i, k, book));
        }
    }
}

proof fn lemma_other_steps_hold(
    before: SessionView,
    step: SessionStep,
    after: SessionView,
    book: Map<int, Bytes>,
)
    requires
        is_step(before, step, after),
        !(step is Arrived),
        step matches SessionStep::Asked { offered, .. } ==> !(offered is Send),
        buffers_hold(before, book),
    ensures
        buffers_hold(after, book),
        after.first == before.first,
        after.end == before.end,
        after.delivered == before.delivered,
{
    if step is Trimmed {
        lemma_trimmed_keeps_the_rest(before);
        lemma_trimmed_holds(before, book);
    } else {
        assert forall|i: int, k: int|
            0 <= i < after.plans.len() && 0 <= k < after.plans[i].buffer.len() implies
            #[trigger] frame_held(after, i, k, book) by {
            assert(i < before.plans.len());
            assert(frame_held(before, i, k, book));
        }
    }
}

/// The order promise over all steps: the frames that the output got are the
/// frames that arrived with the numbers from the first requested one on, none
/// left out and none twice, and all of them were requested.
pub proof fn law_output_is_the_request_in_order(
    states: Seq<SessionView>,
    steps: Seq<SessionStep>,
    n: int,
)
    requires
        is_session_history(states, steps),
        0 <= n < states.len(),
    ensures
        states[n].first == states[0].first,
        states[n].end == states[0].end,
        sent(steps, n).len() == states[n].delivered <= states[0].end - states[0].first,
        in_order_from(sent(steps, n), states[0].first, arrivals(states, steps, n)),
{
    lemma_output_follows(states, steps, n);
    lemma_delivered_within_request(states[n]);
}

proof fn lemma_delivered_within_request(view: SessionView)
    requires
        view.wf(),
    ensures
        view.delivered <= view.end - view.first,
{
    if view.plans.len() > 0 {
        assert(view.plans[0].wf());
        let last = view.plans.len() - 1;
        assert(view.plans[last].wf());
        if last > 0 {
            lemma_plans_apart(view, 0, last);
        }
    }
}

proof fn lemma_output_follows(states: Seq<SessionView>, steps: Seq<SessionStep>, n: int)
    requires
        is_session_history(states, steps),
        0 <= n < states.len(),
    ensures
        states[n].first == states[0].first,
        states[n].end == states[0].end,
        sent(steps, n).len() == states[n].delivered,
        in_order_from(sent(steps, n), states[0].first, arrivals(states, steps, n)),
        buffers_hold(states[n], arrivals(states, steps, n)),
    decreases n,
{
    if n > 0 {
        lemma_output_follows(states, steps, n - 1);
        let before = states[n - 1];
        let after = states[n];
        let step = steps[n - 1];
        let book = arrivals(states, steps, n - 1);
        let frames = sent(steps, n - 1);
        assert(is_step(before, steps[n - 1], states[n - 1 + 1]));
        assert(before.wf());
        match step {
            SessionStep::Arrived { plan, frame } => {
                lemma_arrival_holds(before, plan, frame, after, frames, book);
            },
            SessionStep::Asked { answer, desired, offered } => {
                if offered is Send {
                    lemma_send_holds(before, desired, frames, book);
                } else {
                    lemma_other_steps_hold(before, step, after, book);
                }
            },
            _ => {
                lemma_other_steps_hold(before, step, after, book);
            },
        }
    }
}

/// The output is closed only where every requested frame was sent, or every one
/// that the source has.
pub proof fn law_output_closes_when_all_was_sent(
    states: Seq<SessionView>,
    steps: Seq<SessionStep>,
    n: int,
)
    requires
        is_session_history(states, steps),
        0 <= n < steps.len(),
        steps[n] == SessionStep::Closed,
    ensures
        states[0].first + sent(steps, n).len() == states[n].covered(),
        sent(steps, n).len() == states[0].end - states[0].first || states[n].source_ended,
{
    lemma_output_follows(states, steps, n);
    assert(is_step(states[n], steps[n], states[n + 1]));
    assert(states[n].wf());
}

/// Whether the steps from `from` up to `to` are those of one poll of the driver:
/// it fills the session, and then asks the output at most once or closes it.
pub open spec fn is_poll(steps: Seq<SessionStep>, from: int, to: int) -> bool {
    forall|k: int|
        from <= k < to - 1 ==> !((#[trigger] steps[k]) is Asked) && !(steps[k] is Closed)
}

/// A poll sends at most one frame, and only where the output answered in the
/// same poll that it is ready.
pub proof fn law_a_poll_sends_one_frame_at_most(
    states: Seq<SessionView>,
    steps: Seq<SessionStep>,
    from: int,
    to: int,
)
    requires
        is_session_history(states, steps),
        0 <= from < to <= steps.len(),
        is_poll(steps, from, to),
    ensures
        sent(steps, to) == sent(steps, from) || {
            &&& steps[to - 1] matches SessionStep::Asked { answer, offered, .. } && answer
                == SinkAnswer::Ready && offered == Offered::Send(sent(steps, to).last())
            &&& sent(steps, to) == sent(steps, from).push(sent(steps, to).last())
        },
{
    lemma_filling_sends_nothing(steps, from, to - 1);
    assert(is_step(states[to - 1], steps[to - 1], states[to - 1 + 1]));
}

proof fn lemma_filling_sends_nothing(steps: Seq<SessionStep>, from: int, to: int)
    requires
        0 <= from <= to,
        forall|k: int| from <= k < to ==> !((#[trigger] steps[k]) is Asked),
    ensures
        sent(steps, to) == sent(steps, from),
    decreases to - from,
{
    if from < to {
        assert(!(steps[to - 1] is Asked));
        lemma_filling_sends_nothing(steps, from, to - 1);
    }
}

/// The frames of the objects that the source gave in the first `n` steps.
pub open spec fn source_frames(steps: Seq<SessionStep>, n: int) -> int
    decreases n,
{
    if n <= 0 {
        0
    } else {
        match steps[n - 1] {
            SessionStep::Planned(object) => source_frames(steps, n - 1) + object.frame_count,
            _ => source_frames(steps, n - 1),
        }
    }
}

/// Whether the source gave the object of the plan in step `m`, behind as many
/// frames as its first frame is numbered.
pub open spec fn placed_at(steps: Seq<SessionStep>, plan: PlanView, m: int) -> bool {
    &&& steps[m] == SessionStep::Planned(plan.object)
    &&& plan.base == source_frames(steps, m)
}

/// Whether the source gave the object of the plan in one of the first `n` steps.
pub open spec fn is_placed(steps: Seq<SessionStep>, n: int, plan: PlanView) -> bool {
    exists|m: int| 0 <= m < n && #[trigger] placed_at(steps, plan, m)
}

/// Whether the plan of one state is that of an earlier one: its object and its
/// numbers stay.
pub open spec fn same_place(before: SessionView, plan: PlanView, i: int) -> bool {
    &&& 0 <= i < before.plans.len()
    &&& before.plans[i].object == plan.object
    &&& before.plans[i].base == plan.base
}

proof fn lemma_trimmed_keeps_places(view: SessionView, i: int)
    requires
        0 <= i < view.trimmed().plans.len(),
    ensures
        exists|k: int| #[trigger] same_place(view, view.trimmed().plans[i], k),
    decreases view.plans.len(),
{
    let plan = view.trimmed().plans[i];
    if view.plans.len() > 0 && view.plans[0].done() {
        let shorter = SessionView { plans: view.plans.skip(1), ..view };
        lemma_trimmed_keeps_places(shorter, i);
        let k = choose|k: int| #[trigger] same_place(shorter, plan, k);
        assert(same_place(view, plan, k + 1));
    } else {
        assert(same_place(view, plan, i));
    }
}

proof fn lemma_step_keeps_places(before: SessionView, step: SessionStep, after: SessionView, i: int)
    requires
        is_step(before, step, after),
        0 <= i < after.plans.len(),
    ensures
        (exists|k: int| #[trigger] same_place(before, after.plans[i], k)) || (
        step matches SessionStep::Planned(object) && after.plans[i] == before.plan_for(object)),
{
    match step {
        SessionStep::Trimmed => {
            lemma_trimmed_keeps_places(before, i);
        },
        SessionStep::Planned(_) => {
            if i < before.plans.len() {
                assert(same_place(before, after.plans[i], i));
            }
        },
        SessionStep::Asked { offered, .. } => {
            if offered is Send && before.plans[0].popped().done() {
                assert(same_place(before, after.plans[i], i + 1));
            } else {
                assert(same_place(before, after.plans[i], i));
            }
        },
        _ => {
            assert(same_place(before, after.plans[i], i));
        },
    }
}

/// Frames are numbered in the order of the source: an object's first frame has
/// the number of frames of all objects that the source gave before it.
pub proof fn law_numbers_follow_the_source(
    states: Seq<SessionView>,
    steps: Seq<SessionStep>,
    n: int,
)
    requires
        is_session_history(states, steps),
        0 <= n < states.len(),
    ensures
        states[n].cursor == source_frames(steps, n),
        forall|i: int|
            0 <= i < states[n].plans.len() ==> is_placed(steps, n, #[trigger] states[n].plans[i]),
    decreases n,
{
    if n > 0 {
        law_numbers_follow_the_source(states, steps, n - 1);
        let before = states[n - 1];
        let after = states[n];
        let step = steps[n - 1];
        assert(is_step(before, steps[n - 1], states[n - 1 + 1]));
        lemma_trimmed_keeps_the_rest(before);
        assert forall|i: int| 0 <= i < after.plans.len() implies is_placed(
            steps,
            n,
            #[trigger] after.plans[i],
        ) by {
            lemma_step_keeps_places(before, step, after, i);
            if exists|k: int| #[trigger] same_place(before, after.plans[i], k) {
                let k = choose|k: int| #[trigger] same_place(before, after.plans[i], k);
                assert(is_placed(steps, n - 1, before.plans[k]));
                let m = choose|m: int|
                    0 <= m < n - 1 && #[trigger] placed_at(steps, before.plans[k], m);
                assert(placed_at(steps, after.plans[i], m));
            } else {
                assert(placed_at(steps, after.plans[i], n - 1));
            }
        }
    }
}

} // verus!
