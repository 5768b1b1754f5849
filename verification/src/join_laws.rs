use std::sync::Arc;
use vstd::prelude::*;

use crate::laws::{never_cancels, never_closes, never_uses, Step};
use crate::model::{Action, Event, RtView};
use crate::task::Poll;

verus! {

/// What one step leaves of a `Join` that it does not give up: the waker, the end of its task,
/// and that it is ready.
proof fn lemma_step_on_join<F, O, W>(rt: RtView<F, O, W>, step: Step<F, O, W>, key: int)
    requires
        rt.inv(),
        rt.enabled(step),
        rt.joinable(key),
        !step.closes(key),
    ensures
        rt.apply(step).joinable(key),
        rt.cell(key).task is Gone ==> rt.apply(step).cell(key).task is Gone,
        rt.cell(key).waker is Some ==> rt.apply(step).cell(key).waker == rt.cell(key).waker,
        rt.cell(key).output is Ready ==> rt.apply(step).cell(key).output == (if step.uses(key) {
            Poll::Ready(None)
        } else {
            rt.cell(key).output
        }),
        rt.cell(key).output is Pending && !step.cancels(key) ==> rt.apply(step).cell(
            key,
        ).output is Pending || rt.apply(step).cell(key).task is Gone,
{
    if !step.uses(key) {
        crate::laws::law_other_joins_are_left_alone(rt, step, key);
    }
}

/// As long as a `Join` is not given up it stays usable, keeps the first waker and, once it is
/// ready, stays ready: with its output as long as it is not used, with nothing afterwards.
pub proof fn law_ready_join_stays_ready<F, O, W>(
    rt: RtView<F, O, W>,
    key: int,
    steps: Seq<Step<F, O, W>>,
)
    requires
        rt.inv(),
        rt.joinable(key),
        rt.possible(steps),
        never_closes(steps, key),
    ensures
        rt.after(steps).joinable(key),
        rt.cell(key).waker is Some ==> rt.after(steps).cell(key).waker == rt.cell(key).waker,
        rt.cell(key).task is Gone ==> rt.after(steps).cell(key).task is Gone,
        rt.cell(key).output is Ready ==> rt.after(steps).cell(key).output == (if never_uses(
            steps,
            key,
        ) {
            rt.cell(key).output
        } else {
            Poll::Ready(None)
        }),
    decreases steps.len(),
{
    if steps.len() > 0 {
        let rest = steps.drop_first();
        crate::laws::law_step_keeps_invariant(rt, steps[0]);
        lemma_step_on_join(rt, steps[0], key);
        crate::laws::lemma_rest(steps, key);
        law_ready_join_stays_ready(rt.apply(steps[0]), key, rest);
    }
}

/// After a poll that found a `Join` ready, every later poll gives nothing, whatever happens in
/// between.
pub proof fn law_join_is_ready_with_an_output_once<F, O, W>(
    rt: RtView<F, O, W>,
    key: int,
    waker: Arc<W>,
    steps: Seq<Step<F, O, W>>,
)
    requires
        rt.inv(),
        rt.joinable(key),
        !rt.locked(key),
        rt.cell(key).output is Ready,
        rt.join_poll(key, waker).possible(steps),
        never_closes(steps, key),
    ensures
        rt.join_poll(key, waker).after(steps).joinable(key),
        rt.join_poll(key, waker).after(steps).cell(key).output == Poll::Ready(None::<O>),
        !rt.join_poll(key, waker).after(steps).locked(key),
{
    crate::model::lemma_join_poll_inv(rt, key, waker);
    law_ready_join_stays_ready(rt.join_poll(key, waker), key, steps);
    crate::laws::law_invariant_always_holds(rt.join_poll(key, waker), steps);
}

/// After a cancel, every later poll of the `Join` gives nothing, whatever happens in between.
pub proof fn law_cancelled_join_gives_nothing<F, O, W>(
    rt: RtView<F, O, W>,
    key: int,
    steps: Seq<Step<F, O, W>>,
)
    requires
        rt.inv(),
        rt.joinable(key),
        !rt.locked(key),
        rt.join_cancel(key).possible(steps),
        never_closes(steps, key),
    ensures
        rt.join_cancel(key).after(steps).joinable(key),
        rt.join_cancel(key).after(steps).cell(key).output == Poll::Ready(None::<O>),
        !rt.join_cancel(key).after(steps).locked(key),
{
    crate::model::lemma_join_cancel_inv(rt, key);
    law_ready_join_stays_ready(rt.join_cancel(key), key, steps);
    crate::laws::law_invariant_always_holds(rt.join_cancel(key), steps);
}

/// What a task gave is what the first use of its `Join` finds, whatever happens in between;
/// every later poll gives nothing.
pub proof fn law_join_gives_output_once<F, O, W>(
    rt: RtView<F, O, W>,
    output: O,
    connected: bool,
    steps: Seq<Step<F, O, W>>,
)
    requires
        rt.inv(),
        rt.current is Some,
        rt.joinable(rt.task(rt.current->0).join as int),
        rt.run(Event::Ready(output), connected).0.possible(steps),
        never_closes(steps, rt.task(rt.current->0).join as int),
    ensures
        ({
            let key = rt.task(rt.current->0).join as int;
            let end = rt.run(Event::Ready(output), connected).0.after(steps);
            &&& end.joinable(key)
            &&& !end.locked(key)
            &&& end.cell(key).output == (if never_uses(steps, key) {
                Poll::Ready(Some(output))
            } else {
                Poll::Ready(None)
            })
        }),
{
    let id = rt.current->0;
    let key = rt.task(id).join as int;
    let done = rt.run(Event::Ready(output), connected).0;
    assert(rt.task_ok(id));
    crate::model::lemma_complete_inv(rt, output);
    assert(done.joinable(key));
    law_ready_join_stays_ready(done, key, steps);
    crate::laws::law_invariant_always_holds(done, steps);
}

/// The `Join` of a spawn, by whichever spawner, gives what the future gives: it is pending until
/// then, and has that output then.
pub proof fn law_join_gives_what_its_future_gave<F, O, W>(
    rt: RtView<F, O, W>,
    future: F,
    is_send: bool,
    steps: Seq<Step<F, O, W>>,
    output: O,
    connected: bool,
    later: Seq<Step<F, O, W>>,
)
    requires
        rt.inv(),
        rt.enabled(Step::Spawn { future, is_send }),
        rt.spawn(future, is_send).possible(steps),
        never_closes(steps, rt.joins.next()),
        never_cancels(steps, rt.joins.next()),
        rt.spawn(future, is_send).after(steps).locked(rt.joins.next()),
        rt.spawn(future, is_send).after(steps).run(Event::Ready(output), connected).0.possible(
            later,
        ),
        never_uses(later, rt.joins.next()),
    ensures
        ({
            let key = rt.joins.next();
            let before = rt.spawn(future, is_send).after(steps);
            let end = before.run(Event::Ready(output), connected).0.after(later);
            &&& before.cell(key).output is Pending
            &&& end.joinable(key)
            &&& !end.locked(key)
            &&& end.cell(key).output == Poll::Ready(Some(output))
        }),
{
    let key = rt.joins.next();
    let start = rt.spawn(future, is_send);
    let before = start.after(steps);
    crate::laws::law_step_keeps_invariant(rt, Step::Spawn { future, is_send });
    crate::laws::law_invariant_always_holds(start, steps);
    law_ready_join_stays_ready(start, key, steps);
    assert forall|k: int| 0 <= k < later.len() implies !(#[trigger] later[k]).closes(key) by {
        assert(!later[k].uses(key));
    }
    law_join_gives_output_once(before, output, connected, later);
}

/// A `Join` stays pending until its task is gone, unless it is cancelled.
pub proof fn law_join_waits_for_its_task<F, O, W>(
    rt: RtView<F, O, W>,
    key: int,
    steps: Seq<Step<F, O, W>>,
)
    requires
        rt.inv(),
        rt.joinable(key),
        rt.cell(key).output is Pending,
        rt.possible(steps),
        never_cancels(steps, key),
        never_closes(steps, key),
    ensures
        rt.after(steps).joinable(key),
        rt.after(steps).cell(key).output is Pending || rt.after(steps).cell(key).task is Gone,
    decreases steps.len(),
{
    if steps.len() > 0 {
        let rest = steps.drop_first();
        let next = rt.apply(steps[0]);
        crate::laws::law_step_keeps_invariant(rt, steps[0]);
        lemma_step_on_join(rt, steps[0], key);
        crate::laws::lemma_rest(steps, key);
        if next.cell(key).output is Pending {
            law_join_waits_for_its_task(next, key, rest);
        } else {
            law_ready_join_stays_ready(next, key, rest);
        }
    }
}

/// The first waker that waits for a task is the one that is woken when the task completes,
/// whatever happens in between while the `Join` is about.
pub proof fn law_first_waker_is_woken<F, O, W>(
    rt: RtView<F, O, W>,
    key: int,
    waker: Arc<W>,
    steps: Seq<Step<F, O, W>>,
    output: O,
    connected: bool,
)
    requires
        rt.inv(),
        rt.joinable(key),
        !rt.locked(key),
        rt.cell(key).output is Pending,
        rt.cell(key).waker is None,
        rt.join_poll(key, waker).possible(steps),
        never_closes(steps, key),
        rt.join_poll(key, waker).after(steps).locked(key),
    ensures
        rt.join_poll(key, waker).after(steps).run(Event::Ready(output), connected).1 == (Action::<
            F,
            O,
            W,
        >::Completed {
            id: rt.join_poll(key, waker).after(steps).current->0,
            waker: Some(waker),
            unclaimed: None,
        }),
{
    crate::model::lemma_join_poll_inv(rt, key, waker);
    law_ready_join_stays_ready(rt.join_poll(key, waker), key, steps);
}

} // verus!
