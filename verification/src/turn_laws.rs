use vstd::prelude::*;

use crate::channel::Message;
use crate::laws::{never_cancels, Step};
use crate::model::{Action, Event, RtView};
use crate::task::{Id, Place};

verus! {

impl<F, O, W> RtView<F, O, W> {
    /// How often the future of the cell's task is given out to be polled in the course of a
    /// series, until the task ends.
    pub open spec fn polls(self, steps: Seq<Step<F, O, W>>, key: int) -> nat
        decreases steps.len(),
    {
        if steps.len() == 0 || self.ended(key) {
            0
        } else {
            (if self.gives_out(steps[0], key) {
                1nat
            } else {
                0nat
            }) + self.apply(steps[0]).polls(steps.drop_first(), key)
        }
    }

    /// How many messages about the cell's task are served in the course of a series, until it
    /// ends.
    pub open spec fn call_count(self, steps: Seq<Step<F, O, W>>, key: int) -> nat
        decreases steps.len(),
    {
        if steps.len() == 0 || self.ended(key) {
            0
        } else {
            (if self.calls(steps[0], key) {
                1nat
            } else {
                0nat
            }) + self.apply(steps[0]).call_count(steps.drop_first(), key)
        }
    }

    /// How often the cell's task is woken in the course of a series, until it ends.
    pub open spec fn wake_count(self, steps: Seq<Step<F, O, W>>, key: int) -> nat
        decreases steps.len(),
    {
        if steps.len() == 0 || self.ended(key) {
            0
        } else {
            (if self.wakes(steps[0], key) {
                1nat
            } else {
                0nat
            }) + self.apply(steps[0]).wake_count(steps.drop_first(), key)
        }
    }

    /// In the course of a series the cell's task ends with its output.
    pub open spec fn completes(self, steps: Seq<Step<F, O, W>>, key: int) -> bool
        decreases steps.len(),
    {
        steps.len() > 0 && !self.ended(key) && (self.completes_in(steps[0], key) || self.apply(
            steps[0],
        ).completes(steps.drop_first(), key))
    }

    /// In the course of a series the cell's task ends: with its output, or because it was
    /// cancelled.
    pub open spec fn ends(self, steps: Seq<Step<F, O, W>>, key: int) -> bool
        decreases steps.len(),
    {
        steps.len() > 0 && !self.ended(key) && (self.completes_in(steps[0], key) || self.drops_in(
            steps[0],
            key,
        ) || self.apply(steps[0]).ends(steps.drop_first(), key))
    }

    /// The step spawns a task that is given the cell.
    pub open spec fn takes(self, step: Step<F, O, W>, key: int) -> bool {
        step is Spawn && self.joins.next() == key
    }

    /// In the course of a series a new task is given the cell.
    pub open spec fn reuses(self, steps: Seq<Step<F, O, W>>, key: int) -> bool
        decreases steps.len(),
    {
        steps.len() > 0 && (self.takes(steps[0], key) || self.apply(steps[0]).reuses(
            steps.drop_first(),
            key,
        ))
    }

    /// A message that is about the cell's task is under way.
    pub open spec fn is_called(self, key: int) -> bool {
        !self.ended(key) && match self.cell(key).task {
            Place::Queue { .. } => true,
            Place::Table(id) => self.queue.contains(Message::Id(id)),
            Place::Gone => false,
        }
    }

    /// Every id under way is there once, and is that of a task.
    pub open spec fn tidy(self) -> bool {
        &&& forall|k: int|
            0 <= k < self.queue.len() && (#[trigger] self.queue[k]) is Id ==> self.live(
                self.queue[k]->Id_0,
            )
        &&& forall|k: int, l: int|
            0 <= k < l < self.queue.len() && (#[trigger] self.queue[k]) is Id ==> self.queue[k]
                != #[trigger] self.queue[l]
    }

    /// A task is not woken when it is gone, nor again before the poll that the last wake asks
    /// for; and it does not complete in a poll in which it was woken.
    pub open spec fn minds(self, step: Step<F, O, W>) -> bool {
        match step {
            Step::Wake { id } => self.live(id) && !self.queue.contains(Message::Id(id)),
            Step::Run { event, .. } => event is Ready ==> !self.queue.contains(
                Message::Id(self.current->0),
            ),
            _ => true,
        }
    }

    /// All steps of a series mind how tasks are woken.
    pub open spec fn minded(self, steps: Seq<Step<F, O, W>>) -> bool
        decreases steps.len(),
    {
        steps.len() == 0 || (self.minds(steps[0]) && self.apply(steps[0]).minded(
            steps.drop_first(),
        ))
    }
}

/// What serving one message does to a task that has not ended.
proof fn lemma_dispatch_on_task<F, O, W>(rt: RtView<F, O, W>, connected: bool, key: int)
    requires
        rt.inv(),
        rt.current is None,
        rt.dispatch(connected).0.tasks.entries.len() <= usize::MAX,
        rt.dispatch(connected).0.send_tasks.entries.len() <= usize::MAX,
        !rt.ended(key),
    ensures
        ({
            let cell = rt.cell(key);
            let called = rt.queue.len() > 0 && match cell.task {
                Place::Queue { .. } => RtView::<F, O, W>::key_of(rt.queue[0]) == Some(key),
                Place::Table(id) => rt.queue[0] == Message::<F>::Id(id),
                Place::Gone => false,
            };
            let (after, action) = rt.dispatch(connected);
            let given = action matches Action::Poll { id, .. } && after.task(id).join == key;
            let dropped = action matches Action::Cancelled { id, .. } && rt.receive().task(id).join
                == key;
            &&& given <==> called && cell.output is Pending
            &&& dropped <==> called && cell.output is Ready
            &&& dropped <==> after.ended(key)
            &&& !dropped ==> {
                &&& after.cell(key).output == cell.output
                &&& after.cell(key).task == (if called && cell.task is Queue {
                    Place::Table(rt.receive_id())
                } else {
                    cell.task
                })
            }
        }),
{
    assert(rt.cell_ok(key));
    if rt.queue.len() > 0 {
        assert(rt.message_ok(rt.queue[0]));
        crate::model::lemma_receive_inv(rt);
        let next = rt.receive();
        let id = rt.receive_id();
        assert(next.joins.live(key));
        assert(next.cell(key).output == rt.cell(key).output);
        let called = match rt.cell(key).task {
            Place::Queue { .. } => RtView::<F, O, W>::key_of(rt.queue[0]) == Some(key),
            Place::Table(id) => rt.queue[0] == Message::<F>::Id(id),
            Place::Gone => false,
        };
        assert(next.cell(key).task == (if called && rt.cell(key).task is Queue {
            Place::Table(id)
        } else {
            rt.cell(key).task
        }));
        assert(next.cell_ok(key));
        if next.live(id) {
            assert(next.task_ok(id));
            assert(next.task(id).join == key <==> next.cell(key).task == Place::Table(id));
            assert(called <==> next.task(id).join == key) by {
                crate::laws::law_new_id_is_vacant(rt, true);
                crate::laws::law_new_id_is_vacant(rt, false);
            }
        }
    }
}

/// What one step does to a task that has not ended.
proof fn lemma_step_on_task<F, O, W>(rt: RtView<F, O, W>, step: Step<F, O, W>, key: int)
    requires
        rt.inv(),
        rt.enabled(step),
        !rt.ended(key),
    ensures
        rt.gives_out(step, key) <==> rt.calls(step, key) && rt.cell(key).output is Pending,
        rt.drops_in(step, key) <==> rt.calls(step, key) && rt.cell(key).output is Ready,
        rt.apply(step).ended(key) <==> rt.drops_in(step, key) || rt.completes_in(step, key),
        !rt.apply(step).ended(key) ==> rt.apply(step).cell(key).task == (if rt.calls(step, key)
            && rt.cell(key).task is Queue {
            Place::Table(rt.receive_id())
        } else {
            rt.cell(key).task
        }),
        !rt.apply(step).ended(key) && !step.cancels(key) && rt.cell(key).output is Pending
            ==> rt.apply(step).cell(key).output is Pending,
        !rt.apply(step).ended(key) && rt.cell(key).output is Ready ==> rt.apply(step).cell(
            key,
        ).output is Ready,
{
    assert(rt.cell_ok(key));
    match step {
        Step::Run { event, connected } => {
            match event {
                Event::Resume => {
                    lemma_dispatch_on_task(rt, connected, key);
                },
                Event::Pending(future) => {
                    crate::model::lemma_give_back_inv(rt, future);
                    lemma_dispatch_on_task(rt.give_back(future), connected, key);
                },
                Event::Ready(output) => {
                    assert(rt.task_ok(rt.current->0));
                },
            }
        },
        _ => {},
    }
}

/// A future is given out to be polled exactly when a message about its task is served while the
/// task is pending: a task that is not called is not polled, nor is one that has ended.
pub proof fn law_task_is_polled_when_called<F, O, W>(
    rt: RtView<F, O, W>,
    step: Step<F, O, W>,
    key: int,
)
    requires
        rt.inv(),
        rt.enabled(step),
    ensures
        rt.gives_out(step, key) <==> !rt.ended(key) && rt.calls(step, key) && rt.cell(
            key,
        ).output is Pending,
{
    if !rt.ended(key) {
        lemma_step_on_task(rt, step, key);
    } else if rt.gives_out(step, key) {
        crate::laws::law_step_keeps_invariant(rt, step);
        let next = rt.apply(step);
        let id = next.current->0;
        assert(next.live(id) && next.task_ok(id) && next.task(id).join == key);
        if rt.joins.live(key) {
            crate::laws::law_other_joins_are_left_alone(rt, step, key);
        } else {
            let event = step->event;
            if event is Pending {
                crate::model::lemma_give_back_inv(rt, event->Pending_0);
            }
            lemma_dispatch_makes_no_cell(rt.start(event), step->connected, key);
        }
    }
}

proof fn lemma_dispatch_makes_no_cell<F, O, W>(rt: RtView<F, O, W>, connected: bool, key: int)
    requires
        rt.inv(),
        rt.current is None,
        rt.dispatch(connected).0.tasks.entries.len() <= usize::MAX,
        rt.dispatch(connected).0.send_tasks.entries.len() <= usize::MAX,
        !rt.joins.live(key),
    ensures
        !rt.dispatch(connected).0.joins.live(key),
{
    if rt.queue.len() > 0 {
        assert(rt.message_ok(rt.queue[0]));
        crate::model::lemma_receive_inv(rt);
        let next = rt.receive();
        assert(!next.joins.live(key));
        if next.live(rt.receive_id()) {
            assert(next.task_ok(rt.receive_id()));
        }
    }
}

/// A task that has ended is not polled again, whatever became of its `Join`: as long as no new
/// task is given the cell, no step gives out a future of it.
pub proof fn law_ended_task_is_not_polled_again<F, O, W>(
    rt: RtView<F, O, W>,
    key: int,
    steps: Seq<Step<F, O, W>>,
    k: int,
)
    requires
        rt.inv(),
        rt.ended(key),
        rt.possible(steps),
        !rt.reuses(steps, key),
        0 <= k < steps.len(),
    ensures
        rt.after(steps.take(k)).ended(key),
        !rt.after(steps.take(k)).gives_out(steps[k], key),
    decreases k,
{
    let rest = steps.drop_first();
    if k == 0 {
        law_task_is_polled_when_called(rt, steps[0], key);
    } else {
        crate::laws::law_step_keeps_invariant(rt, steps[0]);
        lemma_ended_stays(rt, steps[0], key);
        law_ended_task_is_not_polled_again(rt.apply(steps[0]), key, rest, k - 1);
        assert(steps.take(k).drop_first() =~= rest.take(k - 1));
        assert(steps.take(k)[0] == steps[0]);
        assert(rest[k - 1] == steps[k]);
    }
}

/// A task that has ended stays so.
proof fn lemma_ended_stays<F, O, W>(rt: RtView<F, O, W>, step: Step<F, O, W>, key: int)
    requires
        rt.inv(),
        rt.enabled(step),
        rt.ended(key),
        !rt.takes(step, key),
    ensures
        rt.apply(step).ended(key),
{
    if rt.joins.live(key) {
        if !step.uses(key) {
            crate::laws::law_other_joins_are_left_alone(rt, step, key);
        }
    } else {
        match step {
            Step::Run { event, connected } => {
                match event {
                    Event::Resume => {
                        lemma_dispatch_makes_no_cell(rt, connected, key);
                    },
                    Event::Pending(future) => {
                        crate::model::lemma_give_back_inv(rt, future);
                        lemma_dispatch_makes_no_cell(rt.give_back(future), connected, key);
                    },
                    Event::Ready(_) => {
                        assert(rt.task_ok(rt.current->0));
                    },
                }
            },
            _ => {},
        }
    }
}

/// A task that is not cancelled is polled as often as a message about it is served, however
/// tasks are woken.
pub proof fn law_polls_are_calls<F, O, W>(
    rt: RtView<F, O, W>,
    key: int,
    steps: Seq<Step<F, O, W>>,
)
    requires
        rt.inv(),
        rt.possible(steps),
        rt.ended(key) || rt.cell(key).output is Pending,
        never_cancels(steps, key),
    ensures
        rt.polls(steps, key) == rt.call_count(steps, key),
    decreases steps.len(),
{
    if steps.len() > 0 && !rt.ended(key) {
        let rest = steps.drop_first();
        crate::laws::law_step_keeps_invariant(rt, steps[0]);
        lemma_step_on_task(rt, steps[0], key);
        crate::laws::lemma_rest(steps, key);
        law_polls_are_calls(rt.apply(steps[0]), key, rest);
    }
}

/// The future of a task that was cancelled is not polled any more.
pub proof fn law_cancelled_task_is_not_polled<F, O, W>(
    rt: RtView<F, O, W>,
    key: int,
    steps: Seq<Step<F, O, W>>,
)
    requires
        rt.inv(),
        rt.joinable(key),
        !rt.locked(key),
        rt.join_cancel(key).possible(steps),
    ensures
        rt.join_cancel(key).polls(steps, key) == 0,
{
    crate::model::lemma_join_cancel_inv(rt, key);
    lemma_ready_cell_is_not_polled(rt.join_cancel(key), key, steps);
}

proof fn lemma_ready_cell_is_not_polled<F, O, W>(
    rt: RtView<F, O, W>,
    key: int,
    steps: Seq<Step<F, O, W>>,
)
    requires
        rt.inv(),
        rt.possible(steps),
        rt.ended(key) || rt.cell(key).output is Ready,
    ensures
        rt.polls(steps, key) == 0,
    decreases steps.len(),
{
    if steps.len() > 0 && !rt.ended(key) {
        crate::laws::law_step_keeps_invariant(rt, steps[0]);
        lemma_step_on_task(rt, steps[0], key);
        lemma_ready_cell_is_not_polled(rt.apply(steps[0]), key, steps.drop_first());
    }
}

/// A spawned future is polled when its turn has come, unless it was cancelled by then.
pub proof fn law_spawned_future_is_polled<F, O, W>(
    rt: RtView<F, O, W>,
    future: F,
    is_send: bool,
    steps: Seq<Step<F, O, W>>,
    event: Event<F, O>,
    connected: bool,
)
    requires
        rt.inv(),
        rt.enabled(Step::Spawn { future, is_send }),
        rt.spawn(future, is_send).possible(steps),
        rt.spawn(future, is_send).served(steps) == rt.queue.len(),
        never_cancels(steps, rt.joins.next()),
        rt.spawn(future, is_send).after(steps).expects(event),
        !(event is Ready),
    ensures
        rt.spawn(future, is_send).after(steps).run(event, connected).1 == (Action::<
            F,
            O,
            W,
        >::Poll { id: rt.spawn(future, is_send).after(steps).next_id(is_send), future }),
{
    let key = rt.joins.next();
    let start = rt.spawn(future, is_send);
    let end = start.after(steps);
    let p = rt.queue.len() as int;
    crate::laws::law_step_keeps_invariant(rt, Step::Spawn { future, is_send });
    crate::laws::law_message_gets_its_turn(start, p, steps);
    crate::laws::law_invariant_always_holds(start, steps);
    assert(start.message_ok(start.queue[p]));
    lemma_queued_cell_stays_pending(start, key, p, steps);
    if event is Pending {
        crate::model::lemma_give_back_inv(end, event->Pending_0);
    }
    let from = end.start(event);
    assert(from.queue == end.queue);
    assert(from.joins == end.joins);
    assert(from.next_id(is_send) == end.next_id(is_send));
    assert(from.message_ok(from.queue[0]));
    assert(from.receive_id() == end.next_id(is_send));
    assert(from.receive().live(end.next_id(is_send))) by {
        assert(from.table(is_send).wf());
    }
    assert(from.receive().task(end.next_id(is_send)).future == Some(future));
}

/// The cell of a task on its way stays pending until the task's turn has come.
proof fn lemma_queued_cell_stays_pending<F, O, W>(
    rt: RtView<F, O, W>,
    key: int,
    p: int,
    steps: Seq<Step<F, O, W>>,
)
    requires
        rt.inv(),
        rt.possible(steps),
        0 <= p < rt.queue.len(),
        RtView::<F, O, W>::key_of(rt.queue[p]) == Some(key),
        rt.served(steps) <= p,
        rt.cell(key).output is Pending,
        never_cancels(steps, key),
    ensures
        rt.after(steps).cell(key).output is Pending,
    decreases steps.len(),
{
    if steps.len() > 0 {
        let step = steps[0];
        let rest = steps.drop_first();
        let next = rt.apply(step);
        crate::laws::law_step_keeps_invariant(rt, step);
        crate::laws::lemma_one_step_of_the_queue(rt, step);
        let q = if rt.serves(step) { p - 1 } else { p };
        assert(next.queue[q] == rt.queue[p]);
        assert(rt.message_ok(rt.queue[p]));
        assert(next.message_ok(next.queue[q]));
        lemma_step_on_task(rt, step, key);
        crate::laws::lemma_rest(steps, key);
        lemma_queued_cell_stays_pending(next, key, q, rest);
    }
}

/// A task that was woken is polled when its turn has come, where it waits then: with the future
/// that is kept, or that comes back from a poll just then.
pub proof fn law_woken_task_is_polled<F, O, W>(
    rt: RtView<F, O, W>,
    id: Id,
    steps: Seq<Step<F, O, W>>,
    event: Event<F, O>,
    connected: bool,
)
    requires
        rt.inv(),
        rt.wake(id).possible(steps),
        rt.wake(id).served(steps) == rt.queue.len(),
        rt.wake(id).after(steps).live(id),
        rt.wake(id).after(steps).cell(
            rt.wake(id).after(steps).task(id).join as int,
        ).output is Pending,
        rt.wake(id).after(steps).expects(event),
        !(event is Ready),
    ensures
        rt.wake(id).after(steps).run(event, connected).1 == (Action::<F, O, W>::Poll {
            id,
            future: if rt.wake(id).after(steps).current == Some(id) {
                event->Pending_0
            } else {
                rt.wake(id).after(steps).task(id).future->0
            },
        }),
{
    let end = rt.wake(id).after(steps);
    crate::model::lemma_wake_inv(rt, id);
    crate::laws::law_message_gets_its_turn(rt.wake(id), rt.queue.len() as int, steps);
    crate::laws::law_invariant_always_holds(rt.wake(id), steps);
    let from = end.start(event);
    assert(from.queue == end.queue);
    assert(from.joins == end.joins);
    assert(from.live(id));
    assert(from.task(id).join == end.task(id).join);
    assert(from.receive() == (RtView { queue: from.queue.drop_first(), ..from }));
}

/// The runtime returns only when no message is under way, no task is left and nobody is left
/// to send a message.
pub proof fn law_return_leaves_no_task<F, O, W>(
    rt: RtView<F, O, W>,
    event: Event<F, O>,
    connected: bool,
    id: Id,
)
    requires
        rt.inv(),
        rt.expects(event),
        rt.run(event, connected).1 is Return,
    ensures
        !connected,
        rt.run(event, connected).0.queue.len() == 0,
        !rt.run(event, connected).0.live(id),
{
    let end = rt.run(event, connected).0;
    if event is Pending {
        crate::model::lemma_give_back_inv(rt, event->Pending_0);
    }
    crate::slots::law_count_is_number_of_live(end.tasks);
    crate::slots::law_count_is_number_of_live(end.send_tasks);
    if end.live(id) {
        let used = Set::new(|i: int| end.table(id.is_send).live(i));
        assert(used.contains(id.i as int));
        assert(used.len() > 0) by {
            if used.len() == 0 {
                assert(used =~= Set::empty());
            }
        }
    }
}

/// The runtime serves no more messages than there were and are sent, and when it has served them
/// all it waits, or returns where every task has ended and nobody is left to send a message.
pub proof fn law_runtime_rests_when_all_is_served<F, O, W>(
    rt: RtView<F, O, W>,
    steps: Seq<Step<F, O, W>>,
    event: Event<F, O>,
    connected: bool,
)
    requires
        rt.inv(),
        rt.possible(steps),
        rt.after(steps).expects(event),
        !(event is Ready),
    ensures
        rt.served(steps) <= rt.queue.len() + rt.sent(steps).len(),
        rt.served(steps) == rt.queue.len() + rt.sent(steps).len() ==> {
            let action = rt.after(steps).run(event, connected).1;
            &&& action is Wait || action is Return
            &&& action is Return <==> !connected && forall|key: int| #[trigger]
                rt.after(steps).ended(key)
        },
{
    let end = rt.after(steps);
    crate::laws::law_first_sent_first_served(rt, steps);
    crate::laws::law_invariant_always_holds(rt, steps);
    if rt.served(steps) == rt.queue.len() + rt.sent(steps).len() {
        let action = end.run(event, connected).1;
        if action is Return {
            assert forall|key: int| #[trigger] end.ended(key) by {
                lemma_return_means_ended(end, event, connected, key);
            }
        }
        if !connected && action is Wait {
            let id = lemma_some_task_is_live(end);
            assert(end.task_ok(id));
            assert(!end.ended(end.task(id).join as int));
        }
    }
}

/// Where the count is positive a task is there.
pub(crate) proof fn lemma_some_task_is_live<F, O, W>(rt: RtView<F, O, W>) -> (id: Id)
    requires
        rt.inv(),
        rt.count() > 0,
    ensures
        rt.live(id),
{
    let is_send = rt.tasks.count() <= 0;
    let table = rt.table(is_send);
    let used = Set::new(|i: int| table.live(i));
    crate::slots::law_count_is_number_of_live(table);
    let i = used.choose();
    assert(used.contains(i));
    Id { i: i as usize, is_send }
}

/// When the runtime returns, every task has ended.
proof fn lemma_return_means_ended<F, O, W>(
    rt: RtView<F, O, W>,
    event: Event<F, O>,
    connected: bool,
    key: int,
)
    requires
        rt.inv(),
        rt.expects(event),
        rt.run(event, connected).1 is Return,
    ensures
        rt.ended(key),
{
    if !rt.ended(key) {
        assert(rt.cell_ok(key));
        match rt.cell(key).task {
            Place::Table(id) => {
                law_return_leaves_no_task(rt, event, connected, id);
                assert(rt.start(event).live(id));
            },
            _ => {
                law_return_leaves_no_task(rt, event, connected, arbitrary());
            },
        }
    }
}

/// When the runtime returns, every future that was spawned has completed, unless it was
/// cancelled.
pub proof fn law_return_means_completed<F, O, W>(
    rt: RtView<F, O, W>,
    future: F,
    is_send: bool,
    steps: Seq<Step<F, O, W>>,
    event: Event<F, O>,
    connected: bool,
)
    requires
        rt.inv(),
        rt.enabled(Step::Spawn { future, is_send }),
        rt.spawn(future, is_send).possible(steps),
        never_cancels(steps, rt.joins.next()),
        rt.spawn(future, is_send).after(steps).expects(event),
        rt.spawn(future, is_send).after(steps).run(event, connected).1 is Return,
    ensures
        rt.spawn(future, is_send).completes(steps, rt.joins.next()),
{
    let start = rt.spawn(future, is_send);
    let key = rt.joins.next();
    crate::laws::law_step_keeps_invariant(rt, Step::Spawn { future, is_send });
    crate::laws::law_invariant_always_holds(start, steps);
    lemma_return_means_ended(start.after(steps), event, connected, key);
    lemma_pending_until_completed(start, key, steps);
}

/// A task that is not cancelled is there, and pending, until it completes.
proof fn lemma_pending_until_completed<F, O, W>(
    rt: RtView<F, O, W>,
    key: int,
    steps: Seq<Step<F, O, W>>,
)
    requires
        rt.inv(),
        rt.possible(steps),
        !rt.ended(key),
        rt.cell(key).output is Pending,
        never_cancels(steps, key),
    ensures
        rt.completes(steps, key) || (!rt.after(steps).ended(key) && rt.after(steps).cell(
            key,
        ).output is Pending),
    decreases steps.len(),
{
    if steps.len() > 0 {
        let rest = steps.drop_first();
        crate::laws::law_step_keeps_invariant(rt, steps[0]);
        lemma_step_on_task(rt, steps[0], key);
        crate::laws::lemma_rest(steps, key);
        if !rt.completes_in(steps[0], key) {
            lemma_pending_until_completed(rt.apply(steps[0]), key, rest);
        }
    }
}

/// When the runtime returns, every future that was spawned has completed or, where it was
/// cancelled, was handed out to be dropped.
pub proof fn law_return_means_ended<F, O, W>(
    rt: RtView<F, O, W>,
    future: F,
    is_send: bool,
    steps: Seq<Step<F, O, W>>,
    event: Event<F, O>,
    connected: bool,
)
    requires
        rt.inv(),
        rt.enabled(Step::Spawn { future, is_send }),
        rt.spawn(future, is_send).possible(steps),
        rt.spawn(future, is_send).after(steps).expects(event),
        rt.spawn(future, is_send).after(steps).run(event, connected).1 is Return,
    ensures
        rt.spawn(future, is_send).ends(steps, rt.joins.next()),
{
    let start = rt.spawn(future, is_send);
    let key = rt.joins.next();
    crate::laws::law_step_keeps_invariant(rt, Step::Spawn { future, is_send });
    crate::laws::law_invariant_always_holds(start, steps);
    lemma_return_means_ended(start.after(steps), event, connected, key);
    lemma_there_until_ended(start, key, steps);
}

proof fn lemma_there_until_ended<F, O, W>(
    rt: RtView<F, O, W>,
    key: int,
    steps: Seq<Step<F, O, W>>,
)
    requires
        rt.inv(),
        rt.possible(steps),
        !rt.ended(key),
    ensures
        rt.ends(steps, key) || !rt.after(steps).ended(key),
    decreases steps.len(),
{
    if steps.len() > 0 {
        crate::laws::law_step_keeps_invariant(rt, steps[0]);
        lemma_step_on_task(rt, steps[0], key);
        if !rt.apply(steps[0]).ended(key) {
            lemma_there_until_ended(rt.apply(steps[0]), key, steps.drop_first());
        }
    }
}

/// Steps that mind how tasks are woken keep the queue tidy.
pub proof fn law_queue_stays_tidy<F, O, W>(rt: RtView<F, O, W>, step: Step<F, O, W>)
    requires
        rt.inv(),
        rt.enabled(step),
        rt.tidy(),
        rt.minds(step),
    ensures
        rt.apply(step).tidy(),
{
    match step {
        Step::Wake { id } => {
            let after = rt.wake(id);
            assert forall|k: int|
                0 <= k < after.queue.len() && (#[trigger] after.queue[k]) is Id implies after.live(
                after.queue[k]->Id_0,
            ) by {
                if k < rt.queue.len() {
                    assert(rt.queue[k] is Id);
                }
            }
            assert forall|k: int, l: int|
                0 <= k < l < after.queue.len() && (
                #[trigger] after.queue[k]) is Id implies after.queue[k] != #[trigger] after.queue[l] by {
                assert(rt.queue[k] == after.queue[k]);
            }
        },
        Step::Spawn { future, is_send } => {
            let after = rt.spawn(future, is_send);
            assert forall|k: int|
                0 <= k < after.queue.len() && (#[trigger] after.queue[k]) is Id implies after.live(
                after.queue[k]->Id_0,
            ) by {
                assert(rt.queue[k] is Id);
            }
            assert forall|k: int, l: int|
                0 <= k < l < after.queue.len() && (
                #[trigger] after.queue[k]) is Id implies after.queue[k] != #[trigger] after.queue[l] by {
                assert(rt.queue[k] == after.queue[k]);
            }
        },
        Step::Run { event, connected } => {
            match event {
                Event::Resume => {
                    lemma_dispatch_tidy(rt, connected);
                },
                Event::Pending(future) => {
                    crate::model::lemma_give_back_inv(rt, future);
                    lemma_dispatch_tidy(rt.give_back(future), connected);
                },
                Event::Ready(_) => {},
            }
        },
        _ => {},
    }
}

proof fn lemma_dispatch_tidy<F, O, W>(rt: RtView<F, O, W>, connected: bool)
    requires
        rt.inv(),
        rt.current is None,
        rt.dispatch(connected).0.tasks.entries.len() <= usize::MAX,
        rt.dispatch(connected).0.send_tasks.entries.len() <= usize::MAX,
        rt.tidy(),
    ensures
        rt.dispatch(connected).0.tidy(),
{
    if rt.queue.len() > 0 {
        let after = rt.dispatch(connected).0;
        crate::model::lemma_receive_inv(rt);
        crate::laws::law_new_id_is_vacant(rt, true);
        crate::laws::law_new_id_is_vacant(rt, false);
        assert(after.queue =~= rt.queue.drop_first());
        assert forall|k: int|
            0 <= k < after.queue.len() && (#[trigger] after.queue[k]) is Id implies after.live(
            after.queue[k]->Id_0,
        ) by {
            let id = after.queue[k]->Id_0;
            assert(rt.queue[k + 1] == after.queue[k]);
            assert(rt.live(id));
            assert(rt.receive().live(id));
            assert(rt.queue[0] is Id ==> rt.queue[0] != rt.queue[k + 1]);
            assert(rt.receive_id() != id);
        }
        assert forall|k: int, l: int|
            0 <= k < l < after.queue.len() && (#[trigger] after.queue[k]) is Id implies after.queue[k]
            != #[trigger] after.queue[l] by {
            assert(rt.queue[k + 1] == after.queue[k]);
            assert(rt.queue[l + 1] == after.queue[l]);
        }
    }
}

/// One step of the balance between the polls of a task and the messages about it.
proof fn lemma_one_step_of_the_balance<F, O, W>(
    rt: RtView<F, O, W>,
    step: Step<F, O, W>,
    key: int,
)
    requires
        rt.inv(),
        rt.enabled(step),
        rt.tidy(),
        rt.minds(step),
        !rt.ended(key),
        rt.cell(key).output is Pending,
        !step.cancels(key),
    ensures
        (if rt.gives_out(step, key) {
            1int
        } else {
            0int
        }) + (if rt.apply(step).is_called(key) {
            1int
        } else {
            0int
        }) == (if rt.is_called(key) {
            1int
        } else {
            0int
        }) + (if rt.wakes(step, key) {
            1int
        } else {
            0int
        }),
{
    let next = rt.apply(step);
    crate::laws::law_step_keeps_invariant(rt, step);
    lemma_step_on_task(rt, step, key);
    crate::laws::lemma_one_step_of_the_queue(rt, step);
    assert(rt.cell_ok(key));
    match rt.cell(key).task {
        Place::Queue { .. } => {
            if rt.calls(step, key) {
                let id = rt.receive_id();
                crate::laws::law_new_id_is_vacant(rt, true);
                crate::laws::law_new_id_is_vacant(rt, false);
                if next.queue.contains(Message::Id(id)) {
                    let k = choose|k: int|
                        0 <= k < next.queue.len() && next.queue[k] == Message::<F>::Id(id);
                    assert(rt.queue[k + 1] == next.queue[k]);
                }
            }
        },
        Place::Table(id) => {
            let m = Message::<F>::Id(id);
            if rt.completes_in(step, key) {
                assert(rt.task_ok(rt.current->0));
                assert(rt.current == Some(id));
            } else if rt.serves(step) {
                assert(rt.queue.contains(m) == (rt.queue[0] == m || next.queue.contains(m))) by {
                    if rt.queue.contains(m) && rt.queue[0] != m {
                        let k = choose|k: int| 0 <= k < rt.queue.len() && rt.queue[k] == m;
                        assert(next.queue[k - 1] == m);
                    }
                    if next.queue.contains(m) {
                        let k = choose|k: int| 0 <= k < next.queue.len() && next.queue[k] == m;
                        assert(rt.queue[k + 1] == m);
                    }
                }
                if rt.queue[0] == m && next.queue.contains(m) {
                    let k = choose|k: int| 0 <= k < next.queue.len() && next.queue[k] == m;
                    assert(rt.queue[0] != rt.queue[k + 1]);
                }
            } else {
                assert(next.queue =~= rt.queue + rt.sends(step));
                if rt.queue.contains(m) {
                    let k = choose|k: int| 0 <= k < rt.queue.len() && rt.queue[k] == m;
                    assert(next.queue[k] == m);
                }
                if next.queue.contains(m) && !rt.queue.contains(m) {
                    let k = choose|k: int| 0 <= k < next.queue.len() && next.queue[k] == m;
                    assert(k >= rt.queue.len());
                    assert(rt.sends(step)[k - rt.queue.len()] == m);
                }
                if rt.wakes(step, key) {
                    assert(next.queue[rt.queue.len() as int] == m);
                }
            }
        },
        Place::Gone => {},
    }
}

/// The polls of a task and the message about it that is under way are as many as the message
/// that was under way and the wakes of the task.
proof fn lemma_balance<F, O, W>(rt: RtView<F, O, W>, key: int, steps: Seq<Step<F, O, W>>)
    requires
        rt.inv(),
        rt.tidy(),
        rt.possible(steps),
        rt.minded(steps),
        !rt.ended(key),
        rt.cell(key).output is Pending,
        never_cancels(steps, key),
    ensures
        rt.polls(steps, key) + (if !rt.completes(steps, key) && rt.after(steps).is_called(key) {
            1int
        } else {
            0int
        }) == (if rt.is_called(key) {
            1int
        } else {
            0int
        }) + rt.wake_count(steps, key),
    decreases steps.len(),
{
    reveal_with_fuel(RtView::polls, 2);
    reveal_with_fuel(RtView::wake_count, 2);
    reveal_with_fuel(RtView::completes, 2);
    if steps.len() > 0 {
        let rest = steps.drop_first();
        let next = rt.apply(steps[0]);
        crate::laws::law_step_keeps_invariant(rt, steps[0]);
        law_queue_stays_tidy(rt, steps[0]);
        lemma_step_on_task(rt, steps[0], key);
        lemma_one_step_of_the_balance(rt, steps[0], key);
        crate::laws::lemma_rest(steps, key);
        if !next.ended(key) {
            lemma_balance(next, key, rest);
        }
    }
}

/// A spawned future is polled once for its spawn and once for each wake of its task. Once the
/// task has completed its polls are one more than its wakes; until then one poll may still be
/// owed.
pub proof fn law_polls_are_one_more_than_wakes<F, O, W>(
    rt: RtView<F, O, W>,
    future: F,
    is_send: bool,
    steps: Seq<Step<F, O, W>>,
)
    requires
        rt.inv(),
        rt.tidy(),
        rt.enabled(Step::Spawn { future, is_send }),
        rt.spawn(future, is_send).possible(steps),
        rt.spawn(future, is_send).minded(steps),
        never_cancels(steps, rt.joins.next()),
    ensures
        ({
            let start = rt.spawn(future, is_send);
            let key = rt.joins.next();
            let owed = !start.completes(steps, key) && start.after(steps).is_called(key);
            start.polls(steps, key) + (if owed {
                1int
            } else {
                0int
            }) == 1 + start.wake_count(steps, key)
        }),
{
    let step = Step::Spawn { future, is_send };
    crate::laws::law_step_keeps_invariant(rt, step);
    law_queue_stays_tidy(rt, step);
    lemma_balance(rt.spawn(future, is_send), rt.joins.next(), steps);
}

/// When the runtime returns, every future that was spawned and not cancelled has been polled
/// once more often than its task was woken.
pub proof fn law_return_means_all_polls_are_done<F, O, W>(
    rt: RtView<F, O, W>,
    future: F,
    is_send: bool,
    steps: Seq<Step<F, O, W>>,
    event: Event<F, O>,
    connected: bool,
)
    requires
        rt.inv(),
        rt.tidy(),
        rt.enabled(Step::Spawn { future, is_send }),
        rt.spawn(future, is_send).possible(steps),
        rt.spawn(future, is_send).minded(steps),
        never_cancels(steps, rt.joins.next()),
        rt.spawn(future, is_send).after(steps).expects(event),
        rt.spawn(future, is_send).after(steps).run(event, connected).1 is Return,
    ensures
        rt.spawn(future, is_send).polls(steps, rt.joins.next()) == 1 + rt.spawn(
            future,
            is_send,
        ).wake_count(steps, rt.joins.next()),
{
    law_return_means_completed(rt, future, is_send, steps, event, connected);
    law_polls_are_one_more_than_wakes(rt, future, is_send, steps);
}

/// A wake reaches the task that was woken and no other, though slots of ended tasks are used
/// again: when its turn comes, the same task is still there, and it is the one that is polled,
/// or dropped where it was cancelled.
pub proof fn law_wake_reaches_the_woken_task<F, O, W>(
    rt: RtView<F, O, W>,
    id: Id,
    steps: Seq<Step<F, O, W>>,
    event: Event<F, O>,
    connected: bool,
)
    requires
        rt.inv(),
        rt.tidy(),
        rt.minds(Step::Wake { id }),
        rt.wake(id).possible(steps),
        rt.wake(id).minded(steps),
        rt.wake(id).served(steps) == rt.queue.len(),
        rt.wake(id).after(steps).expects(event),
        !(event is Ready),
    ensures
        ({
            let end = rt.wake(id).after(steps);
            let key = rt.task(id).join as int;
            &&& !end.ended(key)
            &&& end.cell(key).task == Place::Table(id)
            &&& end.live(id)
            &&& end.task(id).join == key
            &&& end.calls(Step::Run { event, connected }, key)
            &&& end.cell(key).output is Pending ==> end.run(event, connected).1 is Poll
            &&& end.cell(key).output is Ready ==> end.run(event, connected).1 is Cancelled
            &&& end.run(event, connected).1.id() == Some(id)
        }),
{
    let start = rt.wake(id);
    let key = rt.task(id).join as int;
    let end = start.after(steps);
    let p = rt.queue.len() as int;
    assert(rt.task_ok(id));
    crate::laws::law_step_keeps_invariant(rt, Step::Wake { id });
    law_queue_stays_tidy(rt, Step::Wake { id });
    crate::laws::law_message_gets_its_turn(start, p, steps);
    crate::laws::law_invariant_always_holds(start, steps);
    lemma_called_task_stays(start, key, id, p, steps);
    assert(end.cell_ok(key));
    let from = end.start(event);
    assert(from.queue == end.queue);
    assert(from.joins == end.joins);
    assert(from.live(id));
    assert(from.task(id).join == key);
    assert(from.receive() == (RtView { queue: from.queue.drop_first(), ..from }));
}

/// A task stays in its place while a message about it is under way.
proof fn lemma_called_task_stays<F, O, W>(
    rt: RtView<F, O, W>,
    key: int,
    id: Id,
    p: int,
    steps: Seq<Step<F, O, W>>,
)
    requires
        rt.inv(),
        rt.tidy(),
        rt.possible(steps),
        rt.minded(steps),
        0 <= p < rt.queue.len(),
        rt.queue[p] == Message::<F>::Id(id),
        rt.served(steps) <= p,
        !rt.ended(key),
        rt.cell(key).task == Place::Table(id),
    ensures
        !rt.after(steps).ended(key),
        rt.after(steps).cell(key).task == Place::Table(id),
    decreases steps.len(),
{
    if steps.len() > 0 {
        let step = steps[0];
        let next = rt.apply(step);
        crate::laws::law_step_keeps_invariant(rt, step);
        law_queue_stays_tidy(rt, step);
        crate::laws::lemma_one_step_of_the_queue(rt, step);
        lemma_step_on_task(rt, step, key);
        assert(rt.cell_ok(key));
        let q = if rt.serves(step) { p - 1 } else { p };
        assert(next.queue[q] == rt.queue[p]);
        if rt.completes_in(step, key) {
            assert(rt.task_ok(rt.current->0));
            assert(rt.queue.contains(Message::Id(id)));
        }
        if rt.calls(step, key) {
            assert(rt.queue[0] != rt.queue[p]);
        }
        lemma_called_task_stays(next, key, id, q, steps.drop_first());
    }
}

} // verus!
