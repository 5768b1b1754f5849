use std::sync::Arc;
use vstd::prelude::*;

use crate::channel::Message;
use crate::model::{Action, Event, RtView};
use crate::task::{Id, InnerJoin, Place, Task};

verus! {

/// One use of the runtime.
pub enum Step<F, O, W> {
    Spawn { future: F, is_send: bool },
    Wake { id: Id },
    Run { event: Event<F, O>, connected: bool },
    Cancel { key: int },
    Poll { key: int, waker: Arc<W> },
    Close { key: int },
}

impl<F, O, W> Step<F, O, W> {
    /// The step is a use of the `Join` with this key.
    pub open spec fn uses(self, key: int) -> bool {
        match self {
            Step::Cancel { key: k } => k == key,
            Step::Poll { key: k, .. } => k == key,
            Step::Close { key: k } => k == key,
            _ => false,
        }
    }

    pub open spec fn cancels(self, key: int) -> bool {
        self matches Step::Cancel { key: k } && k == key
    }

    pub open spec fn closes(self, key: int) -> bool {
        self matches Step::Close { key: k } && k == key
    }
}

/// No step of the series cancels the task of the cell.
pub open spec fn never_cancels<F, O, W>(steps: Seq<Step<F, O, W>>, key: int) -> bool {
    forall|k: int| 0 <= k < steps.len() ==> !(#[trigger] steps[k]).cancels(key)
}

/// No step of the series gives up the `Join` of the cell.
pub open spec fn never_closes<F, O, W>(steps: Seq<Step<F, O, W>>, key: int) -> bool {
    forall|k: int| 0 <= k < steps.len() ==> !(#[trigger] steps[k]).closes(key)
}

/// No step of the series uses the `Join` of the cell.
pub open spec fn never_uses<F, O, W>(steps: Seq<Step<F, O, W>>, key: int) -> bool {
    forall|k: int| 0 <= k < steps.len() ==> !(#[trigger] steps[k]).uses(key)
}

impl<F, O, W> RtView<F, O, W> {
    pub open spec fn apply(self, step: Step<F, O, W>) -> Self {
        match step {
            Step::Spawn { future, is_send } => self.spawn(future, is_send),
            Step::Wake { id } => self.wake(id),
            Step::Run { event, connected } => self.run(event, connected).0,
            Step::Cancel { key } => self.join_cancel(key),
            Step::Poll { key, waker } => self.join_poll(key, waker),
            Step::Close { key } => self.join_close(key),
        }
    }

    /// The runtime may be used like this now. No table outgrows its index.
    pub open spec fn enabled(self, step: Step<F, O, W>) -> bool {
        let after = self.apply(step);
        &&& after.tasks.entries.len() <= usize::MAX
        &&& after.send_tasks.entries.len() <= usize::MAX
        &&& after.joins.entries.len() <= usize::MAX
        &&& match step {
            Step::Spawn { .. } => true,
            Step::Wake { .. } => true,
            Step::Run { event, .. } => self.expects(event),
            Step::Cancel { key } => self.joinable(key) && !self.locked(key),
            Step::Poll { key, .. } => self.joinable(key) && !self.locked(key),
            Step::Close { key } => self.joinable(key),
        }
    }

    /// What the runtime has become after a series of uses.
    pub open spec fn after(self, steps: Seq<Step<F, O, W>>) -> Self
        decreases steps.len(),
    {
        if steps.len() == 0 {
            self
        } else {
            self.apply(steps[0]).after(steps.drop_first())
        }
    }

    /// The runtime may be used like this, one step after the other.
    pub open spec fn possible(self, steps: Seq<Step<F, O, W>>) -> bool
        decreases steps.len(),
    {
        steps.len() == 0 || (self.enabled(steps[0]) && self.apply(steps[0]).possible(
            steps.drop_first(),
        ))
    }

    /// The runtime is about to serve the oldest message.
    pub open spec fn serves(self, step: Step<F, O, W>) -> bool {
        self.queue.len() > 0 && match step {
            Step::Run { event, .. } => !(event is Ready),
            _ => false,
        }
    }

    /// How many messages are served in the course of a series.
    pub open spec fn served(self, steps: Seq<Step<F, O, W>>) -> nat
        decreases steps.len(),
    {
        if steps.len() == 0 {
            0
        } else {
            (if self.serves(steps[0]) {
                1nat
            } else {
                0nat
            }) + self.apply(steps[0]).served(steps.drop_first())
        }
    }

    /// The messages that are sent in one step.
    pub open spec fn sends(self, step: Step<F, O, W>) -> Seq<Message<F>> {
        match step {
            Step::Spawn { future, is_send } => {
                let task = Task {
                    future: Some(future),
                    id: None,
                    join: self.joins.next() as usize,
                };
                seq![
                    if is_send {
                        Message::SendTask(task)
                    } else {
                        Message::Task(task)
                    },
                ]
            },
            Step::Wake { id } => seq![Message::Id(id)],
            _ => Seq::empty(),
        }
    }

    /// The messages that are sent in the course of a series.
    pub open spec fn sent(self, steps: Seq<Step<F, O, W>>) -> Seq<Message<F>>
        decreases steps.len(),
    {
        if steps.len() == 0 {
            Seq::empty()
        } else {
            self.sends(steps[0]) + self.apply(steps[0]).sent(steps.drop_first())
        }
    }

    /// The state in which the next message is served: the future that was polled is back.
    pub open spec fn start(self, event: Event<F, O>) -> Self {
        match event {
            Event::Pending(future) => self.give_back(future),
            _ => self,
        }
    }

    /// The task of the cell has completed or was dropped.
    pub open spec fn ended(self, key: int) -> bool {
        !self.joins.live(key) || self.cell(key).task is Gone
    }

    /// The step gives out the future of the cell's task to be polled.
    pub open spec fn gives_out(self, step: Step<F, O, W>, key: int) -> bool {
        match step {
            Step::Run { event, connected } => match self.run(event, connected).1 {
                Action::Poll { id, .. } => self.apply(step).task(id).join == key,
                _ => false,
            },
            _ => false,
        }
    }

    /// The step serves a message that is about the cell's task.
    pub open spec fn calls(self, step: Step<F, O, W>, key: int) -> bool {
        self.serves(step) && match self.cell(key).task {
            Place::Queue { .. } => Self::key_of(self.queue[0]) == Some(key),
            Place::Table(id) => self.queue[0] == Message::<F>::Id(id),
            Place::Gone => false,
        }
    }

    /// The step wakes the cell's task.
    pub open spec fn wakes(self, step: Step<F, O, W>, key: int) -> bool {
        step matches Step::Wake { id } && self.cell(key).task == Place::Table(id)
    }

    /// The step ends the cell's task with its output.
    pub open spec fn completes_in(self, step: Step<F, O, W>, key: int) -> bool {
        step matches Step::Run { event, .. } && event is Ready && self.locked(key)
    }

    /// The step ends the cell's task, which was cancelled.
    pub open spec fn drops_in(self, step: Step<F, O, W>, key: int) -> bool {
        match step {
            Step::Run { event, connected } => match self.run(event, connected).1 {
                Action::Cancelled { id, .. } => self.start(event).receive().task(id).join == key,
                _ => false,
            },
            _ => false,
        }
    }
}

/// What holds of all steps of a series holds of the first and of all others.
pub(crate) proof fn lemma_rest<F, O, W>(steps: Seq<Step<F, O, W>>, key: int)
    requires
        steps.len() > 0,
    ensures
        never_closes(steps, key) ==> !steps[0].closes(key) && never_closes(steps.drop_first(), key),
        never_cancels(steps, key) ==> !steps[0].cancels(key) && never_cancels(
            steps.drop_first(),
            key,
        ),
        never_uses(steps, key) <==> !steps[0].uses(key) && never_uses(steps.drop_first(), key),
{
    let rest = steps.drop_first();
    assert forall|k: int| 0 <= k < rest.len() implies #[trigger] rest[k] == steps[k + 1] by {}
    assert forall|k: int| 1 <= k < steps.len() implies #[trigger] steps[k] == rest[k - 1] by {}
}

/// What every operation keeps.
pub proof fn law_step_keeps_invariant<F, O, W>(rt: RtView<F, O, W>, step: Step<F, O, W>)
    requires
        rt.inv(),
        rt.enabled(step),
    ensures
        rt.apply(step).inv(),
{
    match step {
        Step::Spawn { future, is_send } => {
            crate::slots::lemma_insert_wf(rt.joins, InnerJoin::fresh(is_send));
            crate::model::lemma_spawn_inv(rt, future, is_send);
        },
        Step::Wake { id } => {
            crate::model::lemma_wake_inv(rt, id);
        },
        Step::Run { event, connected } => {
            match event {
                Event::Resume => {
                    lemma_dispatch_inv(rt, connected);
                },
                Event::Pending(future) => {
                    crate::model::lemma_give_back_inv(rt, future);
                    lemma_dispatch_inv(rt.give_back(future), connected);
                },
                Event::Ready(output) => {
                    crate::model::lemma_complete_inv(rt, output);
                },
            }
        },
        Step::Cancel { key } => {
            crate::model::lemma_join_cancel_inv(rt, key);
        },
        Step::Poll { key, waker } => {
            crate::model::lemma_join_poll_inv(rt, key, waker);
        },
        Step::Close { key } => {
            crate::model::lemma_join_close_inv(rt, key);
        },
    }
}

proof fn lemma_dispatch_inv<F, O, W>(rt: RtView<F, O, W>, connected: bool)
    requires
        rt.inv(),
        rt.current is None,
        rt.dispatch(connected).0.tasks.entries.len() <= usize::MAX,
        rt.dispatch(connected).0.send_tasks.entries.len() <= usize::MAX,
    ensures
        rt.dispatch(connected).0.inv(),
{
    if rt.queue.len() > 0 {
        crate::model::lemma_receive_inv(rt);
        let id = rt.receive_id();
        let next = rt.receive();
        if next.live(id) {
            if next.cell(next.task(id).join as int).output is Pending {
                crate::model::lemma_lend_inv(next, id);
            } else {
                crate::model::lemma_retire_inv(next, id);
            }
        }
    }
}

/// A new runtime has the invariant.
pub proof fn law_invariant_holds_at_the_start<F, O, W>()
    ensures
        RtView::<F, O, W>::empty().inv(),
{
}

/// However the runtime is used, its invariant goes on to hold: from its start on it always does.
pub proof fn law_invariant_always_holds<F, O, W>(
    rt: RtView<F, O, W>,
    steps: Seq<Step<F, O, W>>,
)
    requires
        rt.inv(),
        rt.possible(steps),
    ensures
        rt.after(steps).inv(),
    decreases steps.len(),
{
    if steps.len() > 0 {
        law_step_keeps_invariant(rt, steps[0]);
        law_invariant_always_holds(rt.apply(steps[0]), steps.drop_first());
    }
}

/// Messages are served in the order in which they were sent, each once, and none is lost.
pub proof fn law_first_sent_first_served<F, O, W>(
    rt: RtView<F, O, W>,
    steps: Seq<Step<F, O, W>>,
)
    requires
        rt.inv(),
        rt.possible(steps),
    ensures
        rt.served(steps) <= rt.queue.len() + rt.sent(steps).len(),
        rt.after(steps).queue == (rt.queue + rt.sent(steps)).skip(rt.served(steps) as int),
    decreases steps.len(),
{
    if steps.len() > 0 {
        let next = rt.apply(steps[0]);
        let rest = steps.drop_first();
        law_step_keeps_invariant(rt, steps[0]);
        law_first_sent_first_served(next, rest);
        lemma_one_step_of_the_queue(rt, steps[0]);
        let one = if rt.serves(steps[0]) { 1int } else { 0int };
        assert((rt.queue + rt.sent(steps)).skip(rt.served(steps) as int) =~= (((rt.queue
            + rt.sends(steps[0])).skip(one)) + next.sent(rest)).skip(next.served(rest) as int));
    } else {
        assert((rt.queue + rt.sent(steps)).skip(0) =~= rt.queue);
    }
}

pub(crate) proof fn lemma_one_step_of_the_queue<F, O, W>(rt: RtView<F, O, W>, step: Step<F, O, W>)
    requires
        rt.inv(),
        rt.enabled(step),
    ensures
        rt.apply(step).queue == (rt.queue + rt.sends(step)).skip(
            if rt.serves(step) {
                1int
            } else {
                0int
            },
        ),
{
    assert((rt.queue + Seq::<Message<F>>::empty()).skip(0) =~= rt.queue);
    assert((rt.queue + Seq::<Message<F>>::empty()).skip(1) =~= rt.queue.skip(1));
    if rt.queue.len() > 0 {
        assert(rt.queue.skip(1) =~= rt.queue.drop_first());
    }
    assert(rt.apply(step).queue =~= (rt.queue + rt.sends(step)).skip(
        if rt.serves(step) {
            1int
        } else {
            0int
        },
    ));
}

/// No two tasks share a cell: what one gives never comes out of the `Join` of another.
pub proof fn law_tasks_have_cells_of_their_own<F, O, W>(rt: RtView<F, O, W>, id: Id, other: Id)
    requires
        rt.inv(),
        rt.live(id),
        rt.live(other),
        rt.task(id).join == rt.task(other).join,
    ensures
        id == other,
{
    assert(rt.task_ok(id));
    assert(rt.task_ok(other));
}

/// A new task gets an id that no other task has.
pub proof fn law_new_id_is_vacant<F, O, W>(rt: RtView<F, O, W>, is_send: bool)
    requires
        rt.inv(),
    ensures
        !rt.live(rt.next_id(is_send)),
{
}

/// A step that does not use a `Join` leaves its cell, but that the task may move on, or end
/// with its output in the cell; an output that is ready stays.
pub proof fn law_other_joins_are_left_alone<F, O, W>(rt: RtView<F, O, W>, step: Step<F, O, W>, key: int)
    requires
        rt.inv(),
        rt.enabled(step),
        rt.joins.live(key),
        !step.uses(key),
    ensures
        rt.cell(key).handle ==> rt.apply(step).joins.live(key),
        rt.cell(key).task is Gone ==> rt.apply(step).joins.live(key) && rt.apply(step).cell(key)
            == rt.cell(key),
        rt.apply(step).joins.live(key) ==> {
            let cell = rt.apply(step).cell(key);
            &&& cell.handle == rt.cell(key).handle
            &&& cell.output == rt.cell(key).output || cell.task is Gone
            &&& rt.cell(key).output is Ready ==> cell.output == rt.cell(key).output
            &&& cell.waker == rt.cell(key).waker
        },
{
    assert(rt.cell_ok(key));
    match step {
        Step::Run { event, connected } => {
            match event {
                Event::Resume => {
                    lemma_dispatch_on_cells(rt, connected, key);
                },
                Event::Pending(future) => {
                    crate::model::lemma_give_back_inv(rt, future);
                    lemma_dispatch_on_cells(rt.give_back(future), connected, key);
                },
                Event::Ready(output) => {
                    assert(rt.task_ok(rt.current->0));
                },
            }
        },
        _ => {},
    }
}

proof fn lemma_dispatch_on_cells<F, O, W>(rt: RtView<F, O, W>, connected: bool, key: int)
    requires
        rt.inv(),
        rt.current is None,
        rt.dispatch(connected).0.tasks.entries.len() <= usize::MAX,
        rt.dispatch(connected).0.send_tasks.entries.len() <= usize::MAX,
        rt.joins.live(key),
    ensures
        ({
            let after = rt.dispatch(connected).0;
            let cell = after.cell(key);
            &&& rt.cell(key).handle ==> after.joins.live(key)
            &&& rt.cell(key).task is Gone ==> after.joins.live(key) && cell == rt.cell(key)
            &&& after.joins.live(key) ==> {
                &&& cell.handle == rt.cell(key).handle
                &&& cell.output == rt.cell(key).output
                &&& cell.waker == rt.cell(key).waker
            }
        }),
{
    assert(rt.cell_ok(key));
    if rt.queue.len() > 0 {
        assert(rt.message_ok(rt.queue[0]));
        crate::model::lemma_receive_inv(rt);
        let next = rt.receive();
        let id = rt.receive_id();
        assert(next.joins.live(key));
        assert(next.cell(key) == (InnerJoin { task: next.cell(key).task, ..rt.cell(key) }));
        assert(rt.cell(key).task is Gone ==> next.cell(key) == rt.cell(key));
        if next.live(id) {
            assert(next.task_ok(id));
        }
    }
}

/// A message comes to be the oldest when exactly those before it have been served.
pub proof fn law_message_gets_its_turn<F, O, W>(
    rt: RtView<F, O, W>,
    k: int,
    steps: Seq<Step<F, O, W>>,
)
    requires
        rt.inv(),
        rt.possible(steps),
        0 <= k < rt.queue.len(),
        rt.served(steps) == k,
    ensures
        rt.after(steps).queue.len() > 0,
        rt.after(steps).queue[0] == rt.queue[k],
{
    law_first_sent_first_served(rt, steps);
}

/// A poll that leaves the future as it was, and sends nothing, changes nothing.
pub proof fn law_giving_back_undoes_lending<F, O, W>(rt: RtView<F, O, W>, id: Id)
    requires
        rt.inv(),
        rt.current is None,
        rt.live(id),
    ensures
        rt.lend(id).give_back(rt.task(id).future->0) == rt,
{
    assert(rt.task_ok(id));
    assert(rt.lend(id).give_back(rt.task(id).future->0) =~= rt);
}

/// A cell is kept only as long as its task or its `Join` is about.
pub proof fn law_no_cell_outlives_its_users<F, O, W>(rt: RtView<F, O, W>, key: int)
    requires
        rt.inv(),
        rt.joins.live(key),
    ensures
        rt.joinable(key) || rt.queued(key) || exists|id: Id| #[trigger]
            rt.live(id) && rt.task(id).join == key,
{
    assert(rt.cell_ok(key));
}

/// A task that a step is not about is left as it is, but that a future which was polled comes
/// back to the task that was out.
pub proof fn law_other_tasks_are_left_alone<F, O, W>(
    rt: RtView<F, O, W>,
    step: Step<F, O, W>,
    id: Id,
)
    requires
        rt.inv(),
        rt.enabled(step),
        rt.live(id),
        step matches Step::Run { event, connected } ==> rt.run(event, connected).1.id() != Some(id),
    ensures
        rt.apply(step).live(id),
        rt.apply(step).task(id) == (match step {
            Step::Run { event: Event::Pending(future), .. } if rt.current == Some(id) => Task {
                future: Some(future),
                ..rt.task(id)
            },
            _ => rt.task(id),
        }),
{
    match step {
        Step::Run { event, connected } => {
            match event {
                Event::Resume => {
                    lemma_dispatch_on_tasks(rt, connected, id);
                },
                Event::Pending(future) => {
                    crate::model::lemma_give_back_inv(rt, future);
                    lemma_dispatch_on_tasks(rt.give_back(future), connected, id);
                },
                Event::Ready(_) => {},
            }
        },
        _ => {},
    }
}

proof fn lemma_dispatch_on_tasks<F, O, W>(rt: RtView<F, O, W>, connected: bool, id: Id)
    requires
        rt.inv(),
        rt.live(id),
        rt.dispatch(connected).1.id() != Some(id),
    ensures
        rt.dispatch(connected).0.live(id),
        rt.dispatch(connected).0.task(id) == rt.task(id),
{
    if rt.queue.len() > 0 {
        let next = rt.receive();
        assert(next.live(id) && next.task(id) == rt.task(id)) by {
            law_new_id_is_vacant(rt, true);
            law_new_id_is_vacant(rt, false);
        }
        let served = rt.receive_id();
        assert(served != id);
        if next.live(served) {
            assert(next.lend(served).live(id) && next.lend(served).task(id) == next.task(id));
            assert(next.retire(served).live(id) && next.retire(served).task(id) == next.task(id));
        }
    }
}

} // verus!
