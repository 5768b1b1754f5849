use std::sync::Arc;
use vstd::prelude::*;

use crate::channel::Message;
use crate::slots::SlotsView;
use crate::task::{Id, InnerJoin, Place, Poll, Task};

verus! {

/// What the runtime is told.
#[derive(Debug, PartialEq, Eq)]
pub enum Event<F, O> {
    /// Nothing is out to be polled: go on.
    Resume,
    /// The future that was out to be polled is not done.
    Pending(F),
    /// The future that was out to be polled gave its output.
    Ready(O),
}

/// What the runtime asks for.
#[must_use]
#[derive(Debug, PartialEq, Eq)]
pub enum Action<F, O, W> {
    /// Poll `future`, with a waker of `id`, and tell what it gave.
    Poll { id: Id, future: F },
    /// Drop the future of a task that was cancelled, then resume.
    Cancelled { id: Id, future: F },
    /// Wake `waker` and drop `unclaimed`, an output that nobody can get any more, then
    /// resume.
    Completed { id: Id, waker: Option<Arc<W>>, unclaimed: Option<O> },
    /// No task is kept under an id that was woken.
    Vacant { id: Id },
    /// Wait for a spawner or a waker to send a message, then resume.
    Wait,
    /// Every task has completed or was cancelled and dropped, and there is nobody left to send
    /// a message.
    Return,
}

impl<F, O, W> Action<F, O, W> {
    /// The task that the action is about.
    pub open spec fn id(self) -> Option<Id> {
        match self {
            Action::Poll { id, .. } => Some(id),
            Action::Cancelled { id, .. } => Some(id),
            Action::Completed { id, .. } => Some(id),
            Action::Vacant { id } => Some(id),
            Action::Wait => None,
            Action::Return => None,
        }
    }
}

/// The state of the runtime.
#[verifier::ext_equal]
pub struct RtView<F, O, W> {
    /// The messages under way, the oldest first.
    pub queue: Seq<Message<F>>,
    /// The tasks of `Spawner`.
    pub tasks: SlotsView<Task<F>>,
    /// The tasks of `SendSpawner`.
    pub send_tasks: SlotsView<Task<F>>,
    /// The cells that tasks share with their `Join`.
    pub joins: SlotsView<InnerJoin<O, W>>,
    /// The task whose future is out to be polled.
    pub current: Option<Id>,
}

impl<F, O, W> RtView<F, O, W> {
    pub open spec fn empty() -> Self {
        RtView {
            queue: Seq::empty(),
            tasks: SlotsView::empty(),
            send_tasks: SlotsView::empty(),
            joins: SlotsView::empty(),
            current: None,
        }
    }

    pub open spec fn table(self, is_send: bool) -> SlotsView<Task<F>> {
        if is_send {
            self.send_tasks
        } else {
            self.tasks
        }
    }

    pub open spec fn with_table(self, is_send: bool, table: SlotsView<Task<F>>) -> Self {
        if is_send {
            RtView { send_tasks: table, ..self }
        } else {
            RtView { tasks: table, ..self }
        }
    }

    /// A task is kept under `id`.
    pub open spec fn live(self, id: Id) -> bool {
        self.table(id.is_send).live(id.i as int)
    }

    /// The task that is kept under `id`.
    pub open spec fn task(self, id: Id) -> Task<F> {
        self.table(id.is_send).at(id.i as int)
    }

    /// The number of tasks kept.
    pub open spec fn count(self) -> int {
        self.tasks.count() + self.send_tasks.count()
    }

    pub open spec fn cell(self, key: int) -> InnerJoin<O, W> {
        self.joins.at(key)
    }

    pub open spec fn set_task(self, id: Id, task: Task<F>) -> Self {
        self.with_table(id.is_send, self.table(id.is_send).set(id.i as int, task))
    }

    pub open spec fn set_cell(self, key: int, cell: InnerJoin<O, W>) -> Self {
        RtView { joins: self.joins.set(key, cell), ..self }
    }

    /// A `Join` with this key is about.
    pub open spec fn joinable(self, key: int) -> bool {
        self.joins.live(key) && self.cell(key).handle
    }

    /// The task of the cell is out to be polled.
    pub open spec fn locked(self, key: int) -> bool {
        self.current is Some && self.task(self.current->0).join == key
    }

    /// Sends a new task on its way, with a cell of its own.
    pub open spec fn spawn(self, future: F, is_send: bool) -> Self {
        let task = Task { future: Some(future), id: None, join: self.joins.next() as usize };
        RtView {
            queue: self.queue.push(
                if is_send {
                    Message::SendTask(task)
                } else {
                    Message::Task(task)
                },
            ),
            joins: self.joins.insert(InnerJoin::fresh(is_send)),
            ..self
        }
    }

    pub open spec fn wake(self, id: Id) -> Self {
        RtView { queue: self.queue.push(Message::Id(id)), ..self }
    }

    /// The id that a task gets which is taken in now.
    pub open spec fn next_id(self, is_send: bool) -> Id {
        Id { i: self.table(is_send).next() as usize, is_send }
    }

    /// Takes in a task.
    pub open spec fn take_in(self, task: Task<F>, is_send: bool) -> Self {
        let id = self.next_id(is_send);
        let cell = InnerJoin { task: Place::Table(id), ..self.cell(task.join as int) };
        self.set_cell(task.join as int, cell).with_table(
            is_send,
            self.table(is_send).insert(Task { id: Some(id), ..task }),
        )
    }

    /// Takes out the oldest message, and the task in it in.
    pub open spec fn receive(self) -> Self {
        let rest = RtView { queue: self.queue.drop_first(), ..self };
        match self.queue[0] {
            Message::Id(_) => rest,
            Message::SendTask(task) => rest.take_in(task, true),
            Message::Task(task) => rest.take_in(task, false),
        }
    }

    /// The task that the oldest message is about.
    pub open spec fn receive_id(self) -> Id {
        match self.queue[0] {
            Message::Id(id) => id,
            Message::SendTask(_) => self.next_id(true),
            Message::Task(_) => self.next_id(false),
        }
    }

    /// Gives out the future of a task to be polled.
    pub open spec fn lend(self, id: Id) -> Self {
        RtView {
            current: Some(id),
            ..self.set_task(id, Task { future: None, ..self.task(id) })
        }
    }

    /// Takes back the future that was polled.
    pub open spec fn give_back(self, future: F) -> Self {
        let id = self.current->0;
        RtView {
            current: None,
            ..self.set_task(id, Task { future: Some(future), ..self.task(id) })
        }
    }

    /// Gives up a task; its cell too, where its `Join` is gone.
    pub open spec fn retire(self, id: Id) -> Self {
        let key = self.task(id).join as int;
        let cell = self.cell(key);
        let joins = if cell.handle {
            self.joins.set(key, InnerJoin { task: Place::Gone, ..cell })
        } else {
            self.joins.remove(key)
        };
        RtView {
            joins,
            ..self.with_table(id.is_send, self.table(id.is_send).remove(id.i as int))
        }
    }

    /// Serves the oldest message.
    pub open spec fn dispatch(self, connected: bool) -> (Self, Action<F, O, W>) {
        if self.queue.len() == 0 {
            (self, if connected || self.count() > 0 { Action::Wait } else { Action::Return })
        } else {
            let id = self.receive_id();
            let next = self.receive();
            if !next.live(id) {
                (next, Action::Vacant { id })
            } else {
                let task = next.task(id);
                if next.cell(task.join as int).output is Pending {
                    (next.lend(id), Action::Poll { id, future: task.future->0 })
                } else {
                    (next.retire(id), Action::Cancelled { id, future: task.future->0 })
                }
            }
        }
    }

    /// Ends the task that was polled with its output.
    pub open spec fn complete(self, output: O) -> (Self, Action<F, O, W>) {
        let id = self.current->0;
        let key = self.task(id).join as int;
        let cell = self.cell(key);
        (
            RtView { current: None, ..self.set_cell(key, cell.completed(output)).retire(id) },
            Action::Completed {
                id,
                waker: cell.waker,
                unclaimed: if cell.handle { None } else { Some(output) },
            },
        )
    }

    /// The event is the answer to what was asked for.
    pub open spec fn expects(self, event: Event<F, O>) -> bool {
        event is Resume <==> self.current is None
    }

    pub open spec fn run(self, event: Event<F, O>, connected: bool) -> (
        Self,
        Action<F, O, W>,
    ) {
        match event {
            Event::Resume => self.dispatch(connected),
            Event::Pending(future) => self.give_back(future).dispatch(connected),
            Event::Ready(output) => self.complete(output),
        }
    }

    pub open spec fn join_cancel(self, key: int) -> Self {
        self.set_cell(key, self.cell(key).cancelled())
    }

    pub open spec fn join_poll(self, key: int, waker: Arc<W>) -> Self {
        self.set_cell(key, self.cell(key).polled(waker))
    }

    /// Gives up a `Join`; its cell too, where the task is gone.
    pub open spec fn join_close(self, key: int) -> Self {
        let cell = self.cell(key);
        if cell.task is Gone {
            RtView { joins: self.joins.remove(key), ..self }
        } else {
            self.set_cell(key, InnerJoin { handle: false, ..cell })
        }
    }

    /// The cell of a task on its way.
    pub open spec fn key_of(message: Message<F>) -> Option<int> {
        match message {
            Message::Id(_) => None,
            Message::SendTask(task) => Some(task.join as int),
            Message::Task(task) => Some(task.join as int),
        }
    }

    pub open spec fn queued_ok(self, task: Task<F>, is_send: bool) -> bool {
        &&& task.future is Some
        &&& task.id is None
        &&& self.joins.live(task.join as int)
        &&& self.cell(task.join as int).task == (Place::Queue { is_send })
    }

    /// A task on its way is whole, and its cell knows of it.
    pub open spec fn message_ok(self, message: Message<F>) -> bool {
        match message {
            Message::Id(_) => true,
            Message::SendTask(task) => self.queued_ok(task, true),
            Message::Task(task) => self.queued_ok(task, false),
        }
    }

    /// A task knows its id, its cell knows of it, and only the task that is out to be
    /// polled is without its future.
    pub open spec fn task_ok(self, id: Id) -> bool {
        let task = self.task(id);
        &&& task.id == Some(id)
        &&& self.joins.live(task.join as int)
        &&& self.cell(task.join as int).task == Place::Table(id)
        &&& (task.future is None <==> self.current == Some(id))
    }

    /// Some task on its way has this cell.
    pub open spec fn queued(self, key: int) -> bool {
        exists|k: int| 0 <= k < self.queue.len() && Self::key_of(#[trigger] self.queue[k]) == Some(key)
    }

    /// A cell is held by its task or its `Join`, and no output is in it before its task is
    /// gone.
    pub open spec fn cell_ok(self, key: int) -> bool {
        let cell = self.cell(key);
        match cell.task {
            Place::Queue { .. } => {
                &&& cell.output == Poll::<Option<O>>::Pending || cell.output == Poll::<
                    Option<O>,
                >::Ready(None)
                &&& self.queued(key)
            },
            Place::Table(id) => {
                &&& cell.output == Poll::<Option<O>>::Pending || cell.output == Poll::<
                    Option<O>,
                >::Ready(None)
                &&& self.live(id)
                &&& self.task(id).join == key
            },
            Place::Gone => cell.handle && cell.output is Ready,
        }
    }

    pub open spec fn inv(self) -> bool {
        &&& self.tasks.wf()
        &&& self.send_tasks.wf()
        &&& self.joins.wf()
        &&& forall|k: int|
            0 <= k < self.queue.len() ==> self.message_ok(#[trigger] self.queue[k])
        &&& forall|k: int, l: int|
            0 <= k < l < self.queue.len() && Self::key_of(#[trigger] self.queue[k]) is Some
                ==> Self::key_of(self.queue[k]) != Self::key_of(#[trigger] self.queue[l])
        &&& forall|id: Id| #[trigger] self.live(id) ==> self.task_ok(id)
        &&& forall|key: int| #[trigger] self.joins.live(key) ==> self.cell_ok(key)
        &&& self.current matches Some(id) ==> self.live(id) && self.cell(
            self.task(id).join as int,
        ).output is Pending
    }
}

pub(crate) proof fn lemma_spawn_inv<F, O, W>(rt: RtView<F, O, W>, future: F, is_send: bool)
    requires
        rt.inv(),
        rt.joins.insert(InnerJoin::fresh(is_send)).wf(),
    ensures
        rt.spawn(future, is_send).inv(),
{
    let after = rt.spawn(future, is_send);
    let key = rt.joins.next();
    assert(!rt.joins.live(key));
    assert(after.joins.live(key));
    assert forall|k: int| k != key implies #[trigger] after.joins.live(k) == rt.joins.live(k) && (
    rt.joins.live(k) ==> after.cell(k) == rt.cell(k)) by {}
    assert forall|k: int| #[trigger] after.joins.live(k) implies after.cell_ok(k) by {
        if k == key {
            assert(RtView::<F, O, W>::key_of(after.queue[rt.queue.len() as int]) == Some(key));
        } else {
            assert(rt.joins.live(k));
            assert(rt.cell_ok(k));
            if rt.cell(k).task is Queue {
                let p = choose|p: int| 0 <= p < rt.queue.len() && RtView::<F, O, W>::key_of(#[trigger] rt.queue[p]) == Some(k);
                assert(after.queue[p] == rt.queue[p]);
            }
        }
    }
    assert forall|k: int| 0 <= k < after.queue.len() implies after.message_ok(#[trigger] after.queue[k]) by {
        if k < rt.queue.len() {
            assert(rt.message_ok(rt.queue[k]));
        }
    }
    assert forall|k: int, l: int|
        0 <= k < l < after.queue.len() && RtView::<F, O, W>::key_of(#[trigger] after.queue[k]) is Some implies RtView::<F, O, W>::key_of(after.queue[k]) != RtView::<F, O, W>::key_of(#[trigger] after.queue[l]) by {
        assert(rt.message_ok(rt.queue[k]));
    }
    assert forall|id: Id| #[trigger] after.live(id) implies after.task_ok(id) by {
        assert(rt.live(id));
        assert(rt.task_ok(id));
    }
}


pub(crate) proof fn lemma_wake_inv<F, O, W>(rt: RtView<F, O, W>, id: Id)
    requires
        rt.inv(),
    ensures
        rt.wake(id).inv(),
{
    let after = rt.wake(id);
    assert forall|k: int| 0 <= k < after.queue.len() implies after.message_ok(
        #[trigger] after.queue[k],
    ) by {
        if k < rt.queue.len() {
            assert(rt.message_ok(rt.queue[k]));
        }
    }
    assert forall|id: Id| #[trigger] after.live(id) implies after.task_ok(id) by {
        assert(rt.live(id));
    }
    assert forall|key: int| #[trigger] after.joins.live(key) implies after.cell_ok(key) by {
        assert(rt.cell_ok(key));
        if rt.cell(key).task is Queue {
            let p = choose|p: int|
                0 <= p < rt.queue.len() && RtView::<F, O, W>::key_of(#[trigger] rt.queue[p]) == Some(key);
            assert(after.queue[p] == rt.queue[p]);
        }
    }
}

/// Taking out the oldest message, with the task in it, keeps the invariant.
pub(crate) proof fn lemma_receive_inv<F, O, W>(rt: RtView<F, O, W>)
    requires
        rt.inv(),
        rt.queue.len() > 0,
        rt.current is None,
        rt.receive().tasks.entries.len() <= usize::MAX,
        rt.receive().send_tasks.entries.len() <= usize::MAX,
    ensures
        rt.receive().inv(),
        rt.receive().queue == rt.queue.drop_first(),
        rt.receive().current is None,
{
    let after = rt.receive();
    let first = rt.queue[0];
    assert(rt.message_ok(first));
    assert(after.queue =~= rt.queue.drop_first());
    assert forall|k: int| 0 <= k < after.queue.len() implies after.queue[k] == #[trigger] rt.queue[
    k + 1] by {}
    if first is Id {
        assert forall|k: int| 0 <= k < after.queue.len() implies after.message_ok(
            #[trigger] after.queue[k],
        ) by {
            assert(rt.message_ok(rt.queue[k + 1]));
        }
        assert forall|id: Id| #[trigger] after.live(id) implies after.task_ok(id) by {
            assert(rt.live(id));
        }
        assert forall|key: int| #[trigger] after.joins.live(key) implies after.cell_ok(key) by {
            assert(rt.cell_ok(key));
            if rt.cell(key).task is Queue {
                let p = choose|p: int|
                    0 <= p < rt.queue.len() && RtView::<F, O, W>::key_of(#[trigger] rt.queue[p])
                        == Some(key);
                assert(after.queue[p - 1] == rt.queue[p]);
            }
        }
    } else {
        let is_send = first is SendTask;
        let task = if is_send { first->SendTask_0 } else { first->Task_0 };
        let key = task.join as int;
        let id = rt.next_id(is_send);
        let kept = Task { id: Some(id), ..task };
        crate::slots::lemma_insert_wf(rt.table(is_send), kept);
        assert(!rt.live(id));
        assert(after.live(id) && after.task(id) == kept);
        assert forall|other: Id| other != id implies #[trigger] after.live(other) == rt.live(other)
            && (rt.live(other) ==> after.task(other) == rt.task(other)) by {}
        assert(rt.cell(key).task == (Place::Queue { is_send }));
        assert forall|k: int| k != key implies #[trigger] after.joins.live(k) == rt.joins.live(k)
            && (rt.joins.live(k) ==> after.cell(k) == rt.cell(k)) by {}
        assert forall|other: Id| #[trigger] after.live(other) implies after.task_ok(other) by {
            if other != id {
                assert(rt.live(other));
                assert(rt.task_ok(other));
            }
        }
        assert forall|k: int| 0 <= k < after.queue.len() implies after.message_ok(
            #[trigger] after.queue[k],
        ) by {
            assert(rt.message_ok(rt.queue[k + 1]));
            assert(RtView::<F, O, W>::key_of(rt.queue[0]) != RtView::<F, O, W>::key_of(
                rt.queue[k + 1],
            ));
        }
        assert forall|k: int| #[trigger] after.joins.live(k) implies after.cell_ok(k) by {
            assert(rt.joins.live(k));
            assert(rt.cell_ok(k));
            if k != key {
                if rt.cell(k).task is Queue {
                    let p = choose|p: int|
                        0 <= p < rt.queue.len() && RtView::<F, O, W>::key_of(
                            #[trigger] rt.queue[p],
                        ) == Some(k);
                    assert(after.queue[p - 1] == rt.queue[p]);
                }
            }
        }
    }
}

/// Giving out the future of a task whose output is pending keeps the invariant.
pub(crate) proof fn lemma_lend_inv<F, O, W>(rt: RtView<F, O, W>, id: Id)
    requires
        rt.inv(),
        rt.current is None,
        rt.live(id),
        rt.cell(rt.task(id).join as int).output is Pending,
    ensures
        rt.lend(id).inv(),
{
    let after = rt.lend(id);
    lemma_same_lives(rt, after, id);
}

/// Taking the future back keeps the invariant.
pub(crate) proof fn lemma_give_back_inv<F, O, W>(rt: RtView<F, O, W>, future: F)
    requires
        rt.inv(),
        rt.current is Some,
    ensures
        rt.give_back(future).inv(),
{
    let after = rt.give_back(future);
    lemma_same_lives(rt, after, rt.current->0);
}

/// A change of nothing but the future of one task, and of who is out to be polled, keeps
/// what is said of messages and cells.
proof fn lemma_same_lives<F, O, W>(rt: RtView<F, O, W>, after: RtView<F, O, W>, id: Id)
    requires
        rt.inv(),
        rt.live(id),
        after == (RtView {
            current: after.current,
            ..rt.set_task(id, Task { future: after.task(id).future, ..rt.task(id) })
        }),
        after.current is None || after.current == Some(id),
        rt.current is None || rt.current == Some(id),
        after.task(id).future is None <==> after.current == Some(id),
        after.current is Some ==> rt.cell(rt.task(id).join as int).output is Pending,
    ensures
        after.inv(),
{
    assert forall|other: Id| #[trigger] after.live(other) == rt.live(other) && (other != id
        && rt.live(other) ==> after.task(other) == rt.task(other)) by {}
    assert forall|other: Id| #[trigger] after.live(other) implies after.task_ok(other) by {
        assert(rt.live(other));
        assert(rt.task_ok(other));
    }
    assert forall|k: int| 0 <= k < after.queue.len() implies after.message_ok(
        #[trigger] after.queue[k],
    ) by {
        assert(rt.message_ok(rt.queue[k]));
    }
    assert forall|key: int| #[trigger] after.joins.live(key) implies after.cell_ok(key) by {
        assert(rt.joins.live(key));
        assert(rt.cell_ok(key));
    }
}

/// Giving up a task keeps the invariant.
pub(crate) proof fn lemma_retire_inv<F, O, W>(rt: RtView<F, O, W>, id: Id)
    requires
        rt.inv(),
        rt.current is None,
        rt.live(id),
        rt.cell(rt.task(id).join as int).output is Ready,
    ensures
        rt.retire(id).inv(),
{
    let key = rt.task(id).join as int;
    assert(rt.task_ok(id));
    assert(rt.set_cell(key, rt.cell(key)) =~= rt);
    lemma_ending_inv(rt, id, rt.cell(key));
}

/// Giving up a task with its cell changed to `cell` keeps the invariant.
proof fn lemma_ending_inv<F, O, W>(rt: RtView<F, O, W>, id: Id, cell: InnerJoin<O, W>)
    requires
        rt.inv(),
        rt.current is None || rt.current == Some(id),
        rt.live(id),
        cell.output is Ready,
        cell.handle == rt.cell(rt.task(id).join as int).handle,
        cell.task == rt.cell(rt.task(id).join as int).task,
    ensures
        (RtView {
            current: None,
            ..rt.set_cell(rt.task(id).join as int, cell).retire(id)
        }).inv(),
{
    let key = rt.task(id).join as int;
    let changed = rt.set_cell(key, cell);
    let after = RtView { current: None, ..changed.retire(id) };
    assert(rt.task_ok(id));
    assert(rt.joins.live(key));
    assert(rt.cell_ok(key));
    assert(changed.joins.wf());
    crate::slots::lemma_remove_wf(changed.joins, key);
    crate::slots::lemma_remove_wf(rt.table(id.is_send), id.i as int);
    assert forall|other: Id| #[trigger] after.live(other) implies other != id && rt.live(other)
        && after.task(other) == rt.task(other) by {}
    assert forall|other: Id| other != id && rt.live(other) implies #[trigger] after.live(other) by {}
    assert forall|k: int| k != key implies #[trigger] after.joins.live(k) == rt.joins.live(k)
        && (rt.joins.live(k) ==> after.cell(k) == rt.cell(k)) by {}
    assert forall|other: Id| #[trigger] after.live(other) implies after.task_ok(other) by {
        assert(rt.live(other));
        assert(rt.task_ok(other));
    }
    assert forall|k: int| 0 <= k < after.queue.len() implies after.message_ok(
        #[trigger] after.queue[k],
    ) by {
        assert(rt.message_ok(rt.queue[k]));
    }
    assert forall|k: int| #[trigger] after.joins.live(k) implies after.cell_ok(k) by {
        if k != key {
            assert(rt.joins.live(k));
            assert(rt.cell_ok(k));
        }
    }
}

/// Ending the polled task with its output keeps the invariant.
pub(crate) proof fn lemma_complete_inv<F, O, W>(rt: RtView<F, O, W>, output: O)
    requires
        rt.inv(),
        rt.current is Some,
    ensures
        rt.complete(output).0.inv(),
{
    let id = rt.current->0;
    lemma_ending_inv(rt, id, rt.cell(rt.task(id).join as int).completed(output));
}

/// A change of waker or handle, or a poll or a cancel of a cell, keeps the invariant.
proof fn lemma_set_cell_inv<F, O, W>(rt: RtView<F, O, W>, key: int, cell: InnerJoin<O, W>)
    requires
        rt.inv(),
        rt.joins.live(key),
        cell.task == rt.cell(key).task,
        cell.output == rt.cell(key).output || (cell.output == Poll::<Option<O>>::Ready(None)
            && !rt.locked(key)),
        cell.task is Gone ==> cell.handle,
    ensures
        rt.set_cell(key, cell).inv(),
{
    let after = rt.set_cell(key, cell);
    assert(rt.cell_ok(key));
    assert forall|k: int| #[trigger] after.joins.live(k) == rt.joins.live(k) && (k != key
        && rt.joins.live(k) ==> after.cell(k) == rt.cell(k)) by {}
    assert forall|id: Id| #[trigger] after.live(id) implies after.task_ok(id) by {
        assert(rt.live(id));
        assert(rt.task_ok(id));
    }
    assert forall|k: int| 0 <= k < after.queue.len() implies after.message_ok(
        #[trigger] after.queue[k],
    ) by {
        assert(rt.message_ok(rt.queue[k]));
    }
    assert forall|k: int| #[trigger] after.joins.live(k) implies after.cell_ok(k) by {
        assert(rt.joins.live(k));
        assert(rt.cell_ok(k));
    }
}

pub(crate) proof fn lemma_join_cancel_inv<F, O, W>(rt: RtView<F, O, W>, key: int)
    requires
        rt.inv(),
        rt.joinable(key),
        !rt.locked(key),
    ensures
        rt.join_cancel(key).inv(),
{
    lemma_set_cell_inv(rt, key, rt.cell(key).cancelled());
}

pub(crate) proof fn lemma_join_poll_inv<F, O, W>(rt: RtView<F, O, W>, key: int, waker: Arc<W>)
    requires
        rt.inv(),
        rt.joinable(key),
        !rt.locked(key),
    ensures
        rt.join_poll(key, waker).inv(),
{
    lemma_set_cell_inv(rt, key, rt.cell(key).polled(waker));
}

pub(crate) proof fn lemma_join_close_inv<F, O, W>(rt: RtView<F, O, W>, key: int)
    requires
        rt.inv(),
        rt.joinable(key),
    ensures
        rt.join_close(key).inv(),
{
    let after = rt.join_close(key);
    if rt.cell(key).task is Gone {
        crate::slots::lemma_remove_wf(rt.joins, key);
        assert forall|k: int| k != key implies #[trigger] after.joins.live(k) == rt.joins.live(k)
            && (rt.joins.live(k) ==> after.cell(k) == rt.cell(k)) by {}
        assert forall|id: Id| #[trigger] after.live(id) implies after.task_ok(id) by {
            assert(rt.live(id));
            assert(rt.task_ok(id));
        }
        assert forall|k: int| 0 <= k < after.queue.len() implies after.message_ok(
            #[trigger] after.queue[k],
        ) by {
            assert(rt.message_ok(rt.queue[k]));
        }
        assert forall|k: int| #[trigger] after.joins.live(k) implies after.cell_ok(k) by {
            assert(rt.joins.live(k));
            assert(rt.cell_ok(k));
        }
        if rt.current is Some {
            assert(rt.task_ok(rt.current->0));
        }
    } else {
        lemma_set_cell_inv(rt, key, InnerJoin { handle: false, ..rt.cell(key) });
    }
}

} // verus!
