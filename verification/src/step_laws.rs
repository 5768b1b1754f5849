use std::sync::Arc;
use vstd::prelude::*;

use crate::channel::Message;
use crate::model::{Action, Event, RtView};
use crate::task::{Id, Place, Poll, Task};

verus! {

/// A new runtime has no task, no message and no cell, and nothing is out to be polled.
pub proof fn law_new_runtime_has_nothing<F, O, W>(is_send: bool)
    ensures
        ({
            let rt = RtView::<F, O, W>::empty();
            &&& rt.queue.len() == 0
            &&& rt.current is None
            &&& rt.table(is_send).entries.len() == 0
            &&& rt.table(is_send).free.len() == 0
            &&& rt.joins.entries.len() == 0
            &&& rt.joins.free.len() == 0
        }),
{
}

/// Who was asked to poll a future may tell either outcome, and nothing else; else the runtime may
/// be resumed, whatever it asked for.
pub proof fn law_every_request_may_be_answered<F, O, W>(
    rt: RtView<F, O, W>,
    future: F,
    output: O,
)
    ensures
        rt.expects(Event::Resume) <==> rt.current is None,
        rt.expects(Event::Pending(future)) <==> rt.current is Some,
        rt.expects(Event::Ready(output)) <==> rt.current is Some,
{
}

/// When the future that was out to be polled has given its output, the runtime reports its task
/// as completed, whoever may still send messages. It hands out the waker of the task's cell, and
/// the output exactly where the `Join` is gone.
pub proof fn law_completed_task_is_reported<F, O, W>(
    rt: RtView<F, O, W>,
    id: Id,
    output: O,
    connected: bool,
)
    requires
        rt.inv(),
        rt.current == Some(id),
    ensures
        ({
            let key = rt.task(id).join as int;
            let action = rt.run(Event::Ready(output), connected).1;
            &&& action is Completed
            &&& action->Completed_id == id
            &&& action->waker == rt.cell(key).waker
            &&& rt.joinable(key) ==> action->unclaimed is None
            &&& !rt.joinable(key) ==> action->unclaimed == Some(output)
        }),
{
    assert(rt.task_ok(id));
}

/// A task that has completed is kept no longer. Its output is in its cell where the `Join` is
/// about; else the cell is given up. Nothing else changes, and no message is served.
pub proof fn law_completed_task_is_given_up<F, O, W>(
    rt: RtView<F, O, W>,
    id: Id,
    output: O,
    connected: bool,
)
    requires
        rt.inv(),
        rt.current == Some(id),
    ensures
        ({
            let key = rt.task(id).join as int;
            let after = rt.run(Event::Ready(output), connected).0;
            &&& after.current is None
            &&& after.queue == rt.queue
            &&& !after.live(id)
            &&& forall|other: Id|
                other != id ==> (#[trigger] after.live(other) <==> rt.live(other)) && (rt.live(
                    other,
                ) ==> after.task(other) == rt.task(other))
            &&& rt.joinable(key) ==> {
                &&& after.joinable(key)
                &&& after.cell(key).output == Poll::Ready(Some(output))
                &&& after.cell(key).waker == rt.cell(key).waker
                &&& after.cell(key).task is Gone
                &&& after.joins.free == rt.joins.free
            }
            &&& !rt.joinable(key) ==> {
                &&& !after.joins.live(key)
                &&& after.joins.free == rt.joins.free.push(key as usize)
            }
            &&& after.joins.entries.len() == rt.joins.entries.len()
            &&& forall|k: int|
                k != key ==> (#[trigger] after.joins.live(k) <==> rt.joins.live(k)) && (
                rt.joins.live(k) ==> after.cell(k) == rt.cell(k))
        }),
{
    assert(rt.task_ok(id));
}

/// What the runtime answers when it goes on: where no message is under way it waits, or returns
/// if nobody may send one and no task is kept. Else the oldest message alone decides. For a task
/// that is pending its future is given out to be polled, for one that was cancelled to be
/// dropped; and an id is reported as vacant exactly when no task is kept under it. A new task
/// gets the slot given up last, or a new one. The future of the task that was polled just now is
/// the one that came back.
pub proof fn law_oldest_message_is_answered<F, O, W>(
    rt: RtView<F, O, W>,
    event: Event<F, O>,
    connected: bool,
)
    requires
        rt.inv(),
        event is Resume ==> rt.current is None,
        event is Pending ==> rt.current is Some,
        !(event is Ready),
    ensures
        ({
            let action = rt.run(event, connected).1;
            &&& !(action is Completed)
            &&& rt.queue.len() == 0 ==> {
                &&& action is Wait || action is Return
                &&& action is Return <==> !connected && forall|id: Id| !#[trigger] rt.live(id)
            }
            &&& rt.queue.len() > 0 ==> {
                &&& !(action is Wait)
                &&& !(action is Return)
                &&& match rt.queue[0] {
                    Message::Id(id) => {
                        let future = if rt.current == Some(id) {
                            event->Pending_0
                        } else {
                            rt.task(id).future->0
                        };
                        let pending = rt.cell(rt.task(id).join as int).output is Pending;
                        &&& !rt.live(id) <==> action == (Action::<F, O, W>::Vacant { id })
                        &&& rt.live(id) && pending ==> action == (Action::<F, O, W>::Poll {
                            id,
                            future,
                        })
                        &&& rt.live(id) && !pending ==> action == (Action::<F, O, W>::Cancelled {
                            id,
                            future,
                        })
                    },
                    Message::SendTask(task) => {
                        let id = Id { i: rt.send_tasks.next() as usize, is_send: true };
                        let future = task.future->0;
                        let pending = rt.cell(task.join as int).output is Pending;
                        &&& pending ==> action == (Action::<F, O, W>::Poll { id, future })
                        &&& !pending ==> action == (Action::<F, O, W>::Cancelled { id, future })
                    },
                    Message::Task(task) => {
                        let id = Id { i: rt.tasks.next() as usize, is_send: false };
                        let future = task.future->0;
                        let pending = rt.cell(task.join as int).output is Pending;
                        &&& pending ==> action == (Action::<F, O, W>::Poll { id, future })
                        &&& !pending ==> action == (Action::<F, O, W>::Cancelled { id, future })
                    },
                }
            }
        }),
{
    if event is Pending {
        crate::model::lemma_give_back_inv(rt, event->Pending_0);
    }
    let from = rt.start(event);
    assert forall|id: Id| #[trigger] from.live(id) == rt.live(id) by {}
    assert(from.table(true).next() == rt.send_tasks.next());
    assert(from.table(false).next() == rt.tasks.next());
    if rt.queue.len() == 0 {
        crate::slots::law_count_is_number_of_live(from.tasks);
        crate::slots::law_count_is_number_of_live(from.send_tasks);
        if from.count() > 0 {
            let id = crate::turn_laws::lemma_some_task_is_live(from);
            assert(rt.live(id));
        } else {
            assert forall|id: Id| !#[trigger] rt.live(id) by {
                if from.live(id) {
                    let used = Set::new(|i: int| from.table(id.is_send).live(i));
                    assert(used.contains(id.i as int));
                    assert(used.len() > 0) by {
                        if used.len() == 0 {
                            assert(used =~= Set::empty());
                        }
                    }
                }
            }
        }
    } else {
        assert(from.message_ok(from.queue[0]));
        assert(from.table(true).wf() && from.table(false).wf());
        match rt.queue[0] {
            Message::Id(id) => {
                if rt.live(id) {
                    assert(rt.task_ok(id));
                    assert(from.task_ok(id));
                }
            },
            _ => {},
        }
    }
}

/// When the runtime goes on, the oldest message is gone, and the future that was polled is back.
/// Of the tasks only the one changes that the message is about. A future is out exactly when it
/// was given out to be polled; a task that was cancelled is kept no longer.
pub proof fn law_one_message_touches_one_task<F, O, W>(
    rt: RtView<F, O, W>,
    event: Event<F, O>,
    connected: bool,
    other: Id,
)
    requires
        rt.inv(),
        event is Resume ==> rt.current is None,
        event is Pending ==> rt.current is Some,
        !(event is Ready),
    ensures
        ({
            let (after, action) = rt.run(event, connected);
            &&& rt.queue.len() == 0 ==> after.queue == rt.queue
            &&& rt.queue.len() > 0 ==> after.queue == rt.queue.drop_first()
            &&& !(action is Poll) ==> after.current is None
            &&& action is Poll ==> after.current == Some(action->Poll_id)
            &&& action is Poll && action->Poll_id == other ==> {
                &&& after.live(other)
                &&& after.task(other).future is None
                &&& after.task(other).id == Some(other)
                &&& after.task(other).join == (match rt.queue[0] {
                    Message::Id(id) => rt.task(id).join,
                    Message::SendTask(task) => task.join,
                    Message::Task(task) => task.join,
                })
            }
            &&& action is Cancelled && action->Cancelled_id == other ==> !after.live(other)
            &&& !(action is Poll && action->Poll_id == other) && !(action is Cancelled
                && action->Cancelled_id == other) ==> {
                &&& after.live(other) <==> rt.live(other)
                &&& rt.live(other) ==> after.task(other) == (if rt.current == Some(other) {
                    Task { future: Some(event->Pending_0), ..rt.task(other) }
                } else {
                    rt.task(other)
                })
            }
        }),
{
    if event is Pending {
        crate::model::lemma_give_back_inv(rt, event->Pending_0);
    }
    let from = rt.start(event);
    assert(from.live(other) == rt.live(other));
    assert(rt.live(other) ==> from.task(other) == (if rt.current == Some(other) {
        Task { future: Some(event->Pending_0), ..rt.task(other) }
    } else {
        rt.task(other)
    }));
    if rt.queue.len() > 0 {
        let next = from.receive();
        let id = from.receive_id();
        assert(from.message_ok(from.queue[0]));
        assert(from.table(true).wf() && from.table(false).wf());
        crate::laws::law_new_id_is_vacant(from, true);
        crate::laws::law_new_id_is_vacant(from, false);
        assert(other != id ==> next.live(other) == from.live(other) && (from.live(other)
            ==> next.task(other) == from.task(other)));
        if from.live(id) {
            assert(from.task_ok(id));
            assert(rt.live(id) && rt.task(id).join == from.task(id).join);
        }
        if next.live(id) && other != id {
            assert(next.lend(id).live(other) == next.live(other));
            assert(next.retire(id).live(other) == next.live(other));
            if next.live(other) {
                assert(next.lend(id).task(other) == next.task(other));
                assert(next.retire(id).task(other) == next.task(other));
            }
        }
    }
}

/// When the runtime goes on, of the cells only that of the task changes which is polled or
/// dropped: the cell of a task that is polled knows where the task is kept; that of one that is
/// dropped knows that it is gone, or is given up where its `Join` is.
pub proof fn law_one_message_touches_one_cell<F, O, W>(
    rt: RtView<F, O, W>,
    event: Event<F, O>,
    connected: bool,
    k: int,
)
    requires
        rt.inv(),
        event is Resume ==> rt.current is None,
        event is Pending ==> rt.current is Some,
        !(event is Ready),
    ensures
        ({
            let (after, action) = rt.run(event, connected);
            let key = match rt.queue[0] {
                Message::Id(id) => rt.task(id).join as int,
                Message::SendTask(task) => task.join as int,
                Message::Task(task) => task.join as int,
            };
            &&& k != key || !(action is Poll || action is Cancelled) ==> {
                &&& after.joins.live(k) <==> rt.joins.live(k)
                &&& rt.joins.live(k) ==> after.cell(k) == rt.cell(k)
            }
            &&& k == key && action is Poll ==> {
                &&& after.joins.live(k)
                &&& after.cell(k).output is Pending
                &&& after.cell(k).waker == rt.cell(k).waker
                &&& after.cell(k).handle == rt.cell(k).handle
                &&& after.cell(k).task == Place::Table(action->Poll_id)
            }
            &&& k == key && action is Cancelled ==> {
                &&& after.joins.live(k) <==> rt.joinable(k)
                &&& rt.joinable(k) ==> {
                    &&& after.cell(k).output == Poll::Ready(None::<O>)
                    &&& after.cell(k).waker == rt.cell(k).waker
                    &&& after.cell(k).handle
                    &&& after.cell(k).task is Gone
                }
            }
        }),
{
    if event is Pending {
        crate::model::lemma_give_back_inv(rt, event->Pending_0);
    }
    let from = rt.start(event);
    assert(from.joins == rt.joins);
    if rt.queue.len() > 0 {
        let next = from.receive();
        let id = from.receive_id();
        assert(from.message_ok(from.queue[0]));
        assert(from.table(true).wf() && from.table(false).wf());
        if from.live(id) {
            assert(from.task_ok(id));
            assert(from.cell_ok(from.task(id).join as int));
            assert(rt.live(id) && rt.task(id).join == from.task(id).join);
        }
        match rt.queue[0] {
            Message::SendTask(task) => {
                assert(from.cell_ok(task.join as int));
            },
            Message::Task(task) => {
                assert(from.cell_ok(task.join as int));
            },
            _ => {},
        }
    }
}

/// The slots of tasks that have ended are used again, the one given up last first, before a
/// table grows; and each table goes by itself.
pub proof fn law_slots_of_ended_tasks_are_used_again<F, O, W>(
    rt: RtView<F, O, W>,
    event: Event<F, O>,
    connected: bool,
    is_send: bool,
)
    requires
        rt.inv(),
        event is Resume <==> rt.current is None,
    ensures
        ({
            let (after, action) = rt.run(event, connected);
            let table = rt.table(is_send);
            let took = !(event is Ready) && rt.queue.len() > 0 && if is_send {
                rt.queue[0] is SendTask
            } else {
                rt.queue[0] is Task
            };
            let gave = (action is Cancelled && action->Cancelled_id.is_send == is_send) || (
            action is Completed && action->Completed_id.is_send == is_send);
            let id = if action is Cancelled {
                action->Cancelled_id
            } else {
                action->Completed_id
            };
            let free = if took && table.free.len() > 0 {
                table.free.drop_last()
            } else {
                table.free
            };
            &&& after.table(is_send).free == (if gave {
                free.push(id.i)
            } else {
                free
            })
            &&& after.table(is_send).entries.len() == table.entries.len() + (if took
                && table.free.len() == 0 {
                1int
            } else {
                0int
            })
        }),
{
    match event {
        Event::Ready(_) => {
            assert(rt.task_ok(rt.current->0));
        },
        _ => {
            if event is Pending {
                crate::model::lemma_give_back_inv(rt, event->Pending_0);
            }
            let from = rt.start(event);
            assert(from.table(true).free == rt.table(true).free);
            assert(from.table(false).free == rt.table(false).free);
            if rt.queue.len() > 0 {
                let next = from.receive();
                assert(next.table(true).entries.len() >= from.table(true).entries.len());
            }
        },
    }
}

/// The cells of ended tasks whose `Join` is gone are used again, the one given up last first,
/// before there are more.
pub proof fn law_cells_are_used_again<F, O, W>(
    rt: RtView<F, O, W>,
    event: Event<F, O>,
    connected: bool,
)
    requires
        rt.inv(),
        event is Resume <==> rt.current is None,
    ensures
        ({
            let (after, action) = rt.run(event, connected);
            let key = if event is Ready {
                rt.task(rt.current->0).join
            } else {
                match rt.queue[0] {
                    Message::Id(id) => rt.task(id).join,
                    Message::SendTask(task) => task.join,
                    Message::Task(task) => task.join,
                }
            };
            &&& after.joins.entries.len() == rt.joins.entries.len()
            &&& after.joins.free == (if (action is Completed || action is Cancelled)
                && !rt.joinable(key as int) {
                rt.joins.free.push(key)
            } else {
                rt.joins.free
            })
        }),
{
    match event {
        Event::Ready(_) => {
            assert(rt.task_ok(rt.current->0));
        },
        _ => {
            if event is Pending {
                crate::model::lemma_give_back_inv(rt, event->Pending_0);
            }
            let from = rt.start(event);
            if rt.queue.len() > 0 {
                assert(from.message_ok(from.queue[0]));
                assert(from.table(true).wf() && from.table(false).wf());
                match rt.queue[0] {
                    Message::Id(id) => {
                        if rt.live(id) {
                            assert(rt.task_ok(id));
                            assert(from.task_ok(id));
                        }
                    },
                    _ => {},
                }
            }
        },
    }
}

/// A spawn sends its future as the last message, of the kind of its spawner, with a cell that
/// nobody has. The cell is pending, its `Join` is about and nobody waits for it. Nothing else
/// changes.
pub proof fn law_spawn_sends_its_future_last<F, O, W>(
    rt: RtView<F, O, W>,
    future: F,
    is_send: bool,
)
    requires
        rt.inv(),
    ensures
        ({
            let after = rt.spawn(future, is_send);
            let key = rt.joins.next();
            let last = after.queue.last();
            let task = if is_send {
                last->SendTask_0
            } else {
                last->Task_0
            };
            &&& after.queue.len() == rt.queue.len() + 1
            &&& after.queue.drop_last() == rt.queue
            &&& is_send ==> last is SendTask
            &&& !is_send ==> last is Task
            &&& task.future == Some(future)
            &&& task.id is None
            &&& task.join == key
            &&& !rt.joins.live(key)
            &&& after.joinable(key)
            &&& after.cell(key).output is Pending
            &&& after.cell(key).waker is None
            &&& forall|k: int|
                k != key ==> (#[trigger] after.joins.live(k) <==> rt.joins.live(k)) && (
                rt.joins.live(k) ==> after.cell(k) == rt.cell(k))
            &&& rt.joins.free.len() > 0 ==> after.joins.free == rt.joins.free.drop_last()
                && after.joins.entries.len() == rt.joins.entries.len()
            &&& rt.joins.free.len() == 0 ==> after.joins.free == rt.joins.free
                && after.joins.entries.len() == rt.joins.entries.len() + 1
            &&& after.tasks == rt.tasks
            &&& after.send_tasks == rt.send_tasks
            &&& after.current == rt.current
        }),
{
    assert(rt.joins.entries.len() <= usize::MAX);
    assert(rt.spawn(future, is_send).queue.drop_last() =~= rt.queue);
}

/// A wake sends its id as the last message and changes nothing else.
pub proof fn law_wake_sends_its_id_last<F, O, W>(rt: RtView<F, O, W>, id: Id)
    ensures
        ({
            let after = rt.wake(id);
            &&& after.queue.len() == rt.queue.len() + 1
            &&& after.queue.drop_last() == rt.queue
            &&& after.queue.last() == Message::<F>::Id(id)
            &&& after.tasks == rt.tasks
            &&& after.send_tasks == rt.send_tasks
            &&& after.joins == rt.joins
            &&& after.current == rt.current
        }),
{
    assert(rt.wake(id).queue.drop_last() =~= rt.queue);
}

/// A `Join` is locked exactly while the future of its own task is out to be polled.
pub proof fn law_join_is_locked_while_its_task_is_out<F, O, W>(rt: RtView<F, O, W>, key: int)
    requires
        rt.inv(),
        rt.joins.live(key),
    ensures
        rt.locked(key) <==> rt.current is Some && rt.cell(key).task == Place::Table(
            rt.current->0,
        ),
{
    assert(rt.cell_ok(key));
    if rt.current is Some {
        assert(rt.task_ok(rt.current->0));
    }
}

/// A poll of a `Join` that is ready takes the output away and leaves that it is ready. One that
/// is pending stays so, and keeps the waker where none is kept yet. Nothing else changes.
pub proof fn law_join_poll_takes_or_waits<F, O, W>(
    rt: RtView<F, O, W>,
    key: int,
    waker: Arc<W>,
)
    requires
        rt.inv(),
        rt.joinable(key),
    ensures
        ({
            let after = rt.join_poll(key, waker);
            let before = rt.cell(key);
            let cell = after.cell(key);
            &&& after.joinable(key)
            &&& before.output is Ready ==> cell.output == Poll::Ready(None::<O>) && cell.waker
                == before.waker
            &&& before.output is Pending ==> cell.output is Pending && cell.waker == (
            if before.waker is None {
                Some(waker)
            } else {
                before.waker
            })
            &&& cell.task == before.task
            &&& forall|k: int|
                k != key ==> (#[trigger] after.joins.live(k) <==> rt.joins.live(k)) && (
                rt.joins.live(k) ==> after.cell(k) == rt.cell(k))
            &&& after.joins.free == rt.joins.free
            &&& after.joins.entries.len() == rt.joins.entries.len()
            &&& after.queue == rt.queue
            &&& after.tasks == rt.tasks
            &&& after.send_tasks == rt.send_tasks
            &&& after.current == rt.current
        }),
{
}

/// A cancel makes the `Join` ready with nothing in it, and the waker stays. Nothing else changes:
/// the task is dropped only when a message about it is served.
pub proof fn law_cancel_makes_ready_with_nothing<F, O, W>(rt: RtView<F, O, W>, key: int)
    requires
        rt.inv(),
        rt.joinable(key),
    ensures
        ({
            let after = rt.join_cancel(key);
            &&& after.joinable(key)
            &&& after.cell(key).output == Poll::Ready(None::<O>)
            &&& after.cell(key).waker == rt.cell(key).waker
            &&& after.cell(key).task == rt.cell(key).task
            &&& forall|k: int|
                k != key ==> (#[trigger] after.joins.live(k) <==> rt.joins.live(k)) && (
                rt.joins.live(k) ==> after.cell(k) == rt.cell(k))
            &&& after.joins.free == rt.joins.free
            &&& after.joins.entries.len() == rt.joins.entries.len()
            &&& after.queue == rt.queue
            &&& after.tasks == rt.tasks
            &&& after.send_tasks == rt.send_tasks
            &&& after.current == rt.current
        }),
{
}

/// A `Join` that is given up cannot be used any more. Its task runs on, with its cell as it was;
/// where the task has ended the cell is given up. Nothing else changes.
pub proof fn law_close_gives_up_the_join<F, O, W>(rt: RtView<F, O, W>, key: int)
    requires
        rt.inv(),
        rt.joinable(key),
    ensures
        ({
            let after = rt.join_close(key);
            let ended = rt.cell(key).task is Gone;
            &&& !after.joinable(key)
            &&& after.joins.live(key) <==> !ended
            &&& !ended ==> {
                &&& after.cell(key).output == rt.cell(key).output
                &&& after.cell(key).waker == rt.cell(key).waker
                &&& after.cell(key).task == rt.cell(key).task
                &&& after.joins.free == rt.joins.free
            }
            &&& ended ==> after.joins.free == rt.joins.free.push(key as usize)
            &&& forall|k: int|
                k != key ==> (#[trigger] after.joins.live(k) <==> rt.joins.live(k)) && (
                rt.joins.live(k) ==> after.cell(k) == rt.cell(k))
            &&& after.joins.entries.len() == rt.joins.entries.len()
            &&& after.queue == rt.queue
            &&& after.tasks == rt.tasks
            &&& after.send_tasks == rt.send_tasks
            &&& after.current == rt.current
        }),
{
}

} // verus!
