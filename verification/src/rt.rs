use std::marker::PhantomData;
use std::sync::Arc;
use vstd::prelude::*;

use crate::channel::{Channels, Message};
use crate::model::{Action, Event, RtView};
use crate::slots::Slots;
use crate::task::{Id, InnerJoin, Place, Poll, Task};

verus! {

/// Runtime. `F` are its futures, `O` what they give, and `W` the wakers of those who wait for
/// a task.
pub struct Rt<F, O, W> {
    channels: Channels<F>,
    tasks: Slots<Task<F>>,
    send_tasks: Slots<Task<F>>,
    joins: Slots<InnerJoin<O, W>>,
    current: Option<Id>,
    id: Ghost<int>,
}

impl<F, O, W> Rt<F, O, W> {
    /// What tells the runtime from others.
    pub closed spec fn id(&self) -> int {
        self.id@
    }

    pub closed spec fn view(&self) -> RtView<F, O, W> {
        RtView {
            queue: self.channels@,
            tasks: self.tasks@,
            send_tasks: self.send_tasks@,
            joins: self.joins@,
            current: self.current,
        }
    }

    pub closed spec fn channels_wf(&self) -> bool {
        self.channels.wf()
    }

    pub open spec fn wf(&self) -> bool {
        self.channels_wf() && self@.inv()
    }

    #[must_use]
    pub fn new() -> (rt: Self)
        ensures
            rt.wf(),
            rt@ == RtView::<F, O, W>::empty(),
    {
        let rt = Rt {
            channels: Channels::new(),
            tasks: Slots::new(),
            send_tasks: Slots::new(),
            joins: Slots::new(),
            current: None,
            id: Ghost(arbitrary()),
        };
        assert(rt@.inv());
        rt
    }

    /// The way to spawn on this runtime.
    #[must_use]
    pub fn spawner(&mut self) -> (spawner: Spawner<'_, F, O, W>)
        ensures
            *spawner.rt == *old(self),
            *final(spawner.rt) == *final(self),
    {
        Spawner { rt: self }
    }

    /// The way to spawn on this runtime from another thread.
    #[must_use]
    pub fn send_spawner(&mut self) -> (spawner: SendSpawner<'_, F, O, W>)
        ensures
            *spawner.rt == *old(self),
            *final(spawner.rt) == *final(self),
    {
        SendSpawner { rt: self }
    }

    /// Makes the cell of a task that is about to be sent.
    fn new_join(&mut self, is_send: bool) -> (key: usize)
        requires
            old(self).wf(),
        ensures
            final(self).channels == old(self).channels,
            final(self).id() == old(self).id(),
            key == old(self)@.joins.next(),
            final(self)@ == (RtView {
                joins: old(self)@.joins.insert(InnerJoin::fresh(is_send)),
                ..old(self)@
            }),
            final(self)@.joins.wf(),
    {
        self.joins.insert(InnerJoin::new(is_send))
    }

    /// Keeps a task that came with a message, under a new id.
    fn take_in(&mut self, task: Task<F>, is_send: bool) -> (id: Id)
        requires
            old(self)@.tasks.wf(),
            old(self)@.send_tasks.wf(),
            old(self)@.joins.wf(),
            old(self)@.joins.live(task.join as int),
        ensures
            final(self).channels == old(self).channels,
            final(self).id() == old(self).id(),
            id == old(self)@.next_id(is_send),
            final(self)@ == old(self)@.take_in(task, is_send),
            final(self)@.tasks.entries.len() <= usize::MAX,
            final(self)@.send_tasks.entries.len() <= usize::MAX,
    {
        let key: usize = task.join;
        let mut task = task;
        let i: usize = if is_send { self.send_tasks.next() } else { self.tasks.next() };
        let id = Id { i, is_send };
        task.set_id(id);
        if is_send {
            self.send_tasks.insert(task);
        } else {
            self.tasks.insert(task);
        }
        let cell = self.joins.get_mut(key);
        cell.task = Place::Table(id);
        id
    }

    fn is_live(&self, id: Id) -> (b: bool)
        ensures
            b == self@.live(id),
    {
        if id.is_send {
            self.send_tasks.is_live(id.i)
        } else {
            self.tasks.is_live(id.i)
        }
    }

    fn task(&self, id: Id) -> (task: &Task<F>)
        requires
            self@.live(id),
        ensures
            *task == self@.task(id),
    {
        if id.is_send {
            self.send_tasks.get(id.i)
        } else {
            self.tasks.get(id.i)
        }
    }

    /// Changes the future of a task, and hands out what it was.
    fn swap_future(&mut self, id: Id, future: Option<F>) -> (before: Option<F>)
        requires
            old(self)@.tasks.wf(),
            old(self)@.send_tasks.wf(),
            old(self)@.live(id),
        ensures
            final(self).channels == old(self).channels,
            final(self).id() == old(self).id(),
            before == old(self)@.task(id).future,
            final(self)@ == old(self)@.set_task(id, Task { future, ..old(self)@.task(id) }),
    {
        let task = if id.is_send {
            self.send_tasks.get_mut(id.i)
        } else {
            self.tasks.get_mut(id.i)
        };
        let before = task.future.take();
        task.future = future;
        before
    }

    /// Gives up a task, and its cell where its `Join` is gone. Hands out what was in both.
    fn retire(&mut self, id: Id) -> (left: (Task<F>, Option<O>))
        requires
            old(self)@.tasks.wf(),
            old(self)@.send_tasks.wf(),
            old(self)@.joins.wf(),
            old(self)@.live(id),
            old(self)@.joins.live(old(self)@.task(id).join as int),
        ensures
            final(self).channels == old(self).channels,
            final(self).id() == old(self).id(),
            final(self)@ == old(self)@.retire(id),
            left.0 == old(self)@.task(id),
            left.1 == (if old(self)@.cell(left.0.join as int).handle {
                None
            } else {
                old(self)@.cell(left.0.join as int).unclaimed()
            }),
    {
        let task = if id.is_send {
            self.send_tasks.remove(id.i)
        } else {
            self.tasks.remove(id.i)
        };
        if self.joins.get(task.join).handle {
            let cell = self.joins.get_mut(task.join);
            cell.task = Place::Gone;
            (task, None)
        } else {
            let mut cell = self.joins.remove(task.join);
            let unclaimed = cell.take();
            (task, unclaimed)
        }
    }

    /// Serves the oldest message.
    fn dispatch(&mut self, connected: bool) -> (action: Action<F, O, W>)
        requires
            old(self).wf(),
            old(self)@.current is None,
        ensures
            final(self).wf(),
            (final(self)@, action) == old(self)@.dispatch(connected),
            final(self).id() == old(self).id(),
    {
        match self.channels.recv() {
            None => {
                assert(self@ == old(self)@);
                proof {
                    crate::slots::law_count_is_number_of_live(self@.tasks);
                    crate::slots::law_count_is_number_of_live(self@.send_tasks);
                }
                if connected || self.tasks.count() > 0 || self.send_tasks.count() > 0 {
                    Action::Wait
                } else {
                    Action::Return
                }
            },
            Some(message) => {
                assert(old(self)@.message_ok(old(self)@.queue[0]));
                let id = match message {
                    Message::Id(id) => id,
                    Message::SendTask(task) => self.take_in(task, true),
                    Message::Task(task) => self.take_in(task, false),
                };
                assert(self@ == old(self)@.receive());
                proof {
                    crate::model::lemma_receive_inv(old(self)@);
                }
                if !self.is_live(id) {
                    return Action::Vacant { id };
                }
                let ghost next = self@;
                assert(next.task_ok(id));
                let key: usize = self.task(id).join;
                if self.joins.get(key).output.is_pending() {
                    let future = self.swap_future(id, None).unwrap();
                    self.current = Some(id);
                    proof {
                        crate::model::lemma_lend_inv(next, id);
                    }
                    Action::Poll { id, future }
                } else {
                    let (task, _) = self.retire(id);
                    proof {
                        crate::model::lemma_retire_inv(next, id);
                    }
                    Action::Cancelled { id, future: task.future.unwrap() }
                }
            },
        }
    }

    /// Ends the task that was polled with its output.
    fn complete(&mut self, output: O) -> (action: Action<F, O, W>)
        requires
            old(self).wf(),
            old(self)@.current is Some,
        ensures
            final(self).wf(),
            (final(self)@, action) == old(self)@.complete(output),
            final(self).id() == old(self).id(),
    {
        let id = self.current.take().unwrap();
        assert(old(self)@.live(id) && old(self)@.task_ok(id));
        let key: usize = self.task(id).join;
        let waker = self.joins.get_mut(key).complete(output);
        let (_, unclaimed) = self.retire(id);
        proof {
            crate::model::lemma_complete_inv(old(self)@, output);
        }
        Action::Completed { id, waker, unclaimed }
    }

    /// The waker of the task that is kept under `id`.
    #[must_use]
    pub fn waker(&self, id: Id) -> (waker: IdWaker)
        ensures
            waker.id() == id,
            waker.rt() == self.id(),
    {
        IdWaker { id, rt: Ghost(self.id()) }
    }

    /// A future is out to be polled: the next event is what became of it.
    pub fn is_polling(&self) -> (b: bool)
        ensures
            b == (self@.current is Some),
    {
        self.current.is_some()
    }

    /// Runs the tasks that were spawned, and those that they spawn, to their end: takes in
    /// what has happened, and says what is to be done next. `connected` says that somebody
    /// outside the runtime may still send it a message.
    pub fn run(&mut self, event: Event<F, O>, connected: bool) -> (action: Action<F, O, W>)
        requires
            old(self).wf(),
            old(self)@.expects(event),
        ensures
            final(self).wf(),
            (final(self)@, action) == old(self)@.run(event, connected),
            final(self).id() == old(self).id(),
            final(self)@.current == (match action {
                Action::Poll { id, .. } => Some(id),
                _ => None,
            }),
            event is Ready <==> action is Completed,
            event matches Event::Ready(output) ==> {
                let key = old(self)@.task(old(self)@.current->0).join as int;
                &&& Some(action->Completed_id) == old(self)@.current
                &&& action->waker == old(self)@.cell(key).waker
                &&& action->unclaimed == (if old(self)@.joinable(key) {
                    None
                } else {
                    Some(output)
                })
            },
            action matches Action::Vacant { id } ==> {
                &&& old(self)@.queue.len() > 0
                &&& old(self)@.queue[0] == Message::<F>::Id(id)
                &&& !old(self)@.live(id)
            },
            action is Wait || action is Return <==> !(event is Ready) && old(self)@.queue.len()
                == 0,
            action is Return ==> !connected,
    {
        proof {
            if event is Ready {
                let id = self@.current->0;
                let output = event->Ready_0;
                crate::step_laws::law_completed_task_is_reported(self@, id, output, connected);
                crate::step_laws::law_completed_task_is_given_up(self@, id, output, connected);
            } else {
                crate::step_laws::law_oldest_message_is_answered(self@, event, connected);
                crate::step_laws::law_one_message_touches_one_task(
                    self@,
                    event,
                    connected,
                    arbitrary(),
                );
            }
        }
        match event {
            Event::Resume => self.dispatch(connected),
            Event::Pending(future) => {
                let id = self.current.take().unwrap();
                assert(old(self)@.live(id) && old(self)@.task_ok(id));
                self.swap_future(id, Some(future));
                proof {
                    crate::model::lemma_give_back_inv(old(self)@, future);
                }
                assert(self@ == old(self)@.give_back(future));
                self.dispatch(connected)
            },
            Event::Ready(output) => self.complete(output),
        }
    }
}

impl<F, O, W> Default for Rt<F, O, W> {
    fn default() -> (rt: Self)
        ensures
            rt.wf(),
            rt@ == RtView::<F, O, W>::empty(),
    {
        Self::new()
    }
}

/// Spawns futures on the thread of the runtime.
pub struct Spawner<'a, F, O, W> {
    pub rt: &'a mut Rt<F, O, W>,
}

impl<'a, F, O, W> Spawner<'a, F, O, W> {
    /// Sends `future` on its way to the runtime.
    pub fn spawn(&mut self, future: F) -> (join: Join<O>)
        requires
            old(self).rt.wf(),
        ensures
            final(self).rt.wf(),
            final(self).rt@ == old(self).rt@.spawn(future, false),
            final(self).rt.id() == old(self).rt.id(),
            join.key() == old(self).rt@.joins.next(),
            join.rt() == old(self).rt.id(),
            *final(final(self).rt) == *final(old(self).rt),
    {
        let key: usize = self.rt.new_join(false);
        self.rt.channels.send_task(Task::new(future, key));
        proof {
            crate::model::lemma_spawn_inv(old(self).rt@, future, false);
        }
        Join { key, rt: Ghost(self.rt.id()), output: PhantomData }
    }
}

/// Spawns futures that may have come from another thread.
pub struct SendSpawner<'a, F, O, W> {
    pub rt: &'a mut Rt<F, O, W>,
}

impl<'a, F, O, W> SendSpawner<'a, F, O, W> {
    /// Sends `future`, which may have come from another thread, on its way to the runtime.
    pub fn spawn(&mut self, future: F) -> (join: Join<O>)
        requires
            old(self).rt.wf(),
        ensures
            final(self).rt.wf(),
            final(self).rt@ == old(self).rt@.spawn(future, true),
            final(self).rt.id() == old(self).rt.id(),
            join.key() == old(self).rt@.joins.next(),
            join.rt() == old(self).rt.id(),
            *final(final(self).rt) == *final(old(self).rt),
    {
        let key: usize = self.rt.new_join(true);
        self.rt.channels.send_send_task(Task::new(future, key));
        proof {
            crate::model::lemma_spawn_inv(old(self).rt@, future, true);
        }
        Join { key, rt: Ghost(self.rt.id()), output: PhantomData }
    }
}

/// Wakes the task that is kept under an id.
#[derive(Clone, Copy)]
pub struct IdWaker {
    id: Id,
    rt: Ghost<int>,
}

impl IdWaker {
    pub closed spec fn id(&self) -> Id {
        self.id
    }

    /// The runtime of the task.
    pub closed spec fn rt(&self) -> int {
        self.rt@
    }

    pub fn wake<F, O, W>(&self, rt: &mut Rt<F, O, W>)
        requires
            old(rt).wf(),
            self.rt() == old(rt).id(),
        ensures
            final(rt).wf(),
            final(rt)@ == old(rt)@.wake(self.id()),
            final(rt).id() == old(rt).id(),
    {
        rt.channels.send_id(self.id);
        proof {
            crate::model::lemma_wake_inv(old(rt)@, self.id);
        }
    }
}

/// The way to the output of a task, or to its end. It goes with the runtime on which the task
/// was spawned.
pub struct Join<T> {
    key: usize,
    rt: Ghost<int>,
    output: PhantomData<T>,
}

impl<T> Join<T> {
    /// The index of the cell that is shared with the task.
    pub closed spec fn key(&self) -> int {
        self.key as int
    }

    /// The runtime on which the task was spawned.
    pub closed spec fn rt(&self) -> int {
        self.rt@
    }

    /// The cell is there, and its task is not just out to be polled: the `Join` can be polled
    /// and cancelled.
    pub fn try_lock<F, W>(&self, rt: &Rt<F, T, W>) -> (b: bool)
        requires
            rt.wf(),
            self.rt() == rt.id(),
        ensures
            b == (rt@.joinable(self.key()) && !rt@.locked(self.key())),
    {
        if !self.joins_with(rt) {
            return false;
        }
        match rt.current {
            None => true,
            Some(id) => {
                rt.task(id).join != self.key
            },
        }
    }

    /// The cell is there: the `Join` can be closed.
    pub fn joins_with<F, W>(&self, rt: &Rt<F, T, W>) -> (b: bool)
        requires
            self.rt() == rt.id(),
        ensures
            b == rt@.joinable(self.key()),
    {
        rt.joins.is_live(self.key) && rt.joins.get(self.key).handle
    }

    /// Ends the task before its next poll. An output that it had already given is handed
    /// out, and the `Join` will not see it.
    pub fn cancel<F, W>(&mut self, rt: &mut Rt<F, T, W>) -> (output: Option<T>)
        requires
            old(rt).wf(),
            old(self).rt() == old(rt).id(),
            old(rt)@.joinable(old(self).key()),
            !old(rt)@.locked(old(self).key()),
        ensures
            *final(self) == *old(self),
            final(rt).wf(),
            final(rt)@ == old(rt)@.join_cancel(old(self).key()),
            final(rt).id() == old(rt).id(),
            output == old(rt)@.cell(old(self).key()).unclaimed(),
            output == (match old(rt)@.cell(old(self).key()).output {
                Poll::Pending => None,
                Poll::Ready(output) => output,
            }),
    {
        let output = rt.joins.get_mut(self.key).cancel();
        proof {
            crate::model::lemma_join_cancel_inv(old(rt)@, self.key());
        }
        output
    }

    /// Gives the output of the task once it has completed: nothing where the task was
    /// cancelled or the output was taken before. Until then `waker` is kept to be woken
    /// then, where no other is kept yet.
    pub fn poll<F, W>(&mut self, rt: &mut Rt<F, T, W>, waker: Arc<W>) -> (poll: Poll<Option<T>>)
        requires
            old(rt).wf(),
            old(self).rt() == old(rt).id(),
            old(rt)@.joinable(old(self).key()),
            !old(rt)@.locked(old(self).key()),
        ensures
            *final(self) == *old(self),
            final(rt).wf(),
            final(rt)@ == old(rt)@.join_poll(old(self).key(), waker),
            final(rt).id() == old(rt).id(),
            poll == old(rt)@.cell(old(self).key()).output,
    {
        let poll = rt.joins.get_mut(self.key).poll(waker);
        proof {
            crate::model::lemma_join_poll_inv(old(rt)@, self.key(), waker);
        }
        poll
    }

    /// Gives up the way to the output. The task runs on. An output that was there is handed
    /// out.
    pub fn close<F, W>(self, rt: &mut Rt<F, T, W>) -> (output: Option<T>)
        requires
            old(rt).wf(),
            self.rt() == old(rt).id(),
            old(rt)@.joinable(self.key()),
        ensures
            final(rt).wf(),
            final(rt)@ == old(rt)@.join_close(self.key()),
            final(rt).id() == old(rt).id(),
            output == (if old(rt)@.cell(self.key()).task is Gone {
                old(rt)@.cell(self.key()).unclaimed()
            } else {
                None
            }),
            old(rt)@.cell(self.key()).task is Gone ==> Poll::Ready(output) == old(rt)@.cell(
                self.key(),
            ).output,
    {
        proof {
            assert(old(rt)@.cell_ok(self.key()));
            crate::model::lemma_join_close_inv(old(rt)@, self.key());
        }
        let is_gone = match rt.joins.get(self.key).task {
            Place::Gone => true,
            _ => false,
        };
        if is_gone {
            let mut cell = rt.joins.remove(self.key);
            cell.take()
        } else {
            let cell = rt.joins.get_mut(self.key);
            cell.handle = false;
            None
        }
    }
}

} // verus!
