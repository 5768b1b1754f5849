use std::collections::VecDeque;
use vstd::prelude::*;

use crate::task::{Id, Task};

verus! {

/// Says which of the queues the next message is in.
#[derive(Clone, Copy, Debug, PartialEq, Eq, Structural)]
pub enum Signal {
    Id,
    SendTask,
    Task,
}

/// A message to the runtime.
pub enum Message<F> {
    /// Poll the task that is kept under this id.
    Id(Id),
    /// Take in a task that was spawned by way of a `SendSpawner`.
    SendTask(Task<F>),
    /// Take in a task that was spawned by way of a `Spawner`.
    Task(Task<F>),
}

/// The messages of three queues, in the order that the signals give.
pub open spec fn merged<F>(
    signals: Seq<Signal>,
    ids: Seq<Id>,
    send_tasks: Seq<Task<F>>,
    tasks: Seq<Task<F>>,
) -> Seq<Message<F>>
    decreases signals.len(),
{
    if signals.len() == 0 {
        Seq::empty()
    } else {
        let rest = signals.drop_first();
        match signals[0] {
            Signal::Id => seq![Message::Id(ids[0])] + merged(
                rest,
                ids.drop_first(),
                send_tasks,
                tasks,
            ),
            Signal::SendTask => seq![Message::SendTask(send_tasks[0])] + merged(
                rest,
                ids,
                send_tasks.drop_first(),
                tasks,
            ),
            Signal::Task => seq![Message::Task(tasks[0])] + merged(
                rest,
                ids,
                send_tasks,
                tasks.drop_first(),
            ),
        }
    }
}

/// Each queue holds as many messages as there are signals for it.
pub open spec fn matched(signals: Seq<Signal>, ids: nat, send_tasks: nat, tasks: nat) -> bool
    decreases signals.len(),
{
    if signals.len() == 0 {
        ids == 0 && send_tasks == 0 && tasks == 0
    } else {
        let rest = signals.drop_first();
        match signals[0] {
            Signal::Id => ids > 0 && matched(rest, (ids - 1) as nat, send_tasks, tasks),
            Signal::SendTask => send_tasks > 0 && matched(rest, ids, (send_tasks - 1) as nat, tasks),
            Signal::Task => tasks > 0 && matched(rest, ids, send_tasks, (tasks - 1) as nat),
        }
    }
}

proof fn lemma_merged_len<F>(
    signals: Seq<Signal>,
    ids: Seq<Id>,
    send_tasks: Seq<Task<F>>,
    tasks: Seq<Task<F>>,
)
    ensures
        merged(signals, ids, send_tasks, tasks).len() == signals.len(),
    decreases signals.len(),
{
    if signals.len() > 0 {
        let rest = signals.drop_first();
        lemma_merged_len(rest, ids.drop_first(), send_tasks, tasks);
        lemma_merged_len(rest, ids, send_tasks.drop_first(), tasks);
        lemma_merged_len(rest, ids, send_tasks, tasks.drop_first());
    }
}

/// A message sent to its queue together with its signal comes last.
proof fn lemma_merged_push<F>(
    signals: Seq<Signal>,
    ids: Seq<Id>,
    send_tasks: Seq<Task<F>>,
    tasks: Seq<Task<F>>,
    id: Id,
    task: Task<F>,
)
    requires
        matched(signals, ids.len(), send_tasks.len(), tasks.len()),
    ensures
        matched(
            signals.push(Signal::Id),
            ids.len() + 1,
            send_tasks.len(),
            tasks.len(),
        ),
        matched(
            signals.push(Signal::SendTask),
            ids.len(),
            send_tasks.len() + 1,
            tasks.len(),
        ),
        matched(
            signals.push(Signal::Task),
            ids.len(),
            send_tasks.len(),
            tasks.len() + 1,
        ),
        merged(signals.push(Signal::Id), ids.push(id), send_tasks, tasks) == merged(
            signals,
            ids,
            send_tasks,
            tasks,
        ).push(Message::Id(id)),
        merged(signals.push(Signal::SendTask), ids, send_tasks.push(task), tasks) == merged(
            signals,
            ids,
            send_tasks,
            tasks,
        ).push(Message::SendTask(task)),
        merged(signals.push(Signal::Task), ids, send_tasks, tasks.push(task)) == merged(
            signals,
            ids,
            send_tasks,
            tasks,
        ).push(Message::Task(task)),
    decreases signals.len(),
{
    reveal_with_fuel(merged, 2);
    reveal_with_fuel(matched, 2);
    if signals.len() == 0 {
        assert(signals.push(Signal::Id).drop_first() =~= Seq::empty());
        assert(signals.push(Signal::SendTask).drop_first() =~= Seq::empty());
        assert(signals.push(Signal::Task).drop_first() =~= Seq::empty());
    } else {
        let rest = signals.drop_first();
        assert(signals.push(Signal::Id).drop_first() =~= rest.push(Signal::Id));
        assert(signals.push(Signal::SendTask).drop_first() =~= rest.push(Signal::SendTask));
        assert(signals.push(Signal::Task).drop_first() =~= rest.push(Signal::Task));
        match signals[0] {
            Signal::Id => {
                lemma_merged_push(rest, ids.drop_first(), send_tasks, tasks, id, task);
                assert(ids.push(id).drop_first() =~= ids.drop_first().push(id));
            },
            Signal::SendTask => {
                lemma_merged_push(rest, ids, send_tasks.drop_first(), tasks, id, task);
                assert(send_tasks.push(task).drop_first() =~= send_tasks.drop_first().push(task));
            },
            Signal::Task => {
                lemma_merged_push(rest, ids, send_tasks, tasks.drop_first(), id, task);
                assert(tasks.push(task).drop_first() =~= tasks.drop_first().push(task));
            },
        }
    }
}

/// The way to the runtime for spawners and wakers. Tasks that may have come from
/// another thread, other tasks and ids have a queue each; a fourth queue of signals
/// keeps the order among them.
pub struct Channels<F> {
    signals: VecDeque<Signal>,
    ids: VecDeque<Id>,
    send_tasks: VecDeque<Task<F>>,
    tasks: VecDeque<Task<F>>,
}

impl<F> Channels<F> {
    /// The messages under way, the oldest first.
    pub closed spec fn view(&self) -> Seq<Message<F>> {
        merged(self.signals@, self.ids@, self.send_tasks@, self.tasks@)
    }

    /// Every signal has its message and every message its signal.
    pub closed spec fn wf(&self) -> bool {
        matched(
            self.signals@,
            self.ids@.len(),
            self.send_tasks@.len(),
            self.tasks@.len(),
        )
    }

    pub fn new() -> (channels: Self)
        ensures
            channels.wf(),
            channels@ == Seq::<Message<F>>::empty(),
    {
        Channels {
            signals: VecDeque::new(),
            ids: VecDeque::new(),
            send_tasks: VecDeque::new(),
            tasks: VecDeque::new(),
        }
    }

    pub fn send_id(&mut self, id: Id)
        requires
            old(self).wf(),
        ensures
            final(self).wf(),
            final(self)@ == old(self)@.push(Message::Id(id)),
    {
        proof {
            lemma_merged_push(
                self.signals@,
                self.ids@,
                self.send_tasks@,
                self.tasks@,
                id,
                arbitrary(),
            );
        }
        self.ids.push_back(id);
        self.signals.push_back(Signal::Id);
    }

    pub fn send_send_task(&mut self, task: Task<F>)
        requires
            old(self).wf(),
        ensures
            final(self).wf(),
            final(self)@ == old(self)@.push(Message::SendTask(task)),
    {
        proof {
            lemma_merged_push(
                self.signals@,
                self.ids@,
                self.send_tasks@,
                self.tasks@,
                arbitrary(),
                task,
            );
        }
        self.send_tasks.push_back(task);
        self.signals.push_back(Signal::SendTask);
    }

    pub fn send_task(&mut self, task: Task<F>)
        requires
            old(self).wf(),
        ensures
            final(self).wf(),
            final(self)@ == old(self)@.push(Message::Task(task)),
    {
        proof {
            lemma_merged_push(
                self.signals@,
                self.ids@,
                self.send_tasks@,
                self.tasks@,
                arbitrary(),
                task,
            );
        }
        self.tasks.push_back(task);
        self.signals.push_back(Signal::Task);
    }

    /// Takes out the oldest message. A signal without its message is never met.
    pub fn recv(&mut self) -> (message: Option<Message<F>>)
        requires
            old(self).wf(),
        ensures
            final(self).wf(),
            match message {
                Some(message) => {
                    &&& old(self)@.len() > 0
                    &&& message == old(self)@[0]
                    &&& final(self)@ == old(self)@.drop_first()
                },
                None => old(self)@.len() == 0 && final(self)@ == old(self)@,
            },
    {
        proof {
            lemma_merged_len(self.signals@, self.ids@, self.send_tasks@, self.tasks@);
        }
        match self.signals.pop_front() {
            None => None,
            Some(signal) => {
                assert(self.signals@ =~= old(self).signals@.drop_first());
                match signal {
                    Signal::Id => {
                        let id = self.ids.pop_front().unwrap();
                        assert(self.ids@ =~= old(self).ids@.drop_first());
                        assert(self@ =~= old(self)@.drop_first());
                        Some(Message::Id(id))
                    },
                    Signal::SendTask => {
                        let task = self.send_tasks.pop_front().unwrap();
                        assert(self.send_tasks@ =~= old(self).send_tasks@.drop_first());
                        assert(self@ =~= old(self)@.drop_first());
                        Some(Message::SendTask(task))
                    },
                    Signal::Task => {
                        let task = self.tasks.pop_front().unwrap();
                        assert(self.tasks@ =~= old(self).tasks@.drop_first());
                        assert(self@ =~= old(self)@.drop_first());
                        Some(Message::Task(task))
                    },
                }
            },
        }
    }
}

} // verus!
