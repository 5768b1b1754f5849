use std::sync::Arc;
use vstd::prelude::*;

verus! {

/// Where a task is kept in the runtime. A waker of the task carries it.
#[derive(Clone, Copy, Debug, PartialEq, Eq, Structural)]
pub struct Id {
    pub i: usize,
    pub is_send: bool,
}

/// What one poll of a future gives.
#[derive(Debug, PartialEq, Eq)]
pub enum Poll<T> {
    Pending,
    Ready(T),
}

impl<T> Poll<T> {
    pub fn is_pending(&self) -> (b: bool)
        ensures
            b == (self is Pending),
    {
        match self {
            Poll::Pending => true,
            Poll::Ready(_) => false,
        }
    }

    pub fn is_ready(&self) -> (b: bool)
        ensures
            b == (self is Ready),
    {
        match self {
            Poll::Pending => false,
            Poll::Ready(_) => true,
        }
    }
}

/// Where the task is that a cell belongs to.
#[derive(Clone, Copy, Debug, PartialEq, Eq, Structural)]
pub enum Place {
    /// On its way to the runtime.
    Queue { is_send: bool },
    /// Kept by the runtime.
    Table(Id),
    /// Completed and given up.
    Gone,
}

/// The cell that a task shares with its `Join`.
pub struct InnerJoin<T, W> {
    /// Ready once the task has completed, or was cancelled. The output is taken out
    /// by the first poll that finds it.
    pub output: Poll<Option<T>>,
    /// Whom to wake when the task completes. It is kept as long as the cell.
    pub waker: Option<Arc<W>>,
    pub task: Place,
    /// The `Join` is still about.
    pub handle: bool,
}

impl<T, W> InnerJoin<T, W> {
    pub open spec fn fresh(is_send: bool) -> Self {
        InnerJoin {
            output: Poll::Pending,
            waker: None,
            task: Place::Queue { is_send },
            handle: true,
        }
    }

    pub open spec fn cancelled(self) -> Self {
        InnerJoin { output: Poll::Ready(None), ..self }
    }

    /// The output that is there to be taken.
    pub open spec fn unclaimed(self) -> Option<T> {
        match self.output {
            Poll::Pending => None,
            Poll::Ready(output) => output,
        }
    }

    /// A poll takes the output, or leaves its waker where none waits yet.
    pub open spec fn polled(self, waker: Arc<W>) -> Self {
        match self.output {
            Poll::Ready(_) => InnerJoin { output: Poll::Ready(None), ..self },
            Poll::Pending => if self.waker is None {
                InnerJoin { waker: Some(waker), ..self }
            } else {
                self
            },
        }
    }

    pub open spec fn completed(self, output: T) -> Self {
        InnerJoin { output: Poll::Ready(Some(output)), ..self }
    }

    pub fn new(is_send: bool) -> (join: Self)
        ensures
            join == Self::fresh(is_send),
            join.output is Pending,
            join.waker is None,
            join.handle,
    {
        InnerJoin {
            output: Poll::Pending,
            waker: None,
            task: Place::Queue { is_send },
            handle: true,
        }
    }

    /// Takes out the output, where there is one.
    pub fn take(&mut self) -> (output: Option<T>)
        ensures
            output == old(self).unclaimed(),
            *final(self) == (if old(self).output is Pending {
                *old(self)
            } else {
                old(self).cancelled()
            }),
            old(self).output is Pending ==> output is None && final(self).output is Pending,
            old(self).output is Ready ==> Poll::Ready(output) == old(self).output
                && final(self).output == Poll::Ready(None::<T>),
            final(self).waker == old(self).waker,
            final(self).task == old(self).task,
            final(self).handle == old(self).handle,
    {
        match &mut self.output {
            Poll::Pending => None,
            Poll::Ready(output) => output.take(),
        }
    }

    /// Makes the output ready with nothing in it, and hands out what was in it.
    pub fn cancel(&mut self) -> (output: Option<T>)
        ensures
            output == old(self).unclaimed(),
            *final(self) == old(self).cancelled(),
            old(self).output is Pending ==> output is None,
            old(self).output is Ready ==> Poll::Ready(output) == old(self).output,
            final(self).output == Poll::Ready(None::<T>),
            final(self).waker == old(self).waker,
            final(self).task == old(self).task,
            final(self).handle == old(self).handle,
    {
        let output = self.take();
        self.output = Poll::Ready(None);
        output
    }

    pub fn poll(&mut self, waker: Arc<W>) -> (poll: Poll<Option<T>>)
        ensures
            poll == old(self).output,
            *final(self) == old(self).polled(waker),
            poll is Pending ==> final(self).output is Pending,
            poll is Ready ==> final(self).output == Poll::Ready(None::<T>),
            final(self).waker == (if poll is Pending && old(self).waker is None {
                Some(waker)
            } else {
                old(self).waker
            }),
            final(self).task == old(self).task,
            final(self).handle == old(self).handle,
    {
        if self.output.is_ready() {
            return Poll::Ready(self.take());
        }
        if self.waker.is_none() {
            self.waker = Some(waker);
        }
        Poll::Pending
    }

    /// Puts in what the task gave, and hands out the waker that waits for it, to be woken.
    pub fn complete(&mut self, output: T) -> (waker: Option<Arc<W>>)
        ensures
            waker == old(self).waker,
            *final(self) == old(self).completed(output),
            final(self).output == Poll::Ready(Some(output)),
            final(self).waker == old(self).waker,
            final(self).task == old(self).task,
            final(self).handle == old(self).handle,
    {
        self.output = Poll::Ready(Some(output));
        match &self.waker {
            Some(waker) => Some(waker.clone()),
            None => None,
        }
    }
}

/// A spawned future.
pub struct Task<F> {
    /// The future, but while it is out to be polled.
    pub future: Option<F>,
    /// Where the task is kept, once the runtime has taken it in.
    pub id: Option<Id>,
    /// The index of the cell that the task shares with its `Join`.
    pub join: usize,
}

impl<F> Task<F> {
    pub fn new(future: F, join: usize) -> (task: Self)
        ensures
            task == (Task { future: Some(future), id: None, join }),
    {
        Task { future: Some(future), id: None, join }
    }

    pub fn set_id(&mut self, id: Id)
        ensures
            *final(self) == (Task { id: Some(id), ..*old(self) }),
    {
        self.id = Some(id);
    }
}

} // verus!
