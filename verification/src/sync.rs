use std::collections::VecDeque;
use std::ops::{Deref, DerefMut};
use vstd::prelude::*;

use crate::task::Poll;

verus! {

/// The state of an [`AsyncMutex`].
#[verifier::ext_equal]
pub struct AsyncMutexView<T, W> {
    /// The value, but while a guard has it.
    pub t: Option<T>,
    /// Those who wait for the lock, the longest waiting first.
    pub wakers: Seq<W>,
}

impl<T, W> AsyncMutexView<T, W> {
    /// A guard is about.
    pub open spec fn locked(self) -> bool {
        self.t is None
    }

    /// A poll takes the lock, or waits for it behind all others.
    pub open spec fn poll(self, waker: W) -> Self {
        if self.locked() {
            AsyncMutexView { wakers: self.wakers.push(waker), ..self }
        } else {
            AsyncMutexView { t: None, ..self }
        }
    }

    /// Lets the one who waits longest out of the queue.
    pub open spec fn call_next(self) -> Self {
        AsyncMutexView {
            wakers: if self.wakers.len() == 0 {
                self.wakers
            } else {
                self.wakers.drop_first()
            },
            ..self
        }
    }

    /// Lets the lock go.
    pub open spec fn unlock(self, t: T) -> Self {
        AsyncMutexView { t: Some(t), ..self }
    }
}

/// One use of a mutex.
pub enum MutexOp<T, W> {
    /// Asks for the lock.
    Poll(W),
    /// Drops a guard.
    Drop,
    /// Unlocks after a guard was dropped, with the value that was left in it.
    Unlock(T),
}

impl<T, W> AsyncMutexView<T, W> {
    pub open spec fn apply(self, op: MutexOp<T, W>) -> Self {
        match op {
            MutexOp::Poll(waker) => self.poll(waker),
            MutexOp::Drop => self.call_next(),
            MutexOp::Unlock(t) => self.unlock(t),
        }
    }

    /// What the mutex has become after a series of uses.
    pub open spec fn after(self, ops: Seq<MutexOp<T, W>>) -> Self
        decreases ops.len(),
    {
        if ops.len() == 0 {
            self
        } else {
            self.after(ops.drop_last()).apply(ops.last())
        }
    }

    /// How many guards of the mutex are about after a series of uses.
    pub open spec fn guards(self, ops: Seq<MutexOp<T, W>>) -> int
        decreases ops.len(),
    {
        if ops.len() == 0 {
            0
        } else {
            self.guards(ops.drop_last()) + match ops.last() {
                MutexOp::Poll(_) => if self.after(ops.drop_last()).locked() {
                    0int
                } else {
                    1int
                },
                MutexOp::Drop => -1int,
                MutexOp::Unlock(_) => 0int,
            }
        }
    }

    /// How many guards have been dropped whose unlocking is to come.
    pub open spec fn unlocks(self, ops: Seq<MutexOp<T, W>>) -> int
        decreases ops.len(),
    {
        if ops.len() == 0 {
            0
        } else {
            self.unlocks(ops.drop_last()) + match ops.last() {
                MutexOp::Poll(_) => 0int,
                MutexOp::Drop => 1int,
                MutexOp::Unlock(_) => -1int,
            }
        }
    }

    /// Every guard that is dropped was about, and every unlocking follows a drop.
    pub open spec fn possible(self, ops: Seq<MutexOp<T, W>>) -> bool
        decreases ops.len(),
    {
        ops.len() == 0 || {
            &&& self.possible(ops.drop_last())
            &&& ops.last() is Drop ==> self.guards(ops.drop_last()) > 0
            &&& ops.last() is Unlock ==> self.unlocks(ops.drop_last()) > 0
        }
    }

    /// The wakers that a series of uses left to wait, in order.
    pub open spec fn came(self, ops: Seq<MutexOp<T, W>>) -> Seq<W>
        decreases ops.len(),
    {
        if ops.len() == 0 {
            self.wakers
        } else {
            let before = self.came(ops.drop_last());
            match ops.last() {
                MutexOp::Poll(waker) => if self.after(ops.drop_last()).locked() {
                    before.push(waker)
                } else {
                    before
                },
                _ => before,
            }
        }
    }

    /// The wakers that a series of uses handed out to be woken, in order.
    pub open spec fn woken(self, ops: Seq<MutexOp<T, W>>) -> Seq<W>
        decreases ops.len(),
    {
        if ops.len() == 0 {
            Seq::empty()
        } else {
            let before = self.woken(ops.drop_last());
            let waiting = self.after(ops.drop_last()).wakers;
            if ops.last() is Drop && waiting.len() > 0 {
                before.push(waiting[0])
            } else {
                before
            }
        }
    }

    /// The value that the last unlocking left, or that was there at the start.
    pub open spec fn left(self, ops: Seq<MutexOp<T, W>>) -> T
        decreases ops.len(),
    {
        if ops.len() == 0 {
            self.t->0
        } else {
            match ops.last() {
                MutexOp::Unlock(t) => t,
                _ => self.left(ops.drop_last()),
            }
        }
    }
}

/// However a mutex is used, at most one guard of it is about. The mutex is locked exactly while
/// one is, or is being unlocked.
pub proof fn law_one_guard_at_a_time<T, W>(
    mutex: AsyncMutexView<T, W>,
    ops: Seq<MutexOp<T, W>>,
)
    requires
        !mutex.locked(),
        mutex.possible(ops),
    ensures
        0 <= mutex.guards(ops) <= 1,
        0 <= mutex.unlocks(ops) <= 1,
        mutex.guards(ops) + mutex.unlocks(ops) == (if mutex.after(ops).locked() {
            1int
        } else {
            0int
        }),
    decreases ops.len(),
{
    if ops.len() > 0 {
        law_one_guard_at_a_time(mutex, ops.drop_last());
    }
}

/// A guard gives what the guard before it left.
pub proof fn law_guard_gives_what_was_left<T, W>(
    mutex: AsyncMutexView<T, W>,
    ops: Seq<MutexOp<T, W>>,
)
    requires
        !mutex.locked(),
        mutex.possible(ops),
        !mutex.after(ops).locked(),
    ensures
        mutex.after(ops).t == Some(mutex.left(ops)),
    decreases ops.len(),
{
    if ops.len() > 0 && !(ops.last() is Unlock) {
        law_one_guard_at_a_time(mutex, ops.drop_last());
        law_guard_gives_what_was_left(mutex, ops.drop_last());
    }
}

/// Those who wait are woken in the order in which they came, each once.
pub proof fn law_first_waiting_first_woken<T, W>(
    mutex: AsyncMutexView<T, W>,
    ops: Seq<MutexOp<T, W>>,
)
    ensures
        mutex.came(ops) == mutex.woken(ops) + mutex.after(ops).wakers,
    decreases ops.len(),
{
    if ops.len() > 0 {
        law_first_waiting_first_woken(mutex, ops.drop_last());
    }
    assert(mutex.came(ops) =~= mutex.woken(ops) + mutex.after(ops).wakers);
}

/// A poll gets the lock exactly where the value is there, and then those who wait are left as they
/// are. Else it waits behind all others, each of whom stays.
pub proof fn law_poll_takes_the_lock_or_waits_last<T, W>(mutex: AsyncMutexView<T, W>, waker: W)
    ensures
        mutex.locked() <==> mutex.t is None,
        mutex.poll(waker).locked(),
        mutex.t is Some ==> mutex.poll(waker).wakers == mutex.wakers,
        mutex.t is None ==> {
            &&& mutex.poll(waker).wakers.len() == mutex.wakers.len() + 1
            &&& mutex.poll(waker).wakers.last() == waker
            &&& mutex.poll(waker).wakers.drop_last() == mutex.wakers
        },
{
    if mutex.t is None {
        assert(mutex.poll(waker).wakers.drop_last() =~= mutex.wakers);
    }
}

/// The drop of a guard lets at most one out of the queue, the one who waits longest, and leaves
/// the mutex locked.
pub proof fn law_drop_calls_the_longest_waiting<T, W>(mutex: AsyncMutexView<T, W>)
    ensures
        mutex.call_next().t == mutex.t,
        mutex.wakers.len() == 0 ==> mutex.call_next().wakers.len() == 0,
        mutex.wakers.len() > 0 ==> seq![mutex.wakers[0]] + mutex.call_next().wakers
            == mutex.wakers,
{
    if mutex.wakers.len() > 0 {
        assert(seq![mutex.wakers[0]] + mutex.call_next().wakers =~= mutex.wakers);
    }
}

/// A value that is put back by an unlocking is what the next poll takes, and those who wait are
/// left as they are.
pub proof fn law_unlock_puts_the_value_back<T, W>(mutex: AsyncMutexView<T, W>, t: T)
    ensures
        !mutex.unlock(t).locked(),
        mutex.unlock(t).t == Some(t),
        mutex.unlock(t).wakers == mutex.wakers,
{
}

/// A lock that is waited for without blocking. The guard has the value while the mutex is
/// locked.
pub struct AsyncMutex<T, W> {
    t: Option<T>,
    wakers: VecDeque<W>,
    id: Ghost<int>,
}

impl<T, W> AsyncMutex<T, W> {
    /// What tells the mutex from others.
    pub closed spec fn id(&self) -> int {
        self.id@
    }

    pub closed spec fn view(&self) -> AsyncMutexView<T, W> {
        AsyncMutexView { t: self.t, wakers: self.wakers@ }
    }

    #[must_use]
    pub fn new(t: T) -> (mutex: Self)
        ensures
            mutex@ == (AsyncMutexView { t: Some(t), wakers: Seq::<W>::empty() }),
    {
        AsyncMutex { t: Some(t), wakers: VecDeque::new(), id: Ghost(arbitrary()) }
    }

    pub fn is_locked(&self) -> (b: bool)
        ensures
            b == self@.locked(),
            b == (self@.t is None),
    {
        self.t.is_none()
    }

    #[must_use]
    pub fn lock(&mut self) -> (lock: AsyncLock<'_, T, W>)
        ensures
            *lock.mutex == *old(self),
            *final(lock.mutex) == *final(self),
    {
        AsyncLock { mutex: self }
    }

    /// Gives the guard where no other is about, else keeps `waker` to be woken in its turn.
    pub fn poll(&mut self, waker: W) -> (poll: Poll<AsyncMutexGuard<T>>)
        ensures
            final(self)@ == old(self)@.poll(waker),
            final(self).id() == old(self).id(),
            match poll {
                Poll::Ready(guard) => old(self)@.t == Some(guard@) && guard.mutex() == old(
                    self,
                ).id(),
                Poll::Pending => old(self)@.locked(),
            },
            poll is Ready <==> old(self)@.t is Some,
            final(self)@.t is None,
    {
        match self.t.take() {
            Some(t) => Poll::Ready(AsyncMutexGuard { t, mutex: Ghost(self.id()) }),
            None => {
                self.wakers.push_back(waker);
                Poll::Pending
            },
        }
    }
}

pub struct AsyncLock<'a, T, W> {
    pub mutex: &'a mut AsyncMutex<T, W>,
}

impl<'a, T, W> AsyncLock<'a, T, W> {
    pub fn poll(&mut self, waker: W) -> (poll: Poll<AsyncMutexGuard<T>>)
        ensures
            final(self).mutex@ == old(self).mutex@.poll(waker),
            final(self).mutex.id() == old(self).mutex.id(),
            *final(final(self).mutex) == *final(old(self).mutex),
            match poll {
                Poll::Ready(guard) => old(self).mutex@.t == Some(guard@) && guard.mutex() == old(
                    self,
                ).mutex.id(),
                Poll::Pending => old(self).mutex@.locked(),
            },
            poll is Ready <==> old(self).mutex@.t is Some,
            final(self).mutex@.t is None,
    {
        self.mutex.poll(waker)
    }
}

/// The right to the value of a locked mutex. It is to be dropped by [`AsyncMutexGuard::drop`],
/// or the mutex stays locked.
#[must_use]
pub struct AsyncMutexGuard<T> {
    t: T,
    mutex: Ghost<int>,
}

impl<T> AsyncMutexGuard<T> {
    /// The mutex that gave the guard.
    pub closed spec fn mutex(&self) -> int {
        self.mutex@
    }

    pub closed spec fn view(&self) -> T {
        self.t
    }

    /// Hands out the waker of the one who waits longest, to be woken, and what unlocks the
    /// mutex then. `mutex` is the one that gave the guard.
    pub fn drop<W>(self, mutex: &mut AsyncMutex<T, W>) -> (dropped: (Option<W>, Unlock<T>))
        requires
            old(mutex)@.locked(),
            self.mutex() == old(mutex).id(),
        ensures
            final(mutex)@ == old(mutex)@.call_next(),
            final(mutex).id() == old(mutex).id(),
            dropped.0 == (if old(mutex)@.wakers.len() == 0 {
                None
            } else {
                Some(old(mutex)@.wakers[0])
            }),
            dropped.1@ == self@,
            dropped.1.mutex() == self.mutex(),
    {
        let waker = mutex.wakers.pop_front();
        assert(mutex@.wakers =~= old(mutex)@.call_next().wakers);
        (waker, Unlock { t: self.t, mutex: self.mutex })
    }
}

/// The value of a mutex whose guard was dropped, and the duty to unlock it.
#[must_use]
pub struct Unlock<T> {
    t: T,
    mutex: Ghost<int>,
}

impl<T> Unlock<T> {
    /// The mutex that gave the guard.
    pub closed spec fn mutex(&self) -> int {
        self.mutex@
    }

    pub closed spec fn view(&self) -> T {
        self.t
    }

    /// Unlocks the mutex that gave the guard.
    pub fn unlock<W>(self, mutex: &mut AsyncMutex<T, W>)
        requires
            old(mutex)@.locked(),
            self.mutex() == old(mutex).id(),
        ensures
            final(mutex)@ == old(mutex)@.unlock(self@),
            final(mutex)@.t == Some(self@),
            final(mutex)@.wakers == old(mutex)@.wakers,
            final(mutex).id() == old(mutex).id(),
    {
        mutex.t = Some(self.t);
    }
}

impl<T> Deref for AsyncMutexGuard<T> {
    type Target = T;

    fn deref(&self) -> (t: &T)
        ensures
            *t == self@,
    {
        &self.t
    }
}

impl<T> DerefMut for AsyncMutexGuard<T> {
    fn deref_mut(&mut self) -> (t: &mut T)
        ensures
            *t == old(self)@,
            final(self)@ == *final(t),
            final(self).mutex() == old(self).mutex(),
    {
        &mut self.t
    }
}

} // verus!
