//! Runs futures on the runtime, with a host that polls them and keeps a clock of its own:
//! when there is nothing to do, the clock goes on to the next alarm.

use std::any::Any;
use std::cell::{Cell, RefCell};
use std::future::Future;
use std::marker::PhantomData;
use std::ops::{Deref, DerefMut};
use std::pin::Pin;
use std::rc::Rc;
use std::sync::{Arc, Mutex};
use std::task::{Context, Poll, Wake, Waker};

use async_rt::io;
use async_rt::io::Ring;
use async_rt::model::{Action, Event};
use async_rt::rt;
use async_rt::rt::IdWaker;
use async_rt::sync;
use async_rt::task;
use async_rt::test_utils::is_sorted;

type Output = Box<dyn Any>;
type Boxed = Pin<Box<dyn Future<Output = Output>>>;

struct Host {
    core: RefCell<rt::Rt<Boxed, Output, Waker>>,
    woken: Arc<Mutex<Vec<IdWaker>>>,
    clock: Rc<Clock>,
}

impl Host {
    /// Hands the wakes over to the runtime.
    fn deliver(&self) {
        let woken = std::mem::take(&mut *self.woken.lock().unwrap());
        for waker in woken {
            waker.wake(&mut *self.core.borrow_mut());
        }
    }
}

struct HostWaker {
    waker: IdWaker,
    woken: Arc<Mutex<Vec<IdWaker>>>,
}

impl Wake for HostWaker {
    fn wake(self: Arc<Self>) {
        self.woken.lock().unwrap().push(self.waker);
    }
}

struct Clock {
    now: Cell<u128>,
    sleepers: RefCell<Vec<(u128, Waker)>>,
}

impl Clock {
    fn timer(self: &Rc<Self>, secs: u64) -> Alarm {
        Alarm {
            clock: self.clone(),
            alarm: io::Alarm::timer(secs, self.now.get()),
        }
    }

    /// Sleeps until the next sleeper is to be woken, and wakes it.
    fn sleep(&self) {
        let mut sleepers = self.sleepers.borrow_mut();
        let mut first = 0;
        for i in 1..sleepers.len() {
            if sleepers[i].0 < sleepers[first].0 {
                first = i;
            }
        }
        assert!(first < sleepers.len(), "nobody is left to wake a task");
        let (until, waker) = sleepers.remove(first);
        self.now
            .set(self.now.get() + io::remaining(until, self.now.get()));
        waker.wake();
    }
}

struct Alarm {
    clock: Rc<Clock>,
    alarm: io::Alarm,
}

impl Future for Alarm {
    type Output = ();

    fn poll(self: Pin<&mut Self>, cx: &mut Context<'_>) -> Poll<()> {
        let this = self.get_mut();
        let now = this.clock.now.get();
        match this.alarm.poll(now, cx.waker().clone()) {
            Ring::Ready => Poll::Ready(()),
            Ring::Sleep { until, waker } => {
                this.clock.sleepers.borrow_mut().push((until, waker));
                Poll::Pending
            }
        }
    }
}

struct Rt(Rc<Host>);

impl Rt {
    fn new() -> Self {
        Rt(Rc::new(Host {
            core: RefCell::new(rt::Rt::new()),
            woken: Arc::new(Mutex::new(Vec::new())),
            clock: Rc::new(Clock {
                now: Cell::new(0),
                sleepers: RefCell::new(Vec::new()),
            }),
        }))
    }

    fn clock(&self) -> Rc<Clock> {
        self.0.clock.clone()
    }

    fn spawner(&self) -> Spawner {
        Spawner(self.0.clone())
    }

    fn send_spawner(&self) -> SendSpawner {
        SendSpawner(self.0.clone())
    }

    fn run(self) {
        let mut event = Event::Resume;
        let mut done = None;
        loop {
            self.0.deliver();
            let connected = !self.0.clock.sleepers.borrow().is_empty();
            let action = self.0.core.borrow_mut().run(event, connected);
            event = Event::Resume;
            match action {
                Action::Poll { id, mut future } => {
                    let waker = Waker::from(Arc::new(HostWaker {
                        waker: self.0.core.borrow().waker(id),
                        woken: self.0.woken.clone(),
                    }));
                    match future.as_mut().poll(&mut Context::from_waker(&waker)) {
                        Poll::Ready(output) => {
                            done = Some(future);
                            event = Event::Ready(output);
                        }
                        Poll::Pending => event = Event::Pending(future),
                    }
                }
                Action::Cancelled { future, .. } => drop(future),
                Action::Completed { waker, unclaimed, .. } => {
                    if let Some(waker) = waker {
                        waker.wake_by_ref();
                    }
                    drop(done.take());
                    drop(unclaimed);
                }
                Action::Vacant { .. } => panic!("no task is kept under the id"),
                Action::Wait => self.0.clock.sleep(),
                Action::Return => return,
            }
        }
    }
}

fn boxed<T: Future + 'static>(future: T) -> Boxed
where
    T::Output: 'static,
{
    Box::pin(async move {
        let output: Output = Box::new(future.await);
        output
    })
}

#[derive(Clone)]
struct Spawner(Rc<Host>);

impl Spawner {
    fn spawn<T: Future + 'static>(&self, future: T) -> Join<T::Output>
    where
        T::Output: 'static,
    {
        self.0.deliver();
        let join = self.0.core.borrow_mut().spawner().spawn(boxed(future));
        Join {
            host: self.0.clone(),
            join: Some(join),
            output: PhantomData,
        }
    }
}

#[derive(Clone)]
struct SendSpawner(Rc<Host>);

impl SendSpawner {
    fn spawn<T: Future + 'static>(&self, future: T) -> Join<T::Output>
    where
        T::Output: 'static,
    {
        self.0.deliver();
        let join = self.0.core.borrow_mut().send_spawner().spawn(boxed(future));
        Join {
            host: self.0.clone(),
            join: Some(join),
            output: PhantomData,
        }
    }
}

struct Join<T> {
    host: Rc<Host>,
    join: Option<rt::Join<Output>>,
    output: PhantomData<fn() -> T>,
}

impl<T> Join<T> {
    fn cancel(&mut self) {
        let join = self.join.as_mut().unwrap();
        assert!(join.try_lock(&self.host.core.borrow()));
        let unclaimed = join.cancel(&mut self.host.core.borrow_mut());
        drop(unclaimed);
    }
}

impl<T: 'static> Future for Join<T> {
    type Output = Option<T>;

    fn poll(self: Pin<&mut Self>, cx: &mut Context<'_>) -> Poll<Option<T>> {
        let this = self.get_mut();
        let join = this.join.as_mut().unwrap();
        assert!(join.try_lock(&this.host.core.borrow()));
        let polled = join.poll(
            &mut this.host.core.borrow_mut(),
            Arc::new(cx.waker().clone()),
        );
        match polled {
            task::Poll::Pending => Poll::Pending,
            task::Poll::Ready(None) => Poll::Ready(None),
            task::Poll::Ready(Some(output)) => Poll::Ready(Some(*output.downcast().unwrap())),
        }
    }
}

impl<T> Drop for Join<T> {
    fn drop(&mut self) {
        if let Some(join) = self.join.take() {
            assert!(join.joins_with(&self.host.core.borrow()));
            let unclaimed = join.close(&mut self.host.core.borrow_mut());
            drop(unclaimed);
        }
    }
}

struct AsyncMutex<T>(RefCell<sync::AsyncMutex<T, Waker>>);

impl<T> AsyncMutex<T> {
    fn new(t: T) -> Self {
        AsyncMutex(RefCell::new(sync::AsyncMutex::new(t)))
    }

    fn lock(&self) -> AsyncLock<'_, T> {
        AsyncLock(self)
    }

    fn guard<'a>(
        &'a self,
        polled: task::Poll<sync::AsyncMutexGuard<T>>,
    ) -> Poll<AsyncMutexGuard<'a, T>> {
        match polled {
            task::Poll::Pending => Poll::Pending,
            task::Poll::Ready(guard) => Poll::Ready(AsyncMutexGuard {
                mutex: self,
                guard: Some(guard),
            }),
        }
    }
}

struct AsyncLock<'a, T>(&'a AsyncMutex<T>);

impl<'a, T> Future for AsyncLock<'a, T> {
    type Output = AsyncMutexGuard<'a, T>;

    fn poll(self: Pin<&mut Self>, cx: &mut Context<'_>) -> Poll<Self::Output> {
        let polled = self.0 .0.borrow_mut().lock().poll(cx.waker().clone());
        self.0.guard(polled)
    }
}

impl<'a, T> Future for &'a AsyncMutex<T> {
    type Output = AsyncMutexGuard<'a, T>;

    fn poll(self: Pin<&mut Self>, cx: &mut Context<'_>) -> Poll<Self::Output> {
        let polled = self.0.borrow_mut().poll(cx.waker().clone());
        self.get_mut().guard(polled)
    }
}

struct AsyncMutexGuard<'a, T> {
    mutex: &'a AsyncMutex<T>,
    guard: Option<sync::AsyncMutexGuard<T>>,
}

impl<T> Deref for AsyncMutexGuard<'_, T> {
    type Target = T;

    fn deref(&self) -> &T {
        self.guard.as_ref().unwrap()
    }
}

impl<T> DerefMut for AsyncMutexGuard<'_, T> {
    fn deref_mut(&mut self) -> &mut T {
        self.guard.as_mut().unwrap()
    }
}

impl<T> Drop for AsyncMutexGuard<'_, T> {
    fn drop(&mut self) {
        let guard = self.guard.take().unwrap();
        assert!(self.mutex.0.borrow().is_locked());
        let (waker, unlock) = guard.drop(&mut *self.mutex.0.borrow_mut());
        if let Some(waker) = waker {
            waker.wake();
        }
        unlock.unlock(&mut *self.mutex.0.borrow_mut());
    }
}

async fn bool_future() -> bool {
    true
}

#[test]
fn io_alarm_t_1() {
    let rt = Rt::new();
    let clock = rt.clock();
    rt.spawner().spawn(clock.timer(3));
    rt.run();
    assert_eq!(clock.now.get(), 3 * io::NANOS_PER_SEC);
}

#[test]
fn alarm_t_2() {
    struct Empty {}

    impl Wake for Empty {
        fn wake(self: Arc<Self>) {}
    }

    let rt = Rt::new();
    let clock = rt.clock();
    let mut alarm = clock.timer(3);
    let _future =
        Pin::new(&mut alarm).poll(&mut Context::from_waker(&Waker::from(Arc::new(Empty {}))));
    rt.spawner().spawn(alarm);
    rt.run();
    assert_eq!(clock.now.get(), 3 * io::NANOS_PER_SEC);
}

#[test]
fn lib_spawn_t_1() {
    let rt = Rt::new();
    let b: &'static Mutex<bool> = Box::leak(Box::new(Mutex::new(false)));
    rt.spawner().spawn(async { *b.try_lock().unwrap() = true });
    rt.run();
    assert!(*b.try_lock().unwrap());
}

#[test]
fn lib_spawn_t_2() {
    let b: &'static Mutex<bool> = Box::leak(Box::new(Mutex::new(false)));
    let rt = Rt::new();
    rt.spawner()
        .spawn(async { *b.try_lock().unwrap() = bool_future().await });
    rt.run();
}

#[test]
fn lib_spawn_t_3() {
    let v: &'static Mutex<Vec<i32>> = Box::leak(Box::new(Mutex::new(Vec::new())));
    let rt = Rt::new();
    let clock = rt.clock();
    let c_clock = clock.clone();
    rt.spawner().spawn(async move {
        c_clock.timer(3).await;
        v.try_lock().unwrap().push(1);
    });
    let c_clock = clock.clone();
    rt.spawner().spawn(async move {
        c_clock.timer(1).await;
        v.try_lock().unwrap().push(0);
    });
    rt.run();
    assert!(is_sorted(&v.try_lock().unwrap()));
    assert_eq!(*v.try_lock().unwrap(), vec![0, 1]);
}

#[test]
fn lib_spawn_t_4() {
    let v = Arc::new(Mutex::new(Vec::new()));
    let rt = Rt::new();
    let clock = rt.clock();
    let spawner = rt.spawner().clone();
    let c_v = v.clone();
    rt.spawner().spawn(async move {
        let c_c_v = c_v.clone();
        spawner.spawn(async move {
            clock.timer(3).await;
            c_c_v.try_lock().unwrap().push(1);
        });
        async move { c_v.try_lock().unwrap().push(0) }.await;
    });
    rt.run();
    assert!(is_sorted(&v.try_lock().unwrap()));
    assert_eq!(*v.try_lock().unwrap(), vec![0, 1]);
}

#[test]
fn lib_join_t_1() {
    let v = Arc::new(Mutex::new(Vec::new()));
    let rt = Rt::new();
    let clock = rt.clock();
    let spawner = rt.spawner().clone();
    let c_v = v.clone();
    rt.spawner().spawn(async move {
        let c_c_v = c_v.clone();
        let join = spawner.spawn(async move {
            clock.timer(3).await;
            c_c_v.try_lock().unwrap().push(0);
        });
        join.await;
        c_v.try_lock().unwrap().push(1);
    });
    rt.run();
    assert!(is_sorted(&v.try_lock().unwrap()));
    assert_eq!(*v.try_lock().unwrap(), vec![0, 1]);
}

#[test]
fn lib_join_t_2() {
    let b: &'static Mutex<bool> = Box::leak(Box::new(Mutex::new(false)));
    let rt = Rt::new();
    let join = rt.spawner().spawn(bool_future());
    rt.spawner().spawn(async {
        *b.try_lock().unwrap() = join.await.unwrap();
    });
    rt.run();
    assert!(*b.try_lock().unwrap());
}

#[test]
fn lib_join_t_3() {
    let b = Arc::new(Mutex::new(false));
    let rt = Rt::new();
    let spawner = rt.spawner().clone();
    let c_b = b.clone();
    rt.spawner().spawn(async move {
        let join = spawner.spawn(bool_future());
        *c_b.try_lock().unwrap() = join.await.unwrap();
    });
    rt.run();
    assert!(*b.try_lock().unwrap());
}

#[test]
fn lib_join_t_4() {
    async fn late_bool_future(clock: Rc<Clock>) -> bool {
        clock.timer(3).await;
        true
    }
    let b = Arc::new(Mutex::new(false));
    let rt = Rt::new();
    let clock = rt.clock();
    let spawner = rt.spawner().clone();
    let c_b = b.clone();
    rt.spawner().spawn(async move {
        let join = spawner.spawn(late_bool_future(clock));
        *c_b.try_lock().unwrap() = join.await.unwrap();
    });
    rt.run();
    assert!(*b.try_lock().unwrap());
}

#[test]
fn lib_cancel_t_1() {
    let b = Arc::new(Mutex::new(false));
    let rt = Rt::new();
    let clock = rt.clock();
    let spawner = rt.spawner().clone();
    let c_b = b.clone();
    rt.spawner().spawn(async move {
        let mut join = spawner.spawn(async move {
            clock.timer(3).await;
            *c_b.try_lock().unwrap() = true;
        });
        join.cancel();
    });
    rt.run();
    assert!(!*b.try_lock().unwrap());
}

#[test]
fn lib_cancel_t_2() {
    let b = Arc::new(Mutex::new(false));
    let rt = Rt::new();
    let clock = rt.clock();
    let spawner = rt.spawner().clone();
    let c_b = b.clone();
    rt.spawner().spawn(async move {
        let mut join = spawner.spawn(async move {
            clock.timer(3).await;
            *c_b.try_lock().unwrap() = true;
        });
        join.cancel();
        join.await;
    });
    rt.run();
    assert!(!*b.try_lock().unwrap());
}

#[test]
fn lib_async_mutex_t_1() {
    let v = Rc::new(RefCell::new(Vec::new()));
    let rt = Rt::new();
    let clock = rt.clock();
    let spawner = rt.spawner().clone();
    let async_mutex = Rc::new(AsyncMutex::new(()));
    let c_v = v.clone();
    rt.spawner().spawn(async move {
        let async_mutex = async_mutex.clone();
        let _guard = async_mutex.lock().await;
        let async_mutex = async_mutex.clone();
        let c_c_v = c_v.clone();
        spawner.spawn(async move {
            async_mutex.lock().await;
            c_c_v.borrow_mut().push(1);
        });
        clock.timer(3).await;
        c_v.borrow_mut().push(0);
    });
    rt.run();
    assert!(is_sorted(&v.borrow()));
    assert_eq!(*v.borrow(), vec![0, 1]);
}

#[test]
fn lib_alarm_t_1() {
    let rt = Rt::new();
    let clock = rt.clock();
    rt.spawner().spawn(clock.timer(3));
    rt.run();
}

#[test]
fn rt_spawn_t_1() {
    let rt = Rt::new();
    let b: &'static RefCell<bool> = Box::leak(Box::new(RefCell::new(false)));
    rt.spawner().spawn(async { *b.borrow_mut() = true });
    rt.run();
    assert!(*b.borrow());
}

#[test]
fn rt_spawn_t_2() {
    let b: &'static RefCell<bool> = Box::leak(Box::new(RefCell::new(false)));
    let rt = Rt::new();
    rt.spawner()
        .spawn(async { *b.borrow_mut() = bool_future().await });
    rt.run();
}

#[test]
fn rt_spawn_t_3() {
    let v: &'static RefCell<Vec<i32>> = Box::leak(Box::new(RefCell::new(Vec::new())));
    let rt = Rt::new();
    let clock = rt.clock();
    let c_clock = clock.clone();
    rt.spawner().spawn(async move {
        c_clock.timer(3).await;
        v.borrow_mut().push(1);
    });
    let c_clock = clock.clone();
    rt.spawner().spawn(async move {
        c_clock.timer(1).await;
        v.borrow_mut().push(0);
    });
    rt.run();
    assert!(is_sorted(&v.borrow()));
    assert_eq!(*v.borrow(), vec![0, 1]);
}

#[test]
fn rt_spawn_t_4() {
    let v = Rc::new(RefCell::new(Vec::new()));
    let rt = Rt::new();
    let clock = rt.clock();
    let spawner = rt.spawner().clone();
    let c_v = v.clone();
    rt.spawner().spawn(async move {
        let c_c_v = c_v.clone();
        spawner.spawn(async move {
            clock.timer(3).await;
            c_c_v.borrow_mut().push(1);
        });
        async move { c_v.borrow_mut().push(0) }.await;
    });
    rt.run();
    assert!(is_sorted(&v.borrow()));
    assert_eq!(*v.borrow(), vec![0, 1]);
}

#[test]
fn rt_join_t_1() {
    let v = Rc::new(RefCell::new(Vec::new()));
    let rt = Rt::new();
    let clock = rt.clock();
    let spawner = rt.spawner().clone();
    let c_v = v.clone();
    rt.spawner().spawn(async move {
        let c_c_v = c_v.clone();
        let join = spawner.spawn(async move {
            clock.timer(3).await;
            c_c_v.borrow_mut().push(0);
        });
        join.await;
        c_v.borrow_mut().push(1);
    });
    rt.run();
    assert!(is_sorted(&v.borrow()));
    assert_eq!(*v.borrow(), vec![0, 1]);
}

#[test]
fn rt_join_t_2() {
    let b: &'static RefCell<bool> = Box::leak(Box::new(RefCell::new(false)));
    let rt = Rt::new();
    let join = rt.spawner().spawn(bool_future());
    rt.spawner().spawn(async {
        *b.borrow_mut() = join.await.unwrap();
    });
    rt.run();
    assert!(*b.borrow_mut());
}

#[test]
fn rt_join_t_3() {
    let b = Rc::new(RefCell::new(false));
    let rt = Rt::new();
    let spawner = rt.spawner().clone();
    let c_b = b.clone();
    rt.spawner().spawn(async move {
        let join = spawner.spawn(bool_future());
        *c_b.borrow_mut() = join.await.unwrap();
    });
    rt.run();
    assert!(*b.borrow());
}

#[test]
fn rt_join_t_4() {
    async fn late_bool_future(clock: Rc<Clock>) -> bool {
        clock.timer(3).await;
        true
    }
    let b = Rc::new(RefCell::new(false));
    let rt = Rt::new();
    let clock = rt.clock();
    let spawner = rt.spawner().clone();
    let c_b = b.clone();
    rt.spawner().spawn(async move {
        let join = spawner.spawn(late_bool_future(clock));
        *c_b.borrow_mut() = join.await.unwrap();
    });
    rt.run();
    assert!(*b.borrow_mut());
}

#[test]
fn rt_cancel_t_1() {
    let b = Rc::new(RefCell::new(false));
    let rt = Rt::new();
    let clock = rt.clock();
    let spawner = rt.spawner().clone();
    let c_b = b.clone();
    rt.spawner().spawn(async move {
        let mut join = spawner.spawn(async move {
            clock.timer(3).await;
            *c_b.borrow_mut() = true;
        });
        join.cancel();
    });
    rt.run();
    assert!(!*b.borrow());
}

#[test]
fn rt_cancel_t_2() {
    let b = Rc::new(RefCell::new(false));
    let rt = Rt::new();
    let clock = rt.clock();
    let spawner = rt.spawner().clone();
    let c_b = b.clone();
    rt.spawner().spawn(async move {
        let mut join = spawner.spawn(async move {
            clock.timer(3).await;
            *c_b.borrow_mut() = true;
        });
        join.cancel();
        join.await;
    });
    rt.run();
    assert!(!*b.borrow());
}

#[test]
fn sync_async_mutex_t_1() {
    let v = Rc::new(RefCell::new(Vec::new()));
    let rt = Rt::new();
    let clock = rt.clock();
    let spawner = rt.spawner().clone();
    let async_mutex = Rc::new(AsyncMutex::new(()));
    let c_v = v.clone();
    rt.spawner().spawn(async move {
        let async_mutex = async_mutex.clone();
        let _guard = async_mutex.as_ref().await;
        let async_mutex = async_mutex.clone();
        let c_c_v = c_v.clone();
        spawner.spawn(async move {
            async_mutex.as_ref().await;
            c_c_v.borrow_mut().push(1);
        });
        clock.timer(3).await;
        c_v.borrow_mut().push(0);
    });
    rt.run();
    assert!(is_sorted(&v.borrow()));
    assert_eq!(*v.borrow(), vec![0, 1]);
}

#[test]
fn send_spawned_task_is_joined_by_a_task_of_the_other_table() {
    let b = Rc::new(Cell::new(0));
    let rt = Rt::new();
    let clock = rt.clock();
    let spawner = rt.send_spawner().clone();
    let c_b = b.clone();
    rt.spawner().spawn(async move {
        let join = spawner.spawn(async move {
            clock.timer(3).await;
            7
        });
        c_b.set(join.await.unwrap());
    });
    rt.run();
    assert_eq!(b.get(), 7);
}

#[test]
fn cancelled_join_gives_nothing() {
    let seen = Rc::new(RefCell::new(Vec::new()));
    let rt = Rt::new();
    let clock = rt.clock();
    let spawner = rt.spawner();
    let c_seen = seen.clone();
    rt.spawner().spawn(async move {
        let mut join = spawner.spawn(async move {
            clock.timer(3).await;
            5
        });
        join.cancel();
        c_seen.borrow_mut().push(join.await);
    });
    rt.run();
    assert_eq!(*seen.borrow(), vec![None]);
}

#[test]
fn tasks_take_the_lock_in_turn_and_see_each_others_writes() {
    let rt = Rt::new();
    let clock = rt.clock();
    let mutex = Rc::new(AsyncMutex::new(Vec::new()));
    for n in 0..4 {
        let clock = clock.clone();
        let mutex = mutex.clone();
        rt.spawner().spawn(async move {
            let mut guard = mutex.lock().await;
            clock.timer(4 - n).await;
            guard.push(n);
        });
    }
    rt.run();
    assert_eq!(clock.now.get(), 10 * io::NANOS_PER_SEC);
    assert!(is_sorted(&mutex.0.borrow_mut().lock().poll(noop()).unwrap_guard()));
}

fn noop() -> Waker {
    Waker::noop().clone()
}

trait UnwrapGuard<T> {
    fn unwrap_guard(self) -> T;
}

impl<T: Clone> UnwrapGuard<T> for task::Poll<sync::AsyncMutexGuard<T>> {
    fn unwrap_guard(self) -> T {
        match self {
            task::Poll::Ready(guard) => (*guard).clone(),
            task::Poll::Pending => panic!("the mutex is locked"),
        }
    }
}
