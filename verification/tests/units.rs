use std::sync::Arc;

use async_rt::channel::{Channels, Message};
use async_rt::io::{remaining, Alarm, Ring, NANOS_PER_SEC};
use async_rt::model::{Action, Event};
use async_rt::rt::{Join, Rt};
use async_rt::slots::Slots;
use async_rt::sync::{AsyncMutex, AsyncMutexGuard};
use async_rt::task::{Id, InnerJoin, Poll, Task};
use async_rt::test_utils::is_sorted;

type Core = Rt<&'static str, u32, char>;

fn local(i: usize) -> Id {
    Id { i, is_send: false }
}

fn sent(i: usize) -> Id {
    Id { i, is_send: true }
}

fn wake<F, O, W>(rt: &mut Rt<F, O, W>, id: Id) {
    let waker = rt.waker(id);
    waker.wake(rt);
}

fn completed(id: Id, waker: Option<char>, unclaimed: Option<u32>) -> Action<&'static str, u32, char> {
    Action::Completed { id, waker: waker.map(Arc::new), unclaimed }
}

#[test]
fn slots_are_reused_last_vacated_first() {
    let mut slots = Slots::new();
    assert_eq!(slots.insert('a'), 0);
    assert_eq!(slots.insert('b'), 1);
    assert_eq!(slots.insert('c'), 2);
    assert_eq!(slots.remove(0), 'a');
    assert_eq!(slots.remove(2), 'c');
    assert_eq!(slots.count(), 1);
    assert!(!slots.is_live(0) && slots.is_live(1) && !slots.is_live(2) && !slots.is_live(3));
    assert_eq!(slots.next(), 2);
    assert_eq!(slots.insert('d'), 2);
    assert_eq!(slots.insert('e'), 0);
    assert_eq!(slots.insert('f'), 3);
    *slots.get_mut(1) = 'g';
    let kept: Vec<char> = (0..4).map(|i| *slots.get(i)).collect();
    assert_eq!(kept, vec!['e', 'g', 'd', 'f']);
}

#[test]
fn table_grows_to_the_most_values_at_once() {
    let mut slots = Slots::new();
    for round in 0..10 {
        let i = slots.insert(round);
        let j = slots.insert(round);
        assert!(i < 2 && j < 2);
        slots.remove(i);
        slots.remove(j);
    }
    assert_eq!(slots.count(), 0);
}

#[test]
fn channels_keep_the_order_among_queues() {
    let mut channels = Channels::new();
    channels.send_task(Task::new('a', 0));
    channels.send_id(local(7));
    channels.send_send_task(Task::new('b', 1));
    channels.send_id(sent(8));
    channels.send_task(Task::new('c', 2));
    assert!(matches!(channels.recv(), Some(Message::Task(task)) if task.future == Some('a')));
    assert!(matches!(channels.recv(), Some(Message::Id(id)) if id == local(7)));
    assert!(matches!(channels.recv(), Some(Message::SendTask(task)) if task.future == Some('b')));
    assert!(matches!(channels.recv(), Some(Message::Id(id)) if id == sent(8)));
    assert!(matches!(channels.recv(), Some(Message::Task(task)) if task.join == 2));
    assert!(channels.recv().is_none());
}

#[test]
fn task_gets_its_id() {
    let mut task = Task::new('a', 3);
    assert_eq!(task.id, None);
    task.set_id(sent(1));
    assert_eq!((task.future, task.id, task.join), (Some('a'), Some(sent(1)), 3));
}

#[test]
fn inner_join_gives_its_output_once() {
    let mut join: InnerJoin<u32, char> = InnerJoin::new(false);
    assert_eq!(join.poll(Arc::new('x')), Poll::Pending);
    assert_eq!(join.poll(Arc::new('y')), Poll::Pending);
    assert_eq!(join.complete(5), Some(Arc::new('x')));
    assert_eq!(join.poll(Arc::new('z')), Poll::Ready(Some(5)));
    assert_eq!(join.poll(Arc::new('z')), Poll::Ready(None));
    assert_eq!(join.take(), None);
    assert_eq!(join.waker, Some(Arc::new('x')));
}

#[test]
fn poll_tells_pending_from_ready() {
    assert!(Poll::<u32>::Pending.is_pending() && !Poll::<u32>::Pending.is_ready());
    assert!(!Poll::Ready(1).is_pending() && Poll::Ready(1).is_ready());
}

#[test]
fn new_runtime_returns_unless_somebody_may_send() {
    let mut rt = Core::new();
    assert_eq!(rt.run(Event::Resume, true), Action::Wait);
    assert_eq!(rt.run(Event::Resume, false), Action::Return);
    let mut rt = Core::default();
    assert_eq!(rt.run(Event::Resume, false), Action::Return);
}

#[test]
fn runtime_waits_while_a_task_is_left() {
    let mut rt = Core::new();
    let _join = rt.spawner().spawn("a");
    assert_eq!(rt.run(Event::Resume, false), Action::Poll { id: local(0), future: "a" });
    assert_eq!(rt.run(Event::Pending("a1"), false), Action::Wait);
    wake(&mut rt, local(0));
    assert_eq!(rt.run(Event::Resume, false), Action::Poll { id: local(0), future: "a1" });
    assert_eq!(rt.run(Event::Ready(1), false), completed(local(0), None, None));
    assert_eq!(rt.run(Event::Resume, false), Action::Return);
}

#[test]
fn messages_are_served_first_come_first_served() {
    let mut rt = Core::new();
    let _a = rt.spawner().spawn("a");
    let _b = rt.send_spawner().spawn("b");
    let _c = rt.spawner().spawn("c");
    assert_eq!(rt.run(Event::Resume, true), Action::Poll { id: local(0), future: "a" });
    wake(&mut rt, local(0));
    assert_eq!(rt.run(Event::Pending("a"), true), Action::Poll { id: sent(0), future: "b" });
    assert_eq!(rt.run(Event::Pending("b"), true), Action::Poll { id: local(1), future: "c" });
    assert_eq!(rt.run(Event::Pending("c"), true), Action::Poll { id: local(0), future: "a" });
    assert_eq!(rt.run(Event::Pending("a"), true), Action::Wait);
}

#[test]
fn ids_are_reused_each_table_for_itself() {
    let mut rt = Core::new();
    let _a = rt.spawner().spawn("a");
    let _b = rt.spawner().spawn("b");
    let _c = rt.send_spawner().spawn("c");
    assert_eq!(rt.run(Event::Resume, true), Action::Poll { id: local(0), future: "a" });
    assert_eq!(rt.run(Event::Ready(1), true), completed(local(0), None, None));
    let _d = rt.send_spawner().spawn("d");
    let _e = rt.spawner().spawn("e");
    assert_eq!(rt.run(Event::Resume, true), Action::Poll { id: local(0), future: "b" });
    assert_eq!(rt.run(Event::Pending("b"), true), Action::Poll { id: sent(0), future: "c" });
    assert_eq!(rt.run(Event::Pending("c"), true), Action::Poll { id: sent(1), future: "d" });
    assert_eq!(rt.run(Event::Pending("d"), true), Action::Poll { id: local(1), future: "e" });
}

#[test]
fn join_wakes_the_first_waker_and_gives_the_output_once() {
    let mut rt = Core::new();
    let mut join: Join<u32> = rt.spawner().spawn("a");
    assert_eq!(join.poll(&mut rt, Arc::new('x')), Poll::Pending);
    assert_eq!(join.poll(&mut rt, Arc::new('y')), Poll::Pending);
    assert_eq!(rt.run(Event::Resume, true), Action::Poll { id: local(0), future: "a" });
    assert_eq!(rt.run(Event::Ready(9), true), completed(local(0), Some('x'), None));
    let mut other = rt.spawner().spawn("b");
    assert_eq!(other.poll(&mut rt, Arc::new('z')), Poll::Pending);
    assert_eq!(join.poll(&mut rt, Arc::new('x')), Poll::Ready(Some(9)));
    assert_eq!(join.poll(&mut rt, Arc::new('x')), Poll::Ready(None));
}

#[test]
fn cancelled_task_is_given_out_to_be_dropped() {
    let mut rt = Core::new();
    let mut join = rt.spawner().spawn("a");
    assert_eq!(rt.run(Event::Resume, true), Action::Poll { id: local(0), future: "a" });
    assert_eq!(rt.run(Event::Pending("a1"), true), Action::Wait);
    assert_eq!(join.cancel(&mut rt), None);
    assert_eq!(join.poll(&mut rt, Arc::new('x')), Poll::Ready(None));
    wake(&mut rt, local(0));
    assert_eq!(rt.run(Event::Resume, true), Action::Cancelled { id: local(0), future: "a1" });
    assert_eq!(join.poll(&mut rt, Arc::new('x')), Poll::Ready(None));
    assert_eq!(rt.run(Event::Resume, false), Action::Return);
}

#[test]
fn task_cancelled_before_its_first_poll_is_never_polled() {
    let mut rt = Core::new();
    let mut join = rt.send_spawner().spawn("a");
    assert_eq!(join.cancel(&mut rt), None);
    assert_eq!(rt.run(Event::Resume, false), Action::Cancelled { id: sent(0), future: "a" });
    assert_eq!(rt.run(Event::Resume, false), Action::Return);
}

#[test]
fn cancel_after_completion_takes_the_output_away() {
    let mut rt = Core::new();
    let mut join = rt.spawner().spawn("a");
    let _ = rt.run(Event::Resume, true);
    let _ = rt.run(Event::Ready(4), true);
    assert_eq!(join.cancel(&mut rt), Some(4));
    assert_eq!(join.poll(&mut rt, Arc::new('x')), Poll::Ready(None));
}

#[test]
fn task_runs_on_when_its_join_is_closed() {
    let mut rt = Core::new();
    let join = rt.spawner().spawn("a");
    assert_eq!(join.close(&mut rt), None);
    assert_eq!(rt.run(Event::Resume, true), Action::Poll { id: local(0), future: "a" });
    assert_eq!(rt.run(Event::Ready(4), true), completed(local(0), None, Some(4)));
}

#[test]
fn closing_a_join_hands_out_the_unclaimed_output() {
    let mut rt = Core::new();
    let mut a = rt.spawner().spawn("a");
    let b = rt.spawner().spawn("b");
    let _ = rt.run(Event::Resume, true);
    let _ = rt.run(Event::Ready(1), true);
    let _ = rt.run(Event::Resume, true);
    let _ = rt.run(Event::Ready(2), true);
    assert_eq!(b.close(&mut rt), Some(2));
    assert_eq!(a.poll(&mut rt, Arc::new('x')), Poll::Ready(Some(1)));
    assert_eq!(a.close(&mut rt), None);
}

#[test]
fn woken_id_without_a_task_is_reported() {
    let mut rt = Core::new();
    let _join = rt.spawner().spawn("a");
    let _ = rt.run(Event::Resume, true);
    wake(&mut rt, local(0));
    let _ = rt.run(Event::Ready(1), true);
    assert_eq!(rt.run(Event::Resume, true), Action::Vacant { id: local(0) });
    wake(&mut rt, sent(5));
    assert_eq!(rt.run(Event::Resume, true), Action::Vacant { id: sent(5) });
    assert_eq!(rt.run(Event::Resume, false), Action::Return);
}

#[test]
fn join_is_locked_while_its_own_task_is_polled() {
    let mut rt = Core::new();
    let a = rt.spawner().spawn("a");
    let b = rt.spawner().spawn("b");
    assert!(a.try_lock(&rt) && b.try_lock(&rt));
    assert!(!rt.is_polling());
    let _ = rt.run(Event::Resume, true);
    assert!(!a.try_lock(&rt) && b.try_lock(&rt));
    assert!(rt.is_polling());
    let _ = rt.run(Event::Ready(1), true);
    assert!(a.try_lock(&rt) && b.try_lock(&rt));
    let _ = rt.run(Event::Resume, true);
    assert!(a.try_lock(&rt) && !b.try_lock(&rt));
    assert!(a.joins_with(&rt) && b.joins_with(&rt));
}

fn guard<T>(poll: Poll<AsyncMutexGuard<T>>) -> AsyncMutexGuard<T> {
    match poll {
        Poll::Ready(guard) => guard,
        Poll::Pending => panic!("the mutex is locked"),
    }
}

fn dropped<T>(guard: AsyncMutexGuard<T>, mutex: &mut AsyncMutex<T, char>) -> Option<char> {
    let (waker, unlock) = guard.drop(mutex);
    unlock.unlock(mutex);
    waker
}

#[test]
fn mutex_gives_one_guard_at_a_time() {
    let mut mutex = AsyncMutex::new(1);
    assert!(!mutex.is_locked());
    let first = guard(mutex.poll('a'));
    assert!(mutex.is_locked());
    assert!(mutex.poll('b').is_pending());
    assert!(mutex.lock().poll('c').is_pending());
    let (waker, unlock) = first.drop(&mut mutex);
    assert_eq!(waker, Some('b'));
    assert!(mutex.is_locked());
    assert!(mutex.poll('d').is_pending());
    unlock.unlock(&mut mutex);
    assert!(!mutex.is_locked());
    let second = guard(mutex.lock().poll('b'));
    assert_eq!(dropped(second, &mut mutex), Some('c'));
    let third = guard(mutex.poll('c'));
    assert_eq!(dropped(third, &mut mutex), Some('d'));
    let fourth = guard(mutex.poll('d'));
    assert_eq!(dropped(fourth, &mut mutex), None);
}

#[test]
fn guard_sees_what_the_guard_before_left() {
    let mut mutex = AsyncMutex::new(vec![1]);
    let mut first = guard(mutex.poll('a'));
    assert_eq!(*first, vec![1]);
    first.push(2);
    dropped(first, &mut mutex);
    let second = guard(mutex.poll('a'));
    assert_eq!(*second, vec![1, 2]);
}

#[test]
fn alarm_rings_at_its_moment() {
    let mut alarm = Alarm::timer(3, 500);
    let until = 3 * NANOS_PER_SEC + 500;
    assert_eq!(until, 3_000_000_500);
    assert_eq!(alarm.poll(500, 'a'), Ring::Sleep { until, waker: 'a' });
    assert_eq!(alarm.poll(until - 1, 'b'), Ring::Sleep { until, waker: 'b' });
    assert_eq!(alarm.poll(until, 'c'), Ring::Ready);
    assert_eq!(alarm.poll(until + 1, 'c'), Ring::Ready);
    assert_eq!(Alarm::timer(0, 7).poll(7, 'a'), Ring::Ready);
}

#[test]
fn sleep_lasts_until_the_alarm_is_due() {
    assert_eq!(remaining(10, 4), 6);
    assert_eq!(remaining(10, 10), 0);
    assert_eq!(remaining(10, 11), 0);
    let mut alarm = Alarm::timer(2, 100);
    match alarm.poll(350, 'a') {
        Ring::Ready => panic!("too early"),
        Ring::Sleep { until, waker } => {
            assert_eq!(alarm.poll(350 + remaining(until, 350), waker), Ring::Ready);
        }
    }
}

#[test]
fn sorted_slices_are_told_from_others() {
    assert!(is_sorted::<u8>(&[]));
    assert!(is_sorted(&[3]));
    assert!(is_sorted(&[0, 1]));
    assert!(is_sorted(&[1, 1, 2, 2, 9]));
    assert!(!is_sorted(&[1, 0]));
    assert!(!is_sorted(&[0, 1, 2, 1]));
    assert!(!is_sorted(&[1, 0, 2]));
    assert!(is_sorted(&["a", "ab", "b"]));
}

#[test]
fn join_stays_pending_until_its_task_is_done() {
    let mut rt = Core::new();
    let mut a = rt.spawner().spawn("a");
    let mut b = rt.spawner().spawn("b");
    assert_eq!(rt.run(Event::Resume, true), Action::Poll { id: local(0), future: "a" });
    assert_eq!(rt.run(Event::Pending("a"), true), Action::Poll { id: local(1), future: "b" });
    assert_eq!(rt.run(Event::Ready(2), true), completed(local(1), None, None));
    assert_eq!(a.poll(&mut rt, Arc::new('x')), Poll::Pending);
    assert_eq!(b.poll(&mut rt, Arc::new('x')), Poll::Ready(Some(2)));
    wake(&mut rt, local(0));
    assert_eq!(rt.run(Event::Resume, true), Action::Poll { id: local(0), future: "a" });
    assert_eq!(rt.run(Event::Ready(1), true), completed(local(0), Some('x'), None));
    assert_eq!(a.poll(&mut rt, Arc::new('x')), Poll::Ready(Some(1)));
}

#[test]
fn cells_are_reused_when_task_and_join_are_gone() {
    let mut rt = Core::new();
    for n in 0..5 {
        let mut join = rt.spawner().spawn("a");
        assert_eq!(rt.run(Event::Resume, true), Action::Poll { id: local(0), future: "a" });
        assert_eq!(rt.run(Event::Ready(n), true), completed(local(0), None, None));
        assert_eq!(join.poll(&mut rt, Arc::new('x')), Poll::Ready(Some(n)));
        assert_eq!(join.close(&mut rt), None);
    }
}

#[test]
fn spawned_future_gets_its_turn_after_a_pending_poll() {
    let mut rt = Core::new();
    let _a = rt.spawner().spawn("a");
    let _b = rt.send_spawner().spawn("b");
    assert_eq!(rt.run(Event::Resume, true), Action::Poll { id: local(0), future: "a" });
    assert_eq!(rt.run(Event::Pending("a"), true), Action::Poll { id: sent(0), future: "b" });
}

#[test]
fn task_woken_in_its_own_poll_is_polled_again_with_what_came_back() {
    let mut rt = Core::new();
    let _a = rt.spawner().spawn("a");
    assert_eq!(rt.run(Event::Resume, true), Action::Poll { id: local(0), future: "a" });
    wake(&mut rt, local(0));
    assert_eq!(rt.run(Event::Pending("a1"), true), Action::Poll { id: local(0), future: "a1" });
    assert_eq!(rt.run(Event::Pending("a2"), true), Action::Wait);
}

/// Runs tasks that each are done after a number of polls, and wakes each once after every poll
/// that leaves it pending. Gives the polls of each.
fn polls_of(needed: &[u32]) -> Vec<u32> {
    let mut rt: Rt<usize, u32, char> = Rt::new();
    for task in 0..needed.len() {
        let join = if task % 2 == 0 {
            rt.spawner().spawn(task)
        } else {
            rt.send_spawner().spawn(task)
        };
        join.close(&mut rt);
    }
    let mut polls = vec![0; needed.len()];
    let mut event = Event::Resume;
    loop {
        match rt.run(event, false) {
            Action::Poll { id, future } => {
                polls[future] += 1;
                if polls[future] == needed[future] {
                    event = Event::Ready(needed[future]);
                } else {
                    wake(&mut rt, id);
                    event = Event::Pending(future);
                }
            }
            Action::Completed { unclaimed, .. } => {
                assert!(unclaimed.is_some());
                event = Event::Resume;
            }
            Action::Return => return polls,
            _ => panic!("nothing else is asked for"),
        }
    }
}

#[test]
fn return_finds_every_task_completed_after_one_poll_more_than_wakes() {
    let needed = [1, 4, 2, 3, 1, 1, 5];
    assert_eq!(polls_of(&needed), needed);
    assert_eq!(polls_of(&[]), vec![]);
}

#[test]
fn return_finds_cancelled_tasks_dropped() {
    let mut rt = Core::new();
    let mut a = rt.spawner().spawn("a");
    let _b = rt.spawner().spawn("b");
    assert_eq!(a.cancel(&mut rt), None);
    assert_eq!(rt.run(Event::Resume, false), Action::Cancelled { id: local(0), future: "a" });
    assert_eq!(rt.run(Event::Resume, false), Action::Poll { id: local(0), future: "b" });
    assert_eq!(rt.run(Event::Ready(3), false), completed(local(0), None, None));
    assert_eq!(rt.run(Event::Resume, false), Action::Return);
}

#[test]
fn spent_join_gives_nothing_whatever_is_done_with_it() {
    let mut rt = Core::new();
    let mut join = rt.spawner().spawn("a");
    let _ = rt.run(Event::Resume, true);
    let _ = rt.run(Event::Ready(1), true);
    assert_eq!(join.poll(&mut rt, Arc::new('x')), Poll::Ready(Some(1)));
    assert_eq!(join.cancel(&mut rt), None);
    assert_eq!(join.poll(&mut rt, Arc::new('x')), Poll::Ready(None));
    let _other = rt.spawner().spawn("b");
    let _ = rt.run(Event::Resume, true);
    assert_eq!(join.poll(&mut rt, Arc::new('x')), Poll::Ready(None));
}

#[test]
fn join_keeps_its_waker_until_it_is_closed() {
    let mut rt = Core::new();
    let mut join = rt.spawner().spawn("a");
    let waker = Arc::new('x');
    assert_eq!(join.poll(&mut rt, waker.clone()), Poll::Pending);
    let _ = rt.run(Event::Resume, true);
    assert_eq!(rt.run(Event::Ready(1), true), completed(local(0), Some('x'), None));
    assert_eq!(Arc::strong_count(&waker), 2);
    join.close(&mut rt);
    assert_eq!(Arc::strong_count(&waker), 1);
}

#[test]
fn runtime_rests_once_every_message_is_served() {
    let mut rt = Core::new();
    let _a = rt.spawner().spawn("a");
    let _b = rt.send_spawner().spawn("b");
    assert_eq!(rt.run(Event::Resume, false), Action::Poll { id: local(0), future: "a" });
    wake(&mut rt, local(0));
    assert_eq!(rt.run(Event::Pending("a1"), false), Action::Poll { id: sent(0), future: "b" });
    assert_eq!(rt.run(Event::Ready(2), false), completed(sent(0), None, None));
    assert_eq!(rt.run(Event::Resume, false), Action::Poll { id: local(0), future: "a1" });
    assert_eq!(rt.run(Event::Pending("a2"), false), Action::Wait);
    wake(&mut rt, local(0));
    assert_eq!(rt.run(Event::Resume, false), Action::Poll { id: local(0), future: "a2" });
    assert_eq!(rt.run(Event::Ready(1), false), completed(local(0), None, None));
    assert_eq!(rt.run(Event::Resume, true), Action::Wait);
    assert_eq!(rt.run(Event::Resume, false), Action::Return);
}
