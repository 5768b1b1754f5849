use vstd::prelude::*;

verus! {

/// The number of nanoseconds in a second.
pub const NANOS_PER_SEC: u128 = 1_000_000_000;

/// What one poll of an [`Alarm`] gives.
#[derive(Debug, PartialEq, Eq)]
pub enum Ring<W> {
    /// The alarm has gone off.
    Ready,
    /// It has not. Sleep until the moment `until`, then wake `waker`.
    Sleep { until: u128, waker: W },
}

/// Goes off at a moment. Moments are nanoseconds of one clock that never goes back.
pub struct Alarm {
    instant: u128,
}

/// The moment `secs` seconds after `now`.
pub open spec fn later(secs: u64, now: u128) -> int {
    now + secs * NANOS_PER_SEC
}

/// How long it is from the moment `now` to the moment `until`.
pub open spec fn span(until: u128, now: u128) -> int {
    if until > now {
        until - now
    } else {
        0
    }
}

impl Alarm {
    /// The alarm has gone off by the moment `now`.
    pub open spec fn is_due(&self, now: int) -> bool {
        now >= self.instant()
    }

    /// The moment at which the alarm goes off.
    pub closed spec fn instant(&self) -> u128 {
        self.instant
    }

    /// An alarm that goes off `secs` seconds after the moment `now`.
    #[must_use]
    pub fn timer(secs: u64, now: u128) -> (alarm: Alarm)
        requires
            later(secs, now) <= u128::MAX,
        ensures
            alarm.instant() == later(secs, now),
            forall|t: int| #[trigger] alarm.is_due(t) <==> t >= now + secs * 1_000_000_000,
    {
        let secs: u128 = secs as u128;
        assert(0 <= secs * NANOS_PER_SEC <= u64::MAX * NANOS_PER_SEC) by (nonlinear_arith)
            requires
                0 <= secs <= u64::MAX,
        ;
        Alarm { instant: now + secs * NANOS_PER_SEC }
    }

    /// Asks at the moment `now` whether the alarm has gone off. Each poll that finds it has
    /// not asks for a sleeper of its own.
    pub fn poll<W>(&mut self, now: u128, waker: W) -> (ring: Ring<W>)
        ensures
            *final(self) == *old(self),
            ring == (if old(self).is_due(now as int) {
                Ring::Ready
            } else {
                Ring::Sleep { until: old(self).instant(), waker }
            }),
            ring is Ready <==> old(self).is_due(now as int),
            ring matches Ring::Sleep { until, waker: kept } ==> {
                &&& kept == waker
                &&& now < until
                &&& forall|t: int| #[trigger] old(self).is_due(t) <==> t >= until
            },
    {
        if now >= self.instant {
            return Ring::Ready;
        }
        Ring::Sleep { until: self.instant, waker }
    }
}

/// How long to sleep at the moment `now` so as to wake at the moment `until`.
pub fn remaining(until: u128, now: u128) -> (nanos: u128)
    ensures
        nanos == span(until, now),
        now <= until ==> now + nanos == until,
        until <= now ==> nanos == 0,
{
    if until > now {
        until - now
    } else {
        0
    }
}

/// An alarm that has gone off stays so.
pub proof fn law_alarm_stays_due(alarm: Alarm, now: int, then: int)
    requires
        alarm.is_due(now),
        now <= then,
    ensures
        alarm.is_due(then),
{
}

/// Of two timers started at the same moment, the shorter one goes off no later.
pub proof fn law_shorter_timer_first(secs: u64, more: u64, now: u128)
    requires
        secs <= more,
    ensures
        now <= later(secs, now) <= later(more, now),
{
    assert(0 <= secs * NANOS_PER_SEC <= more * NANOS_PER_SEC) by (nonlinear_arith)
        requires
            0 <= secs <= more,
    ;
}

/// A timer of no seconds goes off at once, and each second more puts it off by as many
/// nanoseconds as a second has.
pub proof fn law_each_second_counts(secs: u64, now: u128)
    requires
        secs < u64::MAX,
    ensures
        later(0, now) == now,
        later((secs + 1) as u64, now) == later(secs, now) + 1_000_000_000,
{
    assert((secs + 1) * NANOS_PER_SEC == secs * NANOS_PER_SEC + NANOS_PER_SEC)
        by (nonlinear_arith);
}

/// A timer that is started later goes off later, by as much.
pub proof fn law_timer_counts_from_its_start(secs: u64, now: u128, then: u128)
    ensures
        later(secs, then) - later(secs, now) == then - now,
{
}

/// An alarm has gone off exactly when the time that was asked for has passed since its start.
pub proof fn law_timer_lasts_its_seconds(alarm: Alarm, secs: u64, now: u128, t: int)
    requires
        alarm.instant() == later(secs, now),
    ensures
        alarm.is_due(t) <==> t - now >= secs * 1_000_000_000,
{
}

/// Who sleeps from one moment to a later one wakes at that moment, also in two parts; nobody
/// sleeps for a moment that has passed.
pub proof fn law_sleep_ends_at_its_moment(until: u128, mid: u128, now: u128)
    ensures
        now <= until ==> now + span(until, now) == until,
        until <= now ==> span(until, now) == 0,
        now <= mid <= until ==> span(mid, now) + span(until, mid) == span(until, now),
{
}

/// Who sleeps for as long as an alarm asks for finds it due.
pub proof fn law_sleep_is_long_enough(alarm: Alarm, now: u128)
    ensures
        alarm.is_due(now + span(alarm.instant(), now)),
        forall|then: int| now <= then < now + span(alarm.instant(), now) ==> !alarm.is_due(then),
{
}

} // verus!
