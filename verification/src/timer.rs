use vstd::prelude::*;

use crate::poll::Poll;

verus! {

/// The timer-backed wait primitive: a suspendable computation that becomes
/// ready once the monotonic timestamp source has reached its target.
///
/// The target is captured once, at construction time, as "now + duration".
/// Re-reading "now" on every poll would let the deadline drift forward each
/// time the task is rescheduled, so the target never changes afterwards:
/// this library constructs a `TimerWait` and from then on only compares
/// against it. Polling is a pure comparison with no side effect beyond
/// reporting readiness.
#[derive(Clone, Copy, Debug, PartialEq, Eq)]
pub struct TimerWait {
    /// Absolute timestamp, in ticks of the monotonic source, at which the
    /// wait becomes ready. Set once at construction and never reassigned.
    pub target: u64,
}

impl TimerWait {
    /// Readiness at the instant the timestamp source reads `now`.
    pub open spec fn is_ready_at(self, now: u64) -> bool {
        now >= self.target
    }

    /// What a poll at `now` reports.
    pub open spec fn poll_spec(self, now: u64) -> Poll<()> {
        if self.is_ready_at(now) {
            Poll::Ready(())
        } else {
            Poll::Pending
        }
    }

    /// Captures the deadline "now + duration" once. A duration that would
    /// push the target past the range of the timestamp source is a
    /// configuration error: it is reported as `None`, never silently
    /// wrapped around.
    pub fn try_new(now: u64, duration: u64) -> (w: Option<TimerWait>)
        ensures
            (w is Some) <==> now + duration <= u64::MAX,
            w matches Some(t) ==> t.target == now + duration,
    {
        match now.checked_add(duration) {
            Some(target) => Some(TimerWait { target }),
            None => None,
        }
    }

    /// As `try_new`, for callers that already know the target fits in the
    /// timestamp range.
    pub fn new(now: u64, duration: u64) -> (w: TimerWait)
        requires
            now + duration <= u64::MAX,
        ensures
            w.target == now + duration,
    {
        TimerWait { target: now + duration }
    }

    /// Pure readiness comparison against the current timestamp: `Ready(())`
    /// exactly when `now` has reached the target, `Pending` otherwise. A
    /// zero or already-elapsed duration is ready on the very first poll.
    pub fn poll(&self, now: u64) -> (p: Poll<()>)
        ensures
            p == self.poll_spec(now),
    {
        if now >= self.target {
            Poll::Ready(())
        } else {
            Poll::Pending
        }
    }
}

/// Timer accuracy: a wait built at timestamp `start` for `duration` ticks
/// reports `Pending` at every instant strictly before `start + duration`,
/// and `Ready(())` at every instant from `start + duration` on — in
/// particular on the very first poll when the duration is zero.
pub proof fn lemma_timer_accuracy(w: TimerWait, start: u64, duration: u64, now: u64)
    requires
        start + duration <= u64::MAX,
        w.target == start + duration,
    ensures
        now < start + duration ==> w.poll_spec(now) == Poll::<()>::Pending,
        now >= start + duration ==> w.poll_spec(now) == Poll::<()>::Ready(()),
{
}

} // verus!
