//! The event loop's timers. Times are milliseconds on a monotonic clock that
//! the caller reads.
use vstd::prelude::*;

verus! {

/// A timer that fires once `timeout` milliseconds have passed since `instant`.
#[derive(Debug, Clone, Copy, PartialEq, Eq, Structural)]
pub struct Timer {
    pub timeout: u64,
    pub instant: u64,
}

/// Milliseconds since `t` was last reset, at time `now`; none before it.
pub open spec fn elapsed(t: Timer, now: u64) -> int {
    if now >= t.instant {
        now - t.instant
    } else {
        0
    }
}

/// Milliseconds until `t` fires, at time `now`; none once it is due.
pub open spec fn remaining(t: Timer, now: u64) -> int {
    if t.timeout >= elapsed(t, now) {
        t.timeout - elapsed(t, now)
    } else {
        0
    }
}

pub open spec fn min(a: int, b: int) -> int {
    if a <= b {
        a
    } else {
        b
    }
}

impl Timer {
    /// Whether more than `timeout` milliseconds have passed at time `now`.
    pub fn timeout_huh(&self, now: u64) -> (r: bool)
        ensures
            r == (elapsed(*self, now) > self.timeout),
    {
        let e = if now >= self.instant {
            now - self.instant
        } else {
            0
        };
        e > self.timeout
    }

    /// Restarts the timer at time `now`.
    pub fn update_instant(&mut self, now: u64)
        ensures
            final(self).instant == now,
            final(self).timeout == old(self).timeout,
    {
        self.instant = now;
    }

    /// Milliseconds until the timer fires, at time `now`.
    pub fn remaining(&self, now: u64) -> (r: u64)
        ensures
            r == remaining(*self, now),
    {
        let e = if now >= self.instant {
            now - self.instant
        } else {
            0
        };
        if self.timeout >= e {
            self.timeout - e
        } else {
            0
        }
    }
}

/// The four timers of the event loop.
#[derive(Debug, Clone, Copy, PartialEq, Eq, Structural)]
pub struct Timers {
    pub strategy: Timer,
    pub tracker: Timer,
    pub keepalive: Timer,
    pub clear_requests: Timer,
}

impl Timers {
    /// Milliseconds until the first of the four timers fires, at time `now`.
    pub fn min_remaining(&self, now: u64) -> (r: u64)
        ensures
            r == min(
                min(remaining(self.strategy, now), remaining(self.tracker, now)),
                min(remaining(self.keepalive, now), remaining(self.clear_requests, now)),
            ),
    {
        let all_timers = [self.strategy, self.tracker, self.keepalive, self.clear_requests];
        let mut min_remaining: u64 = u64::MAX;
        let mut i: usize = 0;
        while i < 4
            invariant
                i <= 4,
                all_timers@ == seq![self.strategy, self.tracker, self.keepalive, self.clear_requests],
                min_remaining == if i == 0 {
                    u64::MAX as int
                } else if i == 1 {
                    remaining(self.strategy, now)
                } else if i == 2 {
                    min(remaining(self.strategy, now), remaining(self.tracker, now))
                } else if i == 3 {
                    min(
                        min(remaining(self.strategy, now), remaining(self.tracker, now)),
                        remaining(self.keepalive, now),
                    )
                } else {
                    min(
                        min(remaining(self.strategy, now), remaining(self.tracker, now)),
                        min(remaining(self.keepalive, now), remaining(self.clear_requests, now)),
                    )
                },
            decreases 4 - i,
        {
            let remaining = all_timers[i].remaining(now);
            if remaining < min_remaining {
                min_remaining = remaining;
            }
            i = i + 1;
        }
        min_remaining
    }
}

} // verus!
