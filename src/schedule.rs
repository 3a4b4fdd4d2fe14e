use vstd::prelude::*;

verus! {

/// `a + b`, held at `u64::MAX` instead of wrapping.
pub open spec fn saturating_sum(a: u64, b: u64) -> u64 {
    if a + b > u64::MAX {
        u64::MAX
    } else {
        (a + b) as u64
    }
}

/// A recurring deadline: it is due once the clock reaches `next_due`, and
/// restarting it pushes the deadline one interval past the restart time.
///
/// A fresh timer is due at once, so the first tick after start-up does the work.
#[derive(Clone, Copy, Debug, PartialEq, Eq)]
pub struct Timer {
    pub interval: u64,
    pub next_due: u64,
}

impl Timer {
    pub open spec fn new_spec(interval: u64) -> Timer {
        Timer { interval, next_due: 0 }
    }

    /// The timer after a restart at `now`.
    pub open spec fn restarted(self, now: u64) -> Timer {
        Timer { interval: self.interval, next_due: saturating_sum(now, self.interval) }
    }

    pub fn new(interval: u64) -> (t: Timer)
        ensures
            t == Timer::new_spec(interval),
    {
        Timer { interval, next_due: 0 }
    }

    pub open spec fn due_at(self, now: u64) -> bool {
        now >= self.next_due
    }

    pub fn is_due(&self, now: u64) -> (r: bool)
        ensures
            r == self.due_at(now),
    {
        now >= self.next_due
    }

    /// Restarts the timer at `now`.
    pub fn restart(&mut self, now: u64)
        ensures
            *final(self) == old(self).restarted(now),
    {
        self.next_due = now.saturating_add(self.interval);
    }
}

} // verus!
