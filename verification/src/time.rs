use vstd::prelude::*;

verus! {

/// A periodic timer over a caller-supplied monotonic millisecond clock.
/// The server never reads the wall clock itself: every entry point takes
/// the current instant as an argument.
pub struct Timer {
    pub interval_ms: u64,
    pub last_reset_ms: u64,
}

impl Timer {
    /// True when at least one full interval has elapsed since the last reset.
    pub open spec fn spec_ringing(self, now_ms: u64) -> bool {
        now_ms >= self.last_reset_ms + self.interval_ms
    }

    pub fn new(interval_ms: u64, now_ms: u64) -> (t: Timer)
        ensures
            t.interval_ms == interval_ms,
            t.last_reset_ms == now_ms,
    {
        Timer { interval_ms, last_reset_ms: now_ms }
    }

    pub fn ringing(&self, now_ms: u64) -> (r: bool)
        ensures
            r == self.spec_ringing(now_ms),
    {
        if now_ms >= self.last_reset_ms {
            now_ms - self.last_reset_ms >= self.interval_ms
        } else {
            false
        }
    }

    pub fn reset(&mut self, now_ms: u64)
        ensures
            final(self).interval_ms == old(self).interval_ms,
            final(self).last_reset_ms == now_ms,
    {
        self.last_reset_ms = now_ms;
    }
}

} // verus!
