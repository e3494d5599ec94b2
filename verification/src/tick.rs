use vstd::prelude::*;

verus! {

use crate::types::Tick;

/// Wrap-aware comparison of 16-bit tick counters: `a` is strictly more
/// recent than `b` when the forward distance from `b` to `a`, taken modulo
/// the counter space, is less than half of it. In particular the step from
/// 65535 to 0 counts as an increase.
pub open spec fn spec_tick_gt(a: u16, b: u16) -> bool {
    a != b && ((a as int - b as int) % 65536) < 32768
}

/// Executable wrap-aware tick comparison.
pub fn tick_gt(a: u16, b: u16) -> (r: bool)
    ensures
        r == spec_tick_gt(a, b),
{
    if a == b {
        false
    } else {
        let diff: u16 = a.wrapping_sub(b);
        proof {
            assert(((a as int - b as int) % 65536) == a.wrapping_sub(b) as int) by (bit_vector);
        }
        diff < 32768
    }
}

/// The successor of a tick in the wrapping counter space.
pub open spec fn spec_tick_next(t: u16) -> u16 {
    if t == 65535 { 0 } else { (t + 1) as u16 }
}

/// A tick's successor is always an increase under the wrap-aware order.
pub proof fn lemma_tick_next_gt(t: u16)
    ensures
        spec_tick_gt(spec_tick_next(t), t),
{
    if t == 65535 {
        assert(((0int - 65535int) % 65536) == 1);
    } else {
        assert(((t + 1) as int - t as int) % 65536 == 1);
    }
}

/// Owns the server's tick counter and advances it against the wall clock,
/// one consumed tick per call.
pub struct TickManager {
    pub tick_interval_ms: u64,
    pub server_tick: Tick,
    pub last_instant_ms: u64,
    pub accum_ms: u64,
}

impl TickManager {
    pub fn new(tick_interval_ms: u64, now_ms: u64) -> (t: TickManager)
        requires
            tick_interval_ms >= 1,
        ensures
            t.tick_interval_ms == tick_interval_ms,
            t.server_tick == 0,
            t.last_instant_ms == now_ms,
            t.accum_ms == 0,
    {
        TickManager { tick_interval_ms, server_tick: 0, last_instant_ms: now_ms, accum_ms: 0 }
    }

    /// Internal sanity: elapsed time is banked but never more than one
    /// interval is consumed per call.
    pub open spec fn wf(self) -> bool {
        self.tick_interval_ms >= 1
    }

    /// Consumes at most one pending tick. Returns true exactly when a tick
    /// boundary was crossed and consumed; the new tick is then the wrap-aware
    /// successor of the old one, so the counter only ever moves forward.
    pub fn recv_server_tick(&mut self, now_ms: u64) -> (ticked: bool)
        requires
            old(self).wf(),
            now_ms >= old(self).last_instant_ms,
            old(self).accum_ms + (now_ms - old(self).last_instant_ms) <= u64::MAX,
        ensures
            final(self).wf(),
            final(self).tick_interval_ms == old(self).tick_interval_ms,
            final(self).last_instant_ms == now_ms,
            ticked == (old(self).accum_ms + (now_ms - old(self).last_instant_ms)
                >= old(self).tick_interval_ms),
            ticked ==> final(self).server_tick == spec_tick_next(old(self).server_tick)
                && spec_tick_gt(final(self).server_tick, old(self).server_tick)
                && final(self).accum_ms == old(self).accum_ms
                    + (now_ms - old(self).last_instant_ms) - old(self).tick_interval_ms,
            !ticked ==> final(self).server_tick == old(self).server_tick
                && final(self).accum_ms == old(self).accum_ms
                    + (now_ms - old(self).last_instant_ms),
    {
        let elapsed: u64 = now_ms - self.last_instant_ms;
        self.accum_ms = self.accum_ms + elapsed;
        self.last_instant_ms = now_ms;
        if self.accum_ms >= self.tick_interval_ms {
            self.accum_ms = self.accum_ms - self.tick_interval_ms;
            let old_tick = self.server_tick;
            self.server_tick = if self.server_tick == 65535 {
                0
            } else {
                self.server_tick + 1
            };
            proof {
                lemma_tick_next_gt(old_tick);
            }
            true
        } else {
            false
        }
    }
}

} // verus!
