use vstd::prelude::*;

verus! {

/// Emits pings under a 16-bit rolling index, matches pongs against the
/// recorded send instants, and keeps exponentially smoothed estimates of the
/// round-trip time and of its mean absolute deviation (jitter), both in
/// whole milliseconds.
pub struct PingManager {
    pub ping_interval_ms: u64,
    pub next_index: u16,
    pub sent: Vec<(u16, u64)>,
    pub last_ping_ms: u64,
    pub latest_ms: u64,
    pub rtt_ms: u64,
    pub jitter_ms: u64,
}

/// Clock values stay below this bound so that the eight-fold smoothing sums
/// cannot overflow.
pub const CLOCK_BOUND_MS: u64 = 0x2000_0000_0000_0000;

impl PingManager {
    /// Every recorded instant and both estimates are bounded by the last
    /// instant this manager has seen.
    pub open spec fn wf(self) -> bool {
        &&& forall|j: int| 0 <= j < self.sent@.len() ==> (#[trigger] self.sent@[j]).1 <= self.latest_ms
        &&& self.rtt_ms <= self.latest_ms
        &&& self.jitter_ms <= self.latest_ms
        &&& self.last_ping_ms <= self.latest_ms
        &&& self.latest_ms < CLOCK_BOUND_MS
    }

    pub fn new(ping_interval_ms: u64, now_ms: u64) -> (p: PingManager)
        requires
            now_ms < CLOCK_BOUND_MS,
        ensures
            p.wf(),
            p.ping_interval_ms == ping_interval_ms,
            p.sent@.len() == 0,
            p.rtt_ms == 0,
            p.jitter_ms == 0,
            p.latest_ms == now_ms,
    {
        PingManager {
            ping_interval_ms,
            next_index: 0,
            sent: Vec::new(),
            last_ping_ms: now_ms,
            latest_ms: now_ms,
            rtt_ms: 0,
            jitter_ms: 0,
        }
    }

    pub fn should_send_ping(&self, now_ms: u64) -> (r: bool)
        ensures
            r == (now_ms >= self.last_ping_ms + self.ping_interval_ms),
    {
        if now_ms >= self.last_ping_ms {
            now_ms - self.last_ping_ms >= self.ping_interval_ms
        } else {
            false
        }
    }

    /// Records an outgoing ping and hands back the index to put on the wire.
    pub fn write_ping(&mut self, now_ms: u64) -> (index: u16)
        requires
            old(self).wf(),
            old(self).latest_ms <= now_ms < CLOCK_BOUND_MS,
        ensures
            final(self).wf(),
            index == old(self).next_index,
            final(self).next_index == crate::tick::spec_tick_next(old(self).next_index),
            final(self).sent@ == old(self).sent@.push((index, now_ms)),
            final(self).last_ping_ms == now_ms,
            final(self).latest_ms == now_ms,
            final(self).rtt_ms == old(self).rtt_ms,
            final(self).jitter_ms == old(self).jitter_ms,
            final(self).ping_interval_ms == old(self).ping_interval_ms,
    {
        let index = self.next_index;
        self.sent.push((index, now_ms));
        self.next_index = if self.next_index == 65535 {
            0
        } else {
            self.next_index + 1
        };
        self.last_ping_ms = now_ms;
        self.latest_ms = now_ms;
        index
    }

    /// Matches a pong against the oldest outstanding ping with this index.
    /// On a match the sample is the full round trip, never negative; the
    /// smoothed estimates move one eighth of the way towards it. An
    /// unmatched pong is ignored.
    pub fn process_pong(&mut self, index: u16, now_ms: u64) -> (r: Option<u64>)
        requires
            old(self).wf(),
            old(self).latest_ms <= now_ms < CLOCK_BOUND_MS,
        ensures
            final(self).wf(),
            final(self).ping_interval_ms == old(self).ping_interval_ms,
            final(self).latest_ms <= now_ms,
            match r {
                Some(sample) => {
                    &&& exists|j: int|
                        0 <= j < old(self).sent@.len() && (#[trigger] old(self).sent@[j]).0
                            == index && sample == now_ms - old(self).sent@[j].1
                    &&& sample >= 0
                    &&& final(self).rtt_ms == (7 * old(self).rtt_ms + sample) / 8
                    &&& final(self).jitter_ms == (7 * old(self).jitter_ms + (if sample
                        >= old(self).rtt_ms {
                        sample - old(self).rtt_ms
                    } else {
                        old(self).rtt_ms - sample
                    })) / 8
                    &&& final(self).sent@.len() == old(self).sent@.len() - 1
                },
                None => {
                    &&& forall|j: int|
                        0 <= j < old(self).sent@.len() ==> (#[trigger] old(self).sent@[j]).0
                            != index
                    &&& final(self).sent@ == old(self).sent@
                    &&& final(self).rtt_ms == old(self).rtt_ms
                    &&& final(self).jitter_ms == old(self).jitter_ms
                },
            },
    {
        let n: usize = self.sent.len();
        let mut i: usize = 0;
        while i < n
            invariant
                self.wf(),
                self == old(self),
                self.latest_ms <= now_ms < CLOCK_BOUND_MS,
                n == self.sent@.len(),
                i <= n,
                forall|j: int| 0 <= j < i ==> (#[trigger] self.sent@[j]).0 != index,
            decreases n - i,
        {
            if self.sent[i].0 == index {
                let sent_at = self.sent[i].1;
                self.sent.remove(i);
                let sample: u64 = now_ms - sent_at;
                let dev: u64 = if sample >= self.rtt_ms {
                    sample - self.rtt_ms
                } else {
                    self.rtt_ms - sample
                };
                self.rtt_ms = (7 * self.rtt_ms + sample) / 8;
                self.jitter_ms = (7 * self.jitter_ms + dev) / 8;
                self.latest_ms = now_ms;
                proof {
                    assert forall|j: int| 0 <= j < self.sent@.len() implies (
                    #[trigger] self.sent@[j]).1 <= self.latest_ms by {
                        if j < i {
                            assert(self.sent@[j] == old(self).sent@[j]);
                        } else {
                            assert(self.sent@[j] == old(self).sent@[j + 1]);
                        }
                    }
                }
                return Some(sample);
            }
            i = i + 1;
        }
        None
    }
}

} // verus!
