use vstd::prelude::*;

verus! {

use crate::entity_manager::EntityManager;
use crate::message_manager::MessageManager;
use crate::packet::{PacketType, StandardHeader};
use crate::ping::{PingManager, CLOCK_BOUND_MS};
use crate::tick::{spec_tick_gt, spec_tick_next, tick_gt};
use crate::tick_buffer::TickBuffer;
use crate::types::{Address, Tick, UserKey};

/// Maximum bytes of payload the server packs into one Data packet.
pub const MTU_BUDGET: usize = 1200;

/// Cap on the replication actions written into one Data packet.
pub const MAX_ACTIONS_PER_PACKET: usize = 64;

/// The sliding acknowledgement window over the peer's packet sequences:
/// the latest sequence seen, and one bit for each of the 32 before it.
/// Updating it with a newly seen sequence shifts the window forward; a
/// late sequence only sets its bit.
pub open spec fn spec_window(
    remote_seq: u16,
    bits: u32,
    started: bool,
    s: u16,
) -> (u16, u32, bool) {
    if !started {
        (s, 0u32, true)
    } else if s == remote_seq {
        (remote_seq, bits, true)
    } else if spec_tick_gt(s, remote_seq) {
        let d = ((s as int - remote_seq as int) % 65536) as u32;
        if d >= 33 {
            (s, 0u32, true)
        } else {
            let shifted: u32 = if d == 32 {
                0u32
            } else {
                bits << d
            };
            (s, shifted | (1u32 << (d - 1) as u32), true)
        }
    } else {
        let d = ((remote_seq as int - s as int) % 65536) as u32;
        if d <= 32 {
            (remote_seq, bits | (1u32 << (d - 1) as u32), true)
        } else {
            (remote_seq, bits, true)
        }
    }
}

/// The packet sequences a header acknowledges: the peer's latest received
/// sequence, and one earlier sequence per set bit of the bitfield.
pub open spec fn spec_acks(remote: u16, bits: u32, k: int) -> Seq<u16>
    decreases 33 - k,
{
    if k < 1 || k > 32 {
        Seq::empty()
    } else {
        let head: Seq<u16> = if (bits >> (k - 1) as u32) & 1 == 1 {
            seq![(((remote as int - k) % 65536) as u16)]
        } else {
            Seq::empty()
        };
        head + spec_acks(remote, bits, k + 1)
    }
}

/// All state the server keeps for one accepted client.
pub struct Connection {
    pub user_key: UserKey,
    pub address: Address,
    pub last_heard_ms: u64,
    pub last_sent_ms: u64,
    pub local_seq: u16,
    pub remote_seq: u16,
    pub ack_bitfield: u32,
    pub started: bool,
    pub last_received_tick: Tick,
    pub message_manager: MessageManager,
    pub tick_buffer: TickBuffer,
    pub ping_manager: PingManager,
    pub entity_manager: EntityManager,
}

impl Connection {
    pub open spec fn wf(self, channel_count: int) -> bool {
        &&& self.message_manager.wf(channel_count)
        &&& self.entity_manager.wf()
        &&& self.entity_manager.pending_wf()
        &&& self.ping_manager.wf()
    }

    pub fn new(
        user_key: UserKey,
        address: Address,
        channel_count: usize,
        ping_interval_ms: u64,
        now_ms: u64,
    ) -> (c: Connection)
        requires
            now_ms < CLOCK_BOUND_MS,
        ensures
            c.wf(channel_count as int),
            c.user_key == user_key,
            c.address == address,
            c.last_heard_ms == now_ms,
            c.last_sent_ms == now_ms,
            c.ping_manager.latest_ms == now_ms,
            c.entity_manager.spawned@.len() == 0,
            c.entity_manager.actions@.len() == 0,
            c.entity_manager.pending@.len() == 0,
            c.message_manager.outgoing@.len() == 0,
            c.message_manager.delivered@.len() == 0,
    {
        Connection {
            user_key,
            address,
            last_heard_ms: now_ms,
            last_sent_ms: now_ms,
            local_seq: 0,
            remote_seq: 0,
            ack_bitfield: 0,
            started: false,
            last_received_tick: 0,
            message_manager: MessageManager::new(channel_count),
            tick_buffer: TickBuffer::new(),
            ping_manager: PingManager::new(ping_interval_ms, now_ms),
            entity_manager: EntityManager::new(),
        }
    }

    /// The peer has been silent for at least the timeout.
    pub open spec fn spec_should_drop(self, now_ms: u64, timeout_ms: u64) -> bool {
        now_ms >= self.last_heard_ms + timeout_ms
    }

    pub fn should_drop(&self, now_ms: u64, timeout_ms: u64) -> (r: bool)
        ensures
            r == self.spec_should_drop(now_ms, timeout_ms),
    {
        if now_ms >= self.last_heard_ms {
            now_ms - self.last_heard_ms >= timeout_ms
        } else {
            false
        }
    }

    /// Nothing has been sent to the peer for at least the interval.
    pub open spec fn spec_should_send_heartbeat(self, now_ms: u64, interval_ms: u64) -> bool {
        now_ms >= self.last_sent_ms + interval_ms
    }

    pub fn should_send_heartbeat(&self, now_ms: u64, interval_ms: u64) -> (r: bool)
        ensures
            r == self.spec_should_send_heartbeat(now_ms, interval_ms),
    {
        if now_ms >= self.last_sent_ms {
            now_ms - self.last_sent_ms >= interval_ms
        } else {
            false
        }
    }

    pub fn mark_heard(&mut self, now_ms: u64)
        ensures
            *final(self) == (Connection { last_heard_ms: now_ms, ..*old(self) }),
    {
        self.last_heard_ms = now_ms;
    }

    pub fn mark_sent(&mut self, now_ms: u64)
        ensures
            *final(self) == (Connection { last_sent_ms: now_ms, ..*old(self) }),
    {
        self.last_sent_ms = now_ms;
    }

    /// Remembers the latest tick the client has declared, wrap-aware.
    pub fn recv_client_tick(&mut self, t: Tick)
        ensures
            spec_tick_gt(t, old(self).last_received_tick) ==> *final(self) == (Connection {
                last_received_tick: t,
                ..*old(self)
            }),
            !spec_tick_gt(t, old(self).last_received_tick) ==> *final(self) == *old(self),
    {
        if tick_gt(t, self.last_received_tick) {
            self.last_received_tick = t;
        }
    }

    /// Builds the header for an outgoing packet and advances the outgoing
    /// packet sequence.
    pub fn write_outgoing_header(&mut self, packet_type: PacketType) -> (h: StandardHeader)
        ensures
            h.packet_type == packet_type,
            h.local_seq == old(self).local_seq,
            h.remote_seq == old(self).remote_seq,
            h.ack_bitfield == old(self).ack_bitfield,
            *final(self) == (Connection {
                local_seq: spec_tick_next(old(self).local_seq),
                ..*old(self)
            }),
    {
        let h = StandardHeader {
            packet_type,
            local_seq: self.local_seq,
            remote_seq: self.remote_seq,
            ack_bitfield: self.ack_bitfield,
        };
        self.local_seq = if self.local_seq == 65535 {
            0
        } else {
            self.local_seq + 1
        };
        h
    }

    /// Feeds a received header into the acknowledgement window and drops
    /// every reliable queued message that the header acknowledges.
    pub fn process_incoming_header(&mut self, h: &StandardHeader)
        ensures
            ({
                let w = spec_window(
                    old(self).remote_seq,
                    old(self).ack_bitfield,
                    old(self).started,
                    h.local_seq,
                );
                final(self).remote_seq == w.0 && final(self).ack_bitfield == w.1 && final(self).started == w.2
            }),
            final(self).message_manager.outgoing@ == crate::message_manager::spec_after_acks(
                old(self).message_manager.outgoing@,
                seq![h.remote_seq] + spec_acks(h.remote_seq, h.ack_bitfield, 1),
            ),
            final(self).message_manager.delivered@ == old(self).message_manager.delivered@,
            final(self).message_manager.recv_states@ == old(self).message_manager.recv_states@,
            final(self).message_manager.next_send_seq@ == old(self).message_manager.next_send_seq@,
            final(self).user_key == old(self).user_key,
            final(self).address == old(self).address,
            final(self).last_heard_ms == old(self).last_heard_ms,
            final(self).last_sent_ms == old(self).last_sent_ms,
            final(self).local_seq == old(self).local_seq,
            final(self).last_received_tick == old(self).last_received_tick,
            final(self).tick_buffer == old(self).tick_buffer,
            final(self).ping_manager == old(self).ping_manager,
            final(self).entity_manager == old(self).entity_manager,
    {
        // update the window over the peer's own sequences
        if !self.started {
            self.started = true;
            self.remote_seq = h.local_seq;
            self.ack_bitfield = 0;
        } else if h.local_seq == self.remote_seq {
            // duplicate of the newest: nothing to record
        } else if tick_gt(h.local_seq, self.remote_seq) {
            let d16: u16 = h.local_seq.wrapping_sub(self.remote_seq);
            proof {
                let a = h.local_seq;
                let b = self.remote_seq;
                assert(((a as int - b as int) % 65536) == a.wrapping_sub(b) as int)
                    by (bit_vector);
            }
            let d: u32 = d16 as u32;
            if d >= 33 {
                self.ack_bitfield = 0;
            } else {
                let shifted: u32 = if d == 32 {
                    0
                } else {
                    self.ack_bitfield << d
                };
                self.ack_bitfield = shifted | (1u32 << (d - 1));
            }
            self.remote_seq = h.local_seq;
        } else {
            let d16: u16 = self.remote_seq.wrapping_sub(h.local_seq);
            proof {
                let a = self.remote_seq;
                let b = h.local_seq;
                assert(((a as int - b as int) % 65536) == a.wrapping_sub(b) as int)
                    by (bit_vector);
            }
            let d: u32 = d16 as u32;
            if d <= 32 {
                self.ack_bitfield = self.ack_bitfield | (1u32 << (d - 1));
            }
        }
        // collect what the header acknowledges of our own packets
        let acked = acked_list(h.remote_seq, h.ack_bitfield);
        self.message_manager.process_acks(&acked);
    }
}

/// The list of our packet sequences a header acknowledges.
pub fn acked_list(remote: u16, bits: u32) -> (r: Vec<u16>)
    ensures
        r@ == seq![remote] + spec_acks(remote, bits, 1),
{
    let mut r: Vec<u16> = Vec::new();
    r.push(remote);
    let mut k: u32 = 1;
    while k <= 32
        invariant
            1 <= k <= 33,
            spec_acks(remote, bits, 1) =~= r@.skip(1) + spec_acks(remote, bits, k as int),
            r@.len() >= 1,
            r@[0] == remote,
        decreases 33 - k,
    {
        let ghost r_pre = r@;
        if (bits >> (k - 1)) & 1 == 1 {
            let s = remote.wrapping_sub(k as u16);
            proof {
                let kk = k as u16;
                assert(((remote as int - kk as int) % 65536) == remote.wrapping_sub(kk) as int)
                    by (bit_vector);
                assert(k < 33);
                assert(kk as int == k as int);
            }
            r.push(s);
        }
        k = k + 1;
        proof {
            assert(spec_acks(remote, bits, 1) =~= r@.skip(1) + spec_acks(
                remote,
                bits,
                k as int,
            ));
        }
    }
    proof {
        assert(spec_acks(remote, bits, 33) =~= Seq::<u16>::empty());
        assert(r@ =~= seq![remote] + spec_acks(remote, bits, 1));
    }
    r
}

} // verus!
