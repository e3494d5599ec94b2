use vstd::prelude::*;

verus! {

use crate::channels::ChannelOrdering;
use crate::packet::{frames_view, MessageFrame};
use crate::setvec::contains_seq16;
use crate::tick::{spec_tick_gt, spec_tick_next, tick_gt};
use crate::types::{ChannelId, EntityId};

/// A queued outbound message with its retransmission bookkeeping. Reliable
/// messages stay queued until the packet that carried them is acknowledged;
/// unreliable ones leave the queue when first written out.
pub struct OutgoingMessage {
    pub channel: ChannelId,
    pub seq: u16,
    pub payload: Vec<u8>,
    pub reliable: bool,
    pub entity_deps: Vec<EntityId>,
    pub sent_once: bool,
    pub last_sent_ms: u64,
    pub packet_seq: u16,
}

/// Per-channel receive bookkeeping, used according to the channel's
/// declared ordering.
pub struct ChannelRecvState {
    pub next_deliver: u16,
    pub last_seen: u16,
    pub started: bool,
    pub buffer: Vec<(u16, Vec<u8>)>,
    pub seen: Vec<u16>,
}

/// Per-connection channel buffering: send queues on one side, per-channel
/// receive state and an in-order delivery queue on the other.
pub struct MessageManager {
    pub outgoing: Vec<OutgoingMessage>,
    pub delivered: Vec<(ChannelId, Vec<u8>)>,
    pub recv_states: Vec<ChannelRecvState>,
    pub next_send_seq: Vec<u16>,
}

/// Whether an outbound message wants to be written now.
pub open spec fn spec_due(m: OutgoingMessage, now_ms: u64, resend_after_ms: u64) -> bool {
    if m.reliable {
        !m.sent_once || (now_ms >= m.last_sent_ms && now_ms - m.last_sent_ms >= resend_after_ms)
    } else {
        true
    }
}

/// On-wire cost of one message frame.
pub open spec fn spec_cost(m: OutgoingMessage) -> int {
    6 + m.payload@.len() as int
}

/// The queue left after dropping every reliable message acknowledged by one
/// of the listed packet sequences.
pub open spec fn spec_after_acks(s: Seq<OutgoingMessage>, acked: Seq<u16>) -> Seq<OutgoingMessage>
    decreases s.len(),
{
    if s.len() == 0 {
        Seq::empty()
    } else if s.last().reliable && s.last().sent_once && acked.contains(s.last().packet_seq) {
        spec_after_acks(s.drop_last(), acked)
    } else {
        spec_after_acks(s.drop_last(), acked).push(s.last())
    }
}

/// Greedy front-first packing of the send queue into a byte budget: the
/// frames written now, and the queue that remains. A written reliable
/// message stays queued, stamped with the packet that carried it; a written
/// unreliable message leaves the queue.
pub open spec fn spec_pack(
    s: Seq<OutgoingMessage>,
    budget: int,
    now_ms: u64,
    resend_after_ms: u64,
    pseq: u16,
) -> (Seq<(u16, u16, Seq<u8>)>, Seq<OutgoingMessage>)
    decreases s.len(),
{
    if s.len() == 0 {
        (Seq::empty(), Seq::empty())
    } else {
        let m = s[0];
        if spec_cost(m) <= budget && spec_due(m, now_ms, resend_after_ms) {
            let rest = spec_pack(s.skip(1), budget - spec_cost(m), now_ms, resend_after_ms, pseq);
            let frame = (m.channel, m.seq, m.payload@);
            if m.reliable {
                let stamped = OutgoingMessage {
                    sent_once: true,
                    last_sent_ms: now_ms,
                    packet_seq: pseq,
                    ..m
                };
                (seq![frame] + rest.0, seq![stamped] + rest.1)
            } else {
                (seq![frame] + rest.0, rest.1)
            }
        } else {
            let rest = spec_pack(s.skip(1), budget, now_ms, resend_after_ms, pseq);
            (rest.0, seq![m] + rest.1)
        }
    }
}

/// Copies a byte buffer.
pub fn clone_bytes(v: &Vec<u8>) -> (r: Vec<u8>)
    ensures
        r@ == v@,
{
    let n: usize = v.len();
    let mut r: Vec<u8> = Vec::new();
    let mut i: usize = 0;
    while i < n
        invariant
            n == v@.len(),
            i <= n,
            r@ =~= v@.take(i as int),
        decreases n - i,
    {
        r.push(v[i]);
        i = i + 1;
    }
    proof {
        assert(v@.take(n as int) =~= v@);
    }
    r
}

fn find_buffer_index(v: &Vec<(u16, Vec<u8>)>, seq: u16) -> (r: Option<usize>)
    ensures
        match r {
            Some(f) => f < v@.len() && v@[f as int].0 == seq,
            None => forall|j: int| 0 <= j < v@.len() ==> (#[trigger] v@[j]).0 != seq,
        },
{
    let n: usize = v.len();
    let mut i: usize = 0;
    while i < n
        invariant
            n == v@.len(),
            i <= n,
            forall|j: int| 0 <= j < i ==> (#[trigger] v@[j]).0 != seq,
        decreases n - i,
    {
        if v[i].0 == seq {
            return Some(i);
        }
        i = i + 1;
    }
    None
}

impl MessageManager {
    pub open spec fn wf(self, channel_count: int) -> bool {
        &&& self.recv_states@.len() == channel_count
        &&& self.next_send_seq@.len() == channel_count
    }

    pub fn new(channel_count: usize) -> (m: MessageManager)
        ensures
            m.wf(channel_count as int),
            m.outgoing@.len() == 0,
            m.delivered@.len() == 0,
    {
        let mut recv_states: Vec<ChannelRecvState> = Vec::new();
        let mut next_send_seq: Vec<u16> = Vec::new();
        let mut i: usize = 0;
        while i < channel_count
            invariant
                i <= channel_count,
                recv_states@.len() == i,
                next_send_seq@.len() == i,
            decreases channel_count - i,
        {
            recv_states.push(
                ChannelRecvState {
                    next_deliver: 0,
                    last_seen: 0,
                    started: false,
                    buffer: Vec::new(),
                    seen: Vec::new(),
                },
            );
            next_send_seq.push(0);
            i = i + 1;
        }
        MessageManager { outgoing: Vec::new(), delivered: Vec::new(), recv_states, next_send_seq }
    }

    /// Queues an outbound message on a channel; its sequence number is the
    /// channel's next one.
    pub fn send_message(
        &mut self,
        channel: ChannelId,
        payload: Vec<u8>,
        entity_deps: Vec<EntityId>,
        reliable: bool,
    )
        requires
            (channel as int) < old(self).next_send_seq@.len(),
        ensures
            final(self).outgoing@ == old(self).outgoing@.push(
                OutgoingMessage {
                    channel,
                    seq: old(self).next_send_seq@[channel as int],
                    payload,
                    reliable,
                    entity_deps,
                    sent_once: false,
                    last_sent_ms: 0,
                    packet_seq: 0,
                },
            ),
            final(self).next_send_seq@ == old(self).next_send_seq@.update(
                channel as int,
                spec_tick_next(old(self).next_send_seq@[channel as int]),
            ),
            final(self).delivered@ == old(self).delivered@,
            final(self).recv_states@ == old(self).recv_states@,
    {
        let seq = self.next_send_seq[channel as usize];
        self.next_send_seq[channel as usize] = if seq == 65535 {
            0
        } else {
            seq + 1
        };
        self.outgoing.push(
            OutgoingMessage {
                channel,
                seq,
                payload,
                reliable,
                entity_deps,
                sent_once: false,
                last_sent_ms: 0,
                packet_seq: 0,
            },
        );
    }

    /// Hands the accumulated in-order deliveries out and clears the queue.
    pub fn take_delivered(&mut self) -> (out: Vec<(ChannelId, Vec<u8>)>)
        ensures
            out@ == old(self).delivered@,
            final(self).delivered@.len() == 0,
            final(self).outgoing@ == old(self).outgoing@,
            final(self).recv_states@ == old(self).recv_states@,
            final(self).next_send_seq@ == old(self).next_send_seq@,
    {
        let mut out: Vec<(ChannelId, Vec<u8>)> = Vec::new();
        let ghost orig = self.delivered@;
        while self.delivered.len() > 0
            invariant
                out@ + self.delivered@ =~= orig,
                self.outgoing@ == old(self).outgoing@,
                self.recv_states@ == old(self).recv_states@,
                self.next_send_seq@ == old(self).next_send_seq@,
            decreases self.delivered@.len(),
        {
            let m = self.delivered.remove(0);
            out.push(m);
        }
        proof {
            assert(out@ =~= orig);
        }
        out
    }

    /// Drops every reliable queued message that one of the acknowledged
    /// packet sequences carried.
    pub fn process_acks(&mut self, acked: &Vec<u16>)
        ensures
            final(self).outgoing@ == spec_after_acks(old(self).outgoing@, acked@),
            final(self).delivered@ == old(self).delivered@,
            final(self).recv_states@ == old(self).recv_states@,
            final(self).next_send_seq@ == old(self).next_send_seq@,
    {
        let n: usize = self.outgoing.len();
        let ghost orig = self.outgoing@;
        let mut kept: Vec<OutgoingMessage> = Vec::new();
        let mut i: usize = 0;
        while i < n
            invariant
                n == orig.len(),
                i <= n,
                self.outgoing@ =~= orig.skip(i as int),
                kept@ =~= spec_after_acks(orig.take(i as int), acked@),
                self.delivered@ == old(self).delivered@,
                self.recv_states@ == old(self).recv_states@,
                self.next_send_seq@ == old(self).next_send_seq@,
            decreases n - i,
        {
            let m = self.outgoing.remove(0);
            proof {
                assert(orig.skip(i as int)[0] == orig[i as int]);
                assert(orig.take(i as int + 1).drop_last() =~= orig.take(i as int));
                assert(orig.take(i as int + 1).last() == orig[i as int]);
            }
            let drop_it = m.reliable && m.sent_once && contains_seq16(acked, m.packet_seq);
            if !drop_it {
                kept.push(m);
            }
            i = i + 1;
            proof {
                assert(self.outgoing@ =~= orig.skip(i as int));
            }
        }
        proof {
            assert(orig.take(n as int) =~= orig);
        }
        self.outgoing = kept;
    }

    /// Writes due messages into a packet's budget, front first.
    pub fn take_outgoing(
        &mut self,
        budget: usize,
        now_ms: u64,
        resend_after_ms: u64,
        packet_seq: u16,
    ) -> (frames: Vec<MessageFrame>)
        ensures
            frames_view(frames@) == spec_pack(
                old(self).outgoing@,
                budget as int,
                now_ms,
                resend_after_ms,
                packet_seq,
            ).0,
            final(self).outgoing@ == spec_pack(
                old(self).outgoing@,
                budget as int,
                now_ms,
                resend_after_ms,
                packet_seq,
            ).1,
            final(self).delivered@ == old(self).delivered@,
            final(self).recv_states@ == old(self).recv_states@,
            final(self).next_send_seq@ == old(self).next_send_seq@,
            forall|j: int|
                0 <= j < frames@.len() ==> (#[trigger] frames@[j]).payload@.len() + 6 <= budget,
            6 * frames@.len() <= budget,
    {
        let n: usize = self.outgoing.len();
        let ghost orig = self.outgoing@;
        let mut frames: Vec<MessageFrame> = Vec::new();
        let mut kept: Vec<OutgoingMessage> = Vec::new();
        let mut left: usize = budget;
        let mut i: usize = 0;
        proof {
            assert(orig.skip(0) =~= orig);
            assert(frames_view(frames@) =~= Seq::<(u16, u16, Seq<u8>)>::empty());
        }
        while i < n
            invariant
                n == orig.len(),
                i <= n,
                left <= budget,
                forall|j: int|
                    0 <= j < frames@.len() ==> (#[trigger] frames@[j]).payload@.len() + 6
                        <= budget,
                6 * frames@.len() + left <= budget,
                self.outgoing@ =~= orig.skip(i as int),
                self.delivered@ == old(self).delivered@,
                self.recv_states@ == old(self).recv_states@,
                self.next_send_seq@ == old(self).next_send_seq@,
                spec_pack(orig, budget as int, now_ms, resend_after_ms, packet_seq).0
                    =~= frames_view(frames@) + spec_pack(
                    orig.skip(i as int),
                    left as int,
                    now_ms,
                    resend_after_ms,
                    packet_seq,
                ).0,
                spec_pack(orig, budget as int, now_ms, resend_after_ms, packet_seq).1 =~= kept@
                    + spec_pack(
                    orig.skip(i as int),
                    left as int,
                    now_ms,
                    resend_after_ms,
                    packet_seq,
                ).1,
            decreases n - i,
        {
            let ghost s_pre = orig.skip(i as int);
            let ghost frames_pre = frames@;
            let ghost kept_pre = kept@;
            let ghost left_pre = left as int;
            let m = self.outgoing.remove(0);
            proof {
                assert(s_pre[0] == orig[i as int]);
                assert(s_pre.skip(1) =~= orig.skip(i as int + 1));
            }
            let cost_fits = m.payload.len() <= left && 6 <= left - m.payload.len();
            let due = if m.reliable {
                !m.sent_once || (now_ms >= m.last_sent_ms && now_ms - m.last_sent_ms
                    >= resend_after_ms)
            } else {
                true
            };
            if cost_fits && due {
                left = left - m.payload.len() - 6;
                let ch = m.channel;
                let sq = m.seq;
                if m.reliable {
                    let frame_payload = clone_bytes(&m.payload);
                    let ghost m_snap = m;
                    kept.push(
                        OutgoingMessage {
                            sent_once: true,
                            last_sent_ms: now_ms,
                            packet_seq,
                            ..m
                        },
                    );
                    frames.push(MessageFrame { channel: ch, seq: sq, payload: frame_payload });
                    proof {
                        assert(frames_view(frames@) =~= frames_view(frames_pre).push(
                            (ch, sq, m_snap.payload@),
                        ));
                        assert(kept@ =~= kept_pre.push(
                            OutgoingMessage {
                                sent_once: true,
                                last_sent_ms: now_ms,
                                packet_seq,
                                ..m_snap
                            },
                        ));
                    }
                } else {
                    let ghost m_snap = m;
                    frames.push(MessageFrame { channel: ch, seq: sq, payload: m.payload });
                    proof {
                        assert(frames_view(frames@) =~= frames_view(frames_pre).push(
                            (ch, sq, m_snap.payload@),
                        ));
                    }
                }
            } else {
                kept.push(m);
            }
            i = i + 1;
            proof {
                assert(self.outgoing@ =~= orig.skip(i as int));
            }
        }
        proof {
            assert(orig.skip(n as int) =~= Seq::<OutgoingMessage>::empty());
        }
        self.outgoing = kept;
        frames
    }

    /// Applies one inbound message frame under the channel's ordering rules,
    /// appending whatever becomes deliverable to the delivery queue.
    pub fn recv_message(
        &mut self,
        ordering: ChannelOrdering,
        channel: ChannelId,
        seq: u16,
        payload: Vec<u8>,
    )
        requires
            (channel as int) < old(self).recv_states@.len(),
            ordering != ChannelOrdering::TickBuffered,
        ensures
            final(self).outgoing@ == old(self).outgoing@,
            final(self).next_send_seq@ == old(self).next_send_seq@,
            final(self).recv_states@.len() == old(self).recv_states@.len(),
            forall|c: int|
                0 <= c < old(self).recv_states@.len() && c != channel as int ==> final(self).recv_states@[c] == old(self).recv_states@[c],
            old(self).delivered@.is_prefix_of(final(self).delivered@),
            forall|j: int|
                old(self).delivered@.len() <= j < final(self).delivered@.len() ==> (
                #[trigger] final(self).delivered@[j]).0 == channel,
            ordering == ChannelOrdering::Sequenced ==> ({
                let st = old(self).recv_states@[channel as int];
                if !st.started || spec_tick_gt(seq, st.last_seen) {
                    final(self).delivered@ == old(self).delivered@.push((channel, payload))
                        && final(self).recv_states@[channel as int].last_seen == seq && final(self).recv_states@[channel as int].started
                } else {
                    final(self).delivered@ == old(self).delivered@ && final(self).recv_states@[channel as int] == st
                }
            }),
            ordering == ChannelOrdering::Unordered ==> ({
                let st = old(self).recv_states@[channel as int];
                if st.seen@.contains(seq) {
                    final(self).delivered@ == old(self).delivered@ && final(self).recv_states@[channel as int] == st
                } else {
                    final(self).delivered@ == old(self).delivered@.push((channel, payload))
                        && final(self).recv_states@[channel as int].seen@ == st.seen@.push(seq)
                }
            }),
            ordering == ChannelOrdering::Ordered ==> ({
                let st = old(self).recv_states@[channel as int];
                if seq == st.next_deliver {
                    final(self).delivered@.len() > old(self).delivered@.len() && final(self).delivered@[old(self).delivered@.len() as int] == (channel, payload)
                } else {
                    final(self).delivered@ == old(self).delivered@
                }
            }),
    {
        match ordering {
            ChannelOrdering::Sequenced => {
                let started = self.recv_states[channel as usize].started;
                let last_seen = self.recv_states[channel as usize].last_seen;
                if !started || tick_gt(seq, last_seen) {
                    let st = &mut self.recv_states[channel as usize];
                    st.started = true;
                    st.last_seen = seq;
                    self.delivered.push((channel, payload));
                }
            },
            ChannelOrdering::Unordered => {
                let dup = contains_seq16(&self.recv_states[channel as usize].seen, seq);
                if !dup {
                    let st = &mut self.recv_states[channel as usize];
                    st.seen.push(seq);
                    self.delivered.push((channel, payload));
                }
            },
            ChannelOrdering::Ordered => {
                let expected = self.recv_states[channel as usize].next_deliver;
                if seq == expected {
                    let st = &mut self.recv_states[channel as usize];
                    st.next_deliver = if expected == 65535 {
                        0
                    } else {
                        expected + 1
                    };
                    self.delivered.push((channel, payload));
                    // release buffered successors that are now in order
                    loop
                        invariant
                            (channel as int) < self.recv_states@.len(),
                            self.recv_states@.len() == old(self).recv_states@.len(),
                            self.outgoing@ == old(self).outgoing@,
                            self.next_send_seq@ == old(self).next_send_seq@,
                            forall|c: int|
                                0 <= c < self.recv_states@.len() && c != channel as int
                                    ==> self.recv_states@[c] == old(self).recv_states@[c],
                            old(self).delivered@.is_prefix_of(self.delivered@),
                            self.delivered@.len() > old(self).delivered@.len(),
                            self.delivered@[old(self).delivered@.len() as int] == (
                                channel,
                                payload,
                            ),
                            forall|j: int|
                                old(self).delivered@.len() <= j < self.delivered@.len() ==> (
                                #[trigger] self.delivered@[j]).0 == channel,
                        decreases self.recv_states@[channel as int].buffer@.len(),
                    {
                        let want = self.recv_states[channel as usize].next_deliver;
                        let found = find_buffer_index(
                            &self.recv_states[channel as usize].buffer,
                            want,
                        );
                        match found {
                            Some(f) => {
                                let st2 = &mut self.recv_states[channel as usize];
                                let entry = st2.buffer.remove(f);
                                st2.next_deliver = if want == 65535 {
                                    0
                                } else {
                                    want + 1
                                };
                                self.delivered.push((channel, entry.1));
                            },
                            None => {
                                break ;
                            },
                        }
                    }
                } else if tick_gt(seq, expected) {
                    // a future message: hold it until its turn
                    let already = find_buffer_index(
                        &self.recv_states[channel as usize].buffer,
                        seq,
                    );
                    if already.is_none() {
                        let st = &mut self.recv_states[channel as usize];
                        st.buffer.push((seq, payload));
                    }
                } else {
                    // stale or duplicate: drop it
                }
            },
            ChannelOrdering::TickBuffered => {},
        }
    }
}

} // verus!
