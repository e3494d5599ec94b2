use vstd::prelude::*;

verus! {

use crate::tick::{spec_tick_gt, tick_gt};
use crate::types::{ChannelId, Tick};

/// A message waiting for its logical frame: sender-declared tick, channel,
/// payload.
pub struct BufferedMessage {
    pub tick: Tick,
    pub channel: ChannelId,
    pub payload: Vec<u8>,
}

/// Holds inbound tick-tagged messages and releases each exactly on the
/// server tick it names, so that inputs are consumed on a deterministic
/// frame.
pub struct TickBuffer {
    pub messages: Vec<BufferedMessage>,
}

/// The messages of `s` that name exactly the tick `t`, in arrival order.
pub open spec fn spec_released(s: Seq<BufferedMessage>, t: Tick) -> Seq<BufferedMessage>
    decreases s.len(),
{
    if s.len() == 0 {
        Seq::empty()
    } else if s.last().tick == t {
        spec_released(s.drop_last(), t).push(s.last())
    } else {
        spec_released(s.drop_last(), t)
    }
}

/// The messages of `s` that name a tick still in the future of `t`, in
/// arrival order.
pub open spec fn spec_retained(s: Seq<BufferedMessage>, t: Tick) -> Seq<BufferedMessage>
    decreases s.len(),
{
    if s.len() == 0 {
        Seq::empty()
    } else if spec_tick_gt(s.last().tick, t) {
        spec_retained(s.drop_last(), t).push(s.last())
    } else {
        spec_retained(s.drop_last(), t)
    }
}

/// Retaining a second time changes nothing: everything kept already names
/// a future tick.
pub proof fn lemma_retained_idempotent(s: Seq<BufferedMessage>, t: Tick)
    ensures
        spec_retained(spec_retained(s, t), t) == spec_retained(s, t),
    decreases s.len(),
{
    if s.len() > 0 {
        lemma_retained_idempotent(s.drop_last(), t);
        if spec_tick_gt(s.last().tick, t) {
            let r0 = spec_retained(s.drop_last(), t);
            assert(spec_retained(s, t) == r0.push(s.last()));
            assert(r0.push(s.last()).drop_last() =~= r0);
            assert(r0.push(s.last()).last() == s.last());
        }
    }
}

pub proof fn lemma_retained_len(s: Seq<BufferedMessage>, t: Tick)
    ensures
        spec_retained(s, t).len() <= s.len(),
    decreases s.len(),
{
    if s.len() > 0 {
        lemma_retained_len(s.drop_last(), t);
    }
}

/// A buffer that retaining leaves whole had nothing to release.
pub proof fn lemma_retained_full(s: Seq<BufferedMessage>, t: Tick)
    requires
        spec_retained(s, t) == s,
    ensures
        spec_released(s, t) == Seq::<BufferedMessage>::empty(),
    decreases s.len(),
{
    if s.len() > 0 {
        if spec_tick_gt(s.last().tick, t) {
            let r0 = spec_retained(s.drop_last(), t);
            assert(r0.push(s.last()) == s);
            assert forall|i: int| 0 <= i < s.drop_last().len() implies r0[i]
                == s.drop_last()[i] by {
                assert(r0.push(s.last())[i] == s[i]);
            }
            lemma_retained_len(s.drop_last(), t);
            assert(r0 =~= s.drop_last());
            lemma_retained_full(s.drop_last(), t);
            assert(s.last().tick != t);
        } else {
            lemma_retained_len(s.drop_last(), t);
            assert(spec_retained(s, t).len() <= s.len() - 1);
            assert(false);
        }
    }
}

/// Nothing kept for the future is released by the same tick again.
pub proof fn lemma_released_after_retained(s: Seq<BufferedMessage>, t: Tick)
    ensures
        spec_released(spec_retained(s, t), t) == Seq::<BufferedMessage>::empty(),
    decreases s.len(),
{
    if s.len() > 0 {
        lemma_released_after_retained(s.drop_last(), t);
        if spec_tick_gt(s.last().tick, t) {
            let r0 = spec_retained(s.drop_last(), t);
            assert(spec_retained(s, t) == r0.push(s.last()));
            assert(r0.push(s.last()).drop_last() =~= r0);
            assert(r0.push(s.last()).last() == s.last());
            assert(s.last().tick != t);
        }
    }
}

impl TickBuffer {
    pub fn new() -> (b: TickBuffer)
        ensures
            b.messages@.len() == 0,
    {
        TickBuffer { messages: Vec::new() }
    }

    /// Buffers one inbound message under its sender-declared tick.
    pub fn push_message(&mut self, tick: Tick, channel: ChannelId, payload: Vec<u8>)
        ensures
            final(self).messages@ == old(self).messages@.push(
                BufferedMessage { tick, channel, payload },
            ),
    {
        self.messages.push(BufferedMessage { tick, channel, payload });
    }

    /// Releases exactly the messages tagged with `server_tick`, in arrival
    /// order. Messages naming a future tick stay buffered; stale ones are
    /// dropped.
    pub fn receive_messages(&mut self, server_tick: Tick) -> (out: Vec<BufferedMessage>)
        ensures
            out@ == spec_released(old(self).messages@, server_tick),
            final(self).messages@ == spec_retained(old(self).messages@, server_tick),
    {
        let n: usize = self.messages.len();
        let mut out: Vec<BufferedMessage> = Vec::new();
        let mut kept: Vec<BufferedMessage> = Vec::new();
        let ghost orig = self.messages@;
        let mut i: usize = 0;
        while i < n
            invariant
                n == orig.len(),
                i <= n,
                self.messages@ =~= orig.skip(i as int),
                out@ =~= spec_released(orig.take(i as int), server_tick),
                kept@ =~= spec_retained(orig.take(i as int), server_tick),
            decreases n - i,
        {
            let m = self.messages.remove(0);
            proof {
                assert(orig.skip(i as int)[0] == orig[i as int]);
                assert(orig.take(i as int + 1).drop_last() =~= orig.take(i as int));
                assert(orig.take(i as int + 1).last() == orig[i as int]);
            }
            if m.tick == server_tick {
                out.push(m);
            } else if tick_gt(m.tick, server_tick) {
                kept.push(m);
            }
            i = i + 1;
            proof {
                assert(self.messages@ =~= orig.skip(i as int));
            }
        }
        proof {
            assert(orig.take(n as int) =~= orig);
        }
        self.messages = kept;
        out
    }
}

} // verus!
