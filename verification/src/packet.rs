use vstd::prelude::*;

verus! {

use crate::codec::{
    be2, be4, be8, bytes2, bytes4, bytes8, read_u16, read_u32, read_u64, write_u16, write_u32,
    write_u64, write_u8,
};

/// Discriminates every datagram the server sends or receives.
#[derive(Clone, Copy, PartialEq, Eq, Structural, Debug)]
pub enum PacketType {
    ClientChallengeRequest,
    ServerChallengeResponse,
    ClientConnectRequest,
    ServerConnectResponse,
    ServerRejectResponse,
    Data,
    Heartbeat,
    Ping,
    Pong,
    Disconnect,
}

pub const HEADER_LEN: usize = 9;

pub const SIG_LEN: usize = 32;

pub open spec fn spec_ptype_byte(t: PacketType) -> u8 {
    match t {
        PacketType::ClientChallengeRequest => 0,
        PacketType::ServerChallengeResponse => 1,
        PacketType::ClientConnectRequest => 2,
        PacketType::ServerConnectResponse => 3,
        PacketType::ServerRejectResponse => 4,
        PacketType::Data => 5,
        PacketType::Heartbeat => 6,
        PacketType::Ping => 7,
        PacketType::Pong => 8,
        PacketType::Disconnect => 9,
    }
}

pub open spec fn spec_byte_ptype(b: u8) -> Option<PacketType> {
    if b == 0 {
        Some(PacketType::ClientChallengeRequest)
    } else if b == 1 {
        Some(PacketType::ServerChallengeResponse)
    } else if b == 2 {
        Some(PacketType::ClientConnectRequest)
    } else if b == 3 {
        Some(PacketType::ServerConnectResponse)
    } else if b == 4 {
        Some(PacketType::ServerRejectResponse)
    } else if b == 5 {
        Some(PacketType::Data)
    } else if b == 6 {
        Some(PacketType::Heartbeat)
    } else if b == 7 {
        Some(PacketType::Ping)
    } else if b == 8 {
        Some(PacketType::Pong)
    } else if b == 9 {
        Some(PacketType::Disconnect)
    } else {
        None
    }
}

pub proof fn lemma_ptype_byte_roundtrip(t: PacketType)
    ensures
        spec_byte_ptype(spec_ptype_byte(t)) == Some(t),
{
}

pub fn ptype_byte(t: PacketType) -> (b: u8)
    ensures
        b == spec_ptype_byte(t),
{
    match t {
        PacketType::ClientChallengeRequest => 0,
        PacketType::ServerChallengeResponse => 1,
        PacketType::ClientConnectRequest => 2,
        PacketType::ServerConnectResponse => 3,
        PacketType::ServerRejectResponse => 4,
        PacketType::Data => 5,
        PacketType::Heartbeat => 6,
        PacketType::Ping => 7,
        PacketType::Pong => 8,
        PacketType::Disconnect => 9,
    }
}

pub fn byte_ptype(b: u8) -> (t: Option<PacketType>)
    ensures
        t == spec_byte_ptype(b),
{
    if b == 0 {
        Some(PacketType::ClientChallengeRequest)
    } else if b == 1 {
        Some(PacketType::ServerChallengeResponse)
    } else if b == 2 {
        Some(PacketType::ClientConnectRequest)
    } else if b == 3 {
        Some(PacketType::ServerConnectResponse)
    } else if b == 4 {
        Some(PacketType::ServerRejectResponse)
    } else if b == 5 {
        Some(PacketType::Data)
    } else if b == 6 {
        Some(PacketType::Heartbeat)
    } else if b == 7 {
        Some(PacketType::Ping)
    } else if b == 8 {
        Some(PacketType::Pong)
    } else if b == 9 {
        Some(PacketType::Disconnect)
    } else {
        None
    }
}

/// Fixed header of every datagram: the packet type, the sender's own packet
/// sequence, the latest sequence seen from the peer, and the rolling
/// acknowledgement bitfield over the 32 sequences before it.
#[derive(Clone, Copy, PartialEq, Eq, Structural, Debug)]
pub struct StandardHeader {
    pub packet_type: PacketType,
    pub local_seq: u16,
    pub remote_seq: u16,
    pub ack_bitfield: u32,
}

pub open spec fn header_bytes(h: StandardHeader) -> Seq<u8> {
    seq![spec_ptype_byte(h.packet_type)] + bytes2(h.local_seq) + bytes2(h.remote_seq) + bytes4(
        h.ack_bitfield,
    )
}

pub fn encode_header(h: &StandardHeader, out: &mut Vec<u8>)
    ensures
        final(out)@ == old(out)@ + header_bytes(*h),
{
    write_u8(out, ptype_byte(h.packet_type));
    write_u16(out, h.local_seq);
    write_u16(out, h.remote_seq);
    write_u32(out, h.ack_bitfield);
    proof {
        assert(final(out)@ =~= old(out)@ + header_bytes(*h));
    }
}

/// Reads the fixed header from the front of a datagram. `None` means the
/// datagram is malformed: too short, or an unknown packet type byte.
pub fn decode_header(data: &Vec<u8>) -> (r: Option<StandardHeader>)
    ensures
        r is Some <==> data@.len() >= HEADER_LEN && spec_byte_ptype(data@[0]) is Some,
        r matches Some(h) ==> {
            &&& Some(h.packet_type) == spec_byte_ptype(data@[0])
            &&& h.local_seq == be2(data@.subrange(1, 3))
            &&& h.remote_seq == be2(data@.subrange(3, 5))
            &&& h.ack_bitfield == be4(data@.subrange(5, 9))
        },
{
    if data.len() < HEADER_LEN {
        return None;
    }
    let t = byte_ptype(data[0]);
    match t {
        None => None,
        Some(packet_type) => {
            let local_seq = read_u16(data, 1);
            let remote_seq = read_u16(data, 3);
            let ack_bitfield = read_u32(data, 5);
            Some(StandardHeader { packet_type, local_seq, remote_seq, ack_bitfield })
        },
    }
}

/// A header that encodes and then decodes comes back unchanged.
pub proof fn lemma_header_roundtrip(h: StandardHeader, prefix: Seq<u8>, data: Seq<u8>)
    requires
        data == header_bytes(h) + prefix,
    ensures
        data.len() >= HEADER_LEN,
        spec_byte_ptype(data[0]) == Some(h.packet_type),
        be2(data.subrange(1, 3)) == h.local_seq,
        be2(data.subrange(3, 5)) == h.remote_seq,
        be4(data.subrange(5, 9)) == h.ack_bitfield,
{
    crate::codec::lemma_be2_bytes2(h.local_seq);
    crate::codec::lemma_be2_bytes2(h.remote_seq);
    crate::codec::lemma_be4_bytes4(h.ack_bitfield);
    assert(data.subrange(1, 3) =~= bytes2(h.local_seq));
    assert(data.subrange(3, 5) =~= bytes2(h.remote_seq));
    assert(data.subrange(5, 9) =~= bytes4(h.ack_bitfield));
}

// --- message frames inside a Data packet ---
//
// The body of a Data packet is: an optional 16-bit tick (present exactly when
// the protocol was configured with a tick interval), a 16-bit count of entity
// action frames followed by the frames, and a 16-bit count of message frames
// followed by the frames. Each message frame is
// `channel:u16  seq:u16  len:u16  payload:[u8; len]`.

/// One channeled message as carried inside a Data packet.
#[derive(PartialEq, Eq, Debug)]
pub struct MessageFrame {
    pub channel: u16,
    pub seq: u16,
    pub payload: Vec<u8>,
}

pub open spec fn frame_view(f: MessageFrame) -> (u16, u16, Seq<u8>) {
    (f.channel, f.seq, f.payload@)
}

pub open spec fn frames_view(v: Seq<MessageFrame>) -> Seq<(u16, u16, Seq<u8>)> {
    v.map(|i: int, f: MessageFrame| frame_view(f))
}

/// Byte layout of one message frame.
pub open spec fn spec_frame_bytes(f: (u16, u16, Seq<u8>)) -> Seq<u8> {
    bytes2(f.0) + bytes2(f.1) + bytes2(f.2.len() as u16) + f.2
}

/// Byte layout of a list of message frames, without the leading count.
pub open spec fn spec_frames_bytes(fs: Seq<(u16, u16, Seq<u8>)>) -> Seq<u8>
    decreases fs.len(),
{
    if fs.len() == 0 {
        Seq::empty()
    } else {
        spec_frames_bytes(fs.drop_last()) + spec_frame_bytes(fs.last())
    }
}

/// Appends the raw bytes of a buffer.
pub fn write_bytes(out: &mut Vec<u8>, bytes: &Vec<u8>)
    ensures
        final(out)@ == old(out)@ + bytes@,
{
    let n: usize = bytes.len();
    let mut i: usize = 0;
    while i < n
        invariant
            n == bytes@.len(),
            i <= n,
            out@ =~= old(out)@ + bytes@.take(i as int),
        decreases n - i,
    {
        out.push(bytes[i]);
        i = i + 1;
    }
    proof {
        assert(bytes@.take(n as int) =~= bytes@);
        assert(final(out)@ =~= old(out)@ + bytes@);
    }
}

/// Appends the frames' byte layout, each frame length-prefixed.
pub fn write_frames(out: &mut Vec<u8>, frames: &Vec<MessageFrame>)
    requires
        forall|j: int| 0 <= j < frames@.len() ==> (#[trigger] frames@[j]).payload@.len() <= 65535,
    ensures
        final(out)@ == old(out)@ + spec_frames_bytes(frames_view(frames@)),
{
    let n: usize = frames.len();
    let mut i: usize = 0;
    while i < n
        invariant
            n == frames@.len(),
            i <= n,
            forall|j: int|
                0 <= j < frames@.len() ==> (#[trigger] frames@[j]).payload@.len() <= 65535,
            out@ =~= old(out)@ + spec_frames_bytes(frames_view(frames@).take(i as int)),
        decreases n - i,
    {
        let f = &frames[i];
        write_u16(out, f.channel);
        write_u16(out, f.seq);
        write_u16(out, f.payload.len() as u16);
        write_bytes(out, &f.payload);
        i = i + 1;
        proof {
            let fv = frames_view(frames@);
            assert(fv.take(i as int).drop_last() =~= fv.take(i as int - 1));
            assert(fv.take(i as int).last() == fv[i as int - 1]);
            assert(fv[i as int - 1] == frame_view(frames@[i as int - 1]));
            assert(out@ =~= old(out)@ + spec_frames_bytes(fv.take(i as int)));
        }
    }
    proof {
        assert(frames_view(frames@).take(n as int) =~= frames_view(frames@));
    }
}

/// Parses `count` message frames from the whole of `s`; `None` when the
/// bytes do not hold exactly that many well-formed frames.
pub open spec fn spec_parse_frames(s: Seq<u8>, count: nat) -> Option<Seq<(u16, u16, Seq<u8>)>>
    decreases count,
{
    if count == 0 {
        if s.len() == 0 {
            Some(Seq::empty())
        } else {
            None
        }
    } else if s.len() < 6 {
        None
    } else {
        let channel = be2(s.subrange(0, 2));
        let seq = be2(s.subrange(2, 4));
        let len = be2(s.subrange(4, 6));
        if s.len() >= 6 + len {
            let payload = s.subrange(6, 6 + len as int);
            match spec_parse_frames(s.skip(6 + len as int), (count - 1) as nat) {
                Some(rest) => Some(seq![(channel, seq, payload)] + rest),
                None => None,
            }
        } else {
            None
        }
    }
}

/// Reads `count` message frames from `data` starting at `pos`, consuming the
/// rest of the datagram exactly.
pub fn parse_frames(data: &Vec<u8>, pos: usize, count: u16) -> (r: Option<Vec<MessageFrame>>)
    requires
        pos <= data@.len(),
    ensures
        match r {
            Some(fs) => Some(frames_view(fs@)) == spec_parse_frames(
                data@.skip(pos as int),
                count as nat,
            ),
            None => spec_parse_frames(data@.skip(pos as int), count as nat) is None,
        },
    decreases count,
{
    let n: usize = data.len();
    let ghost s = data@.skip(pos as int);
    if count == 0 {
        if pos == n {
            proof {
                assert(frames_view(Seq::<MessageFrame>::empty()) =~= Seq::<(
                    u16,
                    u16,
                    Seq<u8>,
                )>::empty());
            }
            Some(Vec::new())
        } else {
            None
        }
    } else if n - pos < 6 {
        None
    } else {
        let channel = read_u16(data, pos);
        let seq = read_u16(data, pos + 2);
        let len = read_u16(data, pos + 4);
        proof {
            assert(s.subrange(0, 2) =~= data@.subrange(pos as int, pos as int + 2));
            assert(s.subrange(2, 4) =~= data@.subrange(pos as int + 2, pos as int + 4));
            assert(s.subrange(4, 6) =~= data@.subrange(pos as int + 4, pos as int + 6));
        }
        if n - pos - 6 >= len as usize {
            let mut payload: Vec<u8> = Vec::new();
            let mut i: usize = 0;
            while i < len as usize
                invariant
                    pos + 6 + len <= n,
                    n == data@.len(),
                    i <= len,
                    payload@ =~= data@.subrange(pos as int + 6, pos as int + 6 + i as int),
                decreases len as int - i as int,
            {
                payload.push(data[pos + 6 + i]);
                i = i + 1;
            }
            let rest_pos = pos + 6 + len as usize;
            proof {
                assert(s.subrange(6, 6 + len as int) =~= data@.subrange(
                    pos as int + 6,
                    pos as int + 6 + len as int,
                ));
                assert(s.skip(6 + len as int) =~= data@.skip(rest_pos as int));
            }
            match parse_frames(data, rest_pos, count - 1) {
                Some(rest) => {
                    let head = MessageFrame { channel, seq, payload };
                    let ghost rest_orig = rest@;
                    let ghost head_snap = head;
                    let mut out: Vec<MessageFrame> = Vec::new();
                    out.push(head);
                    let mut rest_m = rest;
                    while rest_m.len() > 0
                        invariant
                            out@ + rest_m@ =~= seq![head_snap] + rest_orig,
                        decreases rest_m@.len(),
                    {
                        let f = rest_m.remove(0);
                        out.push(f);
                    }
                    proof {
                        assert(out@ =~= seq![head_snap] + rest_orig);
                        assert(frames_view(out@) =~= seq![frame_view(head_snap)] + frames_view(
                            rest_orig,
                        ));
                        let spec_head = (
                            be2(s.subrange(0, 2)),
                            be2(s.subrange(2, 4)),
                            s.subrange(6, 6 + len as int),
                        );
                        assert(head_snap.payload@ == s.subrange(6, 6 + len as int));
                        assert(frame_view(head_snap) == spec_head);
                        assert(spec_parse_frames(s, count as nat) == Some(
                            seq![spec_head] + frames_view(rest_orig),
                        ));
                    }
                    Some(out)
                },
                None => None,
            }
        } else {
            None
        }
    }
}

} // verus!
