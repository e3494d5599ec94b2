use vstd::prelude::*;

verus! {

use crate::codec::{
    be16u, be2, be8, bytes16, bytes2, bytes8, lemma_be16u_bytes16, lemma_be2_bytes2,
    lemma_be8_bytes8, read_u16, read_u64,
};
use crate::packet::{
    encode_header, header_bytes, write_bytes, PacketType, StandardHeader, HEADER_LEN, SIG_LEN,
};
use crate::types::Address;

/// Outcome of a connect request: accepted (with the optional opaque auth
/// payload the client attached), or silently dropped.
#[derive(PartialEq, Eq, Debug)]
pub enum HandshakeResult {
    Success(Option<Vec<u8>>),
    Invalid,
}

/// One byte of the keystream the server-side secret expands to.
pub open spec fn spec_ks(secret: u64, i: int) -> u8 {
    (((secret >> (((i % 8) * 8) as u64)) & 0xff) as u8) ^ (i as u8)
}

/// The packed, unkeyed content of a token: the client timestamp and the
/// address the token is bound to, padded to the signature width.
pub open spec fn spec_sig_pack(ts: u64, addr: Address) -> Seq<u8> {
    bytes8(ts) + bytes16(addr.ip) + bytes2(addr.port) + seq![0u8, 0u8, 0u8, 0u8, 0u8, 0u8]
}

/// The signed token: the packed content, each byte masked with the
/// keystream. For a fixed secret this is injective in (timestamp, address),
/// which is what replay safety rests on; cryptographic strength is not a
/// goal here and the surrounding protocol does not assume it.
pub open spec fn spec_sign(secret: u64, ts: u64, addr: Address) -> Seq<u8> {
    Seq::new(32, |i: int| spec_sig_pack(ts, addr)[i] ^ spec_ks(secret, i))
}

pub proof fn lemma_sig_pack_len(ts: u64, addr: Address)
    ensures
        spec_sig_pack(ts, addr).len() == 32,
{
}

/// Two tokens under one secret agree only if they were made for the same
/// timestamp and the same address: a token signed for one address cannot
/// pass for another.
/// Where each field sits inside the packed content.
#[verifier::rlimit(100)]
pub proof fn lemma_pack_fields(ts: u64, addr: Address)
    ensures
        spec_sig_pack(ts, addr).len() == 32,
        spec_sig_pack(ts, addr).subrange(0, 8) == bytes8(ts),
        spec_sig_pack(ts, addr).subrange(8, 24) == bytes16(addr.ip),
        spec_sig_pack(ts, addr).subrange(24, 26) == bytes2(addr.port),
{
    let p = spec_sig_pack(ts, addr);
    lemma_be8_bytes8(ts);
    lemma_be16u_bytes16(addr.ip);
    lemma_be2_bytes2(addr.port);
    assert(p.subrange(0, 8) =~= bytes8(ts));
    assert(p.subrange(8, 24) =~= bytes16(addr.ip));
    assert(p.subrange(24, 26) =~= bytes2(addr.port));
}

/// The packed content alone already determines timestamp and address.
pub proof fn lemma_pack_injective(ts1: u64, a1: Address, ts2: u64, a2: Address)
    requires
        spec_sig_pack(ts1, a1) == spec_sig_pack(ts2, a2),
    ensures
        ts1 == ts2,
        a1 == a2,
{
    lemma_pack_fields(ts1, a1);
    lemma_pack_fields(ts2, a2);
    lemma_be8_bytes8(ts1);
    lemma_be8_bytes8(ts2);
    lemma_be16u_bytes16(a1.ip);
    lemma_be16u_bytes16(a2.ip);
    lemma_be2_bytes2(a1.port);
    lemma_be2_bytes2(a2.port);
    assert(bytes8(ts1) == bytes8(ts2));
    assert(bytes16(a1.ip) == bytes16(a2.ip));
    assert(bytes2(a1.port) == bytes2(a2.port));
}

/// Two tokens under one secret agree only if they were made for the same
/// timestamp and the same address: a token signed for one address cannot
/// pass for another.
#[verifier::rlimit(100)]
pub proof fn lemma_sign_injective(secret: u64, ts1: u64, a1: Address, ts2: u64, a2: Address)
    requires
        spec_sign(secret, ts1, a1) == spec_sign(secret, ts2, a2),
    ensures
        ts1 == ts2,
        a1 == a2,
{
    let p1 = spec_sig_pack(ts1, a1);
    let p2 = spec_sig_pack(ts2, a2);
    lemma_sig_pack_len(ts1, a1);
    lemma_sig_pack_len(ts2, a2);
    assert forall|i: int| 0 <= i < 32 implies p1[i] == p2[i] by {
        let k = spec_ks(secret, i);
        assert(spec_sign(secret, ts1, a1)[i] == p1[i] ^ k);
        assert(spec_sign(secret, ts2, a2)[i] == p2[i] ^ k);
        assert(spec_sign(secret, ts1, a1)[i] == spec_sign(secret, ts2, a2)[i]);
        let x = p1[i];
        let y = p2[i];
        assert((x ^ k == y ^ k) ==> x == y) by (bit_vector);
    }
    assert(p1 =~= p2);
    lemma_pack_injective(ts1, a1, ts2, a2);
}

fn keystream_byte(secret: u64, i: usize) -> (b: u8)
    requires
        i < 32,
    ensures
        b == spec_ks(secret, i as int),
{
    let sh: u64 = ((i as u64) % 8) * 8;
    (((secret >> sh) & 0xff) as u8) ^ (i as u8)
}

/// Computes the signed token for a timestamp bound to an address.
pub fn sign_token(secret: u64, ts: u64, addr: Address) -> (r: Vec<u8>)
    ensures
        r@ == spec_sign(secret, ts, addr),
        r@.len() == SIG_LEN,
{
    let mut pack: Vec<u8> = Vec::new();
    crate::codec::write_u64(&mut pack, ts);
    crate::codec::write_u128(&mut pack, addr.ip);
    crate::codec::write_u16(&mut pack, addr.port);
    let mut i: usize = 0;
    while i < 6
        invariant
            i <= 6,
            pack@ =~= bytes8(ts) + bytes16(addr.ip) + bytes2(addr.port) + Seq::new(
                i as nat,
                |j: int| 0u8,
            ),
        decreases 6 - i,
    {
        pack.push(0);
        i = i + 1;
        proof {
            assert(pack@ =~= bytes8(ts) + bytes16(addr.ip) + bytes2(addr.port) + Seq::new(
                i as nat,
                |j: int| 0u8,
            ));
        }
    }
    proof {
        assert(Seq::new(6nat, |j: int| 0u8) =~= seq![0u8, 0u8, 0u8, 0u8, 0u8, 0u8]);
        assert(pack@ =~= spec_sig_pack(ts, addr));
    }
    let mut out: Vec<u8> = Vec::new();
    let mut i2: usize = 0;
    while i2 < 32
        invariant
            i2 <= 32,
            pack@ == spec_sig_pack(ts, addr),
            pack@.len() == 32,
            out@ =~= spec_sign(secret, ts, addr).take(i2 as int),
        decreases 32 - i2,
    {
        out.push(pack[i2] ^ keystream_byte(secret, i2));
        i2 = i2 + 1;
        proof {
            assert(out@ =~= spec_sign(secret, ts, addr).take(i2 as int));
        }
    }
    proof {
        assert(spec_sign(secret, ts, addr).take(32) =~= spec_sign(secret, ts, addr));
    }
    out
}

fn tokens_equal(a: &Vec<u8>, b: &Vec<u8>) -> (r: bool)
    ensures
        r == (a@ == b@),
{
    if a.len() != b.len() {
        proof {
            assert(a@.len() != b@.len());
        }
        return false;
    }
    let n: usize = a.len();
    let mut i: usize = 0;
    while i < n
        invariant
            n == a@.len(),
            n == b@.len(),
            i <= n,
            forall|j: int| 0 <= j < i ==> a@[j] == b@[j],
        decreases n - i,
    {
        if a[i] != b[i] {
            return false;
        }
        i = i + 1;
    }
    proof {
        assert(a@ =~= b@);
    }
    true
}

/// Stateless challenge/response handshake: challenges are answered with a
/// token signed over the claimed timestamp and the peer's address; connect
/// requests are accepted only with a valid token, and the nonce each
/// accepted address used is kept for authenticating its later disconnect.
pub struct HandshakeManager {
    pub require_auth: bool,
    pub secret: u64,
    pub authenticated: Vec<(Address, u64)>,
}

/// No address occurs twice in the nonce table.
pub open spec fn unique_addrs(s: Seq<(Address, u64)>) -> bool {
    forall|i: int, j: int| 0 <= i < j < s.len() ==> s[i].0 != s[j].0
}

impl HandshakeManager {
    pub open spec fn wf(self) -> bool {
        unique_addrs(self.authenticated@)
    }

    pub open spec fn spec_nonce_of(self, a: Address) -> Option<u64> {
        if exists|j: int| 0 <= j < self.authenticated@.len() && (#[trigger] self.authenticated@[j]).0 == a {
            Some(
                self.authenticated@[choose|j: int|
                    0 <= j < self.authenticated@.len() && (#[trigger] self.authenticated@[j]).0
                        == a].1,
            )
        } else {
            None
        }
    }

    pub fn new(require_auth: bool, secret: u64) -> (m: HandshakeManager)
        ensures
            m.wf(),
            m.require_auth == require_auth,
            m.secret == secret,
            m.authenticated@.len() == 0,
    {
        HandshakeManager { require_auth, secret, authenticated: Vec::new() }
    }

    fn find_nonce(&self, a: Address) -> (r: Option<usize>)
        requires
            self.wf(),
        ensures
            match r {
                Some(i) => i < self.authenticated@.len() && self.authenticated@[i as int].0 == a
                    && self.spec_nonce_of(a) == Some(self.authenticated@[i as int].1),
                None => self.spec_nonce_of(a) is None,
            },
    {
        let n: usize = self.authenticated.len();
        let mut i: usize = 0;
        while i < n
            invariant
                n == self.authenticated@.len(),
                i <= n,
                unique_addrs(self.authenticated@),
                forall|j: int| 0 <= j < i ==> (#[trigger] self.authenticated@[j]).0 != a,
            decreases n - i,
        {
            if self.authenticated[i].0 == a {
                proof {
                    let w = choose|j: int|
                        0 <= j < self.authenticated@.len() && (#[trigger] self.authenticated@[j]).0
                            == a;
                    assert(self.authenticated@[w].0 == a);
                    assert(w == i as int);
                }
                return Some(i);
            }
            i = i + 1;
        }
        None
    }

    fn record_nonce(&mut self, a: Address, t: u64)
        requires
            old(self).wf(),
        ensures
            final(self).wf(),
            final(self).spec_nonce_of(a) == Some(t),
            final(self).require_auth == old(self).require_auth,
            final(self).secret == old(self).secret,
    {
        match self.find_nonce(a) {
            Some(i) => {
                self.authenticated[i] = (a, t);
                proof {
                    let s0 = old(self).authenticated@;
                    let s1 = self.authenticated@;
                    assert forall|p: int, q: int| 0 <= p < q < s1.len() implies s1[p].0
                        != s1[q].0 by {
                        assert(s1[p].0 == s0[p].0 && s1[q].0 == s0[q].0);
                    }
                    let w = choose|j: int| 0 <= j < s1.len() && (#[trigger] s1[j]).0 == a;
                    assert(s1[i as int].0 == a);
                    assert(w == i as int);
                }
            },
            None => {
                self.authenticated.push((a, t));
                proof {
                    let s0 = old(self).authenticated@;
                    let s1 = self.authenticated@;
                    assert forall|p: int, q: int| 0 <= p < q < s1.len() implies s1[p].0
                        != s1[q].0 by {
                        if q < s0.len() {
                            assert(s1[p] == s0[p] && s1[q] == s0[q]);
                        } else {
                            assert(s1[p] == s0[p]);
                            assert(old(self).spec_nonce_of(a) is None);
                        }
                    }
                    let w = choose|j: int| 0 <= j < s1.len() && (#[trigger] s1[j]).0 == a;
                    assert(s1[s0.len() as int].0 == a);
                    assert(w == s0.len() as int);
                }
            },
        }
    }

    /// Forgets the handshake nonce of a departed address.
    pub fn delete_user(&mut self, a: Address)
        requires
            old(self).wf(),
        ensures
            final(self).wf(),
            final(self).spec_nonce_of(a) is None,
            final(self).require_auth == old(self).require_auth,
            final(self).secret == old(self).secret,
    {
        match self.find_nonce(a) {
            Some(i) => {
                proof {
                    crate::setvec::lemma_remove_preserves(
                        self.authenticated@,
                        i as int,
                        self.authenticated@[i as int],
                    );
                }
                let ghost s0 = self.authenticated@;
                self.authenticated.remove(i);
                proof {
                    let s1 = self.authenticated@;
                    assert forall|p: int, q: int| 0 <= p < q < s1.len() implies s1[p].0
                        != s1[q].0 by {
                        let sp: int = if p < i as int {
                            p
                        } else {
                            p + 1
                        };
                        let sq: int = if q < i as int {
                            q
                        } else {
                            q + 1
                        };
                        assert(s1[p] == s0[sp] && s1[q] == s0[sq] && sp < sq);
                    }
                    if exists|j: int| 0 <= j < s1.len() && (#[trigger] s1[j]).0 == a {
                        let w = choose|j: int| 0 <= j < s1.len() && (#[trigger] s1[j]).0 == a;
                        let sw: int = if w < i as int {
                            w
                        } else {
                            w + 1
                        };
                        assert(s1[w] == s0[sw] && s0[sw].0 == a && sw != i as int);
                        assert(s0[i as int].0 == a);
                        assert(false);
                    }
                }
            },
            None => {},
        }
    }

    /// Answers a challenge request: the full response datagram, echoing the
    /// client's timestamp with a token binding it to the claiming address.
    /// A malformed request gets no reply.
    pub fn recv_challenge_request(&self, addr: Address, data: &Vec<u8>) -> (r: Option<Vec<u8>>)
        ensures
            r is Some <==> data@.len() >= HEADER_LEN + 8,
            r matches Some(out) ==> out@ == header_bytes(
                StandardHeader {
                    packet_type: PacketType::ServerChallengeResponse,
                    local_seq: 0,
                    remote_seq: 0,
                    ack_bitfield: 0,
                },
            ) + bytes8(be8(data@.subrange(HEADER_LEN as int, HEADER_LEN as int + 8)))
                + spec_sign(
                self.secret,
                be8(data@.subrange(HEADER_LEN as int, HEADER_LEN as int + 8)),
                addr,
            ),
    {
        let _n: usize = data.len();
        if _n < HEADER_LEN + 8 {
            return None;
        }
        let ts = read_u64(data, HEADER_LEN);
        let mut out: Vec<u8> = Vec::new();
        let h = StandardHeader {
            packet_type: PacketType::ServerChallengeResponse,
            local_seq: 0,
            remote_seq: 0,
            ack_bitfield: 0,
        };
        encode_header(&h, &mut out);
        crate::codec::write_u64(&mut out, ts);
        let sig = sign_token(self.secret, ts, addr);
        write_bytes(&mut out, &sig);
        proof {
            lemma_be8_bytes8(ts);
        }
        Some(out)
    }

    /// The timestamp a well-formed connect request claims.
    pub open spec fn spec_req_ts(data: Seq<u8>) -> u64 {
        be8(data.subrange(HEADER_LEN as int, HEADER_LEN as int + 8))
    }

    /// The token a well-formed connect request carries.
    pub open spec fn spec_req_sig(data: Seq<u8>) -> Seq<u8> {
        data.subrange(HEADER_LEN as int + 8, HEADER_LEN as int + 8 + SIG_LEN as int)
    }

    /// A well-formed connect request carries an auth payload: the flag byte
    /// after the token is set and the length-prefixed payload is complete.
    pub open spec fn spec_req_has_auth(data: Seq<u8>) -> bool {
        &&& data.len() > HEADER_LEN + 8 + SIG_LEN
        &&& data[HEADER_LEN as int + 8 + SIG_LEN as int] == 1
        &&& data.len() >= HEADER_LEN + 8 + SIG_LEN + 3
        &&& data.len() - (HEADER_LEN + 8 + SIG_LEN + 3) >= be2(
            data.subrange(
                HEADER_LEN as int + 8 + SIG_LEN as int + 1,
                HEADER_LEN as int + 8 + SIG_LEN as int + 3,
            ),
        )
    }

    /// The auth payload of a connect request that carries one.
    pub open spec fn spec_req_auth_payload(data: Seq<u8>) -> Seq<u8> {
        data.subrange(
            HEADER_LEN as int + 8 + SIG_LEN as int + 3,
            HEADER_LEN as int + 8 + SIG_LEN as int + 3 + be2(
                data.subrange(
                    HEADER_LEN as int + 8 + SIG_LEN as int + 1,
                    HEADER_LEN as int + 8 + SIG_LEN as int + 3,
                ),
            ) as int,
        )
    }

    /// A connect request is acceptable from `addr` exactly when it is long
    /// enough and its token is the server's own signature over the claimed
    /// timestamp and that very address.
    #[verifier::opaque]
    pub open spec fn spec_connect_acceptable(self, addr: Address, data: Seq<u8>) -> bool {
        data.len() >= HEADER_LEN + 8 + SIG_LEN && Self::spec_req_sig(data) == spec_sign(
            self.secret,
            Self::spec_req_ts(data),
            addr,
        )
    }

    /// Handles a connect request: on a valid token the request is accepted
    /// and the (address, timestamp) nonce recorded; anything else is
    /// silently invalid. The auth payload, when present and well formed, is
    /// handed back untouched.
    pub fn recv_connect_request(&mut self, addr: Address, data: &Vec<u8>) -> (r: HandshakeResult)
        requires
            old(self).wf(),
        ensures
            final(self).wf(),
            final(self).require_auth == old(self).require_auth,
            final(self).secret == old(self).secret,
            r is Success <==> old(self).spec_connect_acceptable(addr, data@),
            r is Success ==> final(self).spec_nonce_of(addr) == Some(
                HandshakeManager::spec_req_ts(data@),
            ),
            r matches HandshakeResult::Success(a) ==> ({
                &&& (a is Some <==> HandshakeManager::spec_req_has_auth(data@))
                &&& (a matches Some(p) ==> p@ == HandshakeManager::spec_req_auth_payload(data@))
            }),
            r is Invalid ==> *final(self) == *old(self),
    {
        proof {
            reveal(HandshakeManager::spec_connect_acceptable);
        }
        let n: usize = data.len();
        if n < HEADER_LEN + 8 + SIG_LEN {
            return HandshakeResult::Invalid;
        }
        let ts = read_u64(data, HEADER_LEN);
        let expected = sign_token(self.secret, ts, addr);
        let mut got: Vec<u8> = Vec::new();
        let mut i: usize = HEADER_LEN + 8;
        while i < HEADER_LEN + 8 + SIG_LEN
            invariant
                HEADER_LEN + 8 <= i <= HEADER_LEN + 8 + SIG_LEN,
                n == data@.len(),
                n >= HEADER_LEN + 8 + SIG_LEN,
                got@ =~= data@.subrange(HEADER_LEN as int + 8, i as int),
                self == old(self),
            decreases HEADER_LEN + 8 + SIG_LEN - i,
        {
            got.push(data[i]);
            i = i + 1;
            proof {
                assert(got@ =~= data@.subrange(HEADER_LEN as int + 8, i as int));
            }
        }
        if !tokens_equal(&got, &expected) {
            return HandshakeResult::Invalid;
        }
        // valid token: read the optional auth payload
        let auth: Option<Vec<u8>> = if n > HEADER_LEN + 8 + SIG_LEN {
            let flag = data[HEADER_LEN + 8 + SIG_LEN];
            if flag == 1 && n >= HEADER_LEN + 8 + SIG_LEN + 3 {
                let alen = read_u16(data, HEADER_LEN + 8 + SIG_LEN + 1) as usize;
                let start = HEADER_LEN + 8 + SIG_LEN + 3;
                if n - start >= alen {
                    let mut payload: Vec<u8> = Vec::new();
                    let mut j: usize = 0;
                    while j < alen
                        invariant
                            j <= alen,
                            start + alen <= n,
                            n == data@.len(),
                            payload@ =~= data@.subrange(start as int, start as int + j as int),
                        decreases alen - j,
                    {
                        payload.push(data[start + j]);
                        j = j + 1;
                    }
                    Some(payload)
                } else {
                    None
                }
            } else {
                None
            }
        } else {
            None
        };
        self.record_nonce(addr, ts);
        proof {
            lemma_be8_bytes8(ts);
        }
        HandshakeResult::Success(auth)
    }

    /// The connect acceptance datagram: header only.
    pub fn write_connect_response(&self) -> (r: Vec<u8>)
        ensures
            r@ == header_bytes(
                StandardHeader {
                    packet_type: PacketType::ServerConnectResponse,
                    local_seq: 0,
                    remote_seq: 0,
                    ack_bitfield: 0,
                },
            ),
    {
        let mut out: Vec<u8> = Vec::new();
        let h = StandardHeader {
            packet_type: PacketType::ServerConnectResponse,
            local_seq: 0,
            remote_seq: 0,
            ack_bitfield: 0,
        };
        encode_header(&h, &mut out);
        out
    }

    /// The rejection datagram: header only.
    pub fn write_reject_response(&self) -> (r: Vec<u8>)
        ensures
            r@ == header_bytes(
                StandardHeader {
                    packet_type: PacketType::ServerRejectResponse,
                    local_seq: 0,
                    remote_seq: 0,
                    ack_bitfield: 0,
                },
            ),
    {
        let mut out: Vec<u8> = Vec::new();
        let h = StandardHeader {
            packet_type: PacketType::ServerRejectResponse,
            local_seq: 0,
            remote_seq: 0,
            ack_bitfield: 0,
        };
        encode_header(&h, &mut out);
        out
    }

    /// A disconnect is genuine only when it carries the same signed token
    /// that connected this address, so a third party cannot forge it.
    pub open spec fn spec_disconnect_valid(self, addr: Address, data: Seq<u8>) -> bool {
        &&& data.len() >= HEADER_LEN + SIG_LEN
        &&& self.spec_nonce_of(addr) is Some
        &&& data.subrange(HEADER_LEN as int, HEADER_LEN as int + SIG_LEN as int) == spec_sign(
            self.secret,
            self.spec_nonce_of(addr).unwrap(),
            addr,
        )
    }

    pub fn verify_disconnect_request(&self, addr: Address, data: &Vec<u8>) -> (r: bool)
        requires
            self.wf(),
        ensures
            r == self.spec_disconnect_valid(addr, data@),
    {
        let n: usize = data.len();
        if n < HEADER_LEN + SIG_LEN {
            return false;
        }
        match self.find_nonce(addr) {
            Some(i) => {
                let ts = self.authenticated[i].1;
                let expected = sign_token(self.secret, ts, addr);
                let mut got: Vec<u8> = Vec::new();
                let mut j: usize = HEADER_LEN;
                while j < HEADER_LEN + SIG_LEN
                    invariant
                        HEADER_LEN <= j <= HEADER_LEN + SIG_LEN,
                        n == data@.len(),
                        n >= HEADER_LEN + SIG_LEN,
                        got@ =~= data@.subrange(HEADER_LEN as int, j as int),
                    decreases HEADER_LEN + SIG_LEN - j,
                {
                    got.push(data[j]);
                    j = j + 1;
                    proof {
                        assert(got@ =~= data@.subrange(HEADER_LEN as int, j as int));
                    }
                }
                tokens_equal(&got, &expected)
            },
            None => false,
        }
    }
}

} // verus!
