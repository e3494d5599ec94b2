use vstd::prelude::*;

verus! {

use crate::entity_manager::{deps_open_in, EntityManager};
use crate::handshake::{lemma_sign_injective, spec_sign, HandshakeManager};
use crate::server::Server;
use crate::types::Address;

/// Keys and addresses stay in lockstep: every connection is bound to a
/// live user whose address is the connection's own, no two connections
/// share an address, and no two connections share a user key.
pub proof fn lemma_key_address_bijection(s: Server)
    requires
        s.wf(),
    ensures
        forall|i: int|
            0 <= i < s.connections@.len() ==> {
                let c = #[trigger] s.connections@[i];
                s.users.spec_contains(c.user_key.index as int, c.user_key.generation)
                    && s.users.spec_at(c.user_key.index as int).address == c.address
            },
        forall|i: int, j: int|
            0 <= i < j < s.connections@.len() ==> s.connections@[i].address
                != s.connections@[j].address,
        forall|i: int, j: int|
            0 <= i < j < s.connections@.len() ==> s.connections@[i].user_key
                != s.connections@[j].user_key,
{
    assert forall|i: int, j: int|
        0 <= i < j < s.connections@.len() implies s.connections@[i].user_key
        != s.connections@[j].user_key by {
        let a = s.connections@[i];
        let b = s.connections@[j];
        if a.user_key == b.user_key {
            assert(s.users.spec_at(a.user_key.index as int).address == a.address);
            assert(s.users.spec_at(b.user_key.index as int).address == b.address);
            assert(a.address == b.address);
        }
    }
}

/// Room membership is symmetric: a user caches a room exactly when the
/// room lists the user.
pub proof fn lemma_room_symmetry(s: Server, ui: int, ri: int)
    requires
        s.wf(),
        s.spec_user_live_at(ui),
        s.spec_room_live_at(ri),
    ensures
        s.users.spec_at(ui).room_keys@.contains(s.spec_room_key_at(ri))
            <==> s.rooms.spec_at(ri).users@.contains(s.spec_user_key_at(ui)),
{
    vstd::std_specs::vec::axiom_spec_len(&s.users.slots);
    vstd::std_specs::vec::axiom_spec_len(&s.rooms.slots);
    let uk = s.spec_user_key_at(ui);
    let rk = s.spec_room_key_at(ri);
    assert(uk.index as int == ui);
    assert(rk.index as int == ri);
    if s.users.spec_at(ui).room_keys@.contains(rk) {
        assert(s.rooms.spec_contains(rk.index as int, rk.generation));
        assert(s.rooms.spec_at(rk.index as int).users@.contains(uk));
    }
    if s.rooms.spec_at(ri).users@.contains(uk) {
        assert(s.users.spec_contains(uk.index as int, uk.generation));
        assert(s.users.spec_at(uk.index as int).room_keys@.contains(rk));
    }
}

/// An entity-referencing message stays parked exactly while some referenced
/// entity is missing from the client's mirror: a well-parked manager never
/// holds a deliverable message back, and everything it releases has all its
/// dependencies mirrored.
pub proof fn lemma_dependency_gating(em: EntityManager)
    requires
        em.pending_wf(),
    ensures
        forall|p: int|
            0 <= p < em.pending@.len() ==> !deps_open_in(
                em.spawned@,
                (#[trigger] em.pending@[p]).deps@,
            ),
{
}

/// A connect request accepted from one address carries a token signed for
/// that very address: a token made for address `a`, replayed from address
/// `b`, validates only if `a` and `b` are the same peer.
pub proof fn lemma_handshake_replay_safety(
    h: HandshakeManager,
    a: Address,
    b: Address,
    data: Seq<u8>,
    ts: u64,
)
    requires
        h.spec_connect_acceptable(b, data),
        HandshakeManager::spec_req_sig(data) == spec_sign(h.secret, ts, a),
        ts == HandshakeManager::spec_req_ts(data),
    ensures
        a == b,
{
    reveal(HandshakeManager::spec_connect_acceptable);
    lemma_sign_injective(h.secret, ts, a, HandshakeManager::spec_req_ts(data), b);
}

} // verus!
