use vstd::prelude::*;

verus! {

use crate::codec::{bytes2, bytes8, write_u16, write_u64, write_u8};
use crate::setvec::{contains_component_kind, insert_component_kind, remove_component_kind};
use crate::types::{no_dup, ChannelId, ComponentKind, EntityId};

/// One replication step the client still has to be told about.
#[derive(Clone, Copy, PartialEq, Eq, Structural, Debug)]
pub enum EntityAction {
    Spawn(EntityId),
    Despawn(EntityId),
    Insert(EntityId, ComponentKind),
    Remove(EntityId, ComponentKind),
}

/// The connection's mirror of one entity: the client has been told it
/// exists, and told about these component kinds.
pub struct LocalEntity {
    pub entity: EntityId,
    pub components: Vec<ComponentKind>,
}

/// A message that references entities and is parked until every referenced
/// entity has been spawned on this client.
pub struct PendingMessage {
    pub channel: ChannelId,
    pub payload: Vec<u8>,
    pub deps: Vec<EntityId>,
}

/// A connection's view of what its client mirrors: which entities were
/// spawned there, which component kinds each carries, the queued replication
/// actions, and the entity-referencing messages parked on missing entities.
pub struct EntityManager {
    pub spawned: Vec<LocalEntity>,
    pub actions: Vec<EntityAction>,
    pub pending: Vec<PendingMessage>,
}

pub open spec fn unique_local(s: Seq<LocalEntity>) -> bool {
    forall|i: int, j: int| 0 <= i < j < s.len() ==> s[i].entity != s[j].entity
}

/// The mirror holds this entity.
pub open spec fn spawned_has(spawned: Seq<LocalEntity>, e: EntityId) -> bool {
    exists|j: int| 0 <= j < spawned.len() && (#[trigger] spawned[j]).entity == e
}

/// Every dependency is present in the mirror.
pub open spec fn deps_open_in(spawned: Seq<LocalEntity>, deps: Seq<EntityId>) -> bool {
    forall|d: int| 0 <= d < deps.len() ==> spawned_has(spawned, deps[d])
}

/// The parked messages that a mirror state releases, in arrival order.
pub open spec fn spec_release(s: Seq<PendingMessage>, spawned: Seq<LocalEntity>) -> Seq<
    PendingMessage,
>
    decreases s.len(),
{
    if s.len() == 0 {
        Seq::empty()
    } else if deps_open_in(spawned, s.last().deps@) {
        spec_release(s.drop_last(), spawned).push(s.last())
    } else {
        spec_release(s.drop_last(), spawned)
    }
}

/// The parked messages that stay parked, in arrival order.
pub open spec fn spec_still_pending(s: Seq<PendingMessage>, spawned: Seq<LocalEntity>) -> Seq<
    PendingMessage,
>
    decreases s.len(),
{
    if s.len() == 0 {
        Seq::empty()
    } else if deps_open_in(spawned, s.last().deps@) {
        spec_still_pending(s.drop_last(), spawned)
    } else {
        spec_still_pending(s.drop_last(), spawned).push(s.last())
    }
}

/// The parked messages that survive a despawn: those not depending on the
/// despawned entity.
pub open spec fn spec_drop_dependent(s: Seq<PendingMessage>, e: EntityId) -> Seq<PendingMessage>
    decreases s.len(),
{
    if s.len() == 0 {
        Seq::empty()
    } else if s.last().deps@.contains(e) {
        spec_drop_dependent(s.drop_last(), e)
    } else {
        spec_drop_dependent(s.drop_last(), e).push(s.last())
    }
}

/// Byte layout of one replication action: a tag byte, the entity handle,
/// and the component kind (zero where the action carries none).
pub open spec fn spec_action_bytes(a: EntityAction) -> Seq<u8> {
    match a {
        EntityAction::Spawn(e) => seq![0u8] + bytes8(e) + bytes2(0),
        EntityAction::Despawn(e) => seq![1u8] + bytes8(e) + bytes2(0),
        EntityAction::Insert(e, k) => seq![2u8] + bytes8(e) + bytes2(k),
        EntityAction::Remove(e, k) => seq![3u8] + bytes8(e) + bytes2(k),
    }
}

/// Byte layout of a list of replication actions.
pub open spec fn spec_actions_bytes(s: Seq<EntityAction>) -> Seq<u8>
    decreases s.len(),
{
    if s.len() == 0 {
        Seq::empty()
    } else {
        spec_actions_bytes(s.drop_last()) + spec_action_bytes(s.last())
    }
}

/// Appends the actions' byte layout.
pub fn write_actions(out: &mut Vec<u8>, actions: &Vec<EntityAction>)
    ensures
        final(out)@ == old(out)@ + spec_actions_bytes(actions@),
{
    let n: usize = actions.len();
    let mut i: usize = 0;
    while i < n
        invariant
            n == actions@.len(),
            i <= n,
            out@ =~= old(out)@ + spec_actions_bytes(actions@.take(i as int)),
        decreases n - i,
    {
        let a = actions[i];
        match a {
            EntityAction::Spawn(e) => {
                write_u8(out, 0);
                write_u64(out, e);
                write_u16(out, 0);
            },
            EntityAction::Despawn(e) => {
                write_u8(out, 1);
                write_u64(out, e);
                write_u16(out, 0);
            },
            EntityAction::Insert(e, k) => {
                write_u8(out, 2);
                write_u64(out, e);
                write_u16(out, k);
            },
            EntityAction::Remove(e, k) => {
                write_u8(out, 3);
                write_u64(out, e);
                write_u16(out, k);
            },
        }
        i = i + 1;
        proof {
            assert(actions@.take(i as int).drop_last() =~= actions@.take(i as int - 1));
            assert(actions@.take(i as int).last() == actions@[i as int - 1]);
            assert(out@ =~= old(out)@ + spec_actions_bytes(actions@.take(i as int)));
        }
    }
    proof {
        assert(actions@.take(n as int) =~= actions@);
    }
}

/// Parking decisions depend only on which entities the mirror holds.
pub proof fn lemma_pending_same_entities(
    p: Seq<PendingMessage>,
    s1: Seq<LocalEntity>,
    s2: Seq<LocalEntity>,
)
    requires
        forall|e: EntityId| spawned_has(s1, e) == spawned_has(s2, e),
    ensures
        spec_still_pending(p, s1) == spec_still_pending(p, s2),
        spec_release(p, s1) == spec_release(p, s2),
    decreases p.len(),
{
    if p.len() > 0 {
        lemma_pending_same_entities(p.drop_last(), s1, s2);
        assert(deps_open_in(s1, p.last().deps@) == deps_open_in(s2, p.last().deps@));
    }
}

fn contains_local(v: &Vec<LocalEntity>, e: EntityId) -> (r: bool)
    ensures
        r == exists|j: int| 0 <= j < v@.len() && (#[trigger] v@[j]).entity == e,
{
    let n: usize = v.len();
    let mut i: usize = 0;
    while i < n
        invariant
            n == v@.len(),
            i <= n,
            forall|j: int| 0 <= j < i ==> (#[trigger] v@[j]).entity != e,
        decreases n - i,
    {
        if v[i].entity == e {
            return true;
        }
        i = i + 1;
    }
    false
}

pub fn deps_all_open(spawned: &Vec<LocalEntity>, deps: &Vec<EntityId>) -> (r: bool)
    ensures
        r == deps_open_in(spawned@, deps@),
{
    let n: usize = deps.len();
    let mut i: usize = 0;
    while i < n
        invariant
            n == deps@.len(),
            i <= n,
            forall|d: int| 0 <= d < i ==> spawned_has(spawned@, deps@[d]),
        decreases n - i,
    {
        if !contains_local(spawned, deps[i]) {
            return false;
        }
        i = i + 1;
    }
    true
}

impl EntityManager {
    pub open spec fn wf(self) -> bool {
        &&& unique_local(self.spawned@)
        &&& forall|j: int|
            0 <= j < self.spawned@.len() ==> no_dup((#[trigger] self.spawned@[j]).components@)
    }

    pub open spec fn spec_scope_has(self, e: EntityId) -> bool {
        exists|j: int| 0 <= j < self.spawned@.len() && (#[trigger] self.spawned@[j]).entity == e
    }

    pub open spec fn spec_index_of(self, e: EntityId) -> int {
        choose|j: int| 0 <= j < self.spawned@.len() && (#[trigger] self.spawned@[j]).entity == e
    }

    pub open spec fn spec_components(self, e: EntityId) -> Seq<ComponentKind> {
        self.spawned@[self.spec_index_of(e)].components@
    }

    pub open spec fn spec_has_component(self, e: EntityId, k: ComponentKind) -> bool {
        self.spec_scope_has(e) && self.spec_components(e).contains(k)
    }

    /// Every parked message still has at least one missing dependency.
    pub open spec fn pending_wf(self) -> bool {
        forall|p: int|
            0 <= p < self.pending@.len() ==> !deps_open_in(
                self.spawned@,
                (#[trigger] self.pending@[p]).deps@,
            )
    }

    pub fn new() -> (m: EntityManager)
        ensures
            m.wf(),
            m.pending_wf(),
            m.spawned@.len() == 0,
            m.actions@.len() == 0,
            m.pending@.len() == 0,
    {
        EntityManager { spawned: Vec::new(), actions: Vec::new(), pending: Vec::new() }
    }

    pub fn scope_has_entity(&self, e: EntityId) -> (r: bool)
        ensures
            r == self.spec_scope_has(e),
    {
        contains_local(&self.spawned, e)
    }

    /// Whether entity-referencing messages may be sent outright: the entity
    /// is mirrored at the client.
    pub fn entity_channel_is_open(&self, e: EntityId) -> (r: bool)
        ensures
            r == self.spec_scope_has(e),
    {
        contains_local(&self.spawned, e)
    }

    fn find(&self, e: EntityId) -> (r: Option<usize>)
        requires
            self.wf(),
        ensures
            match r {
                Some(i) => i < self.spawned@.len() && self.spawned@[i as int].entity == e
                    && self.spec_scope_has(e) && self.spec_index_of(e) == i as int,
                None => !self.spec_scope_has(e),
            },
    {
        let n: usize = self.spawned.len();
        let mut i: usize = 0;
        while i < n
            invariant
                n == self.spawned@.len(),
                i <= n,
                unique_local(self.spawned@),
                forall|j: int| 0 <= j < i ==> (#[trigger] self.spawned@[j]).entity != e,
            decreases n - i,
        {
            if self.spawned[i].entity == e {
                proof {
                    let w = self.spec_index_of(e);
                    assert(0 <= w < self.spawned@.len() && self.spawned@[w].entity == e);
                    assert(w == i as int);
                }
                return Some(i);
            }
            i = i + 1;
        }
        None
    }

    /// Two manager states with the same mirror agree on every scope query.
    proof fn lemma_same_spawned(a: EntityManager, b: EntityManager)
        requires
            a.spawned@ == b.spawned@,
            unique_local(a.spawned@),
        ensures
            forall|e: EntityId| a.spec_scope_has(e) == b.spec_scope_has(e),
            forall|e: EntityId|
                a.spec_scope_has(e) ==> a.spec_index_of(e) == b.spec_index_of(e)
                    && a.spec_components(e) == b.spec_components(e),
    {
        assert forall|e: EntityId| a.spec_scope_has(e) implies b.spec_scope_has(e) by {
            let j = a.spec_index_of(e);
            assert(0 <= j < a.spawned@.len() && a.spawned@[j].entity == e);
            assert(b.spawned@[j].entity == e);
        }
        assert forall|e: EntityId| b.spec_scope_has(e) implies a.spec_scope_has(e) by {
            let j = b.spec_index_of(e);
            assert(0 <= j < b.spawned@.len() && b.spawned@[j].entity == e);
            assert(a.spawned@[j].entity == e);
        }
        assert forall|e: EntityId| a.spec_scope_has(e) implies a.spec_index_of(e)
            == b.spec_index_of(e) && a.spec_components(e) == b.spec_components(e) by {
            let j = a.spec_index_of(e);
            assert(0 <= j < a.spawned@.len() && a.spawned@[j].entity == e);
            let w = b.spec_index_of(e);
            assert(0 <= w < b.spawned@.len() && b.spawned@[w].entity == e);
            assert(a.spawned@[w].entity == e);
            if w != j {
                assert(false);
            }
        }
    }

    /// Marks the entity as mirrored, queues the spawn action, and releases
    /// every parked message whose dependencies are now all mirrored. The
    /// released messages are returned in arrival order.
    pub fn spawn_entity(&mut self, e: EntityId) -> (released: Vec<PendingMessage>)
        requires
            old(self).wf(),
            old(self).pending_wf(),
            !old(self).spec_scope_has(e),
        ensures
            final(self).wf(),
            final(self).pending_wf(),
            final(self).spec_scope_has(e),
            final(self).spec_components(e) == Seq::<ComponentKind>::empty(),
            forall|e2: EntityId|
                e2 != e ==> final(self).spec_scope_has(e2) == old(self).spec_scope_has(e2),
            forall|e2: EntityId|
                e2 != e && old(self).spec_scope_has(e2) ==> final(self).spec_components(e2) == old(self).spec_components(e2),
            final(self).actions@ == old(self).actions@.push(EntityAction::Spawn(e)),
            released@ == spec_release(old(self).pending@, final(self).spawned@),
            final(self).pending@ == spec_still_pending(old(self).pending@, final(self).spawned@),
            forall|p: int|
                0 <= p < released@.len() ==> deps_open_in(
                    final(self).spawned@,
                    (#[trigger] released@[p]).deps@,
                ),
    {
        let ghost s0 = self.spawned@;
        self.spawned.push(LocalEntity { entity: e, components: Vec::new() });
        self.actions.push(EntityAction::Spawn(e));
        proof {
            let s1 = self.spawned@;
            let n = s0.len() as int;
            assert(s1[n].entity == e);
            assert(self.spec_scope_has(e));
            assert(self.spec_index_of(e) == n);
            assert forall|e2: EntityId| e2 != e && old(self).spec_scope_has(e2) implies self
                .spec_scope_has(e2) && self.spec_index_of(e2) == old(self).spec_index_of(e2) by {
                let j = old(self).spec_index_of(e2);
                assert(s1[j].entity == e2);
                let w = self.spec_index_of(e2);
                assert(0 <= w < s1.len() && s1[w].entity == e2);
                assert(w != n);
                assert(s0[w].entity == e2);
                assert(w == j);
            }
            assert forall|e2: EntityId| e2 != e && self.spec_scope_has(e2) implies old(self).spec_scope_has(e2) by {
                let w = self.spec_index_of(e2);
                assert(0 <= w < s1.len() && s1[w].entity == e2);
                assert(w != n);
                assert(s0[w].entity == e2);
            }
        }
        // release parked messages whose dependencies are all mirrored now
        let ghost mid = *self;
        let ghost s_new = self.spawned@;
        let ghost a_new = self.actions@;
        let ghost p_orig = self.pending@;
        let pn: usize = self.pending.len();
        let mut released: Vec<PendingMessage> = Vec::new();
        let mut kept: Vec<PendingMessage> = Vec::new();
        let mut i: usize = 0;
        while i < pn
            invariant
                pn == p_orig.len(),
                i <= pn,
                self.pending@ =~= p_orig.skip(i as int),
                self.spawned@ == s_new,
                self.actions@ == a_new,
                released@ =~= spec_release(p_orig.take(i as int), self.spawned@),
                kept@ =~= spec_still_pending(p_orig.take(i as int), self.spawned@),
                forall|p: int|
                    0 <= p < released@.len() ==> deps_open_in(
                        self.spawned@,
                        (#[trigger] released@[p]).deps@,
                    ),
                forall|p: int|
                    0 <= p < kept@.len() ==> !deps_open_in(
                        self.spawned@,
                        (#[trigger] kept@[p]).deps@,
                    ),
            decreases pn - i,
        {
            let p = self.pending.remove(0);
            proof {
                assert(p_orig.skip(i as int)[0] == p_orig[i as int]);
                assert(p_orig.take(i as int + 1).drop_last() =~= p_orig.take(i as int));
                assert(p_orig.take(i as int + 1).last() == p_orig[i as int]);
            }
            if deps_all_open(&self.spawned, &p.deps) {
                released.push(p);
            } else {
                kept.push(p);
            }
            i = i + 1;
            proof {
                assert(self.pending@ =~= p_orig.skip(i as int));
            }
        }
        proof {
            assert(p_orig.take(pn as int) =~= p_orig);
        }
        self.pending = kept;
        proof {
            EntityManager::lemma_same_spawned(mid, *self);
        }
        released
    }

    /// Discards every parked message that depended on the entity; when the
    /// entity was mirrored, it is also removed from the mirror and the
    /// despawn action queued.
    pub fn despawn_entity(&mut self, e: EntityId)
        requires
            old(self).wf(),
        ensures
            final(self).wf(),
            !final(self).spec_scope_has(e),
            forall|e2: EntityId|
                e2 != e ==> final(self).spec_scope_has(e2) == old(self).spec_scope_has(e2),
            forall|e2: EntityId|
                e2 != e && old(self).spec_scope_has(e2) ==> final(self).spec_components(e2) == old(self).spec_components(e2),
            final(self).pending@ == spec_drop_dependent(old(self).pending@, e),
            forall|p: int|
                0 <= p < final(self).pending@.len() ==> !(#[trigger] final(self).pending@[p]).deps@.contains(e),
            old(self).spec_scope_has(e) ==> final(self).actions@ == old(self).actions@.push(
                EntityAction::Despawn(e),
            ),
            old(self).pending_wf() ==> final(self).pending_wf(),
            !old(self).spec_scope_has(e) ==> final(self).actions@ == old(self).actions@ && final(self).spawned@ == old(self).spawned@,
    {
        match self.find(e) {
            Some(idx) => {
                let ghost s0 = self.spawned@;
                self.spawned.remove(idx);
                self.actions.push(EntityAction::Despawn(e));
                proof {
                    let s1 = self.spawned@;
                    let i = idx as int;
                    assert forall|a: int, c: int| 0 <= a < c < s1.len() implies s1[a].entity
                        != s1[c].entity by {
                        let sa: int = if a < i {
                            a
                        } else {
                            a + 1
                        };
                        let sc: int = if c < i {
                            c
                        } else {
                            c + 1
                        };
                        assert(s1[a] == s0[sa] && s1[c] == s0[sc] && sa < sc);
                    }
                    assert forall|j: int| 0 <= j < s1.len() implies no_dup(
                        (#[trigger] s1[j]).components@,
                    ) by {
                        let sj: int = if j < i {
                            j
                        } else {
                            j + 1
                        };
                        assert(s1[j] == s0[sj]);
                    }
                    if self.spec_scope_has(e) {
                        let w = self.spec_index_of(e);
                        let sw: int = if w < i {
                            w
                        } else {
                            w + 1
                        };
                        assert(s1[w] == s0[sw] && s0[sw].entity == e && sw != i);
                        assert(s0[i].entity == e);
                        assert(false);
                    }
                    assert forall|e2: EntityId| e2 != e && old(self).spec_scope_has(e2) implies self
                        .spec_scope_has(e2) && self.spec_components(e2) == old(self).spec_components(e2) by {
                        let j = old(self).spec_index_of(e2);
                        assert(0 <= j < s0.len() && s0[j].entity == e2);
                        assert(j != i);
                        let tj: int = if j < i {
                            j
                        } else {
                            j - 1
                        };
                        assert(s1[tj] == s0[j]);
                        assert(self.spec_scope_has(e2));
                        let w = self.spec_index_of(e2);
                        let sw: int = if w < i {
                            w
                        } else {
                            w + 1
                        };
                        assert(s1[w] == s0[sw] && s0[sw].entity == e2);
                        assert(sw == j);
                    }
                    assert forall|e2: EntityId| e2 != e && self.spec_scope_has(e2) implies old(self).spec_scope_has(e2) by {
                        let w = self.spec_index_of(e2);
                        let sw: int = if w < i {
                            w
                        } else {
                            w + 1
                        };
                        assert(s1[w] == s0[sw] && s0[sw].entity == e2);
                    }
                }
                // drop parked messages that depended on the despawned entity
                let ghost mid = *self;
                let ghost s_new = self.spawned@;
                let ghost a_new = self.actions@;
                let ghost p_orig = self.pending@;
                let pn: usize = self.pending.len();
                let mut kept: Vec<PendingMessage> = Vec::new();
                let mut i: usize = 0;
                while i < pn
                    invariant
                        pn == p_orig.len(),
                        i <= pn,
                        self.pending@ =~= p_orig.skip(i as int),
                        self.spawned@ == s_new,
                        self.actions@ == a_new,
                        kept@ =~= spec_drop_dependent(p_orig.take(i as int), e),
                        forall|p: int|
                            0 <= p < kept@.len() ==> !(#[trigger] kept@[p]).deps@.contains(e),
                        forall|q: int|
                            0 <= q < kept@.len() ==> exists|k: int|
                                0 <= k < p_orig.len() && #[trigger] kept@[q] == p_orig[k],
                    decreases pn - i,
                {
                    let p = self.pending.remove(0);
                    proof {
                        assert(p_orig.skip(i as int)[0] == p_orig[i as int]);
                        assert(p_orig.take(i as int + 1).drop_last() =~= p_orig.take(i as int));
                        assert(p_orig.take(i as int + 1).last() == p_orig[i as int]);
                    }
                    if !crate::setvec::contains_entity_id(&p.deps, e) {
                        let ghost q_new = kept@.len() as int;
                        kept.push(p);
                        proof {
                            assert(kept@[q_new] == p_orig[i as int]);
                        }
                    }
                    i = i + 1;
                    proof {
                        assert(self.pending@ =~= p_orig.skip(i as int));
                    }
                }
                proof {
                    assert(p_orig.take(pn as int) =~= p_orig);
                }
                self.pending = kept;
                proof {
                    EntityManager::lemma_same_spawned(mid, *self);
                    if old(self).pending_wf() {
                        let s1 = self.spawned@;
                        assert forall|q: int| 0 <= q < self.pending@.len() implies !deps_open_in(
                            s1,
                            (#[trigger] self.pending@[q]).deps@,
                        ) by {
                            let k = choose|k: int|
                                0 <= k < p_orig.len() && #[trigger] self.pending@[q] == p_orig[k];
                            let deps = p_orig[k].deps@;
                            assert(!deps_open_in(s0, deps));
                            let d = choose|d: int|
                                0 <= d < deps.len() && !spawned_has(s0, #[trigger] deps[d]);
                            if spawned_has(s1, deps[d]) {
                                let w = choose|w: int|
                                    0 <= w < s1.len() && (#[trigger] s1[w]).entity == deps[d];
                                let sw: int = if w < idx as int {
                                    w
                                } else {
                                    w + 1
                                };
                                assert(s1[w] == s0[sw]);
                                assert(spawned_has(s0, deps[d]));
                            }
                        }
                    }
                }
            },
            None => {
                self.drop_dependent_pending(e);
            },
        }
    }

    /// Removes every parked message that depends on the entity.
    fn drop_dependent_pending(&mut self, e: EntityId)
        ensures
            final(self).pending@ == spec_drop_dependent(old(self).pending@, e),
            forall|p: int|
                0 <= p < final(self).pending@.len() ==> !(#[trigger] final(self).pending@[p]).deps@.contains(e),
            final(self).spawned@ == old(self).spawned@,
            final(self).actions@ == old(self).actions@,
            forall|q: int|
                0 <= q < final(self).pending@.len() ==> exists|k: int|
                    0 <= k < old(self).pending@.len() && #[trigger] final(self).pending@[q]
                        == old(self).pending@[k],
    {
        let ghost p_orig = self.pending@;
        let pn: usize = self.pending.len();
        let mut kept: Vec<PendingMessage> = Vec::new();
        let mut i: usize = 0;
        while i < pn
            invariant
                pn == p_orig.len(),
                i <= pn,
                self.pending@ =~= p_orig.skip(i as int),
                self.spawned@ == old(self).spawned@,
                self.actions@ == old(self).actions@,
                kept@ =~= spec_drop_dependent(p_orig.take(i as int), e),
                forall|p: int|
                    0 <= p < kept@.len() ==> !(#[trigger] kept@[p]).deps@.contains(e),
                forall|q: int|
                    0 <= q < kept@.len() ==> exists|k: int|
                        0 <= k < p_orig.len() && #[trigger] kept@[q] == p_orig[k],
            decreases pn - i,
        {
            let p = self.pending.remove(0);
            proof {
                assert(p_orig.skip(i as int)[0] == p_orig[i as int]);
                assert(p_orig.take(i as int + 1).drop_last() =~= p_orig.take(i as int));
                assert(p_orig.take(i as int + 1).last() == p_orig[i as int]);
            }
            if !crate::setvec::contains_entity_id(&p.deps, e) {
                let ghost q_new = kept@.len() as int;
                kept.push(p);
                proof {
                    assert(kept@[q_new] == p_orig[i as int]);
                }
            }
            i = i + 1;
            proof {
                assert(self.pending@ =~= p_orig.skip(i as int));
            }
        }
        proof {
            assert(p_orig.take(pn as int) =~= p_orig);
        }
        self.pending = kept;
    }

    /// After an in-place change of the record at `i` that keeps its entity,
    /// every entity keeps its record position.
    proof fn lemma_update_frame(self, other: EntityManager, i: int)
        requires
            self.wf(),
            0 <= i < self.spawned@.len(),
            other.spawned@.len() == self.spawned@.len(),
            forall|j: int|
                0 <= j < self.spawned@.len() ==> (#[trigger] other.spawned@[j]).entity
                    == self.spawned@[j].entity,
            forall|j: int|
                0 <= j < self.spawned@.len() && j != i ==> other.spawned@[j] == self.spawned@[j],
        ensures
            unique_local(other.spawned@),
            forall|e2: EntityId| other.spec_scope_has(e2) == self.spec_scope_has(e2),
            forall|e2: EntityId|
                self.spec_scope_has(e2) ==> other.spec_index_of(e2) == self.spec_index_of(e2),
    {
        assert forall|e2: EntityId| other.spec_scope_has(e2) implies self.spec_scope_has(e2) by {
            let w = choose|j: int|
                0 <= j < other.spawned@.len() && (#[trigger] other.spawned@[j]).entity == e2;
            assert(self.spawned@[w].entity == e2);
        }
        assert forall|e2: EntityId| self.spec_scope_has(e2) implies other.spec_scope_has(e2) by {
            let w = self.spec_index_of(e2);
            assert(other.spawned@[w].entity == e2);
        }
        assert forall|e2: EntityId| self.spec_scope_has(e2) implies other.spec_index_of(e2)
            == self.spec_index_of(e2) by {
            let j = self.spec_index_of(e2);
            assert(0 <= j < self.spawned@.len() && self.spawned@[j].entity == e2);
            let w = other.spec_index_of(e2);
            assert(0 <= w < other.spawned@.len() && other.spawned@[w].entity == e2);
            assert(self.spawned@[w].entity == e2);
            if w != j {
                assert(false);
            }
        }
    }

    /// A manager whose mirror holds the same entities satisfies the same
    /// parking discipline.
    proof fn lemma_pending_wf_same_entities(a: EntityManager, b: EntityManager)
        requires
            a.pending@ == b.pending@,
            forall|e: EntityId| a.spec_scope_has(e) == b.spec_scope_has(e),
            a.pending_wf(),
        ensures
            b.pending_wf(),
    {
        assert forall|q: int| 0 <= q < b.pending@.len() implies !deps_open_in(
            b.spawned@,
            (#[trigger] b.pending@[q]).deps@,
        ) by {
            let deps = b.pending@[q].deps@;
            assert(!deps_open_in(a.spawned@, deps));
            let d = choose|d: int|
                0 <= d < deps.len() && !spawned_has(a.spawned@, #[trigger] deps[d]);
            if spawned_has(b.spawned@, deps[d]) {
                assert(b.spec_scope_has(deps[d]));
                assert(a.spec_scope_has(deps[d]));
            }
        }
    }

    /// Tells the client about a component kind on a mirrored entity.
    pub fn insert_component(&mut self, e: EntityId, k: ComponentKind)
        requires
            old(self).wf(),
            old(self).spec_scope_has(e),
        ensures
            final(self).wf(),
            final(self).spec_has_component(e, k),
            forall|e2: EntityId|
                final(self).spec_scope_has(e2) == old(self).spec_scope_has(e2),
            forall|e2: EntityId, k2: ComponentKind|
                !(e2 == e && k2 == k) ==> final(self).spec_has_component(e2, k2) == old(self).spec_has_component(e2, k2),
            old(self).spec_has_component(e, k) ==> *final(self) == *old(self),
            !old(self).spec_has_component(e, k) ==> final(self).actions@ == old(self).actions@.push(EntityAction::Insert(e, k)),
            final(self).pending@ == old(self).pending@,
            old(self).pending_wf() ==> final(self).pending_wf(),
    {
        let idx = match self.find(e) {
            Some(i) => i,
            None => {
                proof {
                    assert(false);
                }
                0
            },
        };
        let had = contains_component_kind(&self.spawned[idx].components, k);
        if !had {
            let rec = &mut self.spawned[idx];
            insert_component_kind(&mut rec.components, k);
            self.actions.push(EntityAction::Insert(e, k));
            proof {
                old(self).lemma_update_frame(*final(self), idx as int);
                if old(self).pending_wf() {
                    EntityManager::lemma_pending_wf_same_entities(*old(self), *final(self));
                }
            }
        }
    }

    /// Tells the client that a component kind left a mirrored entity. An
    /// unknown entity or component is ignored.
    pub fn remove_component(&mut self, e: EntityId, k: ComponentKind)
        requires
            old(self).wf(),
        ensures
            final(self).wf(),
            !final(self).spec_has_component(e, k),
            forall|e2: EntityId|
                final(self).spec_scope_has(e2) == old(self).spec_scope_has(e2),
            forall|e2: EntityId, k2: ComponentKind|
                !(e2 == e && k2 == k) ==> final(self).spec_has_component(e2, k2) == old(self).spec_has_component(e2, k2),
            old(self).spec_has_component(e, k) ==> final(self).actions@ == old(self).actions@.push(EntityAction::Remove(e, k)),
            !old(self).spec_has_component(e, k) ==> final(self).actions@ == old(self).actions@,
            final(self).pending@ == old(self).pending@,
            old(self).pending_wf() ==> final(self).pending_wf(),
    {
        match self.find(e) {
            Some(idx) => {
                let had = contains_component_kind(&self.spawned[idx].components, k);
                if had {
                    let rec = &mut self.spawned[idx];
                    remove_component_kind(&mut rec.components, k);
                    self.actions.push(EntityAction::Remove(e, k));
                    proof {
                        old(self).lemma_update_frame(*final(self), idx as int);
                        if old(self).pending_wf() {
                            EntityManager::lemma_pending_wf_same_entities(*old(self), *final(self));
                        }
                    }
                }
            },
            None => {},
        }
    }

    /// Parks an entity-referencing message until all its dependencies are
    /// mirrored.
    pub fn queue_entity_message(&mut self, channel: ChannelId, payload: Vec<u8>, deps: Vec<EntityId>)
        ensures
            final(self).pending@ == old(self).pending@.push(
                PendingMessage { channel, payload, deps },
            ),
            final(self).spawned@ == old(self).spawned@,
            final(self).actions@ == old(self).actions@,
    {
        self.pending.push(PendingMessage { channel, payload, deps });
    }

    /// Takes up to `max` queued replication actions, oldest first.
    pub fn take_actions(&mut self, max: usize) -> (out: Vec<EntityAction>)
        ensures
            out@ == old(self).actions@.take(
                if max as int <= old(self).actions@.len() as int {
                    max as int
                } else {
                    old(self).actions@.len() as int
                },
            ),
            final(self).actions@ == old(self).actions@.skip(out@.len() as int),
            final(self).spawned@ == old(self).spawned@,
            final(self).pending@ == old(self).pending@,
    {
        let ghost orig = self.actions@;
        let mut out: Vec<EntityAction> = Vec::new();
        let mut i: usize = 0;
        while i < max && self.actions.len() > 0
            invariant
                i <= max,
                out@.len() == i,
                out@ + self.actions@ =~= orig,
                self.spawned@ == old(self).spawned@,
                self.pending@ == old(self).pending@,
            decreases orig.len() - i,
        {
            let a = self.actions.remove(0);
            out.push(a);
            i = i + 1;
        }
        proof {
            let cut = (if max as int <= orig.len() as int {
                max as int
            } else {
                orig.len() as int
            });
            assert(out@ =~= orig.take(out@.len() as int));
            assert(out@.len() == cut);
            assert(self.actions@ =~= orig.skip(out@.len() as int));
        }
        out
    }
}

} // verus!
