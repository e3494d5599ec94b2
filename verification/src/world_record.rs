use vstd::prelude::*;

verus! {

use crate::setvec::{
    contains_component_kind, contains_room_key, insert_component_kind, insert_room_key,
    remove_component_kind,
};
use crate::types::{no_dup, ComponentKind, EntityId, RoomKey};

/// What the server mirrors about one live entity: which component kinds it
/// carries and which rooms it stands in.
pub struct EntityRecord {
    pub entity: EntityId,
    pub components: Vec<ComponentKind>,
    pub rooms: Vec<RoomKey>,
}

/// Authoritative mirror of entity existence, per-entity component kinds and
/// room membership, updated synchronously with world mutations.
pub struct WorldRecord {
    pub records: Vec<EntityRecord>,
}

pub open spec fn unique_entities(s: Seq<EntityRecord>) -> bool {
    forall|i: int, j: int| 0 <= i < j < s.len() ==> s[i].entity != s[j].entity
}

impl WorldRecord {
    pub open spec fn wf(self) -> bool {
        &&& unique_entities(self.records@)
        &&& forall|j: int|
            0 <= j < self.records@.len() ==> no_dup((#[trigger] self.records@[j]).components@)
                && no_dup(self.records@[j].rooms@)
    }

    pub open spec fn spec_has_entity(self, e: EntityId) -> bool {
        exists|j: int| 0 <= j < self.records@.len() && (#[trigger] self.records@[j]).entity == e
    }

    pub open spec fn spec_index_of(self, e: EntityId) -> int {
        choose|j: int| 0 <= j < self.records@.len() && (#[trigger] self.records@[j]).entity == e
    }

    pub open spec fn spec_components(self, e: EntityId) -> Seq<ComponentKind> {
        self.records@[self.spec_index_of(e)].components@
    }

    pub open spec fn spec_has_component(self, e: EntityId, k: ComponentKind) -> bool {
        self.spec_has_entity(e) && self.spec_components(e).contains(k)
    }

    pub open spec fn spec_in_room(self, e: EntityId, rk: RoomKey) -> bool {
        self.spec_has_entity(e) && self.records@[self.spec_index_of(e)].rooms@.contains(rk)
    }

    pub fn new() -> (w: WorldRecord)
        ensures
            w.wf(),
            forall|e: EntityId| !w.spec_has_entity(e),
    {
        WorldRecord { records: Vec::new() }
    }

    fn find(&self, e: EntityId) -> (r: Option<usize>)
        requires
            self.wf(),
        ensures
            match r {
                Some(i) => i < self.records@.len() && self.records@[i as int].entity == e
                    && self.spec_has_entity(e) && self.spec_index_of(e) == i as int,
                None => !self.spec_has_entity(e),
            },
    {
        let n: usize = self.records.len();
        let mut i: usize = 0;
        while i < n
            invariant
                n == self.records@.len(),
                i <= n,
                unique_entities(self.records@),
                forall|j: int| 0 <= j < i ==> (#[trigger] self.records@[j]).entity != e,
            decreases n - i,
        {
            if self.records[i].entity == e {
                proof {
                    let w = self.spec_index_of(e);
                    assert(0 <= w < self.records@.len() && self.records@[w].entity == e);
                    assert(w == i as int);
                }
                return Some(i);
            }
            i = i + 1;
        }
        None
    }

    pub fn has_entity(&self, e: EntityId) -> (r: bool)
        requires
            self.wf(),
        ensures
            r == self.spec_has_entity(e),
    {
        self.find(e).is_some()
    }

    /// Registers a freshly spawned entity, with no components and no rooms.
    pub fn spawn_entity(&mut self, e: EntityId)
        requires
            old(self).wf(),
            !old(self).spec_has_entity(e),
        ensures
            final(self).wf(),
            final(self).spec_has_entity(e),
            final(self).spec_components(e) == Seq::<ComponentKind>::empty(),
            forall|rk: RoomKey| !final(self).spec_in_room(e, rk),
            forall|e2: EntityId|
                e2 != e ==> final(self).spec_has_entity(e2) == old(self).spec_has_entity(e2),
            forall|e2: EntityId, k: ComponentKind|
                e2 != e ==> final(self).spec_has_component(e2, k) == old(self).spec_has_component(
                    e2,
                    k,
                ),
            forall|e2: EntityId, rk: RoomKey|
                e2 != e ==> final(self).spec_in_room(e2, rk) == old(self).spec_in_room(e2, rk),
            forall|e2: EntityId|
                e2 != e && old(self).spec_has_entity(e2) ==> final(self).spec_components(e2) == old(self).spec_components(e2),
    {
        let ghost s0 = self.records@;
        self.records.push(EntityRecord { entity: e, components: Vec::new(), rooms: Vec::new() });
        proof {
            let s1 = self.records@;
            let n = s0.len() as int;
            assert(s1[n].entity == e);
            assert(self.spec_has_entity(e));
            assert(self.spec_index_of(e) == n);
            assert forall|e2: EntityId| e2 != e && old(self).spec_has_entity(e2) implies final(self).spec_has_entity(e2) && final(self).spec_index_of(e2) == old(self).spec_index_of(
                e2,
            ) by {
                let j = old(self).spec_index_of(e2);
                assert(s1[j].entity == e2);
                let w = final(self).spec_index_of(e2);
                assert(0 <= w < s1.len() && s1[w].entity == e2);
                assert(w != n);
                assert(s0[w].entity == e2);
                assert(w == j);
            }
            assert forall|e2: EntityId| e2 != e && final(self).spec_has_entity(e2) implies old(self).spec_has_entity(e2) by {
                let w = final(self).spec_index_of(e2);
                assert(0 <= w < s1.len() && s1[w].entity == e2);
                assert(w != n);
                assert(s0[w].entity == e2);
            }
        }
    }

    /// Unregisters a despawned entity.
    pub fn despawn_entity(&mut self, e: EntityId)
        requires
            old(self).wf(),
        ensures
            final(self).wf(),
            !final(self).spec_has_entity(e),
            forall|e2: EntityId|
                e2 != e ==> final(self).spec_has_entity(e2) == old(self).spec_has_entity(e2),
            forall|e2: EntityId, k: ComponentKind|
                e2 != e ==> final(self).spec_has_component(e2, k) == old(self).spec_has_component(
                    e2,
                    k,
                ),
            forall|e2: EntityId, rk: RoomKey|
                e2 != e ==> final(self).spec_in_room(e2, rk) == old(self).spec_in_room(e2, rk),
            forall|e2: EntityId|
                e2 != e && old(self).spec_has_entity(e2) ==> final(self).spec_components(e2) == old(self).spec_components(e2),
    {
        match self.find(e) {
            Some(i) => {
                let ghost s0 = self.records@;
                self.records.remove(i);
                proof {
                    let s1 = self.records@;
                    assert forall|a: int, c: int| 0 <= a < c < s1.len() implies s1[a].entity
                        != s1[c].entity by {
                        let sa: int = if a < i as int {
                            a
                        } else {
                            a + 1
                        };
                        let sc: int = if c < i as int {
                            c
                        } else {
                            c + 1
                        };
                        assert(s1[a] == s0[sa] && s1[c] == s0[sc] && sa < sc);
                    }
                    assert forall|j: int| 0 <= j < s1.len() implies no_dup(
                        (#[trigger] s1[j]).components@,
                    ) && no_dup(s1[j].rooms@) by {
                        let sj: int = if j < i as int {
                            j
                        } else {
                            j + 1
                        };
                        assert(s1[j] == s0[sj]);
                    }
                    if final(self).spec_has_entity(e) {
                        let w = final(self).spec_index_of(e);
                        let sw: int = if w < i as int {
                            w
                        } else {
                            w + 1
                        };
                        assert(s1[w] == s0[sw] && s0[sw].entity == e && sw != i as int);
                        assert(s0[i as int].entity == e);
                        assert(false);
                    }
                    assert forall|e2: EntityId| e2 != e && old(self).spec_has_entity(e2) implies
                        final(self).spec_has_entity(e2) && final(self).spec_components(e2) == old(self).spec_components(e2) && final(self).records@[final(self).spec_index_of(e2)]
                        == old(self).records@[old(self).spec_index_of(e2)] by {
                        let j = old(self).spec_index_of(e2);
                        assert(0 <= j < s0.len() && s0[j].entity == e2);
                        assert(j != i as int);
                        let tj: int = if j < i as int {
                            j
                        } else {
                            j - 1
                        };
                        assert(s1[tj] == s0[j]);
                        assert(final(self).spec_has_entity(e2));
                        let w = final(self).spec_index_of(e2);
                        let sw: int = if w < i as int {
                            w
                        } else {
                            w + 1
                        };
                        assert(s1[w] == s0[sw] && s0[sw].entity == e2);
                        assert(sw == j);
                    }
                    assert forall|e2: EntityId| e2 != e && final(self).spec_has_entity(e2) implies
                        old(self).spec_has_entity(e2) by {
                        let w = final(self).spec_index_of(e2);
                        let sw: int = if w < i as int {
                            w
                        } else {
                            w + 1
                        };
                        assert(s1[w] == s0[sw] && s0[sw].entity == e2);
                    }
                }
            },
            None => {},
        }
    }

    /// The component kinds currently recorded for the entity.
    pub fn component_kinds(&self, e: EntityId) -> (r: Option<Vec<ComponentKind>>)
        requires
            self.wf(),
        ensures
            match r {
                Some(ks) => self.spec_has_entity(e) && ks@ == self.spec_components(e),
                None => !self.spec_has_entity(e),
            },
    {
        match self.find(e) {
            Some(i) => {
                let src = &self.records[i].components;
                let n: usize = src.len();
                let mut out: Vec<ComponentKind> = Vec::new();
                let mut j: usize = 0;
                while j < n
                    invariant
                        n == src@.len(),
                        j <= n,
                        out@ =~= src@.take(j as int),
                    decreases n - j,
                {
                    out.push(src[j]);
                    j = j + 1;
                }
                proof {
                    assert(src@.take(n as int) =~= src@);
                }
                Some(out)
            },
            None => None,
        }
    }

    /// After an in-place change of the record at `i` that keeps its entity,
    /// every entity keeps its record position.
    proof fn lemma_update_frame(self, other: WorldRecord, i: int)
        requires
            self.wf(),
            0 <= i < self.records@.len(),
            other.records@.len() == self.records@.len(),
            forall|j: int|
                0 <= j < self.records@.len() ==> (#[trigger] other.records@[j]).entity
                    == self.records@[j].entity,
            forall|j: int| 0 <= j < self.records@.len() && j != i ==> other.records@[j] == self.records@[j],
        ensures
            unique_entities(other.records@),
            forall|e2: EntityId|
                other.spec_has_entity(e2) == self.spec_has_entity(e2),
            forall|e2: EntityId|
                self.spec_has_entity(e2) ==> other.spec_index_of(e2) == self.spec_index_of(e2),
    {
        assert forall|e2: EntityId| other.spec_has_entity(e2) implies self.spec_has_entity(
            e2,
        ) by {
            let w = choose|j: int|
                0 <= j < other.records@.len() && (#[trigger] other.records@[j]).entity == e2;
            assert(self.records@[w].entity == e2);
        }
        assert forall|e2: EntityId| self.spec_has_entity(e2) implies other.spec_has_entity(
            e2,
        ) by {
            let w = self.spec_index_of(e2);
            assert(other.records@[w].entity == e2);
        }
        assert forall|e2: EntityId| self.spec_has_entity(e2) implies other.spec_index_of(e2)
            == self.spec_index_of(e2) by {
            let j = self.spec_index_of(e2);
            assert(0 <= j < self.records@.len() && self.records@[j].entity == e2);
            let w = other.spec_index_of(e2);
            assert(0 <= w < other.records@.len() && other.records@[w].entity == e2);
            assert(self.records@[w].entity == e2);
            if w != j {
                assert(false);
            }
        }
    }

    /// Records a component kind on a live entity.
    pub fn add_component(&mut self, e: EntityId, k: ComponentKind)
        requires
            old(self).wf(),
            old(self).spec_has_entity(e),
        ensures
            final(self).wf(),
            final(self).spec_has_component(e, k),
            forall|e2: EntityId|
                final(self).spec_has_entity(e2) == old(self).spec_has_entity(e2),
            forall|e2: EntityId, k2: ComponentKind|
                !(e2 == e && k2 == k) ==> final(self).spec_has_component(e2, k2) == old(self).spec_has_component(e2, k2),
            forall|e2: EntityId, rk: RoomKey|
                final(self).spec_in_room(e2, rk) == old(self).spec_in_room(e2, rk),
    {
        let i = match self.find(e) {
            Some(i) => i,
            None => {
                proof {
                    assert(false);
                }
                0
            },
        };
        let rec = &mut self.records[i];
        insert_component_kind(&mut rec.components, k);
        proof {
            old(self).lemma_update_frame(*final(self), i as int);
        }
    }

    /// Forgets a component kind on a live entity; a dead entity is left as
    /// it stands.
    pub fn remove_component(&mut self, e: EntityId, k: ComponentKind)
        requires
            old(self).wf(),
        ensures
            final(self).wf(),
            !final(self).spec_has_component(e, k),
            forall|e2: EntityId|
                final(self).spec_has_entity(e2) == old(self).spec_has_entity(e2),
            forall|e2: EntityId, k2: ComponentKind|
                !(e2 == e && k2 == k) ==> final(self).spec_has_component(e2, k2) == old(self).spec_has_component(e2, k2),
            forall|e2: EntityId, rk: RoomKey|
                final(self).spec_in_room(e2, rk) == old(self).spec_in_room(e2, rk),
    {
        match self.find(e) {
            Some(i) => {
                let rec = &mut self.records[i];
                remove_component_kind(&mut rec.components, k);
                proof {
                    old(self).lemma_update_frame(*final(self), i as int);
                }
            },
            None => {},
        }
    }

    /// Notes that a live entity entered a room.
    pub fn entity_enter_room(&mut self, e: EntityId, rk: RoomKey)
        requires
            old(self).wf(),
        ensures
            final(self).wf(),
            old(self).spec_has_entity(e) ==> final(self).spec_in_room(e, rk),
            !old(self).spec_has_entity(e) ==> *final(self) == *old(self),
            forall|e2: EntityId|
                final(self).spec_has_entity(e2) == old(self).spec_has_entity(e2),
            forall|e2: EntityId, k: ComponentKind|
                final(self).spec_has_component(e2, k) == old(self).spec_has_component(e2, k),
            forall|e2: EntityId, rk2: RoomKey|
                !(e2 == e && rk2 == rk) ==> final(self).spec_in_room(e2, rk2) == old(self).spec_in_room(e2, rk2),
    {
        match self.find(e) {
            Some(i) => {
                let rec = &mut self.records[i];
                insert_room_key(&mut rec.rooms, rk);
                proof {
                    old(self).lemma_update_frame(*final(self), i as int);
                }
            },
            None => {},
        }
    }

    /// Notes that an entity left one room; its other room memberships are
    /// untouched.
    pub fn entity_leave_room(&mut self, e: EntityId, rk: RoomKey)
        requires
            old(self).wf(),
        ensures
            final(self).wf(),
            !final(self).spec_in_room(e, rk),
            forall|e2: EntityId|
                final(self).spec_has_entity(e2) == old(self).spec_has_entity(e2),
            forall|e2: EntityId, k: ComponentKind|
                final(self).spec_has_component(e2, k) == old(self).spec_has_component(e2, k),
            forall|e2: EntityId, rk2: RoomKey|
                !(e2 == e && rk2 == rk) ==> final(self).spec_in_room(e2, rk2) == old(self).spec_in_room(e2, rk2),
    {
        match self.find(e) {
            Some(i) => {
                let rec = &mut self.records[i];
                crate::setvec::remove_room_key(&mut rec.rooms, rk);
                proof {
                    old(self).lemma_update_frame(*final(self), i as int);
                }
            },
            None => {},
        }
    }

    pub fn has_component(&self, e: EntityId, k: ComponentKind) -> (r: bool)
        requires
            self.wf(),
        ensures
            r == self.spec_has_component(e, k),
    {
        match self.find(e) {
            Some(i) => contains_component_kind(&self.records[i].components, k),
            None => false,
        }
    }

    pub fn entity_is_in_room(&self, e: EntityId, rk: RoomKey) -> (r: bool)
        requires
            self.wf(),
        ensures
            r == self.spec_in_room(e, rk),
    {
        match self.find(e) {
            Some(i) => contains_room_key(&self.records[i].rooms, rk),
            None => false,
        }
    }
}

} // verus!
