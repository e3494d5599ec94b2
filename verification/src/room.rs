use vstd::prelude::*;

verus! {

use crate::setvec::{
    contains_entity_id, contains_user_key, insert_entity_id, insert_user_key, remove_entity_id,
    remove_user_key,
};
use crate::types::{no_dup, EntityId, UserKey};

/// A room couples a set of users with a set of entities. Entities are only
/// ever replicated to a user that shares a room with them. When a member
/// leaves — or an entity is pulled out — every (user, entity) pair whose
/// shared membership just ended is queued so that the scope pass can revisit
/// its visibility.
pub struct Room {
    pub users: Vec<UserKey>,
    pub entities: Vec<EntityId>,
    pub removal_queue: Vec<(UserKey, EntityId)>,
}

impl Room {
    pub open spec fn wf(self) -> bool {
        no_dup(self.users@) && no_dup(self.entities@)
    }

    pub open spec fn spec_has_user(self, uk: UserKey) -> bool {
        self.users@.contains(uk)
    }

    pub open spec fn spec_has_entity(self, e: EntityId) -> bool {
        self.entities@.contains(e)
    }

    pub fn new() -> (r: Room)
        ensures
            r.wf(),
            r.users@.len() == 0,
            r.entities@.len() == 0,
            r.removal_queue@.len() == 0,
    {
        Room { users: Vec::new(), entities: Vec::new(), removal_queue: Vec::new() }
    }

    pub fn has_user(&self, uk: UserKey) -> (r: bool)
        ensures
            r == self.spec_has_user(uk),
    {
        contains_user_key(&self.users, uk)
    }

    pub fn has_entity(&self, e: EntityId) -> (r: bool)
        ensures
            r == self.spec_has_entity(e),
    {
        contains_entity_id(&self.entities, e)
    }

    pub fn users_count(&self) -> (n: usize)
        ensures
            n == self.users@.len(),
    {
        self.users.len()
    }

    pub fn entities_count(&self) -> (n: usize)
        ensures
            n == self.entities@.len(),
    {
        self.entities.len()
    }

    pub fn subscribe_user(&mut self, uk: UserKey)
        requires
            old(self).wf(),
        ensures
            final(self).wf(),
            final(self).spec_has_user(uk),
            forall|u2: UserKey|
                u2 != uk ==> final(self).spec_has_user(u2) == old(self).spec_has_user(u2),
            final(self).entities@ == old(self).entities@,
            final(self).removal_queue@ == old(self).removal_queue@,
    {
        insert_user_key(&mut self.users, uk);
    }

    /// Removes the user and queues every (user, entity) pair of this room
    /// for a visibility revisit.
    pub fn unsubscribe_user(&mut self, uk: UserKey)
        requires
            old(self).wf(),
        ensures
            final(self).wf(),
            !final(self).spec_has_user(uk),
            forall|u2: UserKey|
                u2 != uk ==> final(self).spec_has_user(u2) == old(self).spec_has_user(u2),
            final(self).entities@ == old(self).entities@,
            final(self).removal_queue@ == old(self).removal_queue@ + old(self).entities@.map(
                |i: int, e: EntityId| (uk, e),
            ),
    {
        remove_user_key(&mut self.users, uk);
        let ghost q0 = self.removal_queue@;
        let n: usize = self.entities.len();
        let mut i: usize = 0;
        while i < n
            invariant
                n == self.entities@.len(),
                i <= n,
                self.entities@ == old(self).entities@,
                !self.users@.contains(uk),
                forall|u2: UserKey|
                    u2 != uk ==> self.users@.contains(u2) == old(self).users@.contains(u2),
                no_dup(self.users@),
                no_dup(self.entities@),
                self.removal_queue@ =~= q0 + self.entities@.take(i as int).map(
                    |j: int, e: EntityId| (uk, e),
                ),
            decreases n - i,
        {
            let e = self.entities[i];
            self.removal_queue.push((uk, e));
            i = i + 1;
            proof {
                assert(self.entities@.take(i as int).map(|j: int, e2: EntityId| (uk, e2))
                    =~= self.entities@.take(i as int - 1).map(|j: int, e2: EntityId| (uk, e2)).push(
                    (uk, e),
                ));
            }
        }
        proof {
            assert(self.entities@.take(n as int) =~= self.entities@);
        }
    }

    pub fn add_entity(&mut self, e: EntityId)
        requires
            old(self).wf(),
        ensures
            final(self).wf(),
            final(self).spec_has_entity(e),
            forall|e2: EntityId|
                e2 != e ==> final(self).spec_has_entity(e2) == old(self).spec_has_entity(e2),
            final(self).users@ == old(self).users@,
            final(self).removal_queue@ == old(self).removal_queue@,
    {
        insert_entity_id(&mut self.entities, e);
    }

    /// Removes the entity and queues every (user, entity) pair of this room
    /// for a visibility revisit.
    pub fn remove_entity(&mut self, e: EntityId)
        requires
            old(self).wf(),
        ensures
            final(self).wf(),
            !final(self).spec_has_entity(e),
            forall|e2: EntityId|
                e2 != e ==> final(self).spec_has_entity(e2) == old(self).spec_has_entity(e2),
            final(self).users@ == old(self).users@,
            final(self).removal_queue@ == old(self).removal_queue@ + old(self).users@.map(
                |i: int, u: UserKey| (u, e),
            ),
    {
        remove_entity_id(&mut self.entities, e);
        let ghost q0 = self.removal_queue@;
        let n: usize = self.users.len();
        let mut i: usize = 0;
        while i < n
            invariant
                n == self.users@.len(),
                i <= n,
                self.users@ == old(self).users@,
                !self.entities@.contains(e),
                forall|e2: EntityId|
                    e2 != e ==> self.entities@.contains(e2) == old(self).entities@.contains(e2),
                no_dup(self.users@),
                no_dup(self.entities@),
                self.removal_queue@ =~= q0 + self.users@.take(i as int).map(
                    |j: int, u: UserKey| (u, e),
                ),
            decreases n - i,
        {
            let u = self.users[i];
            self.removal_queue.push((u, e));
            i = i + 1;
            proof {
                assert(self.users@.take(i as int).map(|j: int, u2: UserKey| (u2, e))
                    =~= self.users@.take(i as int - 1).map(|j: int, u2: UserKey| (u2, e)).push(
                    (u, e),
                ));
            }
        }
        proof {
            assert(self.users@.take(n as int) =~= self.users@);
        }
    }

    /// Takes the oldest queued (user, entity) pair, if any.
    pub fn pop_entity_removal_queue(&mut self) -> (r: Option<(UserKey, EntityId)>)
        requires
            old(self).wf(),
        ensures
            final(self).wf(),
            final(self).users@ == old(self).users@,
            final(self).entities@ == old(self).entities@,
            match r {
                Some(p) => old(self).removal_queue@.len() > 0 && p == old(self).removal_queue@[0]
                    && final(self).removal_queue@ == old(self).removal_queue@.remove(0),
                None => old(self).removal_queue@.len() == 0 && final(self).removal_queue@ == old(
                    self,
                ).removal_queue@,
            },
    {
        if self.removal_queue.len() > 0 {
            Some(self.removal_queue.remove(0))
        } else {
            None
        }
    }
}

} // verus!
