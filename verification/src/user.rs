use vstd::prelude::*;

verus! {

use crate::setvec::{contains_room_key, insert_room_key, remove_room_key};
use crate::types::{no_dup, Address, RoomKey};

/// A connected (or connecting) client: its peer address and the rooms it
/// belongs to, cached as an inverse of the rooms' member sets.
#[derive(PartialEq, Eq, Debug)]
pub struct User {
    pub address: Address,
    pub room_keys: Vec<RoomKey>,
}

impl User {
    pub open spec fn wf(self) -> bool {
        no_dup(self.room_keys@)
    }

    pub open spec fn spec_in_room(self, rk: RoomKey) -> bool {
        self.room_keys@.contains(rk)
    }

    pub fn new(address: Address) -> (u: User)
        ensures
            u.wf(),
            u.address == address,
            u.room_keys@.len() == 0,
    {
        User { address, room_keys: Vec::new() }
    }

    pub fn in_room(&self, rk: RoomKey) -> (r: bool)
        ensures
            r == self.spec_in_room(rk),
    {
        contains_room_key(&self.room_keys, rk)
    }

    pub fn cache_room(&mut self, rk: RoomKey)
        requires
            old(self).wf(),
        ensures
            final(self).wf(),
            final(self).address == old(self).address,
            final(self).spec_in_room(rk),
            forall|r2: RoomKey|
                r2 != rk ==> final(self).spec_in_room(r2) == old(self).spec_in_room(r2),
    {
        insert_room_key(&mut self.room_keys, rk);
    }

    pub fn uncache_room(&mut self, rk: RoomKey)
        requires
            old(self).wf(),
        ensures
            final(self).wf(),
            final(self).address == old(self).address,
            !final(self).spec_in_room(rk),
            forall|r2: RoomKey|
                r2 != rk ==> final(self).spec_in_room(r2) == old(self).spec_in_room(r2),
    {
        remove_room_key(&mut self.room_keys, rk);
    }

    pub fn room_count(&self) -> (n: usize)
        ensures
            n == self.room_keys@.len(),
    {
        self.room_keys.len()
    }
}

} // verus!
