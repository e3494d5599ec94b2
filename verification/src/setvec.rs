use vstd::prelude::*;

verus! {

use crate::types::{no_dup, EntityId, RoomKey, UserKey};

/// Removing the sole occurrence of `x` from a duplicate-free sequence keeps
/// every other element and keeps the sequence duplicate-free.
pub proof fn lemma_remove_preserves<T>(s: Seq<T>, j: int, x: T)
    requires
        0 <= j < s.len(),
        s[j] == x,
        no_dup(s),
    ensures
        no_dup(s.remove(j)),
        !s.remove(j).contains(x),
        forall|y: T| y != x ==> s.remove(j).contains(y) == s.contains(y),
{
    let t = s.remove(j);
    assert forall|y: T| y != x && s.contains(y) implies t.contains(y) by {
        let i = choose|i: int| 0 <= i < s.len() && s[i] == y;
        if i < j {
            assert(t[i] == y);
        } else {
            assert(t[i - 1] == y);
        }
    }
    assert forall|y: T| t.contains(y) implies s.contains(y) by {
        let i = choose|i: int| 0 <= i < t.len() && t[i] == y;
        if i < j {
            assert(s[i] == y);
        } else {
            assert(s[i + 1] == y);
        }
    }
    assert(!t.contains(x)) by {
        if t.contains(x) {
            let i = choose|i: int| 0 <= i < t.len() && t[i] == x;
            if i < j {
                assert(s[i] == x && s[j] == x);
            } else {
                assert(s[i + 1] == x && s[j] == x);
            }
        }
    }
    assert forall|a: int, b: int| 0 <= a < b < t.len() implies t[a] != t[b] by {
        let sa: int = if a < j {
            a
        } else {
            a + 1
        };
        let sb: int = if b < j {
            b
        } else {
            b + 1
        };
        assert(t[a] == s[sa] && t[b] == s[sb] && sa < sb);
    }
}

pub fn contains_user_key(v: &Vec<UserKey>, x: UserKey) -> (r: bool)
    ensures
        r == v@.contains(x),
{
    let n: usize = v.len();
    let mut i: usize = 0;
    while i < n
        invariant
            n == v@.len(),
            i <= n,
            forall|j: int| 0 <= j < i ==> v@[j] != x,
        decreases n - i,
    {
        if v[i] == x {
            return true;
        }
        i = i + 1;
    }
    false
}

/// Appends `x` unless it is already present.
pub fn insert_user_key(v: &mut Vec<UserKey>, x: UserKey)
    requires
        no_dup(old(v)@),
    ensures
        no_dup(final(v)@),
        final(v)@.contains(x),
        forall|y: UserKey| y != x ==> final(v)@.contains(y) == old(v)@.contains(y),
        old(v)@.contains(x) ==> final(v)@ == old(v)@,
        !old(v)@.contains(x) ==> final(v)@ == old(v)@.push(x),
{
    if !contains_user_key(v, x) {
        v.push(x);
        proof {
            assert(final(v)@[old(v)@.len() as int] == x);
            assert forall|y: UserKey| y != x && old(v)@.contains(y) implies final(v)@.contains(
                y,
            ) by {
                let i = choose|i: int| 0 <= i < old(v)@.len() && old(v)@[i] == y;
                assert(final(v)@[i] == y);
            }
        }
    }
}

/// Removes the occurrence of `x`, if any.
pub fn remove_user_key(v: &mut Vec<UserKey>, x: UserKey)
    requires
        no_dup(old(v)@),
    ensures
        no_dup(final(v)@),
        !final(v)@.contains(x),
        forall|y: UserKey| y != x ==> final(v)@.contains(y) == old(v)@.contains(y),
        !old(v)@.contains(x) ==> final(v)@ == old(v)@,
        old(v)@.contains(x) ==> final(v)@.len() == old(v)@.len() - 1,
{
    let n: usize = v.len();
    let mut i: usize = 0;
    while i < n
        invariant
            n == v@.len(),
            i <= n,
            v@ == old(v)@,
            no_dup(v@),
            forall|j: int| 0 <= j < i ==> v@[j] != x,
        decreases n - i,
    {
        if v[i] == x {
            proof {
                lemma_remove_preserves(v@, i as int, x);
            }
            v.remove(i);
            return;
        }
        i = i + 1;
    }
}

pub fn contains_room_key(v: &Vec<RoomKey>, x: RoomKey) -> (r: bool)
    ensures
        r == v@.contains(x),
{
    let n: usize = v.len();
    let mut i: usize = 0;
    while i < n
        invariant
            n == v@.len(),
            i <= n,
            forall|j: int| 0 <= j < i ==> v@[j] != x,
        decreases n - i,
    {
        if v[i] == x {
            return true;
        }
        i = i + 1;
    }
    false
}

pub fn insert_room_key(v: &mut Vec<RoomKey>, x: RoomKey)
    requires
        no_dup(old(v)@),
    ensures
        no_dup(final(v)@),
        final(v)@.contains(x),
        forall|y: RoomKey| y != x ==> final(v)@.contains(y) == old(v)@.contains(y),
        old(v)@.contains(x) ==> final(v)@ == old(v)@,
        !old(v)@.contains(x) ==> final(v)@ == old(v)@.push(x),
{
    if !contains_room_key(v, x) {
        v.push(x);
        proof {
            assert(final(v)@[old(v)@.len() as int] == x);
            assert forall|y: RoomKey| y != x && old(v)@.contains(y) implies final(v)@.contains(
                y,
            ) by {
                let i = choose|i: int| 0 <= i < old(v)@.len() && old(v)@[i] == y;
                assert(final(v)@[i] == y);
            }
        }
    }
}

pub fn remove_room_key(v: &mut Vec<RoomKey>, x: RoomKey)
    requires
        no_dup(old(v)@),
    ensures
        no_dup(final(v)@),
        !final(v)@.contains(x),
        forall|y: RoomKey| y != x ==> final(v)@.contains(y) == old(v)@.contains(y),
        !old(v)@.contains(x) ==> final(v)@ == old(v)@,
        old(v)@.contains(x) ==> final(v)@.len() == old(v)@.len() - 1,
{
    let n: usize = v.len();
    let mut i: usize = 0;
    while i < n
        invariant
            n == v@.len(),
            i <= n,
            v@ == old(v)@,
            no_dup(v@),
            forall|j: int| 0 <= j < i ==> v@[j] != x,
        decreases n - i,
    {
        if v[i] == x {
            proof {
                lemma_remove_preserves(v@, i as int, x);
            }
            v.remove(i);
            return;
        }
        i = i + 1;
    }
}

pub fn contains_entity_id(v: &Vec<EntityId>, x: EntityId) -> (r: bool)
    ensures
        r == v@.contains(x),
{
    let n: usize = v.len();
    let mut i: usize = 0;
    while i < n
        invariant
            n == v@.len(),
            i <= n,
            forall|j: int| 0 <= j < i ==> v@[j] != x,
        decreases n - i,
    {
        if v[i] == x {
            return true;
        }
        i = i + 1;
    }
    false
}

pub fn insert_entity_id(v: &mut Vec<EntityId>, x: EntityId)
    requires
        no_dup(old(v)@),
    ensures
        no_dup(final(v)@),
        final(v)@.contains(x),
        forall|y: EntityId| y != x ==> final(v)@.contains(y) == old(v)@.contains(y),
        old(v)@.contains(x) ==> final(v)@ == old(v)@,
        !old(v)@.contains(x) ==> final(v)@ == old(v)@.push(x),
{
    if !contains_entity_id(v, x) {
        v.push(x);
        proof {
            assert(final(v)@[old(v)@.len() as int] == x);
            assert forall|y: EntityId| y != x && old(v)@.contains(y) implies final(v)@.contains(
                y,
            ) by {
                let i = choose|i: int| 0 <= i < old(v)@.len() && old(v)@[i] == y;
                assert(final(v)@[i] == y);
            }
        }
    }
}

pub fn remove_entity_id(v: &mut Vec<EntityId>, x: EntityId)
    requires
        no_dup(old(v)@),
    ensures
        no_dup(final(v)@),
        !final(v)@.contains(x),
        forall|y: EntityId| y != x ==> final(v)@.contains(y) == old(v)@.contains(y),
        !old(v)@.contains(x) ==> final(v)@ == old(v)@,
        old(v)@.contains(x) ==> final(v)@.len() == old(v)@.len() - 1,
{
    let n: usize = v.len();
    let mut i: usize = 0;
    while i < n
        invariant
            n == v@.len(),
            i <= n,
            v@ == old(v)@,
            no_dup(v@),
            forall|j: int| 0 <= j < i ==> v@[j] != x,
        decreases n - i,
    {
        if v[i] == x {
            proof {
                lemma_remove_preserves(v@, i as int, x);
            }
            v.remove(i);
            return;
        }
        i = i + 1;
    }
}

pub fn contains_seq16(v: &Vec<u16>, x: u16) -> (r: bool)
    ensures
        r == v@.contains(x),
{
    let n: usize = v.len();
    let mut i: usize = 0;
    while i < n
        invariant
            n == v@.len(),
            i <= n,
            forall|j: int| 0 <= j < i ==> v@[j] != x,
        decreases n - i,
    {
        if v[i] == x {
            return true;
        }
        i = i + 1;
    }
    false
}

pub fn contains_component_kind(v: &Vec<u16>, x: u16) -> (r: bool)
    ensures
        r == v@.contains(x),
{
    let n: usize = v.len();
    let mut i: usize = 0;
    while i < n
        invariant
            n == v@.len(),
            i <= n,
            forall|j: int| 0 <= j < i ==> v@[j] != x,
        decreases n - i,
    {
        if v[i] == x {
            return true;
        }
        i = i + 1;
    }
    false
}

pub fn insert_component_kind(v: &mut Vec<u16>, x: u16)
    requires
        no_dup(old(v)@),
    ensures
        no_dup(final(v)@),
        final(v)@.contains(x),
        forall|y: u16| y != x ==> final(v)@.contains(y) == old(v)@.contains(y),
        old(v)@.contains(x) ==> final(v)@ == old(v)@,
        !old(v)@.contains(x) ==> final(v)@ == old(v)@.push(x),
{
    if !contains_component_kind(v, x) {
        v.push(x);
        proof {
            assert(final(v)@[old(v)@.len() as int] == x);
            assert forall|y: u16| y != x && old(v)@.contains(y) implies final(v)@.contains(y) by {
                let i = choose|i: int| 0 <= i < old(v)@.len() && old(v)@[i] == y;
                assert(final(v)@[i] == y);
            }
        }
    }
}

pub fn remove_component_kind(v: &mut Vec<u16>, x: u16)
    requires
        no_dup(old(v)@),
    ensures
        no_dup(final(v)@),
        !final(v)@.contains(x),
        forall|y: u16| y != x ==> final(v)@.contains(y) == old(v)@.contains(y),
        !old(v)@.contains(x) ==> final(v)@ == old(v)@,
        old(v)@.contains(x) ==> final(v)@.len() == old(v)@.len() - 1,
{
    let n: usize = v.len();
    let mut i: usize = 0;
    while i < n
        invariant
            n == v@.len(),
            i <= n,
            v@ == old(v)@,
            no_dup(v@),
            forall|j: int| 0 <= j < i ==> v@[j] != x,
        decreases n - i,
    {
        if v[i] == x {
            proof {
                lemma_remove_preserves(v@, i as int, x);
            }
            v.remove(i);
            return;
        }
        i = i + 1;
    }
}

} // verus!
