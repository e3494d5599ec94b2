use vstd::prelude::*;

verus! {

/// Handle to an entity owned by the external world. The server only ever
/// stores and compares these handles; it never inspects the entity itself.
pub type EntityId = u64;

/// 16-bit wrapping tick counter.
pub type Tick = u16;

/// Index into the channel catalog.
pub type ChannelId = u16;

/// Identifier of a component kind in the component catalog.
pub type ComponentKind = u16;

/// A peer address: an IP (v4 addresses are mapped into the v6 space) and a
/// port, held as plain integers.
#[derive(Clone, Copy, PartialEq, Eq, Structural, Debug, Hash)]
pub struct Address {
    pub ip: u128,
    pub port: u16,
}

/// Generational handle to a live user.
#[derive(Clone, Copy, PartialEq, Eq, Structural, Debug, Hash)]
pub struct UserKey {
    pub index: usize,
    pub generation: u64,
}

/// Generational handle to a live room.
#[derive(Clone, Copy, PartialEq, Eq, Structural, Debug, Hash)]
pub struct RoomKey {
    pub index: usize,
    pub generation: u64,
}

/// True when the sequence `s` holds no element twice.
pub open spec fn no_dup<T>(s: Seq<T>) -> bool {
    forall|i: int, j: int| 0 <= i < j < s.len() ==> s[i] != s[j]
}

} // verus!
