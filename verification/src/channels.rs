use vstd::prelude::*;

verus! {

use crate::types::ChannelId;

/// Who may send on a channel.
#[derive(Clone, Copy, PartialEq, Eq, Structural, Debug)]
pub enum ChannelDirection {
    ClientToServer,
    ServerToClient,
    Bidirectional,
}

#[derive(Clone, Copy, PartialEq, Eq, Structural, Debug)]
pub enum ChannelReliability {
    Reliable,
    Unreliable,
}

#[derive(Clone, Copy, PartialEq, Eq, Structural, Debug)]
pub enum ChannelOrdering {
    Ordered,
    Unordered,
    Sequenced,
    TickBuffered,
}

/// Statically registered properties of one channel.
#[derive(Clone, Copy, PartialEq, Eq, Structural, Debug)]
pub struct ChannelMeta {
    pub direction: ChannelDirection,
    pub reliability: ChannelReliability,
    pub ordering: ChannelOrdering,
}

impl ChannelMeta {
    pub open spec fn spec_can_send_to_client(self) -> bool {
        self.direction == ChannelDirection::ServerToClient || self.direction
            == ChannelDirection::Bidirectional
    }

    pub open spec fn spec_can_send_to_server(self) -> bool {
        self.direction == ChannelDirection::ClientToServer || self.direction
            == ChannelDirection::Bidirectional
    }

    pub fn can_send_to_client(&self) -> (r: bool)
        ensures
            r == self.spec_can_send_to_client(),
    {
        match self.direction {
            ChannelDirection::ServerToClient => true,
            ChannelDirection::Bidirectional => true,
            ChannelDirection::ClientToServer => false,
        }
    }

    pub fn can_send_to_server(&self) -> (r: bool)
        ensures
            r == self.spec_can_send_to_server(),
    {
        match self.direction {
            ChannelDirection::ClientToServer => true,
            ChannelDirection::Bidirectional => true,
            ChannelDirection::ServerToClient => false,
        }
    }
}

/// The read-only channel registry: a channel identifier is an index into it.
pub struct ChannelCatalog {
    pub channels: Vec<ChannelMeta>,
}

impl ChannelCatalog {
    /// Channel identifiers must fit the 16-bit wire field.
    pub open spec fn wf(self) -> bool {
        self.channels@.len() <= 65536
    }

    pub open spec fn spec_valid(self, ch: ChannelId) -> bool {
        (ch as int) < self.channels@.len()
    }

    pub open spec fn spec_meta(self, ch: ChannelId) -> ChannelMeta {
        self.channels@[ch as int]
    }

    pub fn new(channels: Vec<ChannelMeta>) -> (c: ChannelCatalog)
        requires
            channels@.len() <= 65536,
        ensures
            c.wf(),
            c.channels@ == channels@,
    {
        ChannelCatalog { channels }
    }

    pub fn channel_count(&self) -> (n: usize)
        ensures
            n == self.channels@.len(),
    {
        self.channels.len()
    }

    pub fn get(&self, ch: ChannelId) -> (r: Option<ChannelMeta>)
        ensures
            match r {
                Some(m) => self.spec_valid(ch) && m == self.spec_meta(ch),
                None => !self.spec_valid(ch),
            },
    {
        if (ch as usize) < self.channels.len() {
            Some(self.channels[ch as usize])
        } else {
            None
        }
    }
}

} // verus!
