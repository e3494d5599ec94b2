use vstd::prelude::*;

verus! {

use crate::types::{ChannelId, UserKey};
use crate::user::User;

/// Kinds of recoverable faults surfaced to the application.
#[derive(Clone, Copy, PartialEq, Eq, Structural, Debug)]
pub enum ErrorKind {
    Io,
    Wrapped,
    Timeout,
    Malformed,
}

/// One occurrence the application learns about from `receive`.
#[derive(PartialEq, Eq, Debug)]
pub enum Event {
    Connection(UserKey),
    Auth(UserKey, Vec<u8>),
    Disconnection(UserKey, User),
    Message(UserKey, ChannelId, Vec<u8>),
    Tick,
    Error(ErrorKind),
}

/// The ordered stream of events accumulated since the last `receive`.
pub struct Events {
    pub list: Vec<Event>,
}

impl Events {
    pub fn new() -> (e: Events)
        ensures
            e.list@.len() == 0,
    {
        Events { list: Vec::new() }
    }

    pub fn push_connection(&mut self, k: UserKey)
        ensures
            final(self).list@ == old(self).list@.push(Event::Connection(k)),
    {
        self.list.push(Event::Connection(k));
    }

    pub fn push_auth(&mut self, k: UserKey, payload: Vec<u8>)
        ensures
            final(self).list@ == old(self).list@.push(Event::Auth(k, payload)),
    {
        self.list.push(Event::Auth(k, payload));
    }

    pub fn push_disconnection(&mut self, k: UserKey, user: User)
        ensures
            final(self).list@ == old(self).list@.push(Event::Disconnection(k, user)),
    {
        self.list.push(Event::Disconnection(k, user));
    }

    pub fn push_message(&mut self, k: UserKey, channel: ChannelId, payload: Vec<u8>)
        ensures
            final(self).list@ == old(self).list@.push(Event::Message(k, channel, payload)),
    {
        self.list.push(Event::Message(k, channel, payload));
    }

    pub fn push_tick(&mut self)
        ensures
            final(self).list@ == old(self).list@.push(Event::Tick),
    {
        self.list.push(Event::Tick);
    }

    pub fn push_error(&mut self, kind: ErrorKind)
        ensures
            final(self).list@ == old(self).list@.push(Event::Error(kind)),
    {
        self.list.push(Event::Error(kind));
    }

    /// Hands the accumulated events out and resets the stream.
    pub fn take_all(&mut self) -> (out: Vec<Event>)
        ensures
            out@ == old(self).list@,
            final(self).list@.len() == 0,
    {
        let mut out: Vec<Event> = Vec::new();
        let ghost orig = self.list@;
        while self.list.len() > 0
            invariant
                out@ + self.list@ =~= orig,
            decreases self.list@.len(),
        {
            let e = self.list.remove(0);
            out.push(e);
        }
        proof {
            assert(out@ =~= orig);
        }
        out
    }
}

} // verus!
