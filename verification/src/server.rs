use vstd::prelude::*;

verus! {

use crate::bigmap::BigMap;
use crate::channels::ChannelCatalog;
use crate::connection::{Connection, MAX_ACTIONS_PER_PACKET, MTU_BUDGET};
use crate::events::Events;
use crate::handshake::HandshakeManager;
use crate::ping::CLOCK_BOUND_MS;
use crate::room::Room;
use crate::scope_map::EntityScopeMap;
use crate::tick::TickManager;
use crate::time::Timer;
use crate::types::{Address, EntityId, RoomKey, Tick, UserKey};
use crate::user::User;
use crate::world_record::WorldRecord;

/// The options the application configures the server with. All durations
/// are in milliseconds.
#[derive(Clone, Copy, PartialEq, Debug)]
pub struct ServerConfig {
    pub heartbeat_interval_ms: u64,
    pub disconnection_timeout_ms: u64,
    pub ping_interval_ms: u64,
    pub bandwidth_measure_ms: u64,
    pub require_auth: bool,
    pub tick_interval_ms: Option<u64>,
}

impl ServerConfig {
    /// Intervals stay under the clock bound so that timer arithmetic cannot
    /// overflow.
    pub open spec fn wf(self) -> bool {
        &&& self.heartbeat_interval_ms < CLOCK_BOUND_MS
        &&& self.disconnection_timeout_ms < CLOCK_BOUND_MS
        &&& self.ping_interval_ms < CLOCK_BOUND_MS
        &&& match self.tick_interval_ms {
            Some(t) => 1 <= t < CLOCK_BOUND_MS,
            None => true,
        }
    }
}

/// The server connection engine: per-client connections, the handshake,
/// rooms and scopes, the world mirror, the tick clock, and the event
/// stream handed to the application. All socket work stays outside: the
/// engine consumes already-received datagrams and returns the datagrams to
/// send, each bound to a peer address.
pub struct Server {
    pub config: ServerConfig,
    pub channels: ChannelCatalog,
    pub handshake: HandshakeManager,
    pub users: BigMap<User>,
    pub connections: Vec<Connection>,
    pub rooms: BigMap<Room>,
    pub scope_map: EntityScopeMap,
    pub world_record: WorldRecord,
    pub events: Events,
    pub tick_manager: Option<TickManager>,
    pub heartbeat_timer: Timer,
    pub timeout_timer: Timer,
    pub ping_timer: Timer,
    pub last_now_ms: u64,
}

/// A datagram the engine wants sent, with its destination.
pub struct OutgoingPacket {
    pub address: Address,
    pub bytes: Vec<u8>,
}

/// Some connection in the list is bound to this key and overdue.
pub open spec fn spec_overdue_key(
    conns: Seq<Connection>,
    kk: UserKey,
    now_ms: u64,
    timeout_ms: u64,
) -> bool {
    exists|j: int|
        0 <= j < conns.len() && (#[trigger] conns[j]).user_key == kk && conns[j].spec_should_drop(
            now_ms,
            timeout_ms,
        )
}

/// Copies a list of user keys.
pub fn copy_user_keys(v: &Vec<UserKey>) -> (r: Vec<UserKey>)
    ensures
        r@ == v@,
{
    let n: usize = v.len();
    let mut r: Vec<UserKey> = Vec::new();
    let mut i: usize = 0;
    while i < n
        invariant
            n == v@.len(),
            i <= n,
            r@ =~= v@.take(i as int),
        decreases n - i,
    {
        r.push(v[i]);
        i = i + 1;
    }
    proof {
        assert(v@.take(n as int) =~= v@);
    }
    r
}

/// Copies a list of entity handles.
pub fn copy_entity_ids(v: &Vec<EntityId>) -> (r: Vec<EntityId>)
    ensures
        r@ == v@,
{
    let n: usize = v.len();
    let mut r: Vec<EntityId> = Vec::new();
    let mut i: usize = 0;
    while i < n
        invariant
            n == v@.len(),
            i <= n,
            r@ =~= v@.take(i as int),
        decreases n - i,
    {
        r.push(v[i]);
        i = i + 1;
    }
    proof {
        assert(v@.take(n as int) =~= v@);
    }
    r
}

impl Server {
    pub open spec fn spec_channel_count(self) -> int {
        self.channels.channels@.len() as int
    }

    /// The generational handle of the user living in cell `i`.
    pub open spec fn spec_user_key_at(self, i: int) -> UserKey {
        UserKey { index: i as usize, generation: self.users.slots@[i].generation }
    }

    /// The generational handle of the room living in cell `i`.
    pub open spec fn spec_room_key_at(self, i: int) -> RoomKey {
        RoomKey { index: i as usize, generation: self.rooms.slots@[i].generation }
    }

    pub open spec fn spec_user_live_at(self, i: int) -> bool {
        0 <= i < self.users.slots@.len() && self.users.slots@[i].value is Some
    }

    pub open spec fn spec_room_live_at(self, i: int) -> bool {
        0 <= i < self.rooms.slots@.len() && self.rooms.slots@[i].value is Some
    }

    /// Each connection is well formed and bound to a live user at its own
    /// address.
    pub open spec fn conns_wf(self) -> bool {
        forall|i: int|
            0 <= i < self.connections@.len() ==> {
                let c = #[trigger] self.connections@[i];
                &&& c.wf(self.spec_channel_count())
                &&& self.users.spec_contains(c.user_key.index as int, c.user_key.generation)
                &&& self.users.spec_at(c.user_key.index as int).address == c.address
                &&& c.ping_manager.latest_ms <= self.last_now_ms
            }
    }

    /// No two connections share an address.
    pub open spec fn addrs_unique(self) -> bool {
        forall|i: int, j: int|
            0 <= i < j < self.connections@.len() ==> self.connections@[i].address
                != self.connections@[j].address
    }

    /// Every live user is well formed, and the rooms it caches are live
    /// rooms that list it as a member.
    pub open spec fn users_rooms_wf(self) -> bool {
        forall|i: int|
            self.spec_user_live_at(i) ==> {
                let u = #[trigger] self.users.spec_at(i);
                &&& u.wf()
                &&& forall|rk: RoomKey|
                    u.room_keys@.contains(rk) ==> self.rooms.spec_contains(
                        rk.index as int,
                        rk.generation,
                    ) && self.rooms.spec_at(rk.index as int).users@.contains(
                        self.spec_user_key_at(i),
                    )
            }
    }

    /// Every live room is well formed, and the users it lists are live
    /// users that cache it.
    pub open spec fn rooms_users_wf(self) -> bool {
        forall|i: int|
            self.spec_room_live_at(i) ==> {
                let r = #[trigger] self.rooms.spec_at(i);
                &&& r.wf()
                &&& forall|uk: UserKey|
                    r.users@.contains(uk) ==> self.users.spec_contains(
                        uk.index as int,
                        uk.generation,
                    ) && self.users.spec_at(uk.index as int).room_keys@.contains(
                        self.spec_room_key_at(i),
                    )
            }
    }

    pub open spec fn clock_wf(self) -> bool {
        &&& self.last_now_ms < CLOCK_BOUND_MS
        &&& match self.tick_manager {
            Some(tm) => tm.wf() && tm.tick_interval_ms < CLOCK_BOUND_MS && tm.accum_ms
                <= tm.last_instant_ms && tm.last_instant_ms <= self.last_now_ms,
            None => true,
        }
    }

    pub open spec fn wf(self) -> bool {
        &&& self.config.wf()
        &&& self.channels.wf()
        &&& self.handshake.wf()
        &&& self.users.wf()
        &&& self.rooms.wf()
        &&& self.scope_map.wf()
        &&& self.world_record.wf()
        &&& self.conns_wf()
        &&& self.addrs_unique()
        &&& self.users_rooms_wf()
        &&& self.rooms_users_wf()
        &&& self.clock_wf()
        &&& self.handshake.require_auth == self.config.require_auth
    }

    /// Creates a server from its configuration and the channel catalog.
    /// `now_ms` seeds the engine's notion of the current instant; every
    /// later entry point takes the then-current instant and the clock must
    /// never run backwards.
    pub fn new(config: ServerConfig, channels: ChannelCatalog, now_ms: u64) -> (s: Server)
        requires
            config.wf(),
            channels.wf(),
            now_ms < CLOCK_BOUND_MS,
        ensures
            s.wf(),
            s.config == config,
            s.users.spec_len() == 0,
            s.connections@.len() == 0,
            s.rooms.spec_len() == 0,
            s.events.list@.len() == 0,
            s.last_now_ms == now_ms,
            s.tick_manager is Some <==> config.tick_interval_ms is Some,
    {
        let tick_manager = match config.tick_interval_ms {
            Some(t) => Some(TickManager::new(t, now_ms)),
            None => None,
        };
        Server {
            config,
            channels,
            handshake: HandshakeManager::new(config.require_auth, crate::rng::random_u64()),
            users: BigMap::new(),
            connections: Vec::new(),
            rooms: BigMap::new(),
            scope_map: EntityScopeMap::new(),
            world_record: WorldRecord::new(),
            events: Events::new(),
            tick_manager,
            heartbeat_timer: Timer::new(config.heartbeat_interval_ms, now_ms),
            timeout_timer: Timer::new(config.disconnection_timeout_ms, now_ms),
            ping_timer: Timer::new(config.ping_interval_ms, now_ms),
            last_now_ms: now_ms,
        }
    }

    fn find_connection(&self, addr: Address) -> (r: Option<usize>)
        ensures
            match r {
                Some(i) => i < self.connections@.len() && self.connections@[i as int].address
                    == addr,
                None => forall|j: int|
                    0 <= j < self.connections@.len() ==> (#[trigger] self.connections@[j]).address
                        != addr,
            },
    {
        let n: usize = self.connections.len();
        let mut i: usize = 0;
        while i < n
            invariant
                n == self.connections@.len(),
                i <= n,
                forall|j: int|
                    0 <= j < i ==> (#[trigger] self.connections@[j]).address != addr,
            decreases n - i,
        {
            if self.connections[i].address == addr {
                return Some(i);
            }
            i = i + 1;
        }
        None
    }

    /// Whether a user handle is live.
    pub fn user_exists(&self, user_key: &UserKey) -> (r: bool)
        ensures
            r == self.users.spec_contains(user_key.index as int, user_key.generation),
    {
        self.users.contains_key(user_key.index, user_key.generation)
    }

    /// A read-only copy of a live user.
    pub fn user(&self, user_key: &UserKey) -> (u: User)
        requires
            self.users.spec_contains(user_key.index as int, user_key.generation),
        ensures
            u.address == self.users.spec_at(user_key.index as int).address,
            u.room_keys@ == self.users.spec_at(user_key.index as int).room_keys@,
    {
        let got = self.users.get(user_key.index, user_key.generation);
        let stored = match got {
            Some(u) => u,
            None => {
                proof {
                    assert(false);
                }
                loop
                    invariant
                        false,
                    decreases 0int,
                {
                }
            },
        };
        let mut room_keys: Vec<RoomKey> = Vec::new();
        let n: usize = stored.room_keys.len();
        let mut i: usize = 0;
        while i < n
            invariant
                n == stored.room_keys@.len(),
                i <= n,
                room_keys@ =~= stored.room_keys@.take(i as int),
            decreases n - i,
        {
            room_keys.push(stored.room_keys[i]);
            i = i + 1;
        }
        proof {
            assert(stored.room_keys@.take(n as int) =~= stored.room_keys@);
        }
        User { address: stored.address, room_keys }
    }

    /// The keys of all live users.
    pub fn user_keys(&self) -> (r: Vec<UserKey>)
        requires
            self.users.wf(),
        ensures
            r@.len() == self.users.spec_len(),
            crate::types::no_dup(r@),
            forall|j: int|
                0 <= j < r@.len() ==> self.users.spec_contains(
                    (#[trigger] r@[j]).index as int,
                    r@[j].generation,
                ),
            forall|i: int, g: u64|
                self.users.spec_contains(i, g) ==> r@.contains(
                    UserKey { index: i as usize, generation: g },
                ),
    {
        let raw = self.users.keys();
        let mut r: Vec<UserKey> = Vec::new();
        let n: usize = raw.len();
        let mut i: usize = 0;
        while i < n
            invariant
                n == raw@.len(),
                i <= n,
                r@.len() == i,
                forall|j: int|
                    0 <= j < raw@.len() ==> self.users.spec_contains(
                        (#[trigger] raw@[j]).0 as int,
                        raw@[j].1,
                    ),
                forall|j: int|
                    0 <= j < i ==> self.users.spec_contains(
                        (#[trigger] r@[j]).index as int,
                        r@[j].generation,
                    ),
                forall|j: int|
                    0 <= j < i ==> #[trigger] r@[j] == (UserKey {
                        index: raw@[j].0,
                        generation: raw@[j].1,
                    }),
            decreases n - i,
        {
            let (index, generation) = raw[i];
            r.push(UserKey { index, generation });
            i = i + 1;
        }
        proof {
            assert forall|a: int, b: int| 0 <= a < b < r@.len() implies r@[a] != r@[b] by {
                assert(raw@[a] != raw@[b]);
            }
            assert forall|i2: int, g: u64| self.users.spec_contains(i2, g) implies r@.contains(
                UserKey { index: i2 as usize, generation: g },
            ) by {
                assert(raw@.contains((i2 as usize, g)));
                let w = choose|w: int| 0 <= w < raw@.len() && raw@[w] == (i2 as usize, g);
                assert(r@[w] == (UserKey { index: i2 as usize, generation: g }));
            }
        }
        r
    }

    /// How many users are connected or connecting.
    pub fn users_count(&self) -> (n: usize)
        requires
            self.users.wf(),
        ensures
            n == self.users.spec_len(),
    {
        self.users.len()
    }

    /// A live user's peer address.
    pub fn user_address(&self, user_key: &UserKey) -> (r: Option<Address>)
        ensures
            match r {
                Some(a) => self.users.spec_contains(user_key.index as int, user_key.generation)
                    && a == self.users.spec_at(user_key.index as int).address,
                None => !self.users.spec_contains(user_key.index as int, user_key.generation),
            },
    {
        match self.users.get(user_key.index, user_key.generation) {
            Some(u) => Some(u.address),
            None => None,
        }
    }

    /// The keys of the rooms a live user stands in.
    pub fn user_room_keys(&self, user_key: &UserKey) -> (r: Option<Vec<RoomKey>>)
        ensures
            match r {
                Some(ks) => self.users.spec_contains(user_key.index as int, user_key.generation)
                    && ks@ == self.users.spec_at(user_key.index as int).room_keys@,
                None => !self.users.spec_contains(user_key.index as int, user_key.generation),
            },
    {
        if self.user_exists(user_key) {
            let u = self.user(user_key);
            Some(u.room_keys)
        } else {
            None
        }
    }

    /// How many rooms a live user stands in.
    pub fn user_rooms_count(&self, user_key: &UserKey) -> (r: Option<usize>)
        ensures
            match r {
                Some(n) => self.users.spec_contains(user_key.index as int, user_key.generation)
                    && n == self.users.spec_at(user_key.index as int).room_keys@.len(),
                None => !self.users.spec_contains(user_key.index as int, user_key.generation),
            },
    {
        match self.users.get(user_key.index, user_key.generation) {
            Some(u) => Some(u.room_count()),
            None => None,
        }
    }

    /// Whether a room handle is live.
    pub fn room_exists(&self, room_key: &RoomKey) -> (r: bool)
        ensures
            r == self.rooms.spec_contains(room_key.index as int, room_key.generation),
    {
        self.rooms.contains_key(room_key.index, room_key.generation)
    }

    /// The keys of all live rooms.
    pub fn room_keys(&self) -> (r: Vec<RoomKey>)
        requires
            self.rooms.wf(),
        ensures
            r@.len() == self.rooms.spec_len(),
            crate::types::no_dup(r@),
            forall|j: int|
                0 <= j < r@.len() ==> self.rooms.spec_contains(
                    (#[trigger] r@[j]).index as int,
                    r@[j].generation,
                ),
            forall|i: int, g: u64|
                self.rooms.spec_contains(i, g) ==> r@.contains(
                    RoomKey { index: i as usize, generation: g },
                ),
    {
        let raw = self.rooms.keys();
        let mut r: Vec<RoomKey> = Vec::new();
        let n: usize = raw.len();
        let mut i: usize = 0;
        while i < n
            invariant
                n == raw@.len(),
                i <= n,
                r@.len() == i,
                forall|j: int|
                    0 <= j < raw@.len() ==> self.rooms.spec_contains(
                        (#[trigger] raw@[j]).0 as int,
                        raw@[j].1,
                    ),
                forall|j: int|
                    0 <= j < i ==> self.rooms.spec_contains(
                        (#[trigger] r@[j]).index as int,
                        r@[j].generation,
                    ),
                forall|j: int|
                    0 <= j < i ==> #[trigger] r@[j] == (RoomKey {
                        index: raw@[j].0,
                        generation: raw@[j].1,
                    }),
            decreases n - i,
        {
            let (index, generation) = raw[i];
            r.push(RoomKey { index, generation });
            i = i + 1;
        }
        proof {
            assert forall|a: int, b: int| 0 <= a < b < r@.len() implies r@[a] != r@[b] by {
                assert(raw@[a] != raw@[b]);
            }
            assert forall|i2: int, g: u64| self.rooms.spec_contains(i2, g) implies r@.contains(
                RoomKey { index: i2 as usize, generation: g },
            ) by {
                assert(raw@.contains((i2 as usize, g)));
                let w = choose|w: int| 0 <= w < raw@.len() && raw@[w] == (i2 as usize, g);
                assert(r@[w] == (RoomKey { index: i2 as usize, generation: g }));
            }
        }
        r
    }

    /// How many rooms exist.
    pub fn rooms_count(&self) -> (n: usize)
        requires
            self.rooms.wf(),
        ensures
            n == self.rooms.spec_len(),
    {
        self.rooms.len()
    }

    /// Whether a user stands in a room.
    pub fn room_has_user(&self, room_key: &RoomKey, user_key: &UserKey) -> (r: bool)
        ensures
            r == (self.rooms.spec_contains(room_key.index as int, room_key.generation)
                && self.rooms.spec_at(room_key.index as int).spec_has_user(*user_key)),
    {
        match self.rooms.get(room_key.index, room_key.generation) {
            Some(room) => room.has_user(*user_key),
            None => false,
        }
    }

    /// Whether an entity stands in a room.
    pub fn room_has_entity(&self, room_key: &RoomKey, entity: EntityId) -> (r: bool)
        ensures
            r == (self.rooms.spec_contains(room_key.index as int, room_key.generation)
                && self.rooms.spec_at(room_key.index as int).spec_has_entity(entity)),
    {
        match self.rooms.get(room_key.index, room_key.generation) {
            Some(room) => room.has_entity(entity),
            None => false,
        }
    }

    /// How many users stand in a room; zero for a dead handle.
    pub fn room_users_count(&self, room_key: &RoomKey) -> (n: usize)
        ensures
            self.rooms.spec_contains(room_key.index as int, room_key.generation) ==> n
                == self.rooms.spec_at(room_key.index as int).users@.len(),
            !self.rooms.spec_contains(room_key.index as int, room_key.generation) ==> n == 0,
    {
        match self.rooms.get(room_key.index, room_key.generation) {
            Some(room) => room.users_count(),
            None => 0,
        }
    }

    /// How many entities stand in a room; zero for a dead handle.
    pub fn room_entities_count(&self, room_key: &RoomKey) -> (n: usize)
        ensures
            self.rooms.spec_contains(room_key.index as int, room_key.generation) ==> n
                == self.rooms.spec_at(room_key.index as int).entities@.len(),
            !self.rooms.spec_contains(room_key.index as int, room_key.generation) ==> n == 0,
    {
        match self.rooms.get(room_key.index, room_key.generation) {
            Some(room) => room.entities_count(),
            None => 0,
        }
    }

    /// The member keys of a live room.
    pub fn room_user_keys(&self, room_key: &RoomKey) -> (r: Vec<UserKey>)
        ensures
            self.rooms.spec_contains(room_key.index as int, room_key.generation) ==> r@
                == self.rooms.spec_at(room_key.index as int).users@,
            !self.rooms.spec_contains(room_key.index as int, room_key.generation) ==> r@.len()
                == 0,
    {
        match self.rooms.get(room_key.index, room_key.generation) {
            Some(room) => {
                let mut out: Vec<UserKey> = Vec::new();
                let n: usize = room.users.len();
                let mut i: usize = 0;
                while i < n
                    invariant
                        n == room.users@.len(),
                        i <= n,
                        out@ =~= room.users@.take(i as int),
                    decreases n - i,
                {
                    out.push(room.users[i]);
                    i = i + 1;
                }
                proof {
                    assert(room.users@.take(n as int) =~= room.users@);
                }
                out
            },
            None => Vec::new(),
        }
    }

    /// The latest tick a connected client has declared.
    pub fn client_tick(&self, user_key: &UserKey) -> (r: Option<Tick>)
        requires
            self.wf(),
        ensures
            r is Some <==> exists|i: int|
                0 <= i < self.connections@.len() && (#[trigger] self.connections@[i]).user_key
                    == *user_key,
            r matches Some(t) ==> exists|i: int|
                0 <= i < self.connections@.len() && (#[trigger] self.connections@[i]).user_key
                    == *user_key && t == self.connections@[i].last_received_tick,
    {
        proof {
            if exists|i: int|
                0 <= i < self.connections@.len() && (#[trigger] self.connections@[i]).user_key
                    == *user_key {
                let w = choose|i: int|
                    0 <= i < self.connections@.len() && (#[trigger] self.connections@[i]).user_key
                        == *user_key;
                assert(self.users.spec_contains(user_key.index as int, user_key.generation));
                assert(self.connections@[w].address == self.users.spec_at(
                    user_key.index as int,
                ).address);
            }
        }
        match self.users.get(user_key.index, user_key.generation) {
            Some(u) => {
                let addr = u.address;
                match self.find_connection(addr) {
                    Some(i) => {
                        if self.connections[i].user_key.index == user_key.index
                            && self.connections[i].user_key.generation == user_key.generation {
                            Some(self.connections[i].last_received_tick)
                        } else {
                            proof {
                                if exists|j: int|
                                    0 <= j < self.connections@.len() && (
                                    #[trigger] self.connections@[j]).user_key == *user_key {
                                    let w = choose|j: int|
                                        0 <= j < self.connections@.len() && (
                                        #[trigger] self.connections@[j]).user_key == *user_key;
                                    assert(self.connections@[w].address == addr);
                                    if w != i as int {
                                        assert(self.connections@[w].address != self.connections@[
                                            i as int
                                        ].address);
                                    }
                                    assert(false);
                                }
                            }
                            None
                        }
                    },
                    None => None,
                }
            },
            None => None,
        }
    }

    /// The current server tick, when a tick interval was configured.
    pub fn server_tick(&self) -> (r: Option<Tick>)
        ensures
            match (r, self.tick_manager) {
                (Some(t), Some(tm)) => t == tm.server_tick,
                (None, None) => true,
                _ => false,
            },
    {
        match &self.tick_manager {
            Some(tm) => Some(tm.server_tick),
            None => None,
        }
    }

    /// The smoothed round-trip estimate to a connected client, in whole
    /// milliseconds.
    pub fn rtt(&self, user_key: &UserKey) -> (r: Option<u64>)
        requires
            self.wf(),
        ensures
            r is Some <==> exists|i: int|
                0 <= i < self.connections@.len() && (#[trigger] self.connections@[i]).user_key
                    == *user_key,
            r matches Some(v) ==> exists|i: int|
                0 <= i < self.connections@.len() && (#[trigger] self.connections@[i]).user_key
                    == *user_key && v == self.connections@[i].ping_manager.rtt_ms,
    {
        proof {
            if exists|i: int|
                0 <= i < self.connections@.len() && (#[trigger] self.connections@[i]).user_key
                    == *user_key {
                let w = choose|i: int|
                    0 <= i < self.connections@.len() && (#[trigger] self.connections@[i]).user_key
                        == *user_key;
                assert(self.users.spec_contains(user_key.index as int, user_key.generation));
                assert(self.connections@[w].address == self.users.spec_at(
                    user_key.index as int,
                ).address);
            }
        }
        match self.users.get(user_key.index, user_key.generation) {
            Some(u) => {
                let addr = u.address;
                match self.find_connection(addr) {
                    Some(i) => {
                        if self.connections[i].user_key.index == user_key.index
                            && self.connections[i].user_key.generation == user_key.generation {
                            Some(self.connections[i].ping_manager.rtt_ms)
                        } else {
                            proof {
                                if exists|j: int|
                                    0 <= j < self.connections@.len() && (
                                    #[trigger] self.connections@[j]).user_key == *user_key {
                                    let w = choose|j: int|
                                        0 <= j < self.connections@.len() && (
                                        #[trigger] self.connections@[j]).user_key == *user_key;
                                    assert(self.connections@[w].address == addr);
                                    if w != i as int {
                                        assert(self.connections@[w].address != self.connections@[
                                            i as int
                                        ].address);
                                    }
                                    assert(false);
                                }
                            }
                            None
                        }
                    },
                    None => None,
                }
            },
            None => None,
        }
    }

    /// The smoothed jitter estimate to a connected client, in whole
    /// milliseconds.
    pub fn jitter(&self, user_key: &UserKey) -> (r: Option<u64>)
        requires
            self.wf(),
        ensures
            r is Some <==> exists|i: int|
                0 <= i < self.connections@.len() && (#[trigger] self.connections@[i]).user_key
                    == *user_key,
            r matches Some(v) ==> exists|i: int|
                0 <= i < self.connections@.len() && (#[trigger] self.connections@[i]).user_key
                    == *user_key && v == self.connections@[i].ping_manager.jitter_ms,
    {
        proof {
            if exists|i: int|
                0 <= i < self.connections@.len() && (#[trigger] self.connections@[i]).user_key
                    == *user_key {
                let w = choose|i: int|
                    0 <= i < self.connections@.len() && (#[trigger] self.connections@[i]).user_key
                        == *user_key;
                assert(self.users.spec_contains(user_key.index as int, user_key.generation));
                assert(self.connections@[w].address == self.users.spec_at(
                    user_key.index as int,
                ).address);
            }
        }
        match self.users.get(user_key.index, user_key.generation) {
            Some(u) => {
                let addr = u.address;
                match self.find_connection(addr) {
                    Some(i) => {
                        if self.connections[i].user_key.index == user_key.index
                            && self.connections[i].user_key.generation == user_key.generation {
                            Some(self.connections[i].ping_manager.jitter_ms)
                        } else {
                            proof {
                                if exists|j: int|
                                    0 <= j < self.connections@.len() && (
                                    #[trigger] self.connections@[j]).user_key == *user_key {
                                    let w = choose|j: int|
                                        0 <= j < self.connections@.len() && (
                                        #[trigger] self.connections@[j]).user_key == *user_key;
                                    assert(self.connections@[w].address == addr);
                                    if w != i as int {
                                        assert(self.connections@[w].address != self.connections@[
                                            i as int
                                        ].address);
                                    }
                                    assert(false);
                                }
                            }
                            None
                        }
                    },
                    None => None,
                }
            },
            None => None,
        }
    }

    /// Creates a room and returns its key.
    pub fn make_room(&mut self) -> (rk: RoomKey)
        requires
            old(self).wf(),
            old(self).rooms.spec_len() < usize::MAX,
            old(self).rooms.slots@.len() < usize::MAX,
        ensures
            final(self).wf(),
            final(self).rooms.spec_contains(rk.index as int, rk.generation),
            !old(self).rooms.spec_contains(rk.index as int, rk.generation),
            final(self).rooms.spec_at(rk.index as int).users@.len() == 0,
            final(self).rooms.spec_at(rk.index as int).entities@.len() == 0,
            final(self).rooms.spec_at(rk.index as int).removal_queue@.len() == 0,
            final(self).rooms.spec_len() == old(self).rooms.spec_len() + 1,
            final(self).users == old(self).users,
            final(self).connections@ == old(self).connections@,
            final(self).events == old(self).events,
    {
        let room = Room::new();
        let (index, generation) = self.rooms.insert(room);
        proof {
            assert forall|i: int| final(self).spec_room_live_at(i) implies ({
                let r = final(self).rooms.spec_at(i);
                r.wf() && forall|uk: UserKey|
                    r.users@.contains(uk) ==> final(self).users.spec_contains(
                        uk.index as int,
                        uk.generation,
                    ) && final(self).users.spec_at(uk.index as int).room_keys@.contains(
                        final(self).spec_room_key_at(i),
                    )
            }) by {
                if i != index as int {
                    let g1 = final(self).rooms.slots@[i].generation;
                    assert(final(self).rooms.spec_contains(i, g1));
                    assert(old(self).rooms.spec_contains(i, g1));
                    assert(old(self).spec_room_live_at(i));
                    assert(old(self).rooms.slots@[i].generation == g1);
                    assert(final(self).spec_room_key_at(i) == old(self).spec_room_key_at(i));
                    assert(final(self).rooms.spec_at(i) == old(self).rooms.spec_at(i));
                }
            }
            assert forall|i: int| final(self).spec_user_live_at(i) implies ({
                let u = final(self).users.spec_at(i);
                u.wf() && forall|rk2: RoomKey|
                    u.room_keys@.contains(rk2) ==> final(self).rooms.spec_contains(
                        rk2.index as int,
                        rk2.generation,
                    ) && final(self).rooms.spec_at(rk2.index as int).users@.contains(
                        final(self).spec_user_key_at(i),
                    )
            }) by {
                assert forall|rk2: RoomKey|
                    final(self).users.spec_at(i).room_keys@.contains(rk2) implies final(self).rooms.spec_contains(rk2.index as int, rk2.generation) && final(self).rooms.spec_at(rk2.index as int).users@.contains(
                    final(self).spec_user_key_at(i),
                ) by {
                    assert(old(self).rooms.spec_contains(rk2.index as int, rk2.generation));
                    assert(!(rk2.index as int == index as int && rk2.generation == generation));
                }
            }
        }
        RoomKey { index, generation }
    }

    /// Puts a live user into a live room; both sides of the membership are
    /// recorded. A dead user or room handle changes nothing.
    pub fn room_add_user(&mut self, room_key: &RoomKey, user_key: &UserKey)
        requires
            old(self).wf(),
        ensures
            final(self).wf(),
            old(self).users.spec_contains(user_key.index as int, user_key.generation) && old(self).rooms.spec_contains(room_key.index as int, room_key.generation) ==> ({
                &&& final(self).rooms.spec_at(room_key.index as int).users@.contains(*user_key)
                &&& final(self).users.spec_at(user_key.index as int).room_keys@.contains(
                    *room_key,
                )
            }),
            !(old(self).users.spec_contains(user_key.index as int, user_key.generation) && old(self).rooms.spec_contains(room_key.index as int, room_key.generation)) ==> *final(self)
                == *old(self),
            final(self).connections@ == old(self).connections@,
            final(self).events == old(self).events,
            final(self).users.spec_len() == old(self).users.spec_len(),
            final(self).rooms.spec_len() == old(self).rooms.spec_len(),
            final(self).scope_map == old(self).scope_map,
            final(self).world_record == old(self).world_record,
            final(self).handshake == old(self).handshake,
            final(self).config == old(self).config,
            final(self).channels == old(self).channels,
            final(self).tick_manager == old(self).tick_manager,
            final(self).last_now_ms == old(self).last_now_ms,
            final(self).heartbeat_timer == old(self).heartbeat_timer,
            final(self).timeout_timer == old(self).timeout_timer,
            final(self).ping_timer == old(self).ping_timer,
            forall|i: int, g: u64|
                i != user_key.index as int ==> final(self).users.spec_contains(i, g) == old(self).users.spec_contains(i, g),
            forall|i: int, g: u64|
                i != user_key.index as int && old(self).users.spec_contains(i, g) ==> final(self).users.spec_at(i) == old(self).users.spec_at(i),
            forall|i: int, g: u64|
                i != room_key.index as int ==> final(self).rooms.spec_contains(i, g) == old(self).rooms.spec_contains(i, g),
            forall|i: int, g: u64|
                i != room_key.index as int && old(self).rooms.spec_contains(i, g) ==> final(self).rooms.spec_at(i) == old(self).rooms.spec_at(i),
            forall|i: int, g: u64|
                final(self).users.spec_contains(i, g) == old(self).users.spec_contains(i, g),
            forall|i: int, g: u64|
                final(self).rooms.spec_contains(i, g) == old(self).rooms.spec_contains(i, g),
            old(self).users.spec_contains(user_key.index as int, user_key.generation) ==> final(self).users.spec_at(user_key.index as int).address == old(self).users.spec_at(
                user_key.index as int,
            ).address,
            old(self).rooms.spec_contains(room_key.index as int, room_key.generation) ==> ({
                &&& forall|uk2: UserKey|
                    uk2 != *user_key ==> final(self).rooms.spec_at(
                        room_key.index as int,
                    ).users@.contains(uk2) == old(self).rooms.spec_at(
                        room_key.index as int,
                    ).users@.contains(uk2)
                &&& final(self).rooms.spec_at(room_key.index as int).entities@ == old(self).rooms.spec_at(room_key.index as int).entities@
                &&& final(self).rooms.spec_at(room_key.index as int).removal_queue@ == old(self).rooms.spec_at(room_key.index as int).removal_queue@
            }),
    {
        if !self.users.contains_key(user_key.index, user_key.generation) {
            return ;
        }
        if !self.rooms.contains_key(room_key.index, room_key.generation) {
            return ;
        }
        let mut user = match self.users.remove(user_key.index, user_key.generation) {
            Some(u) => u,
            None => {
                proof {
                    assert(false);
                }
                loop
                    invariant
                        false,
                    decreases 0int,
                {
                }
            },
        };
        let mut room = match self.rooms.remove(room_key.index, room_key.generation) {
            Some(r) => r,
            None => {
                proof {
                    assert(false);
                }
                loop
                    invariant
                        false,
                    decreases 0int,
                {
                }
            },
        };
        room.subscribe_user(*user_key);
        user.cache_room(*room_key);
        let ghost user_pre = old(self).users.spec_at(user_key.index as int);
        let ghost room_pre = old(self).rooms.spec_at(room_key.index as int);
        let ghost user_after = user;
        let ghost room_after = room;
        self.rooms.put_at(room_key.index, room_key.generation, room);
        self.users.put_at(user_key.index, user_key.generation, user);
        proof {
            let ui = user_key.index as int;
            let ri = room_key.index as int;
            assert(self.users.spec_at(ui) == user_after);
            assert(self.rooms.spec_at(ri) == room_after);
            assert forall|rk2: RoomKey| rk2 != *room_key implies self.users.spec_at(
                ui,
            ).room_keys@.contains(rk2) == old(self).users.spec_at(ui).room_keys@.contains(
                rk2,
            ) by {
                assert(user_after.spec_in_room(rk2) == user_pre.spec_in_room(rk2));
            }
            assert forall|uk2: UserKey| uk2 != *user_key implies self.rooms.spec_at(
                ri,
            ).users@.contains(uk2) == old(self).rooms.spec_at(ri).users@.contains(uk2) by {
                assert(room_after.spec_has_user(uk2) == room_pre.spec_has_user(uk2));
            }
            assert(user_after.spec_in_room(*room_key));
            assert(room_after.spec_has_user(*user_key));
            self.lemma_symmetry_after_membership(*old(self), *room_key, *user_key);
        }
    }

    /// Takes a live user out of a live room, on both sides; every (user,
    /// entity) pair of that room is queued for a visibility revisit. A dead
    /// handle changes nothing.
    pub fn room_remove_user(&mut self, room_key: &RoomKey, user_key: &UserKey)
        requires
            old(self).wf(),
        ensures
            final(self).wf(),
            old(self).users.spec_contains(user_key.index as int, user_key.generation) && old(self).rooms.spec_contains(room_key.index as int, room_key.generation) ==> ({
                &&& !final(self).rooms.spec_at(room_key.index as int).users@.contains(*user_key)
                &&& !final(self).users.spec_at(user_key.index as int).room_keys@.contains(
                    *room_key,
                )
            }),
            !(old(self).users.spec_contains(user_key.index as int, user_key.generation) && old(self).rooms.spec_contains(room_key.index as int, room_key.generation)) ==> *final(self)
                == *old(self),
            final(self).connections@ == old(self).connections@,
            final(self).events == old(self).events,
            final(self).users.spec_len() == old(self).users.spec_len(),
            final(self).rooms.spec_len() == old(self).rooms.spec_len(),
            final(self).scope_map == old(self).scope_map,
            final(self).world_record == old(self).world_record,
            final(self).handshake == old(self).handshake,
            final(self).config == old(self).config,
            final(self).channels == old(self).channels,
            final(self).tick_manager == old(self).tick_manager,
            final(self).last_now_ms == old(self).last_now_ms,
            final(self).heartbeat_timer == old(self).heartbeat_timer,
            final(self).timeout_timer == old(self).timeout_timer,
            final(self).ping_timer == old(self).ping_timer,
            forall|i: int, g: u64|
                i != user_key.index as int ==> final(self).users.spec_contains(i, g) == old(self).users.spec_contains(i, g),
            forall|i: int, g: u64|
                i != user_key.index as int && old(self).users.spec_contains(i, g) ==> final(self).users.spec_at(i) == old(self).users.spec_at(i),
            forall|i: int, g: u64|
                i != room_key.index as int ==> final(self).rooms.spec_contains(i, g) == old(self).rooms.spec_contains(i, g),
            forall|i: int, g: u64|
                i != room_key.index as int && old(self).rooms.spec_contains(i, g) ==> final(self).rooms.spec_at(i) == old(self).rooms.spec_at(i),
            forall|i: int, g: u64|
                final(self).users.spec_contains(i, g) == old(self).users.spec_contains(i, g),
            forall|i: int, g: u64|
                final(self).rooms.spec_contains(i, g) == old(self).rooms.spec_contains(i, g),
            old(self).users.spec_contains(user_key.index as int, user_key.generation) ==> ({
                &&& final(self).users.spec_at(user_key.index as int).address == old(self).users.spec_at(user_key.index as int).address
                &&& forall|rk2: RoomKey|
                    rk2 != *room_key ==> final(self).users.spec_at(
                        user_key.index as int,
                    ).room_keys@.contains(rk2) == old(self).users.spec_at(
                        user_key.index as int,
                    ).room_keys@.contains(rk2)
            }),
            old(self).rooms.spec_contains(room_key.index as int, room_key.generation) ==> ({
                &&& forall|uk2: UserKey|
                    uk2 != *user_key ==> final(self).rooms.spec_at(
                        room_key.index as int,
                    ).users@.contains(uk2) == old(self).rooms.spec_at(
                        room_key.index as int,
                    ).users@.contains(uk2)
            }),
    {
        if !self.users.contains_key(user_key.index, user_key.generation) {
            return ;
        }
        if !self.rooms.contains_key(room_key.index, room_key.generation) {
            return ;
        }
        let mut user = match self.users.remove(user_key.index, user_key.generation) {
            Some(u) => u,
            None => {
                proof {
                    assert(false);
                }
                loop
                    invariant
                        false,
                    decreases 0int,
                {
                }
            },
        };
        let mut room = match self.rooms.remove(room_key.index, room_key.generation) {
            Some(r) => r,
            None => {
                proof {
                    assert(false);
                }
                loop
                    invariant
                        false,
                    decreases 0int,
                {
                }
            },
        };
        room.unsubscribe_user(*user_key);
        user.uncache_room(*room_key);
        let ghost user_pre = old(self).users.spec_at(user_key.index as int);
        let ghost room_pre = old(self).rooms.spec_at(room_key.index as int);
        let ghost user_after = user;
        let ghost room_after = room;
        self.rooms.put_at(room_key.index, room_key.generation, room);
        self.users.put_at(user_key.index, user_key.generation, user);
        proof {
            let ui = user_key.index as int;
            let ri = room_key.index as int;
            assert(self.users.spec_at(ui) == user_after);
            assert(self.rooms.spec_at(ri) == room_after);
            assert forall|rk2: RoomKey| rk2 != *room_key implies self.users.spec_at(
                ui,
            ).room_keys@.contains(rk2) == old(self).users.spec_at(ui).room_keys@.contains(
                rk2,
            ) by {
                assert(user_after.spec_in_room(rk2) == user_pre.spec_in_room(rk2));
            }
            assert forall|uk2: UserKey| uk2 != *user_key implies self.rooms.spec_at(
                ri,
            ).users@.contains(uk2) == old(self).rooms.spec_at(ri).users@.contains(uk2) by {
                assert(room_after.spec_has_user(uk2) == room_pre.spec_has_user(uk2));
            }
            assert(!user_after.spec_in_room(*room_key));
            assert(!room_after.spec_has_user(*user_key));
            self.lemma_symmetry_after_membership(*old(self), *room_key, *user_key);
        }
    }

    /// After changing exactly the membership link between one room cell and
    /// one user cell — on both sides — the symmetry of the whole state
    /// holds again.
    proof fn lemma_symmetry_after_membership(self, pre: Server, room_key: RoomKey, user_key: UserKey)
        requires
            pre.wf(),
            pre.users.spec_contains(user_key.index as int, user_key.generation),
            pre.rooms.spec_contains(room_key.index as int, room_key.generation),
            self.users.wf(),
            self.rooms.wf(),
            self.users.slots@.len() == pre.users.slots@.len(),
            self.rooms.slots@.len() == pre.rooms.slots@.len(),
            // the touched cells keep their keys and are live
            self.users.spec_contains(user_key.index as int, user_key.generation),
            self.rooms.spec_contains(room_key.index as int, room_key.generation),
            // untouched cells are unchanged
            forall|i: int, g: u64|
                i != user_key.index as int ==> self.users.spec_contains(i, g)
                    == pre.users.spec_contains(i, g),
            forall|i: int, g: u64|
                i != user_key.index as int && pre.users.spec_contains(i, g) ==> self.users.spec_at(
                    i,
                ) == pre.users.spec_at(i),
            forall|i: int, g: u64|
                i != room_key.index as int ==> self.rooms.spec_contains(i, g)
                    == pre.rooms.spec_contains(i, g),
            forall|i: int, g: u64|
                i != room_key.index as int && pre.rooms.spec_contains(i, g) ==> self.rooms.spec_at(
                    i,
                ) == pre.rooms.spec_at(i),
            self.users.slots@[user_key.index as int].generation == user_key.generation,
            self.rooms.slots@[room_key.index as int].generation == room_key.generation,
            pre.users.slots@[user_key.index as int].generation == user_key.generation,
            pre.rooms.slots@[room_key.index as int].generation == room_key.generation,
            // the touched user changed only in its link to this room
            self.users.spec_at(user_key.index as int).wf(),
            self.users.spec_at(user_key.index as int).address == pre.users.spec_at(
                user_key.index as int,
            ).address,
            forall|rk2: RoomKey|
                rk2 != room_key ==> self.users.spec_at(user_key.index as int).room_keys@.contains(
                    rk2,
                ) == pre.users.spec_at(user_key.index as int).room_keys@.contains(rk2),
            // the touched room changed only in its link to this user
            self.rooms.spec_at(room_key.index as int).wf(),
            self.rooms.spec_at(room_key.index as int).entities@ == pre.rooms.spec_at(
                room_key.index as int,
            ).entities@,
            forall|uk2: UserKey|
                uk2 != user_key ==> self.rooms.spec_at(room_key.index as int).users@.contains(uk2)
                    == pre.rooms.spec_at(room_key.index as int).users@.contains(uk2),
            // the link itself agrees on both sides
            self.users.spec_at(user_key.index as int).room_keys@.contains(room_key) == self
                .rooms.spec_at(room_key.index as int).users@.contains(user_key),
            // the rest of the server is unchanged
            self.connections@ == pre.connections@,
            self.channels == pre.channels,
            self.config == pre.config,
            self.handshake == pre.handshake,
            self.scope_map == pre.scope_map,
            self.world_record == pre.world_record,
            self.tick_manager == pre.tick_manager,
            self.last_now_ms == pre.last_now_ms,
        ensures
            self.conns_wf(),
            self.users_rooms_wf(),
            self.rooms_users_wf(),
    {
        vstd::std_specs::vec::axiom_spec_len(&self.users.slots);
        vstd::std_specs::vec::axiom_spec_len(&self.rooms.slots);
        assert forall|i: int| 0 <= i < self.connections@.len() implies ({
            let c = #[trigger] self.connections@[i];
            &&& c.wf(self.spec_channel_count())
            &&& self.users.spec_contains(c.user_key.index as int, c.user_key.generation)
            &&& self.users.spec_at(c.user_key.index as int).address == c.address
            &&& c.ping_manager.latest_ms <= self.last_now_ms
        }) by {
            let c = self.connections@[i];
            assert(c == pre.connections@[i]);
            if c.user_key.index as int == user_key.index as int {
                assert(pre.users.spec_contains(c.user_key.index as int, c.user_key.generation));
                assert(c.user_key.generation == user_key.generation);
            }
        }
        assert forall|i: int| self.spec_user_live_at(i) implies ({
            let u = #[trigger] self.users.spec_at(i);
            &&& u.wf()
            &&& forall|rk2: RoomKey|
                u.room_keys@.contains(rk2) ==> self.rooms.spec_contains(
                    rk2.index as int,
                    rk2.generation,
                ) && self.rooms.spec_at(rk2.index as int).users@.contains(self.spec_user_key_at(i))
        }) by {
            assert(self.users.spec_contains(i, self.users.slots@[i].generation));
            assert forall|rk2: RoomKey|
                self.users.spec_at(i).room_keys@.contains(rk2) implies self.rooms.spec_contains(
                rk2.index as int,
                rk2.generation,
            ) && self.rooms.spec_at(rk2.index as int).users@.contains(
                self.spec_user_key_at(i),
            ) by {
                let me = self.spec_user_key_at(i);
                if i == user_key.index as int {
                    assert(me == user_key);
                    if rk2 == room_key {
                        assert(self.rooms.spec_at(room_key.index as int).users@.contains(
                            user_key,
                        ));
                    } else {
                        assert(pre.users.spec_at(i).room_keys@.contains(rk2));
                        assert(pre.spec_user_live_at(i));
                        assert(pre.rooms.spec_contains(rk2.index as int, rk2.generation));
                        assert(pre.rooms.spec_at(rk2.index as int).users@.contains(me));
                        if rk2.index as int == room_key.index as int {
                            assert(rk2.generation == room_key.generation);
                            assert(false);
                        }
                        assert(self.rooms.spec_at(rk2.index as int).users@.contains(me));
                    }
                } else {
                    assert((i as usize) as int == i);
                    assert(me.index != user_key.index);
                    assert(pre.spec_user_live_at(i));
                    assert(self.users.spec_at(i) == pre.users.spec_at(i));
                    assert(pre.users.spec_at(i).room_keys@.contains(rk2));
                    assert(pre.rooms.spec_contains(rk2.index as int, rk2.generation));
                    assert(pre.rooms.spec_at(rk2.index as int).users@.contains(me));
                    if rk2.index as int == room_key.index as int {
                        assert(rk2.generation == room_key.generation);
                        assert(rk2 == room_key);
                        assert(me != user_key);
                        assert(self.rooms.spec_at(rk2.index as int).users@.contains(me));
                    } else {
                        assert(self.rooms.spec_at(rk2.index as int).users@.contains(me));
                    }
                }
            }
        }
        assert forall|i: int| self.spec_room_live_at(i) implies ({
            let r = #[trigger] self.rooms.spec_at(i);
            &&& r.wf()
            &&& forall|uk2: UserKey|
                r.users@.contains(uk2) ==> self.users.spec_contains(
                    uk2.index as int,
                    uk2.generation,
                ) && self.users.spec_at(uk2.index as int).room_keys@.contains(
                    self.spec_room_key_at(i),
                )
        }) by {
            assert(self.rooms.spec_contains(i, self.rooms.slots@[i].generation));
            assert forall|uk2: UserKey|
                self.rooms.spec_at(i).users@.contains(uk2) implies self.users.spec_contains(
                uk2.index as int,
                uk2.generation,
            ) && self.users.spec_at(uk2.index as int).room_keys@.contains(
                self.spec_room_key_at(i),
            ) by {
                let here = self.spec_room_key_at(i);
                if i == room_key.index as int {
                    assert(here == room_key);
                    if uk2 == user_key {
                        assert(self.users.spec_at(user_key.index as int).room_keys@.contains(
                            room_key,
                        ));
                    } else {
                        assert(pre.rooms.spec_at(i).users@.contains(uk2));
                        assert(pre.spec_room_live_at(i));
                        assert(pre.users.spec_contains(uk2.index as int, uk2.generation));
                        assert(pre.users.spec_at(uk2.index as int).room_keys@.contains(here));
                        if uk2.index as int == user_key.index as int {
                            assert(uk2.generation == user_key.generation);
                            assert(false);
                        }
                        assert(self.users.spec_at(uk2.index as int).room_keys@.contains(here));
                    }
                } else {
                    assert((i as usize) as int == i);
                    assert(here.index != room_key.index);
                    assert(pre.spec_room_live_at(i));
                    assert(self.rooms.spec_at(i) == pre.rooms.spec_at(i));
                    assert(pre.rooms.spec_at(i).users@.contains(uk2));
                    assert(pre.users.spec_contains(uk2.index as int, uk2.generation));
                    assert(pre.users.spec_at(uk2.index as int).room_keys@.contains(here));
                    if uk2.index as int == user_key.index as int {
                        assert(uk2.generation == user_key.generation);
                        assert(uk2 == user_key);
                        assert(here != room_key);
                        assert(self.users.spec_at(uk2.index as int).room_keys@.contains(here));
                    } else {
                        assert(self.users.spec_at(uk2.index as int).room_keys@.contains(here));
                    }
                }
            }
        }
    }

    /// Symmetry is untouched when users, rooms, connections, channels and
    /// the clock are all unchanged.
    proof fn lemma_wf_core_frame(self, pre: Server)
        requires
            pre.conns_wf(),
            pre.users_rooms_wf(),
            pre.rooms_users_wf(),
            self.users == pre.users,
            self.rooms == pre.rooms,
            self.connections@ == pre.connections@,
            self.channels == pre.channels,
            self.last_now_ms == pre.last_now_ms,
        ensures
            self.conns_wf(),
            self.users_rooms_wf(),
            self.rooms_users_wf(),
    {
        assert forall|i: int| 0 <= i < self.connections@.len() implies ({
            let c = #[trigger] self.connections@[i];
            &&& c.wf(self.spec_channel_count())
            &&& self.users.spec_contains(c.user_key.index as int, c.user_key.generation)
            &&& self.users.spec_at(c.user_key.index as int).address == c.address
            &&& c.ping_manager.latest_ms <= self.last_now_ms
        }) by {
            assert(self.connections@[i] == pre.connections@[i]);
        }
        assert forall|i: int| self.spec_user_live_at(i) implies ({
            let u = #[trigger] self.users.spec_at(i);
            &&& u.wf()
            &&& forall|rk: RoomKey|
                u.room_keys@.contains(rk) ==> self.rooms.spec_contains(
                    rk.index as int,
                    rk.generation,
                ) && self.rooms.spec_at(rk.index as int).users@.contains(self.spec_user_key_at(i))
        }) by {
            assert(pre.spec_user_live_at(i));
            assert(self.spec_user_key_at(i) == pre.spec_user_key_at(i));
        }
        assert forall|i: int| self.spec_room_live_at(i) implies ({
            let r = #[trigger] self.rooms.spec_at(i);
            &&& r.wf()
            &&& forall|uk: UserKey|
                r.users@.contains(uk) ==> self.users.spec_contains(
                    uk.index as int,
                    uk.generation,
                ) && self.users.spec_at(uk.index as int).room_keys@.contains(
                    self.spec_room_key_at(i),
                )
        }) by {
            assert(pre.spec_room_live_at(i));
            assert(self.spec_room_key_at(i) == pre.spec_room_key_at(i));
        }
    }

    /// Symmetry survives a change to one room cell that keeps the room's
    /// member set and its liveness.
    proof fn lemma_symmetry_after_room_touch(self, pre: Server, ri: int)
        requires
            pre.conns_wf(),
            pre.users_rooms_wf(),
            pre.rooms_users_wf(),
            self.users == pre.users,
            self.connections@ == pre.connections@,
            self.channels == pre.channels,
            self.last_now_ms == pre.last_now_ms,
            self.rooms.slots@.len() == pre.rooms.slots@.len(),
            0 <= ri < pre.rooms.slots@.len(),
            forall|i: int, g: u64|
                i != ri ==> self.rooms.spec_contains(i, g) == pre.rooms.spec_contains(i, g),
            forall|i: int, g: u64|
                i != ri && pre.rooms.spec_contains(i, g) ==> self.rooms.spec_at(i)
                    == pre.rooms.spec_at(i),
            forall|i: int|
                0 <= i < pre.rooms.slots@.len() && i != ri ==> self.rooms.slots@[i]
                    == pre.rooms.slots@[i],
            self.rooms.slots@[ri].generation == pre.rooms.slots@[ri].generation,
            (self.rooms.slots@[ri].value is Some) == (pre.rooms.slots@[ri].value is Some),
            pre.spec_room_live_at(ri) ==> self.rooms.spec_at(ri).users@ == pre.rooms.spec_at(
                ri,
            ).users@ && self.rooms.spec_at(ri).wf(),
        ensures
            self.conns_wf(),
            self.users_rooms_wf(),
            self.rooms_users_wf(),
    {
        assert forall|i: int| 0 <= i < self.connections@.len() implies ({
            let c = #[trigger] self.connections@[i];
            &&& c.wf(self.spec_channel_count())
            &&& self.users.spec_contains(c.user_key.index as int, c.user_key.generation)
            &&& self.users.spec_at(c.user_key.index as int).address == c.address
            &&& c.ping_manager.latest_ms <= self.last_now_ms
        }) by {
            assert(self.connections@[i] == pre.connections@[i]);
        }
        assert forall|i: int| self.spec_user_live_at(i) implies ({
            let u = #[trigger] self.users.spec_at(i);
            &&& u.wf()
            &&& forall|rk: RoomKey|
                u.room_keys@.contains(rk) ==> self.rooms.spec_contains(
                    rk.index as int,
                    rk.generation,
                ) && self.rooms.spec_at(rk.index as int).users@.contains(self.spec_user_key_at(i))
        }) by {
            assert(pre.spec_user_live_at(i));
            assert(self.spec_user_key_at(i) == pre.spec_user_key_at(i));
            assert forall|rk: RoomKey|
                self.users.spec_at(i).room_keys@.contains(rk) implies self.rooms.spec_contains(
                rk.index as int,
                rk.generation,
            ) && self.rooms.spec_at(rk.index as int).users@.contains(
                self.spec_user_key_at(i),
            ) by {
                assert(pre.rooms.spec_contains(rk.index as int, rk.generation));
                assert(pre.rooms.spec_at(rk.index as int).users@.contains(
                    pre.spec_user_key_at(i),
                ));
                if rk.index as int == ri {
                    assert(pre.spec_room_live_at(ri));
                    assert(self.rooms.spec_contains(rk.index as int, rk.generation));
                } else {
                    assert(self.rooms.spec_contains(rk.index as int, rk.generation));
                }
            }
        }
        assert forall|i: int| self.spec_room_live_at(i) implies ({
            let r = #[trigger] self.rooms.spec_at(i);
            &&& r.wf()
            &&& forall|uk: UserKey|
                r.users@.contains(uk) ==> self.users.spec_contains(
                    uk.index as int,
                    uk.generation,
                ) && self.users.spec_at(uk.index as int).room_keys@.contains(
                    self.spec_room_key_at(i),
                )
        }) by {
            assert(pre.spec_room_live_at(i));
            assert(self.spec_room_key_at(i) == pre.spec_room_key_at(i));
            if i == ri {
                assert(self.rooms.spec_at(i).users@ == pre.rooms.spec_at(i).users@);
            } else {
                assert(self.rooms.spec_at(i) == pre.rooms.spec_at(i));
            }
        }
    }

    /// Puts an entity into a live room and notes the membership in the
    /// world mirror. A dead room handle, or an entity the world mirror does
    /// not know, changes nothing.
    pub fn room_add_entity(&mut self, room_key: &RoomKey, entity: EntityId)
        requires
            old(self).wf(),
        ensures
            final(self).wf(),
            old(self).rooms.spec_contains(room_key.index as int, room_key.generation) && old(self).world_record.spec_has_entity(entity) ==> final(self).rooms.spec_at(
                room_key.index as int,
            ).spec_has_entity(entity) && final(self).world_record.spec_in_room(entity, *room_key),
            !(old(self).rooms.spec_contains(room_key.index as int, room_key.generation) && old(self).world_record.spec_has_entity(entity)) ==> *final(self) == *old(self),
            final(self).users == old(self).users,
            final(self).connections@ == old(self).connections@,
            final(self).events == old(self).events,
            forall|i: int, g: u64|
                final(self).rooms.spec_contains(i, g) == old(self).rooms.spec_contains(i, g),
            old(self).rooms.spec_contains(room_key.index as int, room_key.generation) ==> final(self).rooms.spec_at(room_key.index as int).users@ == old(self).rooms.spec_at(
                room_key.index as int,
            ).users@,
    {
        if !self.rooms.contains_key(room_key.index, room_key.generation) {
            return ;
        }
        if !self.world_record.has_entity(entity) {
            return ;
        }
        let mut room = match self.rooms.remove(room_key.index, room_key.generation) {
            Some(r) => r,
            None => {
                proof {
                    assert(false);
                }
                loop
                    invariant
                        false,
                    decreases 0int,
                {
                }
            },
        };
        room.add_entity(entity);
        self.rooms.put_at(room_key.index, room_key.generation, room);
        self.world_record.entity_enter_room(entity, *room_key);
        proof {
            self.lemma_symmetry_after_room_touch(*old(self), room_key.index as int);
        }
    }

    /// Takes an entity out of a live room; every (user, entity) pair of
    /// that room is queued for a visibility revisit, and the world mirror
    /// forgets the entity's room memberships.
    pub fn room_remove_entity(&mut self, room_key: &RoomKey, entity: EntityId)
        requires
            old(self).wf(),
        ensures
            final(self).wf(),
            old(self).rooms.spec_contains(room_key.index as int, room_key.generation) ==> !final(self).rooms.spec_at(room_key.index as int).spec_has_entity(entity),
            old(self).rooms.spec_contains(room_key.index as int, room_key.generation) ==> !final(self).world_record.spec_in_room(entity, *room_key),
            forall|e2: EntityId, rk2: RoomKey|
                !(e2 == entity && rk2 == *room_key) ==> final(self).world_record.spec_in_room(
                    e2,
                    rk2,
                ) == old(self).world_record.spec_in_room(e2, rk2),
            forall|e2: EntityId|
                final(self).world_record.spec_has_entity(e2) == old(self).world_record.spec_has_entity(e2),
            !old(self).rooms.spec_contains(room_key.index as int, room_key.generation)
                ==> *final(self) == *old(self),
            final(self).users == old(self).users,
            final(self).connections@ == old(self).connections@,
            final(self).events == old(self).events,
            forall|i: int, g: u64|
                final(self).rooms.spec_contains(i, g) == old(self).rooms.spec_contains(i, g),
            old(self).rooms.spec_contains(room_key.index as int, room_key.generation) ==> final(self).rooms.spec_at(room_key.index as int).users@ == old(self).rooms.spec_at(
                room_key.index as int,
            ).users@,
    {
        if !self.rooms.contains_key(room_key.index, room_key.generation) {
            return ;
        }
        let mut room = match self.rooms.remove(room_key.index, room_key.generation) {
            Some(r) => r,
            None => {
                proof {
                    assert(false);
                }
                loop
                    invariant
                        false,
                    decreases 0int,
                {
                }
            },
        };
        room.remove_entity(entity);
        self.rooms.put_at(room_key.index, room_key.generation, room);
        self.world_record.entity_leave_room(entity, *room_key);
        proof {
            self.lemma_symmetry_after_room_touch(*old(self), room_key.index as int);
        }
    }

    /// Registers a newly spawned world entity in the mirror.
    pub fn spawn_entity(&mut self, entity: EntityId)
        requires
            old(self).wf(),
            !old(self).world_record.spec_has_entity(entity),
        ensures
            final(self).wf(),
            final(self).world_record.spec_has_entity(entity),
            final(self).users == old(self).users,
            final(self).rooms == old(self).rooms,
            final(self).connections@ == old(self).connections@,
            final(self).events == old(self).events,
    {
        self.world_record.spawn_entity(entity);
        proof {
            self.lemma_wf_core_frame(*old(self));
        }
    }

    /// Records an explicit visibility override for a (user, entity) pair.
    pub fn user_scope_set_entity(&mut self, user_key: &UserKey, entity: EntityId, is_contained: bool)
        requires
            old(self).wf(),
        ensures
            final(self).wf(),
            final(self).scope_map.spec_get(*user_key, entity) == Some(is_contained),
            forall|u2: UserKey, e2: EntityId|
                !(u2 == *user_key && e2 == entity) ==> final(self).scope_map.spec_get(u2, e2)
                    == old(self).scope_map.spec_get(u2, e2),
            final(self).users == old(self).users,
            final(self).rooms == old(self).rooms,
            final(self).connections@ == old(self).connections@,
            final(self).events == old(self).events,
    {
        self.scope_map.insert(*user_key, entity, is_contained);
        proof {
            self.lemma_wf_core_frame(*old(self));
        }
    }

    /// Marks an entity as wanted in a user's scope.
    pub fn user_scope_include(&mut self, user_key: &UserKey, entity: EntityId)
        requires
            old(self).wf(),
        ensures
            final(self).wf(),
            final(self).scope_map.spec_get(*user_key, entity) == Some(true),
            forall|u2: UserKey, e2: EntityId|
                !(u2 == *user_key && e2 == entity) ==> final(self).scope_map.spec_get(u2, e2)
                    == old(self).scope_map.spec_get(u2, e2),
            final(self).users == old(self).users,
            final(self).rooms == old(self).rooms,
            final(self).connections@ == old(self).connections@,
            final(self).events == old(self).events,
    {
        self.user_scope_set_entity(user_key, entity, true);
    }

    /// Marks an entity as unwanted in a user's scope.
    pub fn user_scope_exclude(&mut self, user_key: &UserKey, entity: EntityId)
        requires
            old(self).wf(),
        ensures
            final(self).wf(),
            final(self).scope_map.spec_get(*user_key, entity) == Some(false),
            forall|u2: UserKey, e2: EntityId|
                !(u2 == *user_key && e2 == entity) ==> final(self).scope_map.spec_get(u2, e2)
                    == old(self).scope_map.spec_get(u2, e2),
            final(self).users == old(self).users,
            final(self).rooms == old(self).rooms,
            final(self).connections@ == old(self).connections@,
            final(self).events == old(self).events,
    {
        self.user_scope_set_entity(user_key, entity, false);
    }

    /// Drops every visibility override of a user.
    pub fn user_scope_remove_user(&mut self, user_key: &UserKey)
        requires
            old(self).wf(),
        ensures
            final(self).wf(),
            forall|e: EntityId| final(self).scope_map.spec_get(*user_key, e) is None,
            final(self).users == old(self).users,
            final(self).rooms == old(self).rooms,
            final(self).connections@ == old(self).connections@,
            final(self).events == old(self).events,
    {
        self.scope_map.remove_user(*user_key);
        proof {
            self.lemma_wf_core_frame(*old(self));
        }
    }

    /// Tears an entity out of the whole engine: every connection's mirror
    /// despawns it (dropping parked messages that depended on it), the
    /// world mirror forgets it, and its visibility overrides are pruned.
    /// The caller removes it from the world itself.
    pub fn despawn_entity(&mut self, entity: EntityId)
        requires
            old(self).wf(),
            old(self).world_record.spec_has_entity(entity),
        ensures
            final(self).wf(),
            !final(self).world_record.spec_has_entity(entity),
            forall|u: UserKey| final(self).scope_map.spec_get(u, entity) is None,
            forall|i: int|
                0 <= i < final(self).connections@.len() ==> !(#[trigger] final(self).connections@[i]).entity_manager.spec_scope_has(entity),
            forall|i: int, p: int|
                0 <= i < final(self).connections@.len() && 0 <= p < final(self).connections@[i].entity_manager.pending@.len() ==> !(#[trigger] final(self).connections@[i].entity_manager.pending@[p]).deps@.contains(entity),
            final(self).connections@.len() == old(self).connections@.len(),
            final(self).users == old(self).users,
            final(self).rooms == old(self).rooms,
            final(self).events == old(self).events,
    {
        let n: usize = self.connections.len();
        let mut i: usize = 0;
        while i < n
            invariant
                old(self).wf(),
                n == self.connections@.len(),
                n == old(self).connections@.len(),
                i <= n,
                self.users == old(self).users,
                self.rooms == old(self).rooms,
                self.channels == old(self).channels,
                self.scope_map == old(self).scope_map,
                self.world_record == old(self).world_record,
                self.events == old(self).events,
                self.handshake == old(self).handshake,
                self.config == old(self).config,
                self.tick_manager == old(self).tick_manager,
                self.last_now_ms == old(self).last_now_ms,
                forall|j: int|
                    0 <= j < n ==> {
                        let c = #[trigger] self.connections@[j];
                        let c0 = old(self).connections@[j];
                        &&& c.wf(self.spec_channel_count())
                        &&& c.user_key == c0.user_key
                        &&& c.address == c0.address
                        &&& c.ping_manager == c0.ping_manager
                    },
                forall|j: int|
                    0 <= j < i ==> !(#[trigger] self.connections@[j]).entity_manager.spec_scope_has(
                        entity,
                    ),
                forall|j: int, p: int|
                    0 <= j < i && 0 <= p < self.connections@[j].entity_manager.pending@.len()
                        ==> !(#[trigger] self.connections@[j].entity_manager.pending@[p]).deps@.contains(entity),
            decreases n - i,
        {
            let c = &mut self.connections[i];
            c.entity_manager.despawn_entity(entity);
            i = i + 1;
        }
        self.world_record.despawn_entity(entity);
        self.scope_map.remove_entity(entity);
        proof {
            assert forall|j: int| 0 <= j < self.connections@.len() implies ({
                let c = #[trigger] self.connections@[j];
                &&& c.wf(self.spec_channel_count())
                &&& self.users.spec_contains(c.user_key.index as int, c.user_key.generation)
                &&& self.users.spec_at(c.user_key.index as int).address == c.address
                &&& c.ping_manager.latest_ms <= self.last_now_ms
            }) by {
                let c0 = old(self).connections@[j];
                assert(old(self).conns_wf());
            }
            assert forall|a: int, b: int|
                0 <= a < b < self.connections@.len() implies self.connections@[a].address
                != self.connections@[b].address by {
                assert(old(self).connections@[a].address != old(self).connections@[b].address);
            }
            assert forall|i2: int| self.spec_user_live_at(i2) implies ({
                let u = #[trigger] self.users.spec_at(i2);
                &&& u.wf()
                &&& forall|rk: RoomKey|
                    u.room_keys@.contains(rk) ==> self.rooms.spec_contains(
                        rk.index as int,
                        rk.generation,
                    ) && self.rooms.spec_at(rk.index as int).users@.contains(
                        self.spec_user_key_at(i2),
                    )
            }) by {
                assert(old(self).spec_user_live_at(i2));
                assert(self.spec_user_key_at(i2) == old(self).spec_user_key_at(i2));
            }
            assert forall|i2: int| self.spec_room_live_at(i2) implies ({
                let r = #[trigger] self.rooms.spec_at(i2);
                &&& r.wf()
                &&& forall|uk: UserKey|
                    r.users@.contains(uk) ==> self.users.spec_contains(
                        uk.index as int,
                        uk.generation,
                    ) && self.users.spec_at(uk.index as int).room_keys@.contains(
                        self.spec_room_key_at(i2),
                    )
            }) by {
                assert(old(self).spec_room_live_at(i2));
                assert(self.spec_room_key_at(i2) == old(self).spec_room_key_at(i2));
            }
        }
    }

    /// Symmetry and uniqueness survive changes to the connections that keep
    /// every connection's identity, address and clock bound.
    proof fn lemma_conns_touch_frame(self, pre: Server)
        requires
            pre.conns_wf(),
            pre.addrs_unique(),
            pre.users_rooms_wf(),
            pre.rooms_users_wf(),
            self.users == pre.users,
            self.rooms == pre.rooms,
            self.channels == pre.channels,
            self.last_now_ms == pre.last_now_ms,
            self.connections@.len() == pre.connections@.len(),
            forall|j: int|
                0 <= j < self.connections@.len() ==> {
                    let c = #[trigger] self.connections@[j];
                    let c0 = pre.connections@[j];
                    &&& c.wf(self.spec_channel_count())
                    &&& c.user_key == c0.user_key
                    &&& c.address == c0.address
                    &&& c.ping_manager.latest_ms <= self.last_now_ms
                },
        ensures
            self.conns_wf(),
            self.addrs_unique(),
            self.users_rooms_wf(),
            self.rooms_users_wf(),
    {
        assert forall|i: int| 0 <= i < self.connections@.len() implies ({
            let c = #[trigger] self.connections@[i];
            &&& c.wf(self.spec_channel_count())
            &&& self.users.spec_contains(c.user_key.index as int, c.user_key.generation)
            &&& self.users.spec_at(c.user_key.index as int).address == c.address
            &&& c.ping_manager.latest_ms <= self.last_now_ms
        }) by {
            let c0 = pre.connections@[i];
            assert(pre.conns_wf());
        }
        assert forall|a: int, b: int|
            0 <= a < b < self.connections@.len() implies self.connections@[a].address
            != self.connections@[b].address by {
            assert(pre.connections@[a].address != pre.connections@[b].address);
        }
        assert forall|i: int| self.spec_user_live_at(i) implies ({
            let u = #[trigger] self.users.spec_at(i);
            &&& u.wf()
            &&& forall|rk: RoomKey|
                u.room_keys@.contains(rk) ==> self.rooms.spec_contains(
                    rk.index as int,
                    rk.generation,
                ) && self.rooms.spec_at(rk.index as int).users@.contains(self.spec_user_key_at(i))
        }) by {
            assert(pre.spec_user_live_at(i));
            assert(self.spec_user_key_at(i) == pre.spec_user_key_at(i));
        }
        assert forall|i: int| self.spec_room_live_at(i) implies ({
            let r = #[trigger] self.rooms.spec_at(i);
            &&& r.wf()
            &&& forall|uk: UserKey|
                r.users@.contains(uk) ==> self.users.spec_contains(
                    uk.index as int,
                    uk.generation,
                ) && self.users.spec_at(uk.index as int).room_keys@.contains(
                    self.spec_room_key_at(i),
                )
        }) by {
            assert(pre.spec_room_live_at(i));
            assert(self.spec_room_key_at(i) == pre.spec_room_key_at(i));
        }
    }

    /// Propagates a newly inserted component: the world mirror records it,
    /// and every connection that mirrors the entity queues the insert. The
    /// caller performs the world mutation itself.
    pub fn insert_component(&mut self, entity: EntityId, component: crate::types::ComponentKind)
        requires
            old(self).wf(),
            old(self).world_record.spec_has_entity(entity),
        ensures
            final(self).wf(),
            final(self).world_record.spec_has_component(entity, component),
            forall|i: int|
                0 <= i < final(self).connections@.len() && old(self).connections@[i].entity_manager.spec_scope_has(entity) ==> (#[trigger] final(self).connections@[i]).entity_manager.spec_has_component(entity, component),
            forall|i: int|
                0 <= i < old(self).connections@.len() && !old(self).connections@[i].entity_manager.spec_scope_has(entity) ==> (#[trigger] final(self).connections@[i]) == old(self).connections@[i],
            forall|i: int|
                0 <= i < old(self).connections@.len() && old(self).connections@[i].entity_manager.spec_scope_has(entity) && old(self).connections@[i].entity_manager.spec_has_component(entity, component) ==> (#[trigger] final(self).connections@[i]) == old(self).connections@[i],
            final(self).connections@.len() == old(self).connections@.len(),
            final(self).users == old(self).users,
            final(self).rooms == old(self).rooms,
            final(self).events == old(self).events,
    {
        self.world_record.add_component(entity, component);
        let ghost wr = self.world_record;
        let n: usize = self.connections.len();
        let mut i: usize = 0;
        while i < n
            invariant
                n == self.connections@.len(),
                n == old(self).connections@.len(),
                i <= n,
                self.users == old(self).users,
                self.rooms == old(self).rooms,
                self.channels == old(self).channels,
                self.scope_map == old(self).scope_map,
                self.events == old(self).events,
                self.handshake == old(self).handshake,
                self.config == old(self).config,
                self.tick_manager == old(self).tick_manager,
                self.last_now_ms == old(self).last_now_ms,
                self.world_record == wr,
                forall|j: int|
                    0 <= j < n ==> {
                        let c = #[trigger] self.connections@[j];
                        let c0 = old(self).connections@[j];
                        &&& c.wf(self.spec_channel_count())
                        &&& c.user_key == c0.user_key
                        &&& c.address == c0.address
                        &&& c.ping_manager == c0.ping_manager
                        &&& c.entity_manager.spec_scope_has(entity)
                            == c0.entity_manager.spec_scope_has(entity)
                    },
                forall|j: int|
                    0 <= j < i && old(self).connections@[j].entity_manager.spec_scope_has(entity)
                        ==> (#[trigger] self.connections@[j]).entity_manager.spec_has_component(
                        entity,
                        component,
                    ),
                forall|j: int|
                    0 <= j < i && !old(self).connections@[j].entity_manager.spec_scope_has(entity)
                        ==> (#[trigger] self.connections@[j]) == old(self).connections@[j],
                forall|j: int|
                    0 <= j < i && old(self).connections@[j].entity_manager.spec_scope_has(entity)
                        && old(self).connections@[j].entity_manager.spec_has_component(
                        entity,
                        component,
                    ) ==> (#[trigger] self.connections@[j]) == old(self).connections@[j],
                forall|j: int|
                    i <= j < n ==> (#[trigger] self.connections@[j]) == old(self).connections@[j],
            decreases n - i,
        {
            let has = self.connections[i].entity_manager.scope_has_entity(entity);
            if has {
                let c = &mut self.connections[i];
                c.entity_manager.insert_component(entity, component);
            }
            i = i + 1;
        }
        proof {
            let pre1 = Server { world_record: wr, ..*old(self) };
            assert(pre1.conns_wf() && pre1.addrs_unique() && pre1.users_rooms_wf()
                && pre1.rooms_users_wf()) by {
                old(self).lemma_wf_core_frame(pre1);
                pre1.lemma_wf_core_frame(*old(self));
            }
            self.lemma_conns_touch_frame(pre1);
        }
    }

    /// Propagates a component removal: the world mirror forgets it, and
    /// every connection queues the removal where it was mirrored. The
    /// caller performs the world mutation itself.
    pub fn remove_component(&mut self, entity: EntityId, component: crate::types::ComponentKind)
        requires
            old(self).wf(),
        ensures
            final(self).wf(),
            !final(self).world_record.spec_has_component(entity, component),
            forall|i: int|
                0 <= i < final(self).connections@.len() ==> !(#[trigger] final(self).connections@[i]).entity_manager.spec_has_component(entity, component),
            final(self).connections@.len() == old(self).connections@.len(),
            final(self).users == old(self).users,
            final(self).rooms == old(self).rooms,
            final(self).events == old(self).events,
    {
        self.world_record.remove_component(entity, component);
        let ghost wr = self.world_record;
        let n: usize = self.connections.len();
        let mut i: usize = 0;
        while i < n
            invariant
                n == self.connections@.len(),
                n == old(self).connections@.len(),
                i <= n,
                self.users == old(self).users,
                self.rooms == old(self).rooms,
                self.channels == old(self).channels,
                self.scope_map == old(self).scope_map,
                self.events == old(self).events,
                self.handshake == old(self).handshake,
                self.config == old(self).config,
                self.tick_manager == old(self).tick_manager,
                self.last_now_ms == old(self).last_now_ms,
                self.world_record == wr,
                forall|j: int|
                    0 <= j < n ==> {
                        let c = #[trigger] self.connections@[j];
                        let c0 = old(self).connections@[j];
                        &&& c.wf(self.spec_channel_count())
                        &&& c.user_key == c0.user_key
                        &&& c.address == c0.address
                        &&& c.ping_manager == c0.ping_manager
                    },
                forall|j: int|
                    0 <= j < i ==> !(#[trigger] self.connections@[j]).entity_manager.spec_has_component(
                        entity,
                        component,
                    ),
            decreases n - i,
        {
            let c = &mut self.connections[i];
            c.entity_manager.remove_component(entity, component);
            i = i + 1;
        }
        proof {
            let pre1 = Server { world_record: wr, ..*old(self) };
            assert(pre1.conns_wf() && pre1.addrs_unique() && pre1.users_rooms_wf()
                && pre1.rooms_users_wf()) by {
                old(self).lemma_wf_core_frame(pre1);
                pre1.lemma_wf_core_frame(*old(self));
            }
            self.lemma_conns_touch_frame(pre1);
        }
    }

    /// Removes a user and everything that hangs off it: its room
    /// memberships (queuing visibility revisits), its visibility overrides,
    /// its handshake nonce, and its connection. Returns the user record
    /// when a connection existed, as the disconnect path needs it.
    pub fn user_delete(&mut self, user_key: &UserKey) -> (r: Option<User>)
        requires
            old(self).wf(),
        ensures
            final(self).wf(),
            !final(self).users.spec_contains(user_key.index as int, user_key.generation),
            forall|j: int|
                0 <= j < final(self).connections@.len() ==> (#[trigger] final(self).connections@[j]).user_key != *user_key,
            forall|j: int|
                0 <= j < final(self).connections@.len() ==> old(self).connections@.contains(
                    #[trigger] final(self).connections@[j],
                ),
            old(self).users.spec_contains(user_key.index as int, user_key.generation) ==> forall|
                j: int,
            |
                0 <= j < old(self).connections@.len() && (#[trigger] old(self).connections@[j]).address != old(self).users.spec_at(user_key.index as int).address
                    ==> final(self).connections@.contains(old(self).connections@[j]),
            forall|i: int, g: u64|
                final(self).users.spec_contains(i, g) ==> old(self).users.spec_contains(i, g),
            forall|i: int, g: u64|
                i != user_key.index as int ==> final(self).users.spec_contains(i, g) == old(self).users.spec_contains(i, g),
            forall|i: int, g: u64|
                i != user_key.index as int && old(self).users.spec_contains(i, g) ==> final(self).users.spec_at(i) == old(self).users.spec_at(i),
            final(self).events == old(self).events,
            r is Some <==> (old(self).users.spec_contains(
                user_key.index as int,
                user_key.generation,
            ) && exists|j: int|
                0 <= j < old(self).connections@.len() && (#[trigger] old(self).connections@[j]).address == old(self).users.spec_at(
                    user_key.index as int,
                ).address),
            r matches Some(u) ==> u.address == old(self).users.spec_at(
                user_key.index as int,
            ).address,
            old(self).users.spec_contains(user_key.index as int, user_key.generation) ==> ({
                &&& forall|e: EntityId| final(self).scope_map.spec_get(*user_key, e) is None
                &&& final(self).handshake.spec_nonce_of(
                    old(self).users.spec_at(user_key.index as int).address,
                ) is None
            }),
            forall|u2: UserKey, e: EntityId|
                u2 != *user_key ==> final(self).scope_map.spec_get(u2, e) == old(self).scope_map.spec_get(u2, e),
            !old(self).users.spec_contains(user_key.index as int, user_key.generation) ==> *final(self) == *old(self),
            final(self).last_now_ms == old(self).last_now_ms,
            final(self).channels == old(self).channels,
            final(self).config == old(self).config,
            final(self).tick_manager == old(self).tick_manager,
            final(self).heartbeat_timer == old(self).heartbeat_timer,
            final(self).timeout_timer == old(self).timeout_timer,
            final(self).ping_timer == old(self).ping_timer,
            final(self).world_record == old(self).world_record,
    {
        if !self.users.contains_key(user_key.index, user_key.generation) {
            proof {
                assert forall|j: int|
                    0 <= j < self.connections@.len() implies old(self).connections@.contains(
                    #[trigger] self.connections@[j],
                ) by {
                    assert(old(self).connections@[j] == self.connections@[j]);
                }
            }
            return None;
        }
        let user_copy = self.user(user_key);
        proof {
            assert(user_copy.room_keys@.skip(0) =~= user_copy.room_keys@);
        }
        let addr = user_copy.address;
        // leave every room the user cached
        let rn: usize = user_copy.room_keys.len();
        let mut i: usize = 0;
        while i < rn
            invariant
                old(self).wf(),
                self.wf(),
                rn == user_copy.room_keys@.len(),
                i <= rn,
                self.users.spec_contains(user_key.index as int, user_key.generation),
                self.users.spec_at(user_key.index as int).address == addr,
                self.connections@ == old(self).connections@,
                self.events == old(self).events,
                self.last_now_ms == old(self).last_now_ms,
                self.channels == old(self).channels,
                self.config == old(self).config,
                self.tick_manager == old(self).tick_manager,
                self.heartbeat_timer == old(self).heartbeat_timer,
                self.timeout_timer == old(self).timeout_timer,
                self.ping_timer == old(self).ping_timer,
                self.world_record == old(self).world_record,
                self.scope_map == old(self).scope_map,
                self.handshake == old(self).handshake,
                forall|rk: RoomKey|
                    self.users.spec_at(user_key.index as int).room_keys@.contains(rk)
                        ==> user_copy.room_keys@.skip(i as int).contains(rk),
                forall|i2: int, g: u64|
                    i2 != user_key.index as int ==> self.users.spec_contains(i2, g) == old(self).users.spec_contains(i2, g),
                forall|i2: int, g: u64|
                    self.users.spec_contains(i2, g) == old(self).users.spec_contains(i2, g),
                forall|i2: int, g: u64|
                    i2 != user_key.index as int && old(self).users.spec_contains(i2, g)
                        ==> self.users.spec_at(i2) == old(self).users.spec_at(i2),
            decreases rn - i,
        {
            let rk = user_copy.room_keys[i];
            let ghost pre_loop = *self;
            self.room_remove_user(&rk, user_key);
            i = i + 1;
            proof {
                assert forall|rk2: RoomKey|
                    self.users.spec_at(user_key.index as int).room_keys@.contains(
                        rk2,
                    ) implies user_copy.room_keys@.skip(i as int).contains(rk2) by {
                    if rk2 != rk {
                        assert(pre_loop.users.spec_at(user_key.index as int).room_keys@.contains(
                            rk2,
                        ));
                        assert(user_copy.room_keys@.skip(i as int - 1).contains(rk2));
                        let w = choose|w: int|
                            0 <= w < user_copy.room_keys@.skip(i as int - 1).len()
                                && #[trigger] user_copy.room_keys@.skip(i as int - 1)[w] == rk2;
                        if w == 0 {
                            assert(user_copy.room_keys@.skip(i as int - 1)[0] == rk);
                            assert(false);
                        } else {
                            assert(user_copy.room_keys@.skip(i as int)[w - 1] == rk2);
                        }
                    } else {
                        assert(!self.users.spec_at(user_key.index as int).room_keys@.contains(
                            rk2,
                        ));
                    }
                }
            }
        }
        // take down the connection bound to this address, if any
        let had_conn = match self.find_connection(addr) {
            Some(ci) => {
                let ghost pre_rm = *self;
                self.connections.remove(ci);
                proof {
                    assert forall|j: int| 0 <= j < self.connections@.len() implies ({
                        let c = #[trigger] self.connections@[j];
                        &&& c.wf(self.spec_channel_count())
                        &&& self.users.spec_contains(
                            c.user_key.index as int,
                            c.user_key.generation,
                        )
                        &&& self.users.spec_at(c.user_key.index as int).address == c.address
                        &&& c.ping_manager.latest_ms <= self.last_now_ms
                        &&& old(self).connections@.contains(c)
                    }) by {
                        let sj: int = if j < ci as int {
                            j
                        } else {
                            j + 1
                        };
                        assert(self.connections@[j] == pre_rm.connections@[sj]);
                    }
                    assert forall|a: int, b: int|
                        0 <= a < b < self.connections@.len() implies self.connections@[a].address
                        != self.connections@[b].address by {
                        let sa: int = if a < ci as int {
                            a
                        } else {
                            a + 1
                        };
                        let sb: int = if b < ci as int {
                            b
                        } else {
                            b + 1
                        };
                        assert(self.connections@[a] == pre_rm.connections@[sa]);
                        assert(self.connections@[b] == pre_rm.connections@[sb]);
                    }
                    assert forall|j: int|
                        0 <= j < self.connections@.len() implies (#[trigger] self.connections@[j]).address
                        != addr by {
                        let sj: int = if j < ci as int {
                            j
                        } else {
                            j + 1
                        };
                        assert(self.connections@[j] == pre_rm.connections@[sj]);
                        if pre_rm.connections@[sj].address == addr {
                            if sj < ci as int {
                                assert(pre_rm.connections@[sj].address != pre_rm.connections@[ci as int].address);
                            } else {
                                assert(pre_rm.connections@[ci as int].address != pre_rm.connections@[sj].address);
                            }
                        }
                    }
                    assert forall|j: int|
                        0 <= j < pre_rm.connections@.len() && (#[trigger] pre_rm.connections@[j]).address != addr implies self.connections@.contains(
                        pre_rm.connections@[j],
                    ) by {
                        assert(j != ci as int);
                        let tj: int = if j < ci as int {
                            j
                        } else {
                            j - 1
                        };
                        assert(self.connections@[tj] == pre_rm.connections@[j]);
                    }
                }
                true
            },
            None => false,
        };
        self.scope_map.remove_user(*user_key);
        self.handshake.delete_user(addr);
        let ghost pre_final = *self;
        self.users.remove(user_key.index, user_key.generation);
        proof {
            // no remaining connection is bound to this user: it would share
            // the user's address with the connection just removed
            assert forall|j: int| 0 <= j < self.connections@.len() implies ({
                let c = #[trigger] self.connections@[j];
                &&& c.wf(self.spec_channel_count())
                &&& self.users.spec_contains(c.user_key.index as int, c.user_key.generation)
                &&& self.users.spec_at(c.user_key.index as int).address == c.address
                &&& c.ping_manager.latest_ms <= self.last_now_ms
                &&& c.user_key != *user_key
            }) by {
                let c = self.connections@[j];
                assert(old(self).connections@.contains(c));
                assert(pre_final.users.spec_contains(
                    c.user_key.index as int,
                    c.user_key.generation,
                ));
                if c.user_key == *user_key {
                    assert(c.address == addr);
                    assert(false);
                }
                assert(c.user_key.index as int != user_key.index as int
                    || c.user_key.generation != user_key.generation);
                if c.user_key.index as int == user_key.index as int {
                    assert(pre_final.users.slots@[user_key.index as int].generation
                        == user_key.generation);
                    assert(false);
                }
            }
            assert forall|i2: int| self.spec_user_live_at(i2) implies ({
                let u = #[trigger] self.users.spec_at(i2);
                &&& u.wf()
                &&& forall|rk: RoomKey|
                    u.room_keys@.contains(rk) ==> self.rooms.spec_contains(
                        rk.index as int,
                        rk.generation,
                    ) && self.rooms.spec_at(rk.index as int).users@.contains(
                        self.spec_user_key_at(i2),
                    )
            }) by {
                assert(i2 != user_key.index as int);
                assert(pre_final.spec_user_live_at(i2));
                assert(self.users.spec_at(i2) == pre_final.users.spec_at(i2));
                assert(self.spec_user_key_at(i2) == pre_final.spec_user_key_at(i2));
            }
            assert forall|i2: int| self.spec_room_live_at(i2) implies ({
                let r = #[trigger] self.rooms.spec_at(i2);
                &&& r.wf()
                &&& forall|uk: UserKey|
                    r.users@.contains(uk) ==> self.users.spec_contains(
                        uk.index as int,
                        uk.generation,
                    ) && self.users.spec_at(uk.index as int).room_keys@.contains(
                        self.spec_room_key_at(i2),
                    )
            }) by {
                assert(pre_final.spec_room_live_at(i2));
                assert(self.spec_room_key_at(i2) == pre_final.spec_room_key_at(i2));
                assert forall|uk: UserKey|
                    self.rooms.spec_at(i2).users@.contains(uk) implies self.users.spec_contains(
                    uk.index as int,
                    uk.generation,
                ) && self.users.spec_at(uk.index as int).room_keys@.contains(
                    self.spec_room_key_at(i2),
                ) by {
                    assert(pre_final.users.spec_contains(uk.index as int, uk.generation));
                    assert(pre_final.users.spec_at(uk.index as int).room_keys@.contains(
                        pre_final.spec_room_key_at(i2),
                    ));
                    if uk.index as int == user_key.index as int {
                        assert(uk.generation == user_key.generation);
                        assert(!pre_final.users.spec_at(user_key.index as int).room_keys@.contains(
                            pre_final.spec_room_key_at(i2),
                        ));
                        assert(false);
                    }
                }
            }
        }
        proof {
            assert forall|j: int|
                0 <= j < self.connections@.len() implies old(self).connections@.contains(
                #[trigger] self.connections@[j],
            ) by {
                if !had_conn {
                    assert(self.connections@[j] == old(self).connections@[j]);
                }
            }
            assert forall|j: int|
                0 <= j < old(self).connections@.len() && (#[trigger] old(self).connections@[j]).address != addr implies self.connections@.contains(
                old(self).connections@[j],
            ) by {
                if !had_conn {
                    assert(self.connections@[j] == old(self).connections@[j]);
                }
            }
        }
        if had_conn {
            Some(user_copy)
        } else {
            None
        }
    }

    /// Disconnects a user: deletes it, and surfaces the disconnection to
    /// the application when a connection was actually torn down.
    pub fn user_disconnect(&mut self, user_key: &UserKey)
        requires
            old(self).wf(),
        ensures
            final(self).wf(),
            !final(self).users.spec_contains(user_key.index as int, user_key.generation),
            forall|j: int|
                0 <= j < final(self).connections@.len() ==> (#[trigger] final(self).connections@[j]).user_key != *user_key,
            forall|j: int|
                0 <= j < final(self).connections@.len() ==> old(self).connections@.contains(
                    #[trigger] final(self).connections@[j],
                ),
            old(self).users.spec_contains(user_key.index as int, user_key.generation) ==> forall|
                j: int,
            |
                0 <= j < old(self).connections@.len() && (#[trigger] old(self).connections@[j]).address != old(self).users.spec_at(user_key.index as int).address
                    ==> final(self).connections@.contains(old(self).connections@[j]),
            !old(self).users.spec_contains(user_key.index as int, user_key.generation)
                ==> final(self).connections@ == old(self).connections@,
            forall|i: int, g: u64|
                final(self).users.spec_contains(i, g) ==> old(self).users.spec_contains(i, g),
            forall|i: int, g: u64|
                i != user_key.index as int ==> final(self).users.spec_contains(i, g) == old(self).users.spec_contains(i, g),
            forall|i: int, g: u64|
                i != user_key.index as int && old(self).users.spec_contains(i, g) ==> final(self).users.spec_at(i) == old(self).users.spec_at(i),
            old(self).events.list@.is_prefix_of(final(self).events.list@),
            ({
                let torn_down = old(self).users.spec_contains(
                    user_key.index as int,
                    user_key.generation,
                ) && exists|j: int|
                    0 <= j < old(self).connections@.len() && (#[trigger] old(self).connections@[j]).address == old(self).users.spec_at(user_key.index as int).address;
                &&& torn_down ==> final(self).events.list@.len() == old(self).events.list@.len()
                    + 1 && (final(self).events.list@.last() matches
                    crate::events::Event::Disconnection(uk2, _) && uk2 == *user_key)
                &&& !torn_down ==> final(self).events == old(self).events
            }),
            !final(self).users.spec_contains(user_key.index as int, user_key.generation),
            old(self).users.spec_contains(user_key.index as int, user_key.generation) ==> forall|
                e: EntityId,
            | final(self).scope_map.spec_get(*user_key, e) is None,
            forall|u2: UserKey, e: EntityId|
                u2 != *user_key ==> final(self).scope_map.spec_get(u2, e) == old(self).scope_map.spec_get(u2, e),
            !old(self).users.spec_contains(user_key.index as int, user_key.generation)
                ==> *final(self) == *old(self),
            final(self).last_now_ms == old(self).last_now_ms,
            final(self).channels == old(self).channels,
            final(self).config == old(self).config,
            final(self).tick_manager == old(self).tick_manager,
            final(self).heartbeat_timer == old(self).heartbeat_timer,
            final(self).timeout_timer == old(self).timeout_timer,
            final(self).ping_timer == old(self).ping_timer,
            final(self).world_record == old(self).world_record,
    {
        match self.user_delete(user_key) {
            Some(user) => {
                self.events.push_disconnection(*user_key, user);
                proof {
                    assert(old(self).events.list@.is_prefix_of(self.events.list@));
                }
            },
            None => {},
        }
    }

    /// Destroys a room: every entity leaves it first, then every member
    /// user, and finally the room itself is removed. Returns whether the
    /// room existed.
    pub fn room_destroy(&mut self, room_key: &RoomKey) -> (r: bool)
        requires
            old(self).wf(),
        ensures
            final(self).wf(),
            r == old(self).rooms.spec_contains(room_key.index as int, room_key.generation),
            !final(self).rooms.spec_contains(room_key.index as int, room_key.generation),
            old(self).rooms.spec_contains(room_key.index as int, room_key.generation) ==> forall|
                e: EntityId,
            |
                old(self).rooms.spec_at(room_key.index as int).entities@.contains(e)
                    ==> !final(self).world_record.spec_in_room(e, *room_key),
            final(self).connections@ == old(self).connections@,
            final(self).events == old(self).events,
    {
        if !self.rooms.contains_key(room_key.index, room_key.generation) {
            return false;
        }
        // copy out the memberships, then undo each through the symmetric ops
        let (ents, uks) = match self.rooms.get(room_key.index, room_key.generation) {
            Some(room) => {
                let mut ents: Vec<EntityId> = Vec::new();
                let en: usize = room.entities.len();
                let mut i: usize = 0;
                while i < en
                    invariant
                        en == room.entities@.len(),
                        i <= en,
                        ents@ =~= room.entities@.take(i as int),
                    decreases en - i,
                {
                    ents.push(room.entities[i]);
                    i = i + 1;
                }
                let mut uks: Vec<UserKey> = Vec::new();
                let un: usize = room.users.len();
                let mut j: usize = 0;
                while j < un
                    invariant
                        un == room.users@.len(),
                        j <= un,
                        uks@ =~= room.users@.take(j as int),
                    decreases un - j,
                {
                    uks.push(room.users[j]);
                    j = j + 1;
                }
                proof {
                    assert(room.entities@.take(en as int) =~= room.entities@);
                    assert(room.users@.take(un as int) =~= room.users@);
                }
                (ents, uks)
            },
            None => {
                proof {
                    assert(false);
                }
                (Vec::new(), Vec::new())
            },
        };
        let en: usize = ents.len();
        let mut i: usize = 0;
        while i < en
            invariant
                self.wf(),
                en == ents@.len(),
                i <= en,
                crate::types::no_dup(ents@),
                self.rooms.spec_contains(room_key.index as int, room_key.generation),
                self.rooms.spec_at(room_key.index as int).users@ == old(self).rooms.spec_at(
                    room_key.index as int,
                ).users@,
                self.connections@ == old(self).connections@,
                self.events == old(self).events,
                forall|k: int|
                    0 <= k < i ==> !self.world_record.spec_in_room(
                        #[trigger] ents@[k],
                        *room_key,
                    ),
            decreases en - i,
        {
            self.room_remove_entity(room_key, ents[i]);
            i = i + 1;
        }
        let un: usize = uks.len();
        let ghost mid = *self;
        let mut j: usize = 0;
        while j < un
            invariant
                self.wf(),
                un == uks@.len(),
                j <= un,
                self.rooms.spec_contains(room_key.index as int, room_key.generation),
                self.connections@ == old(self).connections@,
                self.events == old(self).events,
                forall|uk: UserKey|
                    self.rooms.spec_at(room_key.index as int).users@.contains(uk)
                        ==> mid.rooms.spec_at(room_key.index as int).users@.contains(uk),
                forall|k: int|
                    0 <= k < j ==> !self.rooms.spec_at(room_key.index as int).users@.contains(
                        #[trigger] uks@[k],
                    ),
                forall|k: int|
                    0 <= k < ents@.len() ==> !self.world_record.spec_in_room(
                        #[trigger] ents@[k],
                        *room_key,
                    ),
            decreases un - j,
        {
            let ghost pre_it = *self;
            self.room_remove_user(room_key, &uks[j]);
            j = j + 1;
            proof {
                assert forall|k: int|
                    0 <= k < j implies !self.rooms.spec_at(
                        room_key.index as int,
                    ).users@.contains(#[trigger] uks@[k]) by {
                    if uks@[k] != uks@[j - 1] {
                        assert(self.rooms.spec_at(room_key.index as int).users@.contains(uks@[k])
                            == pre_it.rooms.spec_at(room_key.index as int).users@.contains(
                            uks@[k],
                        ));
                    }
                }
            }
        }
        // every member is gone now; drop the room cell itself
        let ghost pre_drop = *self;
        self.rooms.remove(room_key.index, room_key.generation);
        proof {
            assert forall|uk: UserKey|
                !pre_drop.rooms.spec_at(room_key.index as int).users@.contains(uk) by {
                if pre_drop.rooms.spec_at(room_key.index as int).users@.contains(uk) {
                    assert(mid.rooms.spec_at(room_key.index as int).users@.contains(uk));
                    assert(mid.rooms.spec_at(room_key.index as int).users@
                        =~= uks@);
                    let w = choose|w: int| 0 <= w < uks@.len() && uks@[w] == uk;
                    assert(false);
                }
            }
            assert forall|i2: int| self.spec_user_live_at(i2) implies ({
                let u = #[trigger] self.users.spec_at(i2);
                &&& u.wf()
                &&& forall|rk: RoomKey|
                    u.room_keys@.contains(rk) ==> self.rooms.spec_contains(
                        rk.index as int,
                        rk.generation,
                    ) && self.rooms.spec_at(rk.index as int).users@.contains(
                        self.spec_user_key_at(i2),
                    )
            }) by {
                assert(pre_drop.spec_user_live_at(i2));
                assert(self.users.spec_at(i2) == pre_drop.users.spec_at(i2));
                assert(self.spec_user_key_at(i2) == pre_drop.spec_user_key_at(i2));
                assert forall|rk: RoomKey|
                    self.users.spec_at(i2).room_keys@.contains(rk) implies self.rooms.spec_contains(
                    rk.index as int,
                    rk.generation,
                ) && self.rooms.spec_at(rk.index as int).users@.contains(
                    self.spec_user_key_at(i2),
                ) by {
                    assert(pre_drop.rooms.spec_contains(rk.index as int, rk.generation));
                    assert(pre_drop.rooms.spec_at(rk.index as int).users@.contains(
                        pre_drop.spec_user_key_at(i2),
                    ));
                    if rk.index as int == room_key.index as int {
                        assert(rk.generation == room_key.generation);
                        assert(false);
                    }
                }
            }
            assert forall|i2: int| self.spec_room_live_at(i2) implies ({
                let r2 = #[trigger] self.rooms.spec_at(i2);
                &&& r2.wf()
                &&& forall|uk: UserKey|
                    r2.users@.contains(uk) ==> self.users.spec_contains(
                        uk.index as int,
                        uk.generation,
                    ) && self.users.spec_at(uk.index as int).room_keys@.contains(
                        self.spec_room_key_at(i2),
                    )
            }) by {
                assert(i2 != room_key.index as int);
                assert(pre_drop.spec_room_live_at(i2));
                assert(self.rooms.spec_at(i2) == pre_drop.rooms.spec_at(i2));
                assert(self.spec_room_key_at(i2) == pre_drop.spec_room_key_at(i2));
            }
        }
        true
    }

    /// Queues a message for one client. A message that references entities
    /// is sent outright only when every referenced entity is already
    /// mirrored at that client; otherwise it is parked until they are. The
    /// channel must be one the server may send on — sending against the
    /// channel's direction is a programming error, so it is excluded here
    /// rather than tolerated.
    pub fn send_message(
        &mut self,
        user_key: &UserKey,
        channel: crate::types::ChannelId,
        payload: Vec<u8>,
        entity_deps: Vec<EntityId>,
    )
        requires
            old(self).wf(),
            old(self).channels.spec_valid(channel),
            old(self).channels.spec_meta(channel).spec_can_send_to_client(),
        ensures
            final(self).wf(),
            final(self).connections@.len() == old(self).connections@.len(),
            final(self).events == old(self).events,
            final(self).users == old(self).users,
            final(self).rooms == old(self).rooms,
            final(self).channels == old(self).channels,
            final(self).config == old(self).config,
            final(self).handshake == old(self).handshake,
            final(self).scope_map == old(self).scope_map,
            final(self).world_record == old(self).world_record,
            final(self).tick_manager == old(self).tick_manager,
            final(self).last_now_ms == old(self).last_now_ms,
            final(self).heartbeat_timer == old(self).heartbeat_timer,
            final(self).timeout_timer == old(self).timeout_timer,
            final(self).ping_timer == old(self).ping_timer,
            forall|j: int|
                0 <= j < old(self).connections@.len() ==> (#[trigger] final(self).connections@[j]).user_key == old(self).connections@[j].user_key && final(self).connections@[j].address == old(self).connections@[j].address
                    && final(self).connections@[j].message_manager.outgoing@.len()
                    + final(self).connections@[j].entity_manager.pending@.len() >= old(self).connections@[j].message_manager.outgoing@.len() + old(self).connections@[j].entity_manager.pending@.len(),
            forall|j: int|
                0 <= j < old(self).connections@.len() && (old(self).users.spec_contains(
                    user_key.index as int,
                    user_key.generation,
                ) ==> (#[trigger] old(self).connections@[j]).address != old(self).users.spec_at(
                    user_key.index as int,
                ).address) ==> final(self).connections@[j] == old(self).connections@[j],
            old(self).users.spec_contains(user_key.index as int, user_key.generation) ==> forall|
                j: int,
            |
                0 <= j < old(self).connections@.len() && (#[trigger] old(self).connections@[j]).address == old(self).users.spec_at(
                    user_key.index as int,
                ).address ==> ({
                    let c0 = old(self).connections@[j];
                    let c1 = final(self).connections@[j];
                    if crate::entity_manager::deps_open_in(c0.entity_manager.spawned@, entity_deps@) {
                        c1.message_manager.outgoing@ == c0.message_manager.outgoing@.push(
                            crate::message_manager::OutgoingMessage {
                                channel,
                                seq: c0.message_manager.next_send_seq@[channel as int],
                                payload,
                                reliable: old(self).channels.spec_meta(channel).reliability
                                    == crate::channels::ChannelReliability::Reliable,
                                entity_deps,
                                sent_once: false,
                                last_sent_ms: 0,
                                packet_seq: 0,
                            },
                        ) && c1.entity_manager.pending@ == c0.entity_manager.pending@
                    } else {
                        c1.entity_manager.pending@ == c0.entity_manager.pending@.push(
                            crate::entity_manager::PendingMessage {
                                channel,
                                payload,
                                deps: entity_deps,
                            },
                        ) && c1.message_manager.outgoing@ == c0.message_manager.outgoing@
                    }
                }),
    {
        let user_addr = match self.users.get(user_key.index, user_key.generation) {
            Some(u) => u.address,
            None => {
                return ;
            },
        };
        let ci = match self.find_connection(user_addr) {
            Some(ci) => ci,
            None => {
                proof {
                    assert forall|j: int|
                        0 <= j < old(self).connections@.len() && old(self).connections@[j].address == user_addr implies false by {}
                }
                return ;
            },
        };
        let meta = match self.channels.get(channel) {
            Some(m) => m,
            None => {
                proof {
                    assert(false);
                }
                loop
                    invariant
                        false,
                    decreases 0int,
                {
                }
            },
        };
        let reliable = match meta.reliability {
            crate::channels::ChannelReliability::Reliable => true,
            crate::channels::ChannelReliability::Unreliable => false,
        };
        let all_open = {
            let c = &self.connections[ci];
            crate::entity_manager::deps_all_open(&c.entity_manager.spawned, &entity_deps)
        };
        if all_open {
            let c = &mut self.connections[ci];
            c.message_manager.send_message(channel, payload, entity_deps, reliable);
        } else {
            let c = &mut self.connections[ci];
            c.entity_manager.queue_entity_message(channel, payload, entity_deps);
            proof {
                let em = self.connections@[ci as int].entity_manager;
                assert forall|p: int| 0 <= p < em.pending@.len() implies !crate::entity_manager::deps_open_in(
                    em.spawned@,
                    (#[trigger] em.pending@[p]).deps@,
                ) by {
                    let em0 = old(self).connections@[ci as int].entity_manager;
                    if p < em0.pending@.len() as int {
                        assert(em.pending@[p] == em0.pending@[p]);
                    }
                }
            }
        }
        proof {
            assert forall|a: int, b: int|
                0 <= a < b < self.connections@.len() implies self.connections@[a].address
                != self.connections@[b].address by {
                assert(old(self).connections@[a].address != old(self).connections@[b].address);
            }
            self.lemma_conns_touch_frame(*old(self));
            assert forall|j: int|
                0 <= j < old(self).connections@.len() && old(self).connections@[j].address
                    == user_addr implies j == ci as int by {
                if j != ci as int {
                    assert(old(self).connections@[j].address != old(self).connections@[ci as int].address);
                }
            }
        }
    }

    /// Queues a message to every connected user.
    pub fn broadcast_message(
        &mut self,
        channel: crate::types::ChannelId,
        payload: Vec<u8>,
        entity_deps: Vec<EntityId>,
    )
        requires
            old(self).wf(),
            old(self).channels.spec_valid(channel),
            old(self).channels.spec_meta(channel).spec_can_send_to_client(),
        ensures
            final(self).wf(),
            final(self).connections@.len() == old(self).connections@.len(),
            final(self).events == old(self).events,
            // every connected user's connection gained a copy, queued or
            // parked
            forall|j: int|
                0 <= j < old(self).connections@.len() ==> (#[trigger] final(self).connections@[j]).message_manager.outgoing@.len() + final(self).connections@[j].entity_manager.pending@.len() >= old(self).connections@[j].message_manager.outgoing@.len()
                    + old(self).connections@[j].entity_manager.pending@.len() + 1,
    {
        let keys = self.user_keys();
        let n: usize = keys.len();
        let mut i: usize = 0;
        while i < n
            invariant
                self.wf(),
                old(self).wf(),
                n == keys@.len(),
                i <= n,
                self.channels == old(self).channels,
                old(self).channels.spec_valid(channel),
                old(self).channels.spec_meta(channel).spec_can_send_to_client(),
                self.connections@.len() == old(self).connections@.len(),
                self.users == old(self).users,
                self.events == old(self).events,
                crate::types::no_dup(keys@),
                forall|w: int|
                    0 <= w < keys@.len() ==> old(self).users.spec_contains(
                        (#[trigger] keys@[w]).index as int,
                        keys@[w].generation,
                    ),
                forall|i2: int, g: u64|
                    old(self).users.spec_contains(i2, g) ==> keys@.contains(
                        UserKey { index: i2 as usize, generation: g },
                    ),
                forall|j: int|
                    0 <= j < old(self).connections@.len() ==> (#[trigger] self.connections@[j]).user_key == old(self).connections@[j].user_key && self.connections@[j].address == old(self).connections@[j].address,
                forall|j: int|
                    0 <= j < old(self).connections@.len() ==> (#[trigger] self.connections@[j]).message_manager.outgoing@.len() + self.connections@[j].entity_manager.pending@.len() >= old(self).connections@[j].message_manager.outgoing@.len()
                        + old(self).connections@[j].entity_manager.pending@.len(),
                forall|j: int|
                    0 <= j < old(self).connections@.len() && (exists|w: int|
                        0 <= w < i && #[trigger] keys@[w]
                            == old(self).connections@[j].user_key) ==> (
                    #[trigger] self.connections@[j]).message_manager.outgoing@.len()
                        + self.connections@[j].entity_manager.pending@.len() >= old(self).connections@[j].message_manager.outgoing@.len()
                        + old(self).connections@[j].entity_manager.pending@.len() + 1,
            decreases n - i,
        {
            let k = keys[i];
            let ghost step_pre = *self;
            let p = crate::message_manager::clone_bytes(&payload);
            let d = copy_entity_ids(&entity_deps);
            self.send_message(&k, channel, p, d);
            i = i + 1;
            proof {
                assert forall|j: int|
                    0 <= j < old(self).connections@.len() && (exists|w: int|
                        0 <= w < i && #[trigger] keys@[w]
                            == old(self).connections@[j].user_key) implies (
                    #[trigger] self.connections@[j]).message_manager.outgoing@.len()
                        + self.connections@[j].entity_manager.pending@.len() >= old(self).connections@[j].message_manager.outgoing@.len()
                        + old(self).connections@[j].entity_manager.pending@.len() + 1 by {
                    let w = choose|w: int|
                        0 <= w < i && #[trigger] keys@[w]
                            == old(self).connections@[j].user_key;
                    if w == i - 1 {
                        // this round targeted exactly this connection
                        assert(step_pre.users.spec_contains(k.index as int, k.generation));
                        assert(step_pre.connections@[j].user_key == k);
                        assert(step_pre.users.spec_at(k.index as int).address
                            == step_pre.connections@[j].address);
                    }
                }
            }
        }
        proof {
            assert forall|j: int|
                0 <= j < old(self).connections@.len() implies (#[trigger] self.connections@[j]).message_manager.outgoing@.len() + self.connections@[j].entity_manager.pending@.len() >= old(self).connections@[j].message_manager.outgoing@.len()
                + old(self).connections@[j].entity_manager.pending@.len() + 1 by {
                let uk = old(self).connections@[j].user_key;
                assert(old(self).users.spec_contains(uk.index as int, uk.generation));
                assert(keys@.contains(UserKey { index: uk.index, generation: uk.generation }));
                let w = choose|w2: int| 0 <= w2 < keys@.len() && keys@[w2] == (UserKey {
                    index: uk.index,
                    generation: uk.generation,
                });
                assert(keys@[w] == uk);
            }
        }
    }

    /// Queues a message to every user standing in a room.
    pub fn room_broadcast_message(
        &mut self,
        channel: crate::types::ChannelId,
        payload: Vec<u8>,
        entity_deps: Vec<EntityId>,
        room_key: &RoomKey,
    )
        requires
            old(self).wf(),
            old(self).channels.spec_valid(channel),
            old(self).channels.spec_meta(channel).spec_can_send_to_client(),
        ensures
            final(self).wf(),
            final(self).connections@.len() == old(self).connections@.len(),
            final(self).events == old(self).events,
            // every member's connection gained a copy, queued or parked
            old(self).rooms.spec_contains(room_key.index as int, room_key.generation) ==> forall|
                j: int,
            |
                0 <= j < old(self).connections@.len() && old(self).rooms.spec_at(
                    room_key.index as int,
                ).users@.contains((#[trigger] old(self).connections@[j]).user_key) ==> final(self).connections@[j].message_manager.outgoing@.len() + final(self).connections@[j].entity_manager.pending@.len() >= old(self).connections@[j].message_manager.outgoing@.len()
                    + old(self).connections@[j].entity_manager.pending@.len() + 1,
    {
        let keys = self.room_user_keys(room_key);
        let n: usize = keys.len();
        let mut i: usize = 0;
        while i < n
            invariant
                self.wf(),
                old(self).wf(),
                n == keys@.len(),
                i <= n,
                self.channels == old(self).channels,
                old(self).channels.spec_valid(channel),
                old(self).channels.spec_meta(channel).spec_can_send_to_client(),
                self.connections@.len() == old(self).connections@.len(),
                self.users == old(self).users,
                self.events == old(self).events,
                old(self).rooms.spec_contains(room_key.index as int, room_key.generation)
                    ==> keys@ == old(self).rooms.spec_at(room_key.index as int).users@,
                forall|j: int|
                    0 <= j < old(self).connections@.len() ==> (#[trigger] self.connections@[j]).user_key == old(self).connections@[j].user_key && self.connections@[j].address == old(self).connections@[j].address,
                forall|j: int|
                    0 <= j < old(self).connections@.len() ==> (#[trigger] self.connections@[j]).message_manager.outgoing@.len() + self.connections@[j].entity_manager.pending@.len() >= old(self).connections@[j].message_manager.outgoing@.len()
                        + old(self).connections@[j].entity_manager.pending@.len(),
                forall|j: int|
                    0 <= j < old(self).connections@.len() && (exists|w: int|
                        0 <= w < i && #[trigger] keys@[w]
                            == old(self).connections@[j].user_key) ==> (
                    #[trigger] self.connections@[j]).message_manager.outgoing@.len()
                        + self.connections@[j].entity_manager.pending@.len() >= old(self).connections@[j].message_manager.outgoing@.len()
                        + old(self).connections@[j].entity_manager.pending@.len() + 1,
            decreases n - i,
        {
            let k = keys[i];
            let ghost step_pre = *self;
            let p = crate::message_manager::clone_bytes(&payload);
            let d = copy_entity_ids(&entity_deps);
            self.send_message(&k, channel, p, d);
            i = i + 1;
            proof {
                assert forall|j: int|
                    0 <= j < old(self).connections@.len() && (exists|w: int|
                        0 <= w < i && #[trigger] keys@[w]
                            == old(self).connections@[j].user_key) implies (
                    #[trigger] self.connections@[j]).message_manager.outgoing@.len()
                        + self.connections@[j].entity_manager.pending@.len() >= old(self).connections@[j].message_manager.outgoing@.len()
                        + old(self).connections@[j].entity_manager.pending@.len() + 1 by {
                    let w = choose|w: int|
                        0 <= w < i && #[trigger] keys@[w]
                            == old(self).connections@[j].user_key;
                    if w == i - 1 {
                        assert(step_pre.users.spec_contains(k.index as int, k.generation));
                        assert(step_pre.connections@[j].user_key == k);
                        assert(step_pre.users.spec_at(k.index as int).address
                            == step_pre.connections@[j].address);
                    }
                }
            }
        }
        proof {
            if old(self).rooms.spec_contains(room_key.index as int, room_key.generation) {
                assert forall|j: int|
                    0 <= j < old(self).connections@.len() && old(self).rooms.spec_at(
                        room_key.index as int,
                    ).users@.contains(
                        (#[trigger] old(self).connections@[j]).user_key,
                    ) implies self.connections@[j].message_manager.outgoing@.len()
                    + self.connections@[j].entity_manager.pending@.len() >= old(self).connections@[j].message_manager.outgoing@.len()
                    + old(self).connections@[j].entity_manager.pending@.len() + 1 by {
                    let uk = old(self).connections@[j].user_key;
                    let w = choose|w2: int| 0 <= w2 < keys@.len() && keys@[w2] == uk;
                }
            }
        }
    }

    /// Finalizes a handshake: creates the connection for an accepted user,
    /// surfaces the connection event, and returns the acceptance datagram
    /// to send. A dead user handle changes nothing.
    pub fn accept_connection(&mut self, user_key: &UserKey) -> (out: Vec<OutgoingPacket>)
        requires
            old(self).wf(),
        ensures
            final(self).wf(),
            old(self).users.spec_contains(user_key.index as int, user_key.generation) ==> ({
                &&& exists|j: int|
                    0 <= j < final(self).connections@.len() && (#[trigger] final(self).connections@[j]).user_key == *user_key && final(self).connections@[j].address
                        == old(self).users.spec_at(user_key.index as int).address
                &&& final(self).events.list@ == old(self).events.list@.push(
                    crate::events::Event::Connection(*user_key),
                )
                &&& out@.len() == 1
                &&& out@[0].address == old(self).users.spec_at(user_key.index as int).address
                &&& out@[0].bytes@ == crate::packet::header_bytes(
                    crate::packet::StandardHeader {
                        packet_type: crate::packet::PacketType::ServerConnectResponse,
                        local_seq: 0,
                        remote_seq: 0,
                        ack_bitfield: 0,
                    },
                )
            }),
            !old(self).users.spec_contains(user_key.index as int, user_key.generation) ==> *final(self) == *old(self) && out@.len() == 0,
            final(self).users == old(self).users,
            final(self).rooms == old(self).rooms,
            final(self).last_now_ms == old(self).last_now_ms,
            final(self).channels == old(self).channels,
            final(self).config == old(self).config,
            final(self).tick_manager == old(self).tick_manager,
            final(self).handshake == old(self).handshake,
            final(self).scope_map == old(self).scope_map,
            final(self).world_record == old(self).world_record,
    {
        let addr = match self.users.get(user_key.index, user_key.generation) {
            Some(u) => u.address,
            None => {
                return Vec::new();
            },
        };
        let channel_count = self.channels.channel_count();
        let conn = Connection::new(
            *user_key,
            addr,
            channel_count,
            self.config.ping_interval_ms,
            self.last_now_ms,
        );
        let bytes = self.handshake.write_connect_response();
        let mut out: Vec<OutgoingPacket> = Vec::new();
        out.push(OutgoingPacket { address: addr, bytes });
        let ghost mut widx: int = 0;
        match self.find_connection(addr) {
            Some(ci) => {
                proof {
                    widx = ci as int;
                }
                self.connections[ci] = conn;
                proof {
                    assert forall|a: int, b: int|
                        0 <= a < b < self.connections@.len() implies self.connections@[a].address
                        != self.connections@[b].address by {
                        assert(old(self).connections@[a].address != old(self).connections@[b].address);
                        if a != ci as int && b != ci as int {
                            assert(self.connections@[a] == old(self).connections@[a]);
                        }
                    }
                    self.lemma_conns_touch_frame_partial(*old(self));
                }
            },
            None => {
                proof {
                    widx = self.connections@.len() as int;
                }
                self.connections.push(conn);
                proof {
                    assert forall|a: int, b: int|
                        0 <= a < b < self.connections@.len() implies self.connections@[a].address
                        != self.connections@[b].address by {
                        if b < old(self).connections@.len() as int {
                            assert(old(self).connections@[a].address != old(self).connections@[b].address);
                        } else {
                            assert(self.connections@[a] == old(self).connections@[a]);
                            assert(old(self).connections@[a].address != addr);
                        }
                    }
                    self.lemma_conns_touch_frame_partial(*old(self));
                }
            },
        }
        self.events.push_connection(*user_key);
        proof {
            assert(0 <= widx < self.connections@.len());
            assert(self.connections@[widx].user_key == *user_key);
            assert(self.connections@[widx].address == addr);
        }
        out
    }

    /// Like the connection-frame lemma, but allows connections to have been
    /// replaced or added, as long as each is well formed, bound to a live
    /// user at its address, and inside the clock bound.
    proof fn lemma_conns_touch_frame_partial(self, pre: Server)
        requires
            pre.users_rooms_wf(),
            pre.rooms_users_wf(),
            self.users == pre.users,
            self.rooms == pre.rooms,
            forall|j: int|
                0 <= j < self.connections@.len() ==> {
                    let c = #[trigger] self.connections@[j];
                    &&& c.wf(self.spec_channel_count())
                    &&& self.users.spec_contains(c.user_key.index as int, c.user_key.generation)
                    &&& self.users.spec_at(c.user_key.index as int).address == c.address
                    &&& c.ping_manager.latest_ms <= self.last_now_ms
                },
        ensures
            self.conns_wf(),
            self.users_rooms_wf(),
            self.rooms_users_wf(),
    {
        assert forall|i: int| self.spec_user_live_at(i) implies ({
            let u = #[trigger] self.users.spec_at(i);
            &&& u.wf()
            &&& forall|rk: RoomKey|
                u.room_keys@.contains(rk) ==> self.rooms.spec_contains(
                    rk.index as int,
                    rk.generation,
                ) && self.rooms.spec_at(rk.index as int).users@.contains(self.spec_user_key_at(i))
        }) by {
            assert(pre.spec_user_live_at(i));
            assert(self.spec_user_key_at(i) == pre.spec_user_key_at(i));
        }
        assert forall|i: int| self.spec_room_live_at(i) implies ({
            let r = #[trigger] self.rooms.spec_at(i);
            &&& r.wf()
            &&& forall|uk: UserKey|
                r.users@.contains(uk) ==> self.users.spec_contains(
                    uk.index as int,
                    uk.generation,
                ) && self.users.spec_at(uk.index as int).room_keys@.contains(
                    self.spec_room_key_at(i),
                )
        }) by {
            assert(pre.spec_room_live_at(i));
            assert(self.spec_room_key_at(i) == pre.spec_room_key_at(i));
        }
    }

    /// Refuses a connecting user: the rejection datagram is produced and
    /// the user record deleted.
    pub fn reject_connection(&mut self, user_key: &UserKey) -> (out: Vec<OutgoingPacket>)
        requires
            old(self).wf(),
        ensures
            final(self).wf(),
            !final(self).users.spec_contains(user_key.index as int, user_key.generation),
            forall|j: int|
                0 <= j < final(self).connections@.len() ==> (#[trigger] final(self).connections@[j]).user_key != *user_key && old(self).connections@.contains(
                    final(self).connections@[j],
                ),
            final(self).events == old(self).events,
            old(self).users.spec_contains(user_key.index as int, user_key.generation) ==> ({
                &&& out@.len() == 1
                &&& out@[0].address == old(self).users.spec_at(user_key.index as int).address
                &&& out@[0].bytes@ == crate::packet::header_bytes(
                    crate::packet::StandardHeader {
                        packet_type: crate::packet::PacketType::ServerRejectResponse,
                        local_seq: 0,
                        remote_seq: 0,
                        ack_bitfield: 0,
                    },
                )
            }),
            !old(self).users.spec_contains(user_key.index as int, user_key.generation)
                ==> *final(self) == *old(self) && out@.len() == 0,
    {
        let mut out: Vec<OutgoingPacket> = Vec::new();
        match self.users.get(user_key.index, user_key.generation) {
            Some(u) => {
                let addr = u.address;
                let bytes = self.handshake.write_reject_response();
                out.push(OutgoingPacket { address: addr, bytes });
            },
            None => {},
        }
        self.user_delete(user_key);
        out
    }

    /// The explicit overrides mark the entity as wanted in this
    /// connection's scope.
    pub open spec fn spec_pair_wanted(self, j: int, e: EntityId) -> bool {
        self.scope_map.spec_get(self.connections@[j].user_key, e) == Some(true)
    }

    /// No live room queues a visibility revisit naming this entity.
    pub open spec fn spec_entity_unqueued(self, e: EntityId) -> bool {
        forall|ri: int, q: int|
            self.spec_room_live_at(ri) && 0 <= q < self.rooms.spec_at(ri).removal_queue@.len()
                ==> (#[trigger] self.rooms.spec_at(ri).removal_queue@[q]).1 != e
    }

    /// What one scope pass may do to the connections: each keeps its
    /// identity, address and ping state; only its mirror and queues move.
    pub open spec fn spec_pass_frame(pre: Server, cur: Server) -> bool {
        &&& cur.connections@.len() == pre.connections@.len()
        &&& forall|j: int|
            0 <= j < pre.connections@.len() ==> {
                let c = #[trigger] cur.connections@[j];
                &&& c.user_key == pre.connections@[j].user_key
                &&& c.address == pre.connections@[j].address
                &&& c.ping_manager == pre.connections@[j].ping_manager
            }
    }

    /// Decides visibility for every (user, entity) pair sharing a room.
    ///
    /// For each room, the queued visibility revisits are drained first:
    /// each queued (user, entity) pair is despawned from that user's
    /// connection, whether or not another room still shares them. Then for
    /// every member user and every room entity that still exists in the
    /// world mirror, the explicit overrides decide: included and not yet
    /// mirrored is spawned (with every recorded component kind, and any
    /// messages parked on the entity are released); mirrored but not
    /// included is despawned; a pair whose visibility is unchanged is left
    /// exactly as it is (see `scope_apply_transition`).
    pub fn update_entity_scopes(&mut self)
        requires
            old(self).wf(),
        ensures
            final(self).wf(),
            Server::spec_pass_frame(*old(self), *final(self)),
            final(self).users == old(self).users,
            final(self).scope_map == old(self).scope_map,
            final(self).events == old(self).events,
            final(self).last_now_ms == old(self).last_now_ms,
            final(self).channels == old(self).channels,
            final(self).tick_manager == old(self).tick_manager,
            // every queued visibility revisit was consumed
            forall|ri: int|
                final(self).spec_room_live_at(ri) ==> final(self).rooms.spec_at(
                    ri,
                ).removal_queue@.len() == 0,
            // an entity never enters a scope without an explicit include
            forall|j: int, e: EntityId|
                0 <= j < old(self).connections@.len() && !old(self).spec_pair_wanted(j, e)
                    && !old(self).connections@[j].entity_manager.spec_scope_has(e) ==> !final(self).connections@[j].entity_manager.spec_scope_has(e),
            // a mirrored, still-included, unqueued entity stays mirrored
            forall|j: int, e: EntityId|
                0 <= j < old(self).connections@.len() && old(self).spec_pair_wanted(j, e)
                    && old(self).spec_entity_unqueued(e) && old(self).connections@[j].entity_manager.spec_scope_has(e) ==> final(self).connections@[j].entity_manager.spec_scope_has(e),
    {
        let rkeys = self.rooms.keys();
        let kn: usize = rkeys.len();
        let mut ki: usize = 0;
        while ki < kn
            invariant
                old(self).wf(),
                self.wf(),
                kn == rkeys@.len(),
                ki <= kn,
                Server::spec_pass_frame(*old(self), *self),
                self.users == old(self).users,
                self.scope_map == old(self).scope_map,
                self.events == old(self).events,
                self.last_now_ms == old(self).last_now_ms,
                self.channels == old(self).channels,
                self.tick_manager == old(self).tick_manager,
                self.config == old(self).config,
                self.handshake == old(self).handshake,
                forall|i2: int, g: u64|
                    self.rooms.spec_contains(i2, g) == old(self).rooms.spec_contains(i2, g),
                forall|w: int|
                    0 <= w < ki ==> self.rooms.spec_contains(
                        (#[trigger] rkeys@[w]).0 as int,
                        rkeys@[w].1,
                    ) ==> self.rooms.spec_at(rkeys@[w].0 as int).removal_queue@.len() == 0,
                forall|ri: int|
                    self.spec_room_live_at(ri) ==> (#[trigger] self.rooms.spec_at(
                        ri,
                    )).removal_queue@ == old(self).rooms.spec_at(ri).removal_queue@
                        || self.rooms.spec_at(ri).removal_queue@.len() == 0,
                forall|j: int, e: EntityId|
                    0 <= j < old(self).connections@.len() && !old(self).spec_pair_wanted(j, e)
                        && !old(self).connections@[j].entity_manager.spec_scope_has(e) ==> !self.connections@[j].entity_manager.spec_scope_has(e),
                forall|j: int, e: EntityId|
                    0 <= j < old(self).connections@.len() && old(self).spec_pair_wanted(j, e)
                        && old(self).spec_entity_unqueued(e) && old(self).connections@[j].entity_manager.spec_scope_has(e) ==> self.connections@[j].entity_manager.spec_scope_has(e),
            decreases kn - ki,
        {
            let (rindex, rgen) = rkeys[ki];
            let ghost mid = *self;
            if self.rooms.contains_key(rindex, rgen) {
                self.scope_pass_one_room(rindex, rgen);
            }
            ki = ki + 1;
            proof {
                assert forall|e: EntityId|
                    old(self).spec_entity_unqueued(e) implies mid.spec_entity_unqueued(e) by {
                    assert forall|ri: int, q: int|
                        mid.spec_room_live_at(ri) && 0 <= q < mid.rooms.spec_at(
                            ri,
                        ).removal_queue@.len() implies (#[trigger] mid.rooms.spec_at(
                        ri,
                    ).removal_queue@[q]).1 != e by {
                        let g1 = mid.rooms.slots@[ri].generation;
                        assert(mid.rooms.spec_contains(ri, g1));
                        assert(old(self).rooms.spec_contains(ri, g1));
                        assert(old(self).spec_room_live_at(ri));
                    }
                }
                assert forall|ri: int|
                    self.spec_room_live_at(ri) implies (#[trigger] self.rooms.spec_at(
                    ri,
                )).removal_queue@ == old(self).rooms.spec_at(ri).removal_queue@
                    || self.rooms.spec_at(ri).removal_queue@.len() == 0 by {
                    let g1 = self.rooms.slots@[ri].generation;
                    assert(self.rooms.spec_contains(ri, g1));
                    assert(mid.rooms.spec_contains(ri, g1));
                    assert(mid.spec_room_live_at(ri));
                    assert(old(self).spec_room_live_at(ri));
                    if ri != rindex as int {
                        assert(self.rooms.spec_at(ri) == mid.rooms.spec_at(ri));
                    }
                }
                assert forall|j: int, e: EntityId|
                    0 <= j < old(self).connections@.len() && !old(self).spec_pair_wanted(j, e)
                        && !old(self).connections@[j].entity_manager.spec_scope_has(e) implies !self.connections@[j].entity_manager.spec_scope_has(e) by {
                    assert(mid.connections@[j].user_key == old(self).connections@[j].user_key);
                    assert(mid.spec_pair_wanted(j, e) == old(self).spec_pair_wanted(j, e));
                    assert(!mid.connections@[j].entity_manager.spec_scope_has(e));
                }
                assert forall|j: int, e: EntityId|
                    0 <= j < old(self).connections@.len() && old(self).spec_pair_wanted(j, e)
                        && old(self).spec_entity_unqueued(e) && old(self).connections@[j].entity_manager.spec_scope_has(e) implies self.connections@[j].entity_manager.spec_scope_has(e) by {
                    assert(mid.connections@[j].user_key == old(self).connections@[j].user_key);
                    assert(mid.spec_pair_wanted(j, e) == old(self).spec_pair_wanted(j, e));
                    assert(mid.spec_entity_unqueued(e));
                    assert(mid.connections@[j].entity_manager.spec_scope_has(e));
                }
            }
        }
        proof {
            vstd::std_specs::vec::axiom_spec_len(&self.rooms.slots);
            assert forall|ri: int| self.spec_room_live_at(ri) implies self.rooms.spec_at(
                ri,
            ).removal_queue@.len() == 0 by {
                let g1 = self.rooms.slots@[ri].generation;
                assert((ri as usize) as int == ri);
                assert(self.rooms.spec_contains(ri, g1));
                assert(old(self).rooms.spec_contains(ri, g1));
                assert(rkeys@.contains((ri as usize, g1)));
                let w = choose|w: int| 0 <= w < rkeys@.len() && rkeys@[w] == (ri as usize, g1);
                assert(rkeys@[w].0 as int == ri && rkeys@[w].1 == g1);
                assert(self.rooms.spec_contains(rkeys@[w].0 as int, rkeys@[w].1));
            }
        }
    }

    /// One room's share of the scope pass: drain its revisit queue, then
    /// decide every (member, entity) pair.
    fn scope_pass_one_room(&mut self, rindex: usize, rgen: u64)
        requires
            old(self).wf(),
            old(self).rooms.spec_contains(rindex as int, rgen),
        ensures
            final(self).wf(),
            Server::spec_pass_frame(*old(self), *final(self)),
            final(self).users == old(self).users,
            final(self).scope_map == old(self).scope_map,
            final(self).events == old(self).events,
            final(self).last_now_ms == old(self).last_now_ms,
            final(self).channels == old(self).channels,
            final(self).tick_manager == old(self).tick_manager,
            final(self).config == old(self).config,
            final(self).handshake == old(self).handshake,
            forall|i2: int, g: u64|
                final(self).rooms.spec_contains(i2, g) == old(self).rooms.spec_contains(i2, g),
            forall|i2: int, g: u64|
                i2 != rindex as int && old(self).rooms.spec_contains(i2, g) ==> final(self).rooms.spec_at(i2) == old(self).rooms.spec_at(i2),
            final(self).rooms.spec_at(rindex as int).removal_queue@.len() == 0,
            forall|j: int, e: EntityId|
                0 <= j < old(self).connections@.len() && !old(self).spec_pair_wanted(j, e)
                    && !old(self).connections@[j].entity_manager.spec_scope_has(e) ==> !final(self).connections@[j].entity_manager.spec_scope_has(e),
            forall|j: int, e: EntityId|
                0 <= j < old(self).connections@.len() && old(self).spec_pair_wanted(j, e)
                    && old(self).spec_entity_unqueued(e) && old(self).connections@[j].entity_manager.spec_scope_has(e) ==> final(self).connections@[j].entity_manager.spec_scope_has(e),
    {
        // take the room out, drain its queue and copy its membership
        let mut room = match self.rooms.remove(rindex, rgen) {
            Some(r) => r,
            None => {
                proof {
                    assert(false);
                }
                loop
                    invariant
                        false,
                    decreases 0int,
                {
                }
            },
        };
        let mut pairs: Vec<(UserKey, EntityId)> = Vec::new();
        while room.removal_queue.len() > 0
            invariant
                room.wf(),
                room.users@ == old(self).rooms.spec_at(rindex as int).users@,
                room.entities@ == old(self).rooms.spec_at(rindex as int).entities@,
                forall|q: int|
                    0 <= q < room.removal_queue@.len() ==> old(self).rooms.spec_at(
                        rindex as int,
                    ).removal_queue@.contains(#[trigger] room.removal_queue@[q]),
                forall|w: int|
                    0 <= w < pairs@.len() ==> old(self).rooms.spec_at(
                        rindex as int,
                    ).removal_queue@.contains(#[trigger] pairs@[w]),
            decreases room.removal_queue@.len(),
        {
            let ghost q_pre = room.removal_queue@;
            match room.pop_entity_removal_queue() {
                Some(p) => {
                    pairs.push(p);
                    proof {
                        assert forall|q: int|
                            0 <= q < room.removal_queue@.len() implies old(self).rooms.spec_at(
                            rindex as int,
                        ).removal_queue@.contains(#[trigger] room.removal_queue@[q]) by {
                            assert(room.removal_queue@[q] == q_pre[q + 1]);
                        }
                    }
                },
                None => {},
            }
        }
        let uks = copy_user_keys(&room.users);
        let ents = copy_entity_ids(&room.entities);
        self.rooms.put_at(rindex, rgen, room);
        let ghost rooms_mid = self.rooms;
        proof {
            self.lemma_symmetry_after_room_touch(*old(self), rindex as int);
        }
        // despawn each queued pair from that user's connection
        let pn: usize = pairs.len();
        let mut pi: usize = 0;
        while pi < pn
            invariant
                old(self).wf(),
                self.wf(),
                pn == pairs@.len(),
                pi <= pn,
                Server::spec_pass_frame(*old(self), *self),
                self.rooms == rooms_mid,
                forall|w: int|
                    0 <= w < pairs@.len() ==> old(self).rooms.spec_at(
                        rindex as int,
                    ).removal_queue@.contains(#[trigger] pairs@[w]),
                old(self).spec_room_live_at(rindex as int),
                forall|j: int, e: EntityId|
                    0 <= j < old(self).connections@.len() && !old(self).spec_pair_wanted(j, e)
                        && !old(self).connections@[j].entity_manager.spec_scope_has(e) ==> !self.connections@[j].entity_manager.spec_scope_has(e),
                forall|j: int, e: EntityId|
                    0 <= j < old(self).connections@.len() && old(self).spec_pair_wanted(j, e)
                        && old(self).spec_entity_unqueued(e) && old(self).connections@[j].entity_manager.spec_scope_has(e) ==> self.connections@[j].entity_manager.spec_scope_has(e),
                self.users == old(self).users,
                self.scope_map == old(self).scope_map,
                self.events == old(self).events,
                self.last_now_ms == old(self).last_now_ms,
                self.channels == old(self).channels,
                self.tick_manager == old(self).tick_manager,
                self.config == old(self).config,
                self.handshake == old(self).handshake,
            decreases pn - pi,
        {
            let (uk, e) = pairs[pi];
            match self.users.get(uk.index, uk.generation) {
                Some(u) => {
                    let addr = u.address;
                    match self.find_connection(addr) {
                        Some(ci) => {
                            let ghost mid = *self;
                            let c = &mut self.connections[ci];
                            c.entity_manager.despawn_entity(e);
                            proof {
                                mid.lemma_conns_touch_frame(mid);
                                self.lemma_conns_touch_frame(mid);
                                // this entity was queued, so no protected
                                // pair names it
                                assert(old(self).rooms.spec_at(
                                    rindex as int,
                                ).removal_queue@.contains(pairs@[pi as int]));
                                assert(!old(self).spec_entity_unqueued(e)) by {
                                    let q0 = choose|q: int|
                                        0 <= q < old(self).rooms.spec_at(
                                            rindex as int,
                                        ).removal_queue@.len() && old(self).rooms.spec_at(
                                            rindex as int,
                                        ).removal_queue@[q] == pairs@[pi as int];
                                    assert(old(self).rooms.spec_at(
                                        rindex as int,
                                    ).removal_queue@[q0].1 == e);
                                }
                            }
                        },
                        None => {},
                    }
                },
                None => {},
            }
            pi = pi + 1;
        }
        // decide every (member, entity) pair
        let un: usize = uks.len();
        let mut ui: usize = 0;
        while ui < un
            invariant
                old(self).wf(),
                self.wf(),
                un == uks@.len(),
                ui <= un,
                Server::spec_pass_frame(*old(self), *self),
                self.rooms == rooms_mid,
                forall|j: int, e: EntityId|
                    0 <= j < old(self).connections@.len() && !old(self).spec_pair_wanted(j, e)
                        && !old(self).connections@[j].entity_manager.spec_scope_has(e) ==> !self.connections@[j].entity_manager.spec_scope_has(e),
                forall|j: int, e: EntityId|
                    0 <= j < old(self).connections@.len() && old(self).spec_pair_wanted(j, e)
                        && old(self).spec_entity_unqueued(e) && old(self).connections@[j].entity_manager.spec_scope_has(e) ==> self.connections@[j].entity_manager.spec_scope_has(e),
                self.users == old(self).users,
                self.scope_map == old(self).scope_map,
                self.events == old(self).events,
                self.last_now_ms == old(self).last_now_ms,
                self.channels == old(self).channels,
                self.tick_manager == old(self).tick_manager,
                self.config == old(self).config,
                self.handshake == old(self).handshake,
            decreases un - ui,
        {
            let uk = uks[ui];
            let en: usize = ents.len();
            let mut ei: usize = 0;
            while ei < en
                invariant
                    old(self).wf(),
                    self.wf(),
                    en == ents@.len(),
                    ei <= en,
                    Server::spec_pass_frame(*old(self), *self),
                    self.rooms == rooms_mid,
                    forall|j: int, e: EntityId|
                        0 <= j < old(self).connections@.len() && !old(self).spec_pair_wanted(
                            j,
                            e,
                        ) && !old(self).connections@[j].entity_manager.spec_scope_has(e) ==> !self.connections@[j].entity_manager.spec_scope_has(e),
                    forall|j: int, e: EntityId|
                        0 <= j < old(self).connections@.len() && old(self).spec_pair_wanted(j, e)
                            && old(self).spec_entity_unqueued(e) && old(self).connections@[j].entity_manager.spec_scope_has(e) ==> self.connections@[j].entity_manager.spec_scope_has(e),
                    self.users == old(self).users,
                    self.scope_map == old(self).scope_map,
                    self.events == old(self).events,
                    self.last_now_ms == old(self).last_now_ms,
                    self.channels == old(self).channels,
                    self.tick_manager == old(self).tick_manager,
                    self.config == old(self).config,
                    self.handshake == old(self).handshake,
                decreases en - ei,
            {
                let e = ents[ei];
                if self.world_record.has_entity(e) {
                    match self.users.get(uk.index, uk.generation) {
                        Some(u) => {
                            let addr = u.address;
                            match self.find_connection(addr) {
                                Some(ci) => {
                                    let ghost mid = *self;
                                    self.scope_apply_transition(ci, e);
                                    proof {
                                        assert(mid.spec_pair_wanted(ci as int, e)
                                            == old(self).spec_pair_wanted(ci as int, e));
                                    }
                                },
                                None => {},
                            }
                        },
                        None => {},
                    }
                }
                ei = ei + 1;
            }
            ui = ui + 1;
        }
    }

    /// Applies one visibility decision to one connection, from the current
    /// mirror state and the explicit overrides alone.
    ///
    /// The pair is stable — mirrored and still included, or unmirrored and
    /// still not included — exactly when the connection comes out
    /// untouched: no spawn, despawn, insert or anything else is emitted.
    /// A newly included entity is spawned and its component kinds
    /// inserted, and the messages parked on it are released; a no longer
    /// included entity is despawned.
    pub fn scope_apply_transition(&mut self, ci: usize, e: EntityId)
        requires
            old(self).wf(),
            ci < old(self).connections@.len(),
            old(self).world_record.spec_has_entity(e),
        ensures
            final(self).wf(),
            Server::spec_pass_frame(*old(self), *final(self)),
            forall|j: int|
                0 <= j < old(self).connections@.len() && j != ci as int ==> final(self).connections@[j] == old(self).connections@[j],
            ({
                let c0 = old(self).connections@[ci as int];
                let uk = c0.user_key;
                let was = c0.entity_manager.spec_scope_has(e);
                let wanted = old(self).scope_map.spec_get(uk, e) == Some(true);
                &&& (was == wanted ==> *final(self) == *old(self))
                &&& (wanted ==> final(self).connections@[ci as int].entity_manager.spec_scope_has(
                    e,
                ))
                &&& (!wanted ==> !final(self).connections@[ci as int].entity_manager.spec_scope_has(
                    e,
                ))
                // a spawned entity arrives with every recorded component kind
                &&& (wanted && !was ==> forall|k: crate::types::ComponentKind|
                    old(self).world_record.spec_components(e).contains(k) ==> final(self).connections@[ci as int].entity_manager.spec_has_component(e, k))
                // messages parked on the entity are released, the rest stay
                &&& (wanted && !was ==> final(self).connections@[ci as int].entity_manager.pending@
                    == crate::entity_manager::spec_still_pending(
                    c0.entity_manager.pending@,
                    final(self).connections@[ci as int].entity_manager.spawned@,
                ))
                // the decision touches no other entity of this mirror
                &&& forall|e2: crate::types::EntityId|
                    e2 != e ==> final(self).connections@[ci as int].entity_manager.spec_scope_has(
                        e2,
                    ) == c0.entity_manager.spec_scope_has(e2)
            }),
            final(self).users == old(self).users,
            final(self).rooms == old(self).rooms,
            final(self).scope_map == old(self).scope_map,
            final(self).events == old(self).events,
            final(self).last_now_ms == old(self).last_now_ms,
            final(self).channels == old(self).channels,
            final(self).tick_manager == old(self).tick_manager,
            final(self).config == old(self).config,
            final(self).handshake == old(self).handshake,
            final(self).world_record == old(self).world_record,
    {
        let uk = self.connections[ci].user_key;
        let currently = self.connections[ci].entity_manager.scope_has_entity(e);
        let should_be = match self.scope_map.get(uk, e) {
            Some(b) => b,
            None => false,
        };
        if should_be && !currently {
            let kinds = match self.world_record.component_kinds(e) {
                Some(ks) => ks,
                None => {
                    proof {
                        assert(false);
                    }
                    Vec::new()
                },
            };
            let ghost pre = *self;
            let mut released = {
                let c = &mut self.connections[ci];
                c.entity_manager.spawn_entity(e)
            };
            proof {
                self.lemma_conns_touch_frame(pre);
            }
            let ghost post_spawn_em = self.connections@[ci as int].entity_manager;
            // the client now mirrors the entity: tell it the components
            let kn: usize = kinds.len();
            let mut kidx: usize = 0;
            while kidx < kn
                invariant
                    old(self).wf(),
                    self.wf(),
                    kn == kinds@.len(),
                    kidx <= kn,
                    ci < self.connections@.len(),
                    Server::spec_pass_frame(*old(self), *self),
                    forall|j: int|
                        0 <= j < old(self).connections@.len() && j != ci as int ==> self.connections@[j] == old(self).connections@[j],
                    self.connections@[ci as int].entity_manager.spec_scope_has(e),
                    forall|e2: EntityId|
                        (#[trigger] self.connections@[ci as int].entity_manager.spec_scope_has(
                            e2,
                        )) == post_spawn_em.spec_scope_has(e2),
                    self.connections@[ci as int].entity_manager.pending@
                        == post_spawn_em.pending@,
                    forall|kk: int|
                        0 <= kk < kidx ==> self.connections@[ci as int].entity_manager.spec_has_component(
                            e,
                            #[trigger] kinds@[kk],
                        ),
                    self.users == old(self).users,
                    self.rooms == old(self).rooms,
                    self.scope_map == old(self).scope_map,
                    self.events == old(self).events,
                    self.last_now_ms == old(self).last_now_ms,
                    self.channels == old(self).channels,
                    self.tick_manager == old(self).tick_manager,
                    self.config == old(self).config,
                    self.handshake == old(self).handshake,
                    self.world_record == old(self).world_record,
                decreases kn - kidx,
            {
                let ghost pre2 = *self;
                let c = &mut self.connections[ci];
                c.entity_manager.insert_component(e, kinds[kidx]);
                proof {
                    self.lemma_conns_touch_frame(pre2);
                }
                kidx = kidx + 1;
            }
            // release the messages that were parked on this entity
            let ghost em_after_inserts = self.connections@[ci as int].entity_manager;
            while released.len() > 0
                invariant
                    old(self).wf(),
                    self.wf(),
                    ci < self.connections@.len(),
                    Server::spec_pass_frame(*old(self), *self),
                    forall|j: int|
                        0 <= j < old(self).connections@.len() && j != ci as int ==> self.connections@[j] == old(self).connections@[j],
                    self.connections@[ci as int].entity_manager == em_after_inserts,
                    self.connections@[ci as int].entity_manager.spec_scope_has(e),
                    self.users == old(self).users,
                    self.rooms == old(self).rooms,
                    self.scope_map == old(self).scope_map,
                    self.events == old(self).events,
                    self.last_now_ms == old(self).last_now_ms,
                    self.channels == old(self).channels,
                    self.tick_manager == old(self).tick_manager,
                    self.config == old(self).config,
                    self.handshake == old(self).handshake,
                    self.world_record == old(self).world_record,
                decreases released@.len(),
            {
                let p = released.remove(0);
                if (p.channel as usize) < self.channels.channel_count() {
                    let meta = match self.channels.get(p.channel) {
                        Some(m) => m,
                        None => {
                            proof {
                                assert(false);
                            }
                            loop
                                invariant
                                    false,
                                decreases 0int,
                            {
                            }
                        },
                    };
                    let reliable = match meta.reliability {
                        crate::channels::ChannelReliability::Reliable => true,
                        crate::channels::ChannelReliability::Unreliable => false,
                    };
                    let ghost pre3 = *self;
                    let c = &mut self.connections[ci];
                    c.message_manager.send_message(p.channel, p.payload, p.deps, reliable);
                    proof {
                        self.lemma_conns_touch_frame(pre3);
                    }
                }
            }
            proof {
                let em_fin = self.connections@[ci as int].entity_manager;
                assert forall|e2: EntityId|
                    crate::entity_manager::spawned_has(post_spawn_em.spawned@, e2)
                        == crate::entity_manager::spawned_has(em_fin.spawned@, e2) by {
                    assert(crate::entity_manager::spawned_has(post_spawn_em.spawned@, e2)
                        == post_spawn_em.spec_scope_has(e2));
                    assert(crate::entity_manager::spawned_has(em_fin.spawned@, e2)
                        == em_fin.spec_scope_has(e2));
                }
                crate::entity_manager::lemma_pending_same_entities(
                    old(self).connections@[ci as int].entity_manager.pending@,
                    post_spawn_em.spawned@,
                    em_fin.spawned@,
                );
            }
        } else if !should_be && currently {
            let ghost pre = *self;
            let c = &mut self.connections[ci];
            c.entity_manager.despawn_entity(e);
            proof {
                self.lemma_conns_touch_frame(pre);
            }
        }
    }

    /// Raising the engine clock keeps every invariant.
    proof fn lemma_clock_advance(self, pre: Server, now_ms: u64)
        requires
            pre.wf(),
            pre.last_now_ms <= now_ms < CLOCK_BOUND_MS,
            self == (Server { last_now_ms: now_ms, ..pre }),
        ensures
            self.wf(),
    {
        assert forall|i: int| 0 <= i < self.connections@.len() implies ({
            let c = #[trigger] self.connections@[i];
            &&& c.wf(self.spec_channel_count())
            &&& self.users.spec_contains(c.user_key.index as int, c.user_key.generation)
            &&& self.users.spec_at(c.user_key.index as int).address == c.address
            &&& c.ping_manager.latest_ms <= self.last_now_ms
        }) by {
            assert(self.connections@[i] == pre.connections@[i]);
        }
        assert forall|i: int| self.spec_user_live_at(i) implies ({
            let u = #[trigger] self.users.spec_at(i);
            &&& u.wf()
            &&& forall|rk: RoomKey|
                u.room_keys@.contains(rk) ==> self.rooms.spec_contains(
                    rk.index as int,
                    rk.generation,
                ) && self.rooms.spec_at(rk.index as int).users@.contains(self.spec_user_key_at(i))
        }) by {
            assert(pre.spec_user_live_at(i));
            assert(self.spec_user_key_at(i) == pre.spec_user_key_at(i));
        }
        assert forall|i: int| self.spec_room_live_at(i) implies ({
            let r = #[trigger] self.rooms.spec_at(i);
            &&& r.wf()
            &&& forall|uk: UserKey|
                r.users@.contains(uk) ==> self.users.spec_contains(
                    uk.index as int,
                    uk.generation,
                ) && self.users.spec_at(uk.index as int).room_keys@.contains(
                    self.spec_room_key_at(i),
                )
        }) by {
            assert(pre.spec_room_live_at(i));
            assert(self.spec_room_key_at(i) == pre.spec_room_key_at(i));
        }
        assert forall|a: int, b: int|
            0 <= a < b < self.connections@.len() implies self.connections@[a].address
            != self.connections@[b].address by {
            assert(self.connections@[a] == pre.connections@[a]);
            assert(self.connections@[b] == pre.connections@[b]);
        }
    }

    /// Builds at most one Data packet for one connection: the queued
    /// replication actions and the due channel messages, packed into the
    /// byte budget. Returns nothing when the connection has nothing
    /// pending. What does not fit stays queued for the next frame.
    fn build_data_packet_for(&mut self, ci: usize, now_ms: u64) -> (r: Option<Vec<u8>>)
        requires
            old(self).wf(),
            ci < old(self).connections@.len(),
            now_ms == old(self).last_now_ms,
        ensures
            final(self).wf(),
            final(self).connections@.len() == old(self).connections@.len(),
            forall|j: int|
                0 <= j < old(self).connections@.len() && j != ci as int ==> final(self).connections@[j] == old(self).connections@[j],
            final(self).connections@[ci as int].user_key == old(self).connections@[ci as int].user_key,
            final(self).connections@[ci as int].address == old(self).connections@[ci as int].address,
            final(self).users == old(self).users,
            final(self).rooms == old(self).rooms,
            final(self).events == old(self).events,
            final(self).scope_map == old(self).scope_map,
            final(self).last_now_ms == old(self).last_now_ms,
            final(self).channels == old(self).channels,
            final(self).tick_manager == old(self).tick_manager,
            // nothing pending means no packet and no change
            r is None ==> *final(self) == *old(self) && final(self).connections@[ci as int].entity_manager.actions@.len() == 0 && final(self).connections@[ci as int].message_manager.outgoing@.len() == 0,
            // a produced packet is a Data datagram
            r matches Some(bytes) ==> bytes@.len() >= crate::packet::HEADER_LEN && bytes@[0]
                == crate::packet::spec_ptype_byte(crate::packet::PacketType::Data),
    {
        let has_actions = self.connections[ci].entity_manager.actions.len() > 0;
        let has_msgs = self.connections[ci].message_manager.outgoing.len() > 0;
        if !has_actions && !has_msgs {
            return None;
        }
        let ghost pre = *self;
        let rtt = self.connections[ci].ping_manager.rtt_ms;
        let resend_after = rtt + rtt / 2;
        let tick_opt: Option<u16> = match &self.tick_manager {
            Some(tm) => Some(tm.server_tick),
            None => None,
        };
        let (header, actions, frames) = {
            let c = &mut self.connections[ci];
            let header = c.write_outgoing_header(crate::packet::PacketType::Data);
            c.mark_sent(now_ms);
            let actions = c.entity_manager.take_actions(MAX_ACTIONS_PER_PACKET);
            let frames = c.message_manager.take_outgoing(
                MTU_BUDGET,
                now_ms,
                resend_after,
                header.local_seq,
            );
            (header, actions, frames)
        };
        proof {
            self.lemma_conns_touch_frame(pre);
        }
        let mut bytes: Vec<u8> = Vec::new();
        crate::packet::encode_header(&header, &mut bytes);
        match tick_opt {
            Some(t) => {
                crate::codec::write_u16(&mut bytes, t);
            },
            None => {},
        }
        crate::codec::write_u16(&mut bytes, actions.len() as u16);
        crate::entity_manager::write_actions(&mut bytes, &actions);
        crate::codec::write_u16(&mut bytes, frames.len() as u16);
        crate::packet::write_frames(&mut bytes, &frames);
        Some(bytes)
    }

    /// Sends all pending updates: refreshes every client's scope, then
    /// packs one Data packet per connection that has something to say. The
    /// connections are visited in a random order so that no client is
    /// systematically served last.
    pub fn send_all_updates(&mut self, now_ms: u64) -> (out: Vec<OutgoingPacket>)
        requires
            old(self).wf(),
            old(self).last_now_ms <= now_ms < CLOCK_BOUND_MS,
        ensures
            final(self).wf(),
            final(self).last_now_ms == now_ms,
            final(self).users == old(self).users,
            final(self).events == old(self).events,
            final(self).scope_map == old(self).scope_map,
            // every queued visibility revisit was consumed by the scope pass
            forall|ri: int|
                final(self).spec_room_live_at(ri) ==> final(self).rooms.spec_at(
                    ri,
                ).removal_queue@.len() == 0,
            final(self).connections@.len() == old(self).connections@.len(),
            forall|j: int|
                0 <= j < old(self).connections@.len() ==> (#[trigger] final(self).connections@[j]).user_key == old(self).connections@[j].user_key && final(self).connections@[j].address == old(self).connections@[j].address,
            // every connection with anything left to say got a Data packet
            forall|j: int|
                0 <= j < final(self).connections@.len() ==> (exists|p: int|
                    0 <= p < out@.len() && (#[trigger] out@[p]).address == final(self).connections@[j].address && out@[p].bytes@.len() >= crate::packet::HEADER_LEN
                        && out@[p].bytes@[0] == crate::packet::spec_ptype_byte(
                        crate::packet::PacketType::Data,
                    )) || ((#[trigger] final(self).connections@[j]).entity_manager.actions@.len()
                    == 0 && final(self).connections@[j].message_manager.outgoing@.len() == 0),
    {
        let ghost pre0 = *self;
        self.last_now_ms = now_ms;
        proof {
            self.lemma_clock_advance(pre0, now_ms);
        }
        self.update_entity_scopes();
        let ghost after_scopes = *self;
        let n: usize = self.connections.len();
        let mut order: Vec<usize> = Vec::new();
        let mut i: usize = 0;
        while i < n
            invariant
                i <= n,
                order@.len() == i,
                forall|j: int| 0 <= j < i ==> #[trigger] order@[j] == j,
            decreases n - i,
        {
            order.push(i);
            i = i + 1;
        }
        let ghost order0 = order@;
        crate::rng::shuffle_indices(&mut order);
        proof {
            order0.to_multiset_ensures();
            order@.to_multiset_ensures();
            assert forall|idx: int| 0 <= idx < n implies order@.contains(
                #[trigger] (idx as usize),
            ) by {
                assert(order0[idx] == idx as usize);
                assert(order0.contains(idx as usize));
                assert(order0.to_multiset().count(idx as usize) > 0);
                assert(order@.to_multiset().count(idx as usize) > 0);
            }
        }
        let mut out: Vec<OutgoingPacket> = Vec::new();
        let on: usize = order.len();
        let mut oi: usize = 0;
        while oi < on
            invariant
                self.wf(),
                on == order@.len(),
                oi <= on,
                n == self.connections@.len(),
                self.last_now_ms == now_ms,
                self.users == old(self).users,
                self.events == old(self).events,
                self.rooms == after_scopes.rooms,
                self.scope_map == after_scopes.scope_map,
                self.connections@.len() == after_scopes.connections@.len(),
                forall|j: int|
                    0 <= j < self.connections@.len() ==> (#[trigger] self.connections@[j]).user_key == after_scopes.connections@[j].user_key && self.connections@[j].address == after_scopes.connections@[j].address,
                forall|p: int|
                    0 <= p < oi && (#[trigger] order@[p]) < n ==> (exists|q: int|
                        0 <= q < out@.len() && (#[trigger] out@[q]).address == self.connections@[
                            order@[p] as int
                        ].address && out@[q].bytes@.len() >= crate::packet::HEADER_LEN
                            && out@[q].bytes@[0] == crate::packet::spec_ptype_byte(
                            crate::packet::PacketType::Data,
                        )) || (self.connections@[order@[p] as int].entity_manager.actions@.len()
                        == 0 && self.connections@[order@[p] as int].message_manager.outgoing@.len()
                        == 0),
            decreases on - oi,
        {
            let ghost step_pre = *self;
            let ghost out_pre = out@;
            let ghost mut pushed = false;
            let ci = order[oi];
            if ci < self.connections.len() {
                let addr = self.connections[ci].address;
                match self.build_data_packet_for(ci, now_ms) {
                    Some(bytes) => {
                        out.push(OutgoingPacket { address: addr, bytes });
                        proof {
                            pushed = true;
                        }
                    },
                    None => {},
                }
            }
            oi = oi + 1;
            proof {
                assert forall|p: int|
                    0 <= p < oi && (#[trigger] order@[p]) < n implies (exists|q: int|
                    0 <= q < out@.len() && (#[trigger] out@[q]).address == self.connections@[
                        order@[p] as int
                    ].address && out@[q].bytes@.len() >= crate::packet::HEADER_LEN
                        && out@[q].bytes@[0] == crate::packet::spec_ptype_byte(
                        crate::packet::PacketType::Data,
                    )) || (self.connections@[order@[p] as int].entity_manager.actions@.len() == 0
                    && self.connections@[order@[p] as int].message_manager.outgoing@.len()
                    == 0) by {
                    if order@[p] as int == ci as int && (ci as int) < n {
                        if pushed {
                            assert(out@[out_pre.len() as int].address == self.connections@[
                                ci as int
                            ].address);
                        }
                    } else {
                        assert(self.connections@[order@[p] as int] == step_pre.connections@[
                            order@[p] as int
                        ]);
                        if p < oi - 1 && (self.connections@[order@[p] as int].entity_manager.actions@.len() != 0
                            || self.connections@[order@[p] as int].message_manager.outgoing@.len()
                            != 0) {
                            let q0 = choose|q: int|
                                0 <= q < out_pre.len() && (#[trigger] out_pre[q]).address
                                    == step_pre.connections@[order@[p] as int].address
                                    && out_pre[q].bytes@.len() >= crate::packet::HEADER_LEN
                                    && out_pre[q].bytes@[0] == crate::packet::spec_ptype_byte(
                                    crate::packet::PacketType::Data,
                                );
                            assert(out@[q0] == out_pre[q0]);
                        }
                    }
                }
            }
        }
        proof {
            assert forall|j: int|
                0 <= j < self.connections@.len() implies (exists|p: int|
                0 <= p < out@.len() && (#[trigger] out@[p]).address == self.connections@[j].address
                    && out@[p].bytes@.len() >= crate::packet::HEADER_LEN && out@[p].bytes@[0]
                    == crate::packet::spec_ptype_byte(crate::packet::PacketType::Data)) || ((
            #[trigger] self.connections@[j]).entity_manager.actions@.len() == 0
                && self.connections@[j].message_manager.outgoing@.len() == 0) by {
                assert(order@.contains(j as usize));
                let p = choose|p: int| 0 <= p < order@.len() && order@[p] == j as usize;
            }
        }
        out
    }

    /// Drives the timers. When the timeout timer rings, every client that
    /// has been silent for the full timeout is deleted and its
    /// disconnection surfaced as an event; no overdue connection survives.
    /// When the heartbeat timer rings, every surviving connection the
    /// server has been silent towards gets a heartbeat datagram; when the
    /// ping timer rings, every surviving connection whose ping is due gets
    /// a ping datagram. Returns the datagrams to send.
    pub fn maintain(&mut self, now_ms: u64) -> (out: Vec<OutgoingPacket>)
        requires
            old(self).wf(),
            old(self).last_now_ms <= now_ms < CLOCK_BOUND_MS,
        ensures
            final(self).wf(),
            final(self).last_now_ms == now_ms,
            old(self).events.list@.is_prefix_of(final(self).events.list@),
            old(self).timeout_timer.spec_ringing(now_ms) ==> forall|j: int|
                0 <= j < final(self).connections@.len() ==> !(#[trigger] final(self).connections@[j]).spec_should_drop(
                    now_ms,
                    old(self).config.disconnection_timeout_ms,
                ),
            // each overdue client is deleted and its disconnection surfaced
            old(self).timeout_timer.spec_ringing(now_ms) ==> forall|j: int|
                0 <= j < old(self).connections@.len() && (#[trigger] old(self).connections@[j]).spec_should_drop(
                    now_ms,
                    old(self).config.disconnection_timeout_ms,
                ) ==> ({
                    let c = old(self).connections@[j];
                    &&& !final(self).users.spec_contains(
                        c.user_key.index as int,
                        c.user_key.generation,
                    )
                    &&& exists|k: int|
                        0 <= k < final(self).events.list@.len() && ((#[trigger] final(self).events.list@[k]) matches crate::events::Event::Disconnection(uk, _)
                            && uk == c.user_key)
                    &&& forall|e: crate::types::EntityId|
                        final(self).scope_map.spec_get(c.user_key, e) is None
                }),
            // a due surviving connection gets its heartbeat datagram
            old(self).heartbeat_timer.spec_ringing(now_ms) ==> forall|j: int|
                0 <= j < old(self).connections@.len() && !(old(self).timeout_timer.spec_ringing(
                    now_ms,
                ) && (#[trigger] old(self).connections@[j]).spec_should_drop(
                    now_ms,
                    old(self).config.disconnection_timeout_ms,
                )) && old(self).connections@[j].spec_should_send_heartbeat(
                    now_ms,
                    old(self).config.heartbeat_interval_ms,
                ) ==> exists|p: int|
                    0 <= p < out@.len() && (#[trigger] out@[p]).address
                        == old(self).connections@[j].address && out@[p].bytes@.len()
                        >= crate::packet::HEADER_LEN && out@[p].bytes@[0]
                        == crate::packet::spec_ptype_byte(crate::packet::PacketType::Heartbeat),
            // a due surviving connection gets its ping datagram
            old(self).ping_timer.spec_ringing(now_ms) ==> forall|j: int|
                0 <= j < old(self).connections@.len() && !(old(self).timeout_timer.spec_ringing(
                    now_ms,
                ) && (#[trigger] old(self).connections@[j]).spec_should_drop(
                    now_ms,
                    old(self).config.disconnection_timeout_ms,
                )) && now_ms >= old(self).connections@[j].ping_manager.last_ping_ms + old(self).connections@[j].ping_manager.ping_interval_ms ==> exists|p: int|
                    0 <= p < out@.len() && (#[trigger] out@[p]).address
                        == old(self).connections@[j].address && out@[p].bytes@.len()
                        >= crate::packet::HEADER_LEN && out@[p].bytes@[0]
                        == crate::packet::spec_ptype_byte(crate::packet::PacketType::Ping),
            // ringing timers are reset, quiet ones untouched
            old(self).timeout_timer.spec_ringing(now_ms) ==> final(self).timeout_timer.last_reset_ms == now_ms,
            !old(self).timeout_timer.spec_ringing(now_ms) ==> final(self).timeout_timer == old(self).timeout_timer,
            old(self).heartbeat_timer.spec_ringing(now_ms) ==> final(self).heartbeat_timer.last_reset_ms == now_ms,
            !old(self).heartbeat_timer.spec_ringing(now_ms) ==> final(self).heartbeat_timer == old(self).heartbeat_timer,
            old(self).ping_timer.spec_ringing(now_ms) ==> final(self).ping_timer.last_reset_ms == now_ms,
            !old(self).ping_timer.spec_ringing(now_ms) ==> final(self).ping_timer == old(self).ping_timer,
    {
        let ghost pre0 = *self;
        self.last_now_ms = now_ms;
        proof {
            self.lemma_clock_advance(pre0, now_ms);
            crate::laws::lemma_key_address_bijection(*self);
        }
        let mut out: Vec<OutgoingPacket> = Vec::new();
        let timeout = self.config.disconnection_timeout_ms;
        // timeouts
        if self.timeout_timer.ringing(now_ms) {
            let ghost mid0 = *self;
            self.timeout_timer.reset(now_ms);
            proof {
                self.lemma_wf_core_frame(mid0);
            }
            let mut overdue: Vec<UserKey> = Vec::new();
            let cn: usize = self.connections.len();
            let mut i: usize = 0;
            while i < cn
                invariant
                    cn == self.connections@.len(),
                    i <= cn,
                    forall|j: int|
                        0 <= j < i && (#[trigger] self.connections@[j]).spec_should_drop(
                            now_ms,
                            timeout,
                        ) ==> overdue@.contains(self.connections@[j].user_key),
                    forall|w: int|
                        0 <= w < overdue@.len() ==> spec_overdue_key(
                            self.connections@,
                            #[trigger] overdue@[w],
                            now_ms,
                            timeout,
                        ),
                decreases cn - i,
            {
                if self.connections[i].should_drop(now_ms, timeout) {
                    let ghost o_pre = overdue@;
                    overdue.push(self.connections[i].user_key);
                    proof {
                        assert(overdue@[o_pre.len() as int] == self.connections@[i as int].user_key);
                        assert forall|j: int|
                            0 <= j < i + 1 && (#[trigger] self.connections@[j]).spec_should_drop(
                                now_ms,
                                timeout,
                            ) implies overdue@.contains(self.connections@[j].user_key) by {
                            if j < i {
                                let w = choose|w: int|
                                    0 <= w < o_pre.len() && o_pre[w]
                                        == self.connections@[j].user_key;
                                assert(overdue@[w] == self.connections@[j].user_key);
                            }
                        }
                        assert forall|w: int|
                            0 <= w < overdue@.len() implies spec_overdue_key(
                            self.connections@,
                            #[trigger] overdue@[w],
                            now_ms,
                            timeout,
                        ) by {
                            if w < o_pre.len() {
                                assert(overdue@[w] == o_pre[w]);
                            } else {
                                assert(overdue@[w] == self.connections@[i as int].user_key);
                                assert(spec_overdue_key(
                                    self.connections@,
                                    self.connections@[i as int].user_key,
                                    now_ms,
                                    timeout,
                                ));
                            }
                        }
                    }
                }
                i = i + 1;
            }
            let ghost snap = *self;
            proof {
                assert(overdue@.skip(0) =~= overdue@);
            }
            let on: usize = overdue.len();
            let mut oi: usize = 0;
            while oi < on
                invariant
                    self.wf(),
                    on == overdue@.len(),
                    oi <= on,
                    self.last_now_ms == now_ms,
                    self.timeout_timer == snap.timeout_timer,
                    self.heartbeat_timer == snap.heartbeat_timer,
                    self.ping_timer == snap.ping_timer,
                    self.config == snap.config,
                    self.channels == snap.channels,
                    self.tick_manager == snap.tick_manager,
                    snap.events.list@.is_prefix_of(self.events.list@),
                    snap.wf(),
                    forall|a: int, b: int|
                        0 <= a < b < snap.connections@.len() ==> snap.connections@[a].user_key
                            != snap.connections@[b].user_key,
                    forall|w: int|
                        0 <= w < overdue@.len() ==> spec_overdue_key(
                            snap.connections@,
                            #[trigger] overdue@[w],
                            now_ms,
                            timeout,
                        ),
                    forall|j: int|
                        0 <= j < snap.connections@.len() && (#[trigger] snap.connections@[j]).spec_should_drop(
                            now_ms,
                            timeout,
                        ) ==> ({
                            let c = snap.connections@[j];
                            ||| (!self.users.spec_contains(
                                c.user_key.index as int,
                                c.user_key.generation,
                            ) && (exists|k: int|
                                0 <= k < self.events.list@.len() && ((#[trigger] self.events.list@[k]) matches crate::events::Event::Disconnection(uk, _)
                                    && uk == c.user_key)) && (forall|e: crate::types::EntityId|
                                self.scope_map.spec_get(c.user_key, e) is None))
                            ||| (overdue@.skip(oi as int).contains(c.user_key)
                                && self.users.spec_contains(
                                c.user_key.index as int,
                                c.user_key.generation,
                            ) && self.users.spec_at(c.user_key.index as int).address == c.address
                                && self.connections@.contains(c))
                        }),
                    forall|j: int|
                        0 <= j < snap.connections@.len() && !(#[trigger] snap.connections@[j]).spec_should_drop(
                            now_ms,
                            timeout,
                        ) ==> ({
                            let c = snap.connections@[j];
                            &&& self.connections@.contains(c)
                            &&& self.users.spec_contains(
                                c.user_key.index as int,
                                c.user_key.generation,
                            )
                            &&& self.users.spec_at(c.user_key.index as int).address == c.address
                        }),
                    forall|j: int|
                        0 <= j < self.connections@.len() ==> snap.connections@.contains(
                            #[trigger] self.connections@[j],
                        ),
                decreases on - oi,
            {
                let k = overdue[oi];
                let ghost mid = *self;
                self.user_disconnect(&k);
                oi = oi + 1;
                proof {
                    assert(spec_overdue_key(snap.connections@, k, now_ms, timeout));
                    let jk = choose|j: int|
                        0 <= j < snap.connections@.len() && (#[trigger] snap.connections@[j]).user_key
                            == k && snap.connections@[j].spec_should_drop(now_ms, timeout);
                    let ck = snap.connections@[jk];
                    assert forall|j: int|
                        0 <= j < snap.connections@.len() && (#[trigger] snap.connections@[j]).spec_should_drop(
                            now_ms,
                            timeout,
                        ) implies ({
                        let c = snap.connections@[j];
                        ||| (!self.users.spec_contains(
                            c.user_key.index as int,
                            c.user_key.generation,
                        ) && (exists|k2: int|
                            0 <= k2 < self.events.list@.len() && ((#[trigger] self.events.list@[k2]) matches crate::events::Event::Disconnection(uk, _)
                                && uk == c.user_key)) && (forall|e: crate::types::EntityId|
                            self.scope_map.spec_get(c.user_key, e) is None))
                        ||| (overdue@.skip(oi as int).contains(c.user_key)
                            && self.users.spec_contains(
                            c.user_key.index as int,
                            c.user_key.generation,
                        ) && self.users.spec_at(c.user_key.index as int).address == c.address
                            && self.connections@.contains(c))
                    }) by {
                        let c = snap.connections@[j];
                        if c.user_key == k {
                            if mid.users.spec_contains(k.index as int, k.generation) {
                                assert(j == jk);
                                assert(mid.connections@.contains(c));
                                let w = choose|w: int|
                                    0 <= w < mid.connections@.len() && mid.connections@[w] == c;
                                assert(self.events.list@.len() == mid.events.list@.len() + 1);
                                assert(self.events.list@[mid.events.list@.len() as int]
                                    == self.events.list@.last());
                            }
                        } else {
                            if overdue@.skip(oi as int - 1).contains(c.user_key)
                                && mid.users.spec_contains(
                                c.user_key.index as int,
                                c.user_key.generation,
                            ) && mid.users.spec_at(c.user_key.index as int).address == c.address
                                && mid.connections@.contains(c) {
                                let v = choose|v: int|
                                    0 <= v < overdue@.skip(oi as int - 1).len()
                                        && #[trigger] overdue@.skip(oi as int - 1)[v]
                                        == c.user_key;
                                if v == 0 {
                                    assert(overdue@.skip(oi as int - 1)[0] == k);
                                    assert(false);
                                } else {
                                    assert(overdue@.skip(oi as int)[v - 1] == c.user_key);
                                }
                                if mid.users.spec_contains(k.index as int, k.generation) {
                                    if c.user_key.index as int == k.index as int {
                                        assert(c.user_key.generation == k.generation);
                                        assert(false);
                                    }
                                    assert(mid.users.spec_at(k.index as int).address
                                        == ck.address);
                                    assert(c.address != ck.address);
                                    assert(self.connections@.contains(c));
                                } else {
                                    assert(self.connections@ == mid.connections@);
                                }
                            }
                        }
                    }
                    assert forall|j: int|
                        0 <= j < snap.connections@.len() && !(#[trigger] snap.connections@[j]).spec_should_drop(
                            now_ms,
                            timeout,
                        ) implies ({
                        let c = snap.connections@[j];
                        &&& self.connections@.contains(c)
                        &&& self.users.spec_contains(
                            c.user_key.index as int,
                            c.user_key.generation,
                        )
                        &&& self.users.spec_at(c.user_key.index as int).address == c.address
                    }) by {
                        let c = snap.connections@[j];
                        assert(c.user_key != k) by {
                            if c.user_key == k {
                                assert(snap.connections@[jk].spec_should_drop(now_ms, timeout));
                                if jk < j {
                                    assert(snap.connections@[jk].user_key
                                        != snap.connections@[j].user_key);
                                } else if j < jk {
                                    assert(snap.connections@[j].user_key
                                        != snap.connections@[jk].user_key);
                                }
                            }
                        }
                        if mid.users.spec_contains(k.index as int, k.generation) {
                            if c.user_key.index as int == k.index as int {
                                assert(c.user_key.generation == k.generation);
                                assert(false);
                            }
                            assert(mid.users.spec_at(k.index as int).address == ck.address);
                            assert(c.address != ck.address);
                            assert(self.connections@.contains(c));
                        } else {
                            assert(self.connections@ == mid.connections@);
                        }
                    }
                    assert forall|j: int|
                        0 <= j < self.connections@.len() implies snap.connections@.contains(
                        #[trigger] self.connections@[j],
                    ) by {
                        let c = self.connections@[j];
                        assert(mid.connections@.contains(c));
                    }
                }
            }
        }
        let ghost after_to = *self;
        // heartbeats
        if self.heartbeat_timer.ringing(now_ms) {
            let ghost mid1 = *self;
            self.heartbeat_timer.reset(now_ms);
            proof {
                self.lemma_wf_core_frame(mid1);
            }
            let interval = self.config.heartbeat_interval_ms;
            let tick_opt: Option<u16> = match &self.tick_manager {
                Some(tm) => Some(tm.server_tick),
                None => None,
            };
            let ghost hb_pre = *self;
            let cn: usize = self.connections.len();
            let mut i: usize = 0;
            while i < cn
                invariant
                    self.wf(),
                    cn == self.connections@.len(),
                    cn == hb_pre.connections@.len(),
                    i <= cn,
                    self.last_now_ms == now_ms,
                    self.timeout_timer == hb_pre.timeout_timer,
                    self.heartbeat_timer == hb_pre.heartbeat_timer,
                    self.ping_timer == hb_pre.ping_timer,
                    self.events == hb_pre.events,
                    self.users == hb_pre.users,
                    self.scope_map == hb_pre.scope_map,
                    forall|j: int|
                        i <= j < cn ==> #[trigger] self.connections@[j] == hb_pre.connections@[j],
                    forall|j: int|
                        0 <= j < cn ==> (#[trigger] self.connections@[j]).address
                            == hb_pre.connections@[j].address && self.connections@[j].ping_manager
                            == hb_pre.connections@[j].ping_manager
                            && self.connections@[j].last_heard_ms
                            == hb_pre.connections@[j].last_heard_ms
                            && self.connections@[j].user_key == hb_pre.connections@[j].user_key,
                    forall|j: int|
                        0 <= j < i && hb_pre.connections@[j].spec_should_send_heartbeat(
                            now_ms,
                            interval,
                        ) ==> exists|p: int|
                            0 <= p < out@.len() && (#[trigger] out@[p]).address
                                == hb_pre.connections@[j].address && out@[p].bytes@.len()
                                >= crate::packet::HEADER_LEN && out@[p].bytes@[0]
                                == crate::packet::spec_ptype_byte(
                                crate::packet::PacketType::Heartbeat,
                            ),
                decreases cn - i,
            {
                let send_it = self.connections[i].should_send_heartbeat(now_ms, interval);
                if send_it {
                    let ghost pre2 = *self;
                    let (header, addr) = {
                        let c = &mut self.connections[i];
                        let h = c.write_outgoing_header(crate::packet::PacketType::Heartbeat);
                        c.mark_sent(now_ms);
                        (h, c.address)
                    };
                    proof {
                        assert forall|j: int|
                            0 <= j < self.connections@.len() implies ({
                            let c2 = #[trigger] self.connections@[j];
                            &&& c2.wf(self.spec_channel_count())
                            &&& c2.user_key == pre2.connections@[j].user_key
                            &&& c2.address == pre2.connections@[j].address
                            &&& c2.ping_manager == pre2.connections@[j].ping_manager
                            &&& c2.last_heard_ms == pre2.connections@[j].last_heard_ms
                        }) by {
                            if j != i as int {
                                assert(self.connections@[j] == pre2.connections@[j]);
                            }
                        }
                        self.lemma_conns_touch_frame(pre2);
                    }
                    let mut bytes: Vec<u8> = Vec::new();
                    crate::packet::encode_header(&header, &mut bytes);
                    match tick_opt {
                        Some(t) => {
                            crate::codec::write_u16(&mut bytes, t);
                        },
                        None => {},
                    }
                    let ghost out_pre = out@;
                    out.push(OutgoingPacket { address: addr, bytes });
                    proof {
                        assert(out@[out_pre.len() as int].address
                            == hb_pre.connections@[i as int].address);
                        assert forall|j: int|
                            0 <= j < i && hb_pre.connections@[j].spec_should_send_heartbeat(
                                now_ms,
                                interval,
                            ) implies exists|p: int|
                            0 <= p < out@.len() && (#[trigger] out@[p]).address
                                == hb_pre.connections@[j].address && out@[p].bytes@.len()
                                >= crate::packet::HEADER_LEN && out@[p].bytes@[0]
                                == crate::packet::spec_ptype_byte(
                                crate::packet::PacketType::Heartbeat,
                            ) by {
                            let p0 = choose|p: int|
                                0 <= p < out_pre.len() && (#[trigger] out_pre[p]).address
                                    == hb_pre.connections@[j].address && out_pre[p].bytes@.len()
                                    >= crate::packet::HEADER_LEN && out_pre[p].bytes@[0]
                                    == crate::packet::spec_ptype_byte(
                                    crate::packet::PacketType::Heartbeat,
                                );
                            assert(out@[p0] == out_pre[p0]);
                        }
                    }
                }
                i = i + 1;
            }
        }
        let ghost after_hb = *self;
        let ghost before_ping_out = out@;
        // pings
        if self.ping_timer.ringing(now_ms) {
            let ghost mid2 = *self;
            self.ping_timer.reset(now_ms);
            proof {
                self.lemma_wf_core_frame(mid2);
            }
            let tick_opt: Option<u16> = match &self.tick_manager {
                Some(tm) => Some(tm.server_tick),
                None => None,
            };
            let ghost pg_pre = *self;
            let cn: usize = self.connections.len();
            let mut i: usize = 0;
            while i < cn
                invariant
                    self.wf(),
                    cn == self.connections@.len(),
                    cn == pg_pre.connections@.len(),
                    i <= cn,
                    self.last_now_ms == now_ms,
                    self.timeout_timer == pg_pre.timeout_timer,
                    self.heartbeat_timer == pg_pre.heartbeat_timer,
                    self.ping_timer == pg_pre.ping_timer,
                    self.events == pg_pre.events,
                    self.users == pg_pre.users,
                    self.scope_map == pg_pre.scope_map,
                    forall|j: int|
                        i <= j < cn ==> #[trigger] self.connections@[j] == pg_pre.connections@[j],
                    forall|j: int|
                        0 <= j < cn ==> (#[trigger] self.connections@[j]).address
                            == pg_pre.connections@[j].address
                            && self.connections@[j].last_heard_ms
                            == pg_pre.connections@[j].last_heard_ms
                            && self.connections@[j].user_key == pg_pre.connections@[j].user_key,
                    forall|j: int|
                        0 <= j < i && now_ms >= pg_pre.connections@[j].ping_manager.last_ping_ms
                            + pg_pre.connections@[j].ping_manager.ping_interval_ms ==> exists|
                            p: int,
                        |
                            0 <= p < out@.len() && (#[trigger] out@[p]).address
                                == pg_pre.connections@[j].address && out@[p].bytes@.len()
                                >= crate::packet::HEADER_LEN && out@[p].bytes@[0]
                                == crate::packet::spec_ptype_byte(crate::packet::PacketType::Ping),
                    forall|p: int|
                        0 <= p < before_ping_out.len() ==> #[trigger] out@[p]
                            == before_ping_out[p],
                    out@.len() >= before_ping_out.len(),
                decreases cn - i,
            {
                let send_it = self.connections[i].ping_manager.should_send_ping(now_ms);
                if send_it {
                    let ghost pre2 = *self;
                    let (header, addr, index) = {
                        let c = &mut self.connections[i];
                        let h = c.write_outgoing_header(crate::packet::PacketType::Ping);
                        let index = c.ping_manager.write_ping(now_ms);
                        c.mark_sent(now_ms);
                        (h, c.address, index)
                    };
                    proof {
                        assert forall|j: int|
                            0 <= j < self.connections@.len() implies ({
                            let c2 = #[trigger] self.connections@[j];
                            &&& c2.wf(self.spec_channel_count())
                            &&& c2.user_key == pre2.connections@[j].user_key
                            &&& c2.address == pre2.connections@[j].address
                            &&& c2.ping_manager.latest_ms <= self.last_now_ms
                            &&& c2.last_heard_ms == pre2.connections@[j].last_heard_ms
                        }) by {
                            if j != i as int {
                                assert(self.connections@[j] == pre2.connections@[j]);
                            }
                        }
                        self.lemma_conns_touch_frame_partial(pre2);
                        assert forall|a: int, b: int|
                            0 <= a < b < self.connections@.len() implies self.connections@[a].address
                            != self.connections@[b].address by {
                            assert(pre2.connections@[a].address != pre2.connections@[b].address);
                        }
                    }
                    let mut bytes: Vec<u8> = Vec::new();
                    crate::packet::encode_header(&header, &mut bytes);
                    match tick_opt {
                        Some(t) => {
                            crate::codec::write_u16(&mut bytes, t);
                        },
                        None => {},
                    }
                    crate::codec::write_u16(&mut bytes, index);
                    let ghost out_pre = out@;
                    out.push(OutgoingPacket { address: addr, bytes });
                    proof {
                        assert(out@[out_pre.len() as int].address
                            == pg_pre.connections@[i as int].address);
                        assert forall|j: int|
                            0 <= j < i && now_ms
                                >= pg_pre.connections@[j].ping_manager.last_ping_ms
                                + pg_pre.connections@[j].ping_manager.ping_interval_ms implies
                            exists|p: int|
                            0 <= p < out@.len() && (#[trigger] out@[p]).address
                                == pg_pre.connections@[j].address && out@[p].bytes@.len()
                                >= crate::packet::HEADER_LEN && out@[p].bytes@[0]
                                == crate::packet::spec_ptype_byte(
                                crate::packet::PacketType::Ping,
                            ) by {
                            let p0 = choose|p: int|
                                0 <= p < out_pre.len() && (#[trigger] out_pre[p]).address
                                    == pg_pre.connections@[j].address && out_pre[p].bytes@.len()
                                    >= crate::packet::HEADER_LEN && out_pre[p].bytes@[0]
                                    == crate::packet::spec_ptype_byte(
                                    crate::packet::PacketType::Ping,
                                );
                            assert(out@[p0] == out_pre[p0]);
                        }
                    }
                }
                i = i + 1;
            }
        }
        proof {
            let to_rang = old(self).timeout_timer.spec_ringing(now_ms);
            let hb_rang = old(self).heartbeat_timer.spec_ringing(now_ms);
            let pg_rang = old(self).ping_timer.spec_ringing(now_ms);
            let hb_interval = old(self).config.heartbeat_interval_ms;
            // every surviving connection of the timeout pass maps, index by
            // index, through the heartbeat and ping passes with its address,
            // liveness and ping state intact
            assert forall|j: int|
                0 <= j < after_to.connections@.len() implies #[trigger] self.connections@[j].address == after_to.connections@[j].address
                && self.connections@[j].last_heard_ms == after_to.connections@[j].last_heard_ms
                && self.connections@[j].user_key == after_to.connections@[j].user_key by {}
            if to_rang {
                // no overdue connection survives, each overdue user is gone
                // and its disconnection was surfaced
                assert forall|j: int|
                    0 <= j < self.connections@.len() implies !(#[trigger] self.connections@[j]).spec_should_drop(
                    now_ms,
                    old(self).config.disconnection_timeout_ms,
                ) by {
                    let c0 = after_to.connections@[j];
                    assert(old(self).connections@.contains(c0));
                    let w = choose|w: int|
                        0 <= w < old(self).connections@.len() && old(self).connections@[w] == c0;
                    if old(self).connections@[w].spec_should_drop(now_ms, timeout) {
                        assert(!after_to.users.spec_contains(
                            c0.user_key.index as int,
                            c0.user_key.generation,
                        ));
                        assert(after_to.wf());
                        assert(false);
                    }
                }
            }
            if hb_rang {
                assert forall|j: int|
                    0 <= j < old(self).connections@.len() && !(to_rang && (#[trigger] old(self).connections@[j]).spec_should_drop(
                        now_ms,
                        old(self).config.disconnection_timeout_ms,
                    )) && old(self).connections@[j].spec_should_send_heartbeat(
                        now_ms,
                        hb_interval,
                    ) implies exists|p: int|
                    0 <= p < out@.len() && (#[trigger] out@[p]).address
                        == old(self).connections@[j].address && out@[p].bytes@.len()
                        >= crate::packet::HEADER_LEN && out@[p].bytes@[0]
                        == crate::packet::spec_ptype_byte(
                        crate::packet::PacketType::Heartbeat,
                    ) by {
                    let c = old(self).connections@[j];
                    if to_rang {
                        assert(after_to.connections@.contains(c));
                    } else {
                        assert(after_to.connections@[j] == c);
                    }
                    let jc = choose|jc: int|
                        0 <= jc < after_to.connections@.len() && after_to.connections@[jc] == c;
                    assert(after_hb.connections@[jc].last_sent_ms == now_ms
                        || !c.spec_should_send_heartbeat(now_ms, hb_interval) || exists|p: int|
                        0 <= p < before_ping_out.len() && (#[trigger] before_ping_out[p]).address
                            == c.address && before_ping_out[p].bytes@.len()
                            >= crate::packet::HEADER_LEN && before_ping_out[p].bytes@[0]
                            == crate::packet::spec_ptype_byte(
                            crate::packet::PacketType::Heartbeat,
                        ));
                    let p0 = choose|p: int|
                        0 <= p < before_ping_out.len() && (#[trigger] before_ping_out[p]).address
                            == c.address && before_ping_out[p].bytes@.len()
                            >= crate::packet::HEADER_LEN && before_ping_out[p].bytes@[0]
                            == crate::packet::spec_ptype_byte(
                            crate::packet::PacketType::Heartbeat,
                        );
                    assert(out@[p0] == before_ping_out[p0]);
                }
            }
            if pg_rang {
                assert forall|j: int|
                    0 <= j < old(self).connections@.len() && !(to_rang && (#[trigger] old(self).connections@[j]).spec_should_drop(
                        now_ms,
                        old(self).config.disconnection_timeout_ms,
                    )) && now_ms >= old(self).connections@[j].ping_manager.last_ping_ms
                        + old(self).connections@[j].ping_manager.ping_interval_ms implies exists|
                    p: int,
                |
                    0 <= p < out@.len() && (#[trigger] out@[p]).address
                        == old(self).connections@[j].address && out@[p].bytes@.len()
                        >= crate::packet::HEADER_LEN && out@[p].bytes@[0]
                        == crate::packet::spec_ptype_byte(crate::packet::PacketType::Ping) by {
                    let c = old(self).connections@[j];
                    if to_rang {
                        assert(after_to.connections@.contains(c));
                    } else {
                        assert(after_to.connections@[j] == c);
                    }
                    let jc = choose|jc: int|
                        0 <= jc < after_to.connections@.len() && after_to.connections@[jc] == c;
                    assert(after_hb.connections@[jc].ping_manager == c.ping_manager);
                    assert(after_hb.connections@[jc].address == c.address);
                }
            }
            if to_rang {
                assert forall|j: int|
                    0 <= j < old(self).connections@.len() && (#[trigger] old(self).connections@[j]).spec_should_drop(
                        now_ms,
                        old(self).config.disconnection_timeout_ms,
                    ) implies ({
                    let c = old(self).connections@[j];
                    &&& !self.users.spec_contains(
                        c.user_key.index as int,
                        c.user_key.generation,
                    )
                    &&& exists|k: int|
                        0 <= k < self.events.list@.len() && ((#[trigger] self.events.list@[k]) matches crate::events::Event::Disconnection(uk, _)
                            && uk == c.user_key)
                }) by {
                    let c = old(self).connections@[j];
                    assert(self.users == after_to.users);
                    assert(self.events == after_to.events);
                }
            }
        }
        out
    }

    /// Dispatches one received datagram and returns the replies to send.
    ///
    /// Handshake traffic needs no established connection: a challenge
    /// request is answered with a signed token; a connect request with a
    /// valid token either re-sends the acceptance (when the address is
    /// already connected — accepting twice changes nothing else), raises an
    /// authorization event (when the request carries an auth payload), or
    /// accepts outright. An invalid token is silently dropped, and a token
    /// signed for another address can never validate here. Everything else
    /// requires an established connection and refreshes its liveness:
    /// Data feeds the channel and tick buffers, Disconnect must carry the
    /// connecting token to be honoured, Ping is answered with Pong, Pong
    /// feeds the round-trip estimator, Heartbeat only refreshes liveness.
    /// A malformed datagram is dropped without any effect.
    #[verifier::rlimit(100)]
    pub fn handle_packet(&mut self, address: Address, data: &Vec<u8>, now_ms: u64) -> (out: Vec<
        OutgoingPacket,
    >)
        requires
            old(self).wf(),
            old(self).last_now_ms <= now_ms < CLOCK_BOUND_MS,
        ensures
            final(self).wf(),
            final(self).last_now_ms == now_ms,
            // a malformed header is dropped without any effect
            !(data@.len() >= crate::packet::HEADER_LEN && crate::packet::spec_byte_ptype(
                data@[0],
            ) is Some) ==> *final(self) == (Server { last_now_ms: now_ms, ..*old(self) })
                && out@.len() == 0,
            // a challenge is answered statelessly with the signed token
            data@.len() >= crate::packet::HEADER_LEN && crate::packet::spec_byte_ptype(data@[0])
                == Some(crate::packet::PacketType::ClientChallengeRequest) ==> ({
                &&& *final(self) == (Server { last_now_ms: now_ms, ..*old(self) })
                &&& data@.len() >= crate::packet::HEADER_LEN + 8 ==> out@.len() == 1
                    && out@[0].address == address && out@[0].bytes@
                    == crate::packet::header_bytes(
                    crate::packet::StandardHeader {
                        packet_type: crate::packet::PacketType::ServerChallengeResponse,
                        local_seq: 0,
                        remote_seq: 0,
                        ack_bitfield: 0,
                    },
                ) + crate::codec::bytes8(
                    crate::codec::be8(
                        data@.subrange(
                            crate::packet::HEADER_LEN as int,
                            crate::packet::HEADER_LEN as int + 8,
                        ),
                    ),
                ) + crate::handshake::spec_sign(
                    old(self).handshake.secret,
                    crate::codec::be8(
                        data@.subrange(
                            crate::packet::HEADER_LEN as int,
                            crate::packet::HEADER_LEN as int + 8,
                        ),
                    ),
                    address,
                )
                &&& data@.len() < crate::packet::HEADER_LEN + 8 ==> out@.len() == 0
            }),
            // an invalid connect request is silently dropped
            data@.len() >= crate::packet::HEADER_LEN && crate::packet::spec_byte_ptype(data@[0])
                == Some(crate::packet::PacketType::ClientConnectRequest) && !old(self).handshake.spec_connect_acceptable(address, data@) ==> *final(self) == (Server {
                last_now_ms: now_ms,
                ..*old(self)
            }) && out@.len() == 0,
            // accepting an already-connected address again is idempotent
            data@.len() >= crate::packet::HEADER_LEN && crate::packet::spec_byte_ptype(data@[0])
                == Some(crate::packet::PacketType::ClientConnectRequest) && old(self).handshake.spec_connect_acceptable(address, data@) && (exists|j: int|
                0 <= j < old(self).connections@.len() && (#[trigger] old(self).connections@[j]).address == address) ==> ({
                &&& final(self).connections@ == old(self).connections@
                &&& final(self).users == old(self).users
                &&& final(self).events == old(self).events
                &&& out@.len() == 1
                &&& out@[0].address == address
                &&& out@[0].bytes@ == crate::packet::header_bytes(
                    crate::packet::StandardHeader {
                        packet_type: crate::packet::PacketType::ServerConnectResponse,
                        local_seq: 0,
                        remote_seq: 0,
                        ack_bitfield: 0,
                    },
                )
            }),
            // a valid connect request from a fresh address creates the user
            // and either asks the application (auth payload) or accepts
            data@.len() >= crate::packet::HEADER_LEN && crate::packet::spec_byte_ptype(data@[0])
                == Some(crate::packet::PacketType::ClientConnectRequest) && old(self).handshake.spec_connect_acceptable(address, data@) && (forall|j: int|
                0 <= j < old(self).connections@.len() ==> (#[trigger] old(self).connections@[j]).address != address) && old(self).users.spec_len() < usize::MAX && old(self).users.slots@.len() < usize::MAX ==> ({
                &&& final(self).users.spec_len() == old(self).users.spec_len() + 1
                &&& exists|k: UserKey|
                    {
                        &&& #[trigger] final(self).users.spec_contains(
                            k.index as int,
                            k.generation,
                        )
                        &&& final(self).users.spec_at(k.index as int).address == address
                        &&& if crate::handshake::HandshakeManager::spec_req_has_auth(data@) {
                            &&& final(self).connections@ == old(self).connections@
                            &&& out@.len() == 0
                            &&& final(self).events.list@.len() == old(self).events.list@.len()
                                + 1
                            &&& (final(self).events.list@.last() matches crate::events::Event::Auth(k2, p)
                                && k2 == k && p@
                                == crate::handshake::HandshakeManager::spec_req_auth_payload(
                                data@,
                            ))
                        } else {
                            &&& final(self).events.list@ == old(self).events.list@.push(
                                crate::events::Event::Connection(k),
                            )
                            &&& out@.len() == 1
                            &&& out@[0].address == address
                            &&& out@[0].bytes@ == crate::packet::header_bytes(
                                crate::packet::StandardHeader {
                                    packet_type: crate::packet::PacketType::ServerConnectResponse,
                                    local_seq: 0,
                                    remote_seq: 0,
                                    ack_bitfield: 0,
                                },
                            )
                            &&& exists|j: int|
                                0 <= j < final(self).connections@.len() && (#[trigger] final(self).connections@[j]).user_key == k && final(self).connections@[j].address
                                    == address
                        }
                    }
            }),
            // established packets refresh the peer's liveness and leave the
            // rest alone; only a valid disconnect goes further
            data@.len() >= crate::packet::HEADER_LEN && (match crate::packet::spec_byte_ptype(
                data@[0],
            ) {
                Some(t) => t != crate::packet::PacketType::ClientChallengeRequest && t
                    != crate::packet::PacketType::ClientConnectRequest && t
                    != crate::packet::PacketType::Disconnect,
                None => false,
            }) ==> forall|j: int|
                0 <= j < old(self).connections@.len() && (#[trigger] old(self).connections@[j]).address == address ==> ({
                    &&& final(self).users == old(self).users
                    &&& final(self).events == old(self).events
                    &&& final(self).connections@.len() == old(self).connections@.len()
                    &&& (forall|j2: int|
                        0 <= j2 < old(self).connections@.len() && j2 != j ==> final(self).connections@[j2] == old(self).connections@[j2])
                    &&& final(self).connections@[j].last_heard_ms == now_ms
                    &&& final(self).connections@[j].user_key == old(self).connections@[j].user_key
                    &&& final(self).connections@[j].address == old(self).connections@[j].address
                }),
            // a heartbeat, pong or data packet is answered with nothing
            data@.len() >= crate::packet::HEADER_LEN && (match crate::packet::spec_byte_ptype(
                data@[0],
            ) {
                Some(t) => t == crate::packet::PacketType::Heartbeat || t
                    == crate::packet::PacketType::Pong || t == crate::packet::PacketType::Data,
                None => false,
            }) ==> out@.len() == 0,
            // a well-formed ping is answered with one pong echoing its index
            data@.len() >= crate::packet::HEADER_LEN && crate::packet::spec_byte_ptype(data@[0])
                == Some(crate::packet::PacketType::Ping) && (exists|j: int|
                0 <= j < old(self).connections@.len() && (#[trigger] old(self).connections@[j]).address == address) ==> ({
                let pos = crate::packet::HEADER_LEN as int + (if old(self).tick_manager is Some {
                    2int
                } else {
                    0int
                });
                &&& data@.len() >= pos + 2 ==> out@.len() == 1 && out@[0].address == address
                    && out@[0].bytes@.len() >= crate::packet::HEADER_LEN && out@[0].bytes@[0]
                    == crate::packet::spec_ptype_byte(crate::packet::PacketType::Pong)
                    && out@[0].bytes@.subrange(
                    out@[0].bytes@.len() - 2,
                    out@[0].bytes@.len() as int,
                ) == crate::codec::bytes2(crate::codec::be2(data@.subrange(pos, pos + 2)))
                &&& data@.len() < pos + 2 ==> out@.len() == 0
            }),
            // a disconnect is honoured exactly when its token validates
            data@.len() >= crate::packet::HEADER_LEN && crate::packet::spec_byte_ptype(data@[0])
                == Some(crate::packet::PacketType::Disconnect) ==> out@.len() == 0 && forall|
                j: int,
            |
                0 <= j < old(self).connections@.len() && (#[trigger] old(self).connections@[j]).address == address ==> ({
                    let uk = old(self).connections@[j].user_key;
                    &&& old(self).handshake.spec_disconnect_valid(address, data@) ==> ({
                        &&& !final(self).users.spec_contains(uk.index as int, uk.generation)
                        &&& (forall|j2: int|
                            0 <= j2 < final(self).connections@.len() ==> (#[trigger] final(self).connections@[j2]).user_key != uk)
                        &&& final(self).events.list@.len() == old(self).events.list@.len() + 1
                        &&& (final(self).events.list@.last() matches crate::events::Event::Disconnection(uk2, _)
                            && uk2 == uk)
                    })
                    &&& !old(self).handshake.spec_disconnect_valid(address, data@) ==> final(self).users == old(self).users && final(self).events == old(self).events
                        && final(self).connections@.len() == old(self).connections@.len()
                }),
            // established-only packets from an unknown address are ignored
            data@.len() >= crate::packet::HEADER_LEN && (match crate::packet::spec_byte_ptype(
                data@[0],
            ) {
                Some(t) => t != crate::packet::PacketType::ClientChallengeRequest && t
                    != crate::packet::PacketType::ClientConnectRequest,
                None => false,
            }) && (forall|j: int|
                0 <= j < old(self).connections@.len() ==> (#[trigger] old(self).connections@[j]).address != address) ==> *final(self) == (Server {
                last_now_ms: now_ms,
                ..*old(self)
            }) && out@.len() == 0,
    {
        let ghost pre0 = *self;
        self.last_now_ms = now_ms;
        proof {
            self.lemma_clock_advance(pre0, now_ms);
        }
        let mut out: Vec<OutgoingPacket> = Vec::new();
        let header = match crate::packet::decode_header(data) {
            Some(h) => h,
            None => {
                return out;
            },
        };
        match header.packet_type {
            crate::packet::PacketType::ClientChallengeRequest => {
                match self.handshake.recv_challenge_request(address, data) {
                    Some(bytes) => {
                        out.push(OutgoingPacket { address, bytes });
                    },
                    None => {},
                }
                return out;
            },
            crate::packet::PacketType::ClientConnectRequest => {
                let mut replies = self.handle_connect_request(address, data);
                out.append(&mut replies);
                return out;
            },
            _ => {},
        }
        // established connections only, from here on
        let ci = match self.find_connection(address) {
            Some(ci) => ci,
            None => {
                return out;
            },
        };
        let mut replies = self.handle_established(ci, &header, address, data, now_ms);
        out.append(&mut replies);
        out
    }

    /// Handles a connect request from an address: valid tokens are
    /// accepted — idempotently when the address is already connected —
    /// and anything else is dropped.
    #[verifier::rlimit(100)]
    fn handle_connect_request(&mut self, address: Address, data: &Vec<u8>) -> (out: Vec<
        OutgoingPacket,
    >)
        requires
            old(self).wf(),
        ensures
            final(self).wf(),
            final(self).last_now_ms == old(self).last_now_ms,
            // replaying a valid request from a connected address is idempotent
            old(self).handshake.spec_connect_acceptable(address, data@) && (exists|j: int|
                0 <= j < old(self).connections@.len() && (#[trigger] old(self).connections@[j]).address == address) ==> ({
                &&& final(self).connections@ == old(self).connections@
                &&& final(self).users == old(self).users
                &&& final(self).events == old(self).events
                &&& out@.len() == 1
                &&& out@[0].address == address
                &&& out@[0].bytes@ == crate::packet::header_bytes(
                    crate::packet::StandardHeader {
                        packet_type: crate::packet::PacketType::ServerConnectResponse,
                        local_seq: 0,
                        remote_seq: 0,
                        ack_bitfield: 0,
                    },
                )
            }),
            // an invalid request is silently dropped
            !old(self).handshake.spec_connect_acceptable(address, data@) ==> *final(self) == *old(self) && out@.len() == 0,
            // a valid request from a fresh address creates the user and
            // either asks the application (auth payload) or accepts outright
            old(self).handshake.spec_connect_acceptable(address, data@) && (forall|j: int|
                0 <= j < old(self).connections@.len() ==> (#[trigger] old(self).connections@[j]).address != address) && old(self).users.spec_len() < usize::MAX && old(self).users.slots@.len() < usize::MAX ==> ({
                &&& final(self).users.spec_len() == old(self).users.spec_len() + 1
                &&& exists|k: UserKey|
                    {
                        &&& #[trigger] final(self).users.spec_contains(
                            k.index as int,
                            k.generation,
                        )
                        &&& final(self).users.spec_at(k.index as int).address == address
                        &&& if crate::handshake::HandshakeManager::spec_req_has_auth(data@) {
                            &&& final(self).connections@ == old(self).connections@
                            &&& out@.len() == 0
                            &&& final(self).events.list@.len() == old(self).events.list@.len()
                                + 1
                            &&& (final(self).events.list@.last() matches crate::events::Event::Auth(k2, p)
                                && k2 == k && p@
                                == crate::handshake::HandshakeManager::spec_req_auth_payload(
                                data@,
                            ))
                        } else {
                            &&& final(self).events.list@ == old(self).events.list@.push(
                                crate::events::Event::Connection(k),
                            )
                            &&& out@.len() == 1
                            &&& out@[0].address == address
                            &&& out@[0].bytes@ == crate::packet::header_bytes(
                                crate::packet::StandardHeader {
                                    packet_type: crate::packet::PacketType::ServerConnectResponse,
                                    local_seq: 0,
                                    remote_seq: 0,
                                    ack_bitfield: 0,
                                },
                            )
                            &&& exists|j: int|
                                0 <= j < final(self).connections@.len() && (#[trigger] final(self).connections@[j]).user_key == k && final(self).connections@[j].address
                                    == address
                        }
                    }
            }),
    {
        let mut out: Vec<OutgoingPacket> = Vec::new();
        let ghost mid = *self;
        let result = self.handshake.recv_connect_request(address, data);
        proof {
            self.lemma_wf_core_frame(mid);
        }
        match result {
            crate::handshake::HandshakeResult::Success(auth_opt) => {
                if self.find_connection(address).is_some() {
                    // already connected: just re-send the acceptance
                    let bytes = self.handshake.write_connect_response();
                    out.push(OutgoingPacket { address, bytes });
                } else {
                    if self.users.len() < usize::MAX && self.users.slots.len() < usize::MAX {
                        let user = User::new(address);
                        let ghost mid2 = *self;
                        let (uindex, ugen) = self.users.insert(user);
                        let user_key = UserKey { index: uindex, generation: ugen };
                        proof {
                            self.lemma_after_user_insert(mid2, uindex as int, ugen);
                        }
                        match auth_opt {
                            Some(payload) => {
                                self.events.push_auth(user_key, payload);
                                proof {
                                    let mid3 = *self;
                                    self.lemma_wf_core_frame(mid3);
                                    assert(self.users.spec_contains(
                                        user_key.index as int,
                                        user_key.generation,
                                    ));
                                    assert(self.users.spec_at(user_key.index as int).address
                                        == address);
                                    assert(self.events.list@.last()
                                        == crate::events::Event::Auth(user_key, payload));
                                }
                            },
                            None => {
                                let mut accepted = self.accept_connection(&user_key);
                                out.append(&mut accepted);
                                proof {
                                    assert(self.users.spec_contains(
                                        user_key.index as int,
                                        user_key.generation,
                                    ));
                                    assert(self.users.spec_at(user_key.index as int).address
                                        == address);
                                }
                            },
                        }
                    }
                }
            },
            crate::handshake::HandshakeResult::Invalid => {},
        }
        out
    }

    /// Dispatches one datagram of an established connection.
    #[verifier::rlimit(100)]
    #[verifier::spinoff_prover]
    fn handle_established(
        &mut self,
        ci: usize,
        header: &crate::packet::StandardHeader,
        address: Address,
        data: &Vec<u8>,
        now_ms: u64,
    ) -> (out: Vec<OutgoingPacket>)
        requires
            old(self).wf(),
            ci < old(self).connections@.len(),
            now_ms == old(self).last_now_ms,
        ensures
            final(self).wf(),
            final(self).last_now_ms == old(self).last_now_ms,
            // anything but a valid disconnect leaves users, events and the
            // other connections untouched, and refreshes this peer's liveness
            header.packet_type != crate::packet::PacketType::Disconnect ==> ({
                &&& final(self).users == old(self).users
                &&& final(self).events == old(self).events
                &&& final(self).connections@.len() == old(self).connections@.len()
                &&& forall|j: int|
                    0 <= j < old(self).connections@.len() && j != ci as int ==> final(self).connections@[j] == old(self).connections@[j]
                &&& final(self).connections@[ci as int].last_heard_ms == now_ms
                &&& final(self).connections@[ci as int].user_key == old(self).connections@[ci as int].user_key
                &&& final(self).connections@[ci as int].address == old(self).connections@[ci as int].address
            }),
            // only a ping is answered
            (header.packet_type == crate::packet::PacketType::Heartbeat || header.packet_type
                == crate::packet::PacketType::Pong || header.packet_type
                == crate::packet::PacketType::Data) ==> out@.len() == 0,
            // a well-formed ping is answered with one pong echoing its index
            header.packet_type == crate::packet::PacketType::Ping ==> ({
                let pos = crate::packet::HEADER_LEN as int + (if old(self).tick_manager is Some {
                    2int
                } else {
                    0int
                });
                &&& data@.len() >= pos + 2 ==> out@.len() == 1 && out@[0].address == address
                    && out@[0].bytes@.len()
                    >= crate::packet::HEADER_LEN && out@[0].bytes@[0]
                    == crate::packet::spec_ptype_byte(crate::packet::PacketType::Pong)
                    && out@[0].bytes@.subrange(
                    out@[0].bytes@.len() - 2,
                    out@[0].bytes@.len() as int,
                ) == crate::codec::bytes2(crate::codec::be2(data@.subrange(pos, pos + 2)))
                &&& data@.len() < pos + 2 ==> out@.len() == 0
            }),
            // a disconnect is honoured exactly when it carries the token
            // that connected this address
            header.packet_type == crate::packet::PacketType::Disconnect ==> ({
                let uk = old(self).connections@[ci as int].user_key;
                &&& out@.len() == 0
                &&& old(self).handshake.spec_disconnect_valid(address, data@) ==> ({
                    &&& !final(self).users.spec_contains(uk.index as int, uk.generation)
                    &&& forall|j: int|
                        0 <= j < final(self).connections@.len() ==> (#[trigger] final(self).connections@[j]).user_key != uk
                    &&& final(self).events.list@.len() == old(self).events.list@.len() + 1
                    &&& (final(self).events.list@.last() matches crate::events::Event::Disconnection(uk2, _)
                        && uk2 == uk)
                })
                &&& !old(self).handshake.spec_disconnect_valid(address, data@) ==> final(self).users == old(self).users && final(self).events == old(self).events && final(self).connections@.len() == old(self).connections@.len()
            }),
    {
        let mut out: Vec<OutgoingPacket> = Vec::new();
        {
            let ghost mid = *self;
            let c = &mut self.connections[ci];
            c.mark_heard(now_ms);
            c.process_incoming_header(&header);
            proof {
                self.lemma_conns_touch_frame(mid);
            }
        }
        let has_tick = match &self.tick_manager {
            Some(_) => true,
            None => false,
        };
        match header.packet_type {
            crate::packet::PacketType::Data => {
                let mut pos: usize = crate::packet::HEADER_LEN;
                let mut client_tick: u16 = 0;
                if has_tick {
                    if data.len() < pos + 2 {
                        return out;
                    }
                    client_tick = crate::codec::read_u16(data, pos);
                    pos = pos + 2;
                    let ghost mid = *self;
                    let c = &mut self.connections[ci];
                    c.recv_client_tick(client_tick);
                    proof {
                        self.lemma_conns_touch_frame(mid);
                    }
                }
                if data.len() < pos + 4 {
                    return out;
                }
                let action_count = crate::codec::read_u16(data, pos);
                if action_count != 0 {
                    // clients never send replication actions
                    return out;
                }
                let msg_count = crate::codec::read_u16(data, pos + 2);
                let frames = match crate::packet::parse_frames(data, pos + 4, msg_count) {
                    Some(fs) => fs,
                    None => {
                        return out;
                    },
                };
                let mut frames_m = frames;
                let ghost data_pre = *self;
                while frames_m.len() > 0
                    invariant
                        self.wf(),
                        ci < self.connections@.len(),
                        self.last_now_ms == now_ms,
                        self.users == data_pre.users,
                        self.events == data_pre.events,
                        self.connections@.len() == data_pre.connections@.len(),
                        forall|j: int|
                            0 <= j < self.connections@.len() && j != ci as int ==> #[trigger] self.connections@[j] == data_pre.connections@[j],
                        self.connections@[ci as int].last_heard_ms == data_pre.connections@[ci as int].last_heard_ms,
                        self.connections@[ci as int].user_key == data_pre.connections@[ci as int].user_key,
                        self.connections@[ci as int].address == data_pre.connections@[ci as int].address,
                    decreases frames_m@.len(),
                {
                    let f = frames_m.remove(0);
                    match self.channels.get(f.channel) {
                        Some(meta) => {
                            if meta.can_send_to_server() {
                                let ghost mid = *self;
                                match meta.ordering {
                                    crate::channels::ChannelOrdering::TickBuffered => {
                                        let c = &mut self.connections[ci];
                                        c.tick_buffer.push_message(
                                            client_tick,
                                            f.channel,
                                            f.payload,
                                        );
                                    },
                                    _ => {
                                        let c = &mut self.connections[ci];
                                        c.message_manager.recv_message(
                                            meta.ordering,
                                            f.channel,
                                            f.seq,
                                            f.payload,
                                        );
                                    },
                                }
                                proof {
                                    self.lemma_conns_touch_frame(mid);
                                }
                            }
                        },
                        None => {},
                    }
                }
            },
            crate::packet::PacketType::Disconnect => {
                if self.handshake.verify_disconnect_request(address, data) {
                    let user_key = self.connections[ci].user_key;
                    self.user_disconnect(&user_key);
                }
            },
            crate::packet::PacketType::Heartbeat => {
                if has_tick {
                    if data.len() >= crate::packet::HEADER_LEN + 2 {
                        let t = crate::codec::read_u16(data, crate::packet::HEADER_LEN);
                        let ghost mid = *self;
                        let c = &mut self.connections[ci];
                        c.recv_client_tick(t);
                        proof {
                            self.lemma_conns_touch_frame(mid);
                        }
                    }
                }
            },
            crate::packet::PacketType::Ping => {
                let mut pos: usize = crate::packet::HEADER_LEN;
                if has_tick {
                    if data.len() < pos + 2 {
                        return out;
                    }
                    let t = crate::codec::read_u16(data, pos);
                    pos = pos + 2;
                    let ghost mid = *self;
                    let c = &mut self.connections[ci];
                    c.recv_client_tick(t);
                    proof {
                        self.lemma_conns_touch_frame(mid);
                    }
                }
                if data.len() < pos + 2 {
                    return out;
                }
                let ping_index = crate::codec::read_u16(data, pos);
                let tick_opt: Option<u16> = match &self.tick_manager {
                    Some(tm) => Some(tm.server_tick),
                    None => None,
                };
                let ghost mid = *self;
                let header_out = {
                    let c = &mut self.connections[ci];
                    let h = c.write_outgoing_header(crate::packet::PacketType::Pong);
                    c.mark_sent(now_ms);
                    h
                };
                proof {
                    self.lemma_conns_touch_frame(mid);
                }
                let mut bytes: Vec<u8> = Vec::new();
                crate::packet::encode_header(&header_out, &mut bytes);
                match tick_opt {
                    Some(t) => {
                        crate::codec::write_u16(&mut bytes, t);
                    },
                    None => {},
                }
                crate::codec::write_u16(&mut bytes, ping_index);
                proof {
                    assert(bytes@[0] == crate::packet::spec_ptype_byte(
                        crate::packet::PacketType::Pong,
                    ));
                    assert(bytes@.subrange(bytes@.len() - 2, bytes@.len() as int)
                        =~= crate::codec::bytes2(ping_index));
                }
                out.push(OutgoingPacket { address, bytes });
            },
            crate::packet::PacketType::Pong => {
                let mut pos: usize = crate::packet::HEADER_LEN;
                if has_tick {
                    if data.len() < pos + 2 {
                        return out;
                    }
                    let t = crate::codec::read_u16(data, pos);
                    pos = pos + 2;
                    let ghost mid = *self;
                    let c = &mut self.connections[ci];
                    c.recv_client_tick(t);
                    proof {
                        self.lemma_conns_touch_frame(mid);
                    }
                }
                if data.len() < pos + 2 {
                    return out;
                }
                let ping_index = crate::codec::read_u16(data, pos);
                let ghost mid = *self;
                {
                    let c = &mut self.connections[ci];
                    c.ping_manager.process_pong(ping_index, now_ms);
                }
                proof {
                    assert forall|j: int|
                        0 <= j < self.connections@.len() implies ({
                        let c2 = #[trigger] self.connections@[j];
                        &&& c2.wf(self.spec_channel_count())
                        &&& c2.user_key == mid.connections@[j].user_key
                        &&& c2.address == mid.connections@[j].address
                        &&& c2.ping_manager.latest_ms <= self.last_now_ms
                    }) by {
                        if j != ci as int {
                            assert(self.connections@[j] == mid.connections@[j]);
                        }
                    }
                    self.lemma_conns_touch_frame_partial(mid);
                    assert forall|a: int, b: int|
                        0 <= a < b < self.connections@.len() implies self.connections@[a].address
                        != self.connections@[b].address by {
                        assert(mid.connections@[a].address != mid.connections@[b].address);
                    }
                }
            },
            _ => {},
        }
        out
    }

    /// Inserting a fresh user with no rooms preserves the state's shape.
    proof fn lemma_after_user_insert(self, pre: Server, ui: int, ugen: u64)
        requires
            pre.wf(),
            self.users.wf(),
            self.users.slots@.len() >= pre.users.slots@.len(),
            self.users.spec_contains(ui, ugen),
            self.users.spec_at(ui).room_keys@.len() == 0,
            !pre.users.spec_contains(ui, ugen),
            forall|i: int, g: u64|
                pre.users.spec_contains(i, g) ==> self.users.spec_contains(i, g)
                    && self.users.spec_at(i) == pre.users.spec_at(i),
            forall|i: int, g: u64|
                self.users.spec_contains(i, g) && !(i == ui && g == ugen)
                    ==> pre.users.spec_contains(i, g) && self.users.spec_at(i)
                    == pre.users.spec_at(i),
            self.rooms == pre.rooms,
            self.connections@ == pre.connections@,
            self.channels == pre.channels,
            self.last_now_ms == pre.last_now_ms,
        ensures
            self.conns_wf(),
            self.addrs_unique(),
            self.users_rooms_wf(),
            self.rooms_users_wf(),
    {
        assert forall|i: int| 0 <= i < self.connections@.len() implies ({
            let c = #[trigger] self.connections@[i];
            &&& c.wf(self.spec_channel_count())
            &&& self.users.spec_contains(c.user_key.index as int, c.user_key.generation)
            &&& self.users.spec_at(c.user_key.index as int).address == c.address
            &&& c.ping_manager.latest_ms <= self.last_now_ms
        }) by {
            assert(self.connections@[i] == pre.connections@[i]);
        }
        assert forall|a: int, b: int|
            0 <= a < b < self.connections@.len() implies self.connections@[a].address
            != self.connections@[b].address by {
            assert(pre.connections@[a].address != pre.connections@[b].address);
        }
        assert forall|i: int| self.spec_user_live_at(i) implies ({
            let u = #[trigger] self.users.spec_at(i);
            &&& u.wf()
            &&& forall|rk: RoomKey|
                u.room_keys@.contains(rk) ==> self.rooms.spec_contains(
                    rk.index as int,
                    rk.generation,
                ) && self.rooms.spec_at(rk.index as int).users@.contains(self.spec_user_key_at(i))
        }) by {
            let g1 = self.users.slots@[i].generation;
            assert(self.users.spec_contains(i, g1));
            if i == ui && g1 == ugen {
                assert(self.users.spec_at(i).room_keys@.len() == 0);
            } else {
                assert(pre.users.spec_contains(i, g1));
                assert(pre.spec_user_live_at(i));
                assert(pre.users.slots@[i].generation == g1);
                assert(self.users.spec_at(i) == pre.users.spec_at(i));
                assert(self.spec_user_key_at(i) == pre.spec_user_key_at(i));
            }
        }
        assert forall|i: int| self.spec_room_live_at(i) implies ({
            let r = #[trigger] self.rooms.spec_at(i);
            &&& r.wf()
            &&& forall|uk: UserKey|
                r.users@.contains(uk) ==> self.users.spec_contains(
                    uk.index as int,
                    uk.generation,
                ) && self.users.spec_at(uk.index as int).room_keys@.contains(
                    self.spec_room_key_at(i),
                )
        }) by {
            assert(pre.spec_room_live_at(i));
            assert(self.spec_room_key_at(i) == pre.spec_room_key_at(i));
        }
    }

    /// Collects what has arrived: consumes at most one pending tick,
    /// drains every connection's in-order deliveries into the event
    /// stream (in a random connection order), and — when a tick was
    /// consumed — releases exactly the tick-buffered messages for the new
    /// tick from every connection and closes the batch with a single Tick
    /// event. Returns the accumulated events and resets the stream.
    #[verifier::rlimit(100)]
    pub fn receive(&mut self, now_ms: u64) -> (out: Vec<crate::events::Event>)
        requires
            old(self).wf(),
            old(self).last_now_ms <= now_ms < CLOCK_BOUND_MS,
        ensures
            final(self).wf(),
            final(self).last_now_ms == now_ms,
            final(self).events.list@.len() == 0,
            old(self).events.list@.is_prefix_of(out@),
            final(self).users == old(self).users,
            final(self).rooms == old(self).rooms,
            // the tick counter advances by exactly the consumed tick
            old(self).tick_manager is Some <==> final(self).tick_manager is Some,
            (match (old(self).tick_manager, final(self).tick_manager) {
                (Some(t0), Some(t1)) => {
                    &&& t1.tick_interval_ms == t0.tick_interval_ms
                    &&& t1.last_instant_ms == now_ms
                    &&& if t0.accum_ms + (now_ms - t0.last_instant_ms) >= t0.tick_interval_ms {
                        t1.server_tick == crate::tick::spec_tick_next(t0.server_tick)
                    } else {
                        t1.server_tick == t0.server_tick
                    }
                },
                (None, None) => true,
                _ => false,
            }),
            // every connection's delivery queue was drained
            forall|j: int|
                0 <= j < final(self).connections@.len() ==> (#[trigger] final(self).connections@[j]).message_manager.delivered@.len() == 0,
            final(self).connections@.len() == old(self).connections@.len(),
            // every message drained from a delivery queue appears in the
            // returned events, tagged with that connection's user
            forall|j: int, d: int|
                0 <= j < old(self).connections@.len() && 0 <= d < old(self).connections@[j].message_manager.delivered@.len() ==> exists|k: int|
                    old(self).events.list@.len() <= k < out@.len() && #[trigger] out@[k]
                        == crate::events::Event::Message(
                        old(self).connections@[j].user_key,
                        (#[trigger] old(self).connections@[j].message_manager.delivered@[d]).0,
                        old(self).connections@[j].message_manager.delivered@[d].1,
                    ),
            // beyond the accumulated events, the batch holds only message
            // events — closed by the tick marker when a tick was consumed
            (match old(self).tick_manager {
                Some(t0) => if t0.accum_ms + (now_ms - t0.last_instant_ms)
                    >= t0.tick_interval_ms {
                    forall|k: int|
                        old(self).events.list@.len() <= k < out@.len() - 1 ==> (#[trigger] out@[k]) matches crate::events::Event::Message(_, _, _)
                } else {
                    forall|k: int|
                        old(self).events.list@.len() <= k < out@.len() ==> (#[trigger] out@[k]) matches crate::events::Event::Message(_, _, _)
                },
                None => forall|k: int|
                    old(self).events.list@.len() <= k < out@.len() ==> (#[trigger] out@[k]) matches crate::events::Event::Message(_, _, _),
            }),
            // nothing pending and no tick crossed: the batch is exactly the
            // accumulated events
            (forall|j: int|
                0 <= j < old(self).connections@.len() ==> (#[trigger] old(self).connections@[j]).message_manager.delivered@.len() == 0) && (match old(self).tick_manager {
                Some(t0) => t0.accum_ms + (now_ms - t0.last_instant_ms) < t0.tick_interval_ms,
                None => true,
            }) ==> out@ == old(self).events.list@,
            // on a consumed tick the buffered inputs for the new tick are
            // released everywhere and the batch ends with the tick marker
            (match (old(self).tick_manager, final(self).tick_manager) {
                (Some(t0), Some(t1)) => if t0.accum_ms + (now_ms - t0.last_instant_ms)
                    >= t0.tick_interval_ms {
                    &&& out@.len() > 0
                    &&& out@.last() == crate::events::Event::Tick
                    &&& forall|j: int|
                        0 <= j < final(self).connections@.len() ==> (#[trigger] final(self).connections@[j]).tick_buffer.messages@
                            == crate::tick_buffer::spec_retained(
                            old(self).connections@[j].tick_buffer.messages@,
                            t1.server_tick,
                        )
                    &&& forall|j: int, r: int|
                        0 <= j < old(self).connections@.len() && 0 <= r
                            < crate::tick_buffer::spec_released(
                            old(self).connections@[j].tick_buffer.messages@,
                            t1.server_tick,
                        ).len() ==> exists|k: int|
                            old(self).events.list@.len() <= k < out@.len() && #[trigger] out@[k]
                                == crate::events::Event::Message(
                                old(self).connections@[j].user_key,
                                (#[trigger] crate::tick_buffer::spec_released(
                                    old(self).connections@[j].tick_buffer.messages@,
                                    t1.server_tick,
                                )[r]).channel,
                                crate::tick_buffer::spec_released(
                                    old(self).connections@[j].tick_buffer.messages@,
                                    t1.server_tick,
                                )[r].payload,
                            )
                } else {
                    forall|j: int|
                        0 <= j < final(self).connections@.len() ==> (#[trigger] final(self).connections@[j]).tick_buffer == old(self).connections@[j].tick_buffer
                },
                _ => forall|j: int|
                    0 <= j < final(self).connections@.len() ==> (#[trigger] final(self).connections@[j]).tick_buffer == old(self).connections@[j].tick_buffer,
            }),
    {
        let ghost pre0 = *self;
        self.last_now_ms = now_ms;
        proof {
            self.lemma_clock_advance(pre0, now_ms);
        }
        // consume at most one pending tick
        let mut did_tick = false;
        let mut current_tick: u16 = 0;
        let tm_taken = match &self.tick_manager {
            Some(_) => true,
            None => false,
        };
        if tm_taken {
            let ghost mid = *self;
            match &mut self.tick_manager {
                Some(tm) => {
                    did_tick = tm.recv_server_tick(now_ms);
                    current_tick = tm.server_tick;
                },
                None => {},
            }
            proof {
                self.lemma_wf_core_frame(mid);
            }
        }
        let ghost after_tick = *self;
        // visit the connections in a random order, but every one of them:
        // a shuffle only reorders the index list
        let n: usize = self.connections.len();
        let mut order: Vec<usize> = Vec::new();
        let mut i: usize = 0;
        while i < n
            invariant
                i <= n,
                order@.len() == i,
                forall|j: int| 0 <= j < i ==> #[trigger] order@[j] == j,
            decreases n - i,
        {
            order.push(i);
            i = i + 1;
        }
        let ghost order0 = order@;
        crate::rng::shuffle_indices(&mut order);
        proof {
            order0.to_multiset_ensures();
            order@.to_multiset_ensures();
            assert forall|idx: int| 0 <= idx < n implies order@.contains(#[trigger] (idx as usize)) by {
                assert(order0[idx] == idx as usize);
                assert(order0.contains(idx as usize));
                assert(order0.to_multiset().count(idx as usize) > 0);
                assert(order@.to_multiset().count(idx as usize) > 0);
            }
        }
        // drain per-connection deliveries
        let on: usize = order.len();
        let mut oi: usize = 0;
        while oi < on
            invariant
                self.wf(),
                on == order@.len(),
                oi <= on,
                n == self.connections@.len(),
                n == after_tick.connections@.len(),
                self.last_now_ms == now_ms,
                self.tick_manager == after_tick.tick_manager,
                self.users == after_tick.users,
                self.rooms == after_tick.rooms,
                after_tick.events.list@.is_prefix_of(self.events.list@),
                forall|j: int|
                    0 <= j < n ==> (#[trigger] self.connections@[j]).user_key
                        == after_tick.connections@[j].user_key && self.connections@[j].address
                        == after_tick.connections@[j].address && self.connections@[j].tick_buffer
                        == after_tick.connections@[j].tick_buffer
                        && self.connections@[j].ping_manager
                        == after_tick.connections@[j].ping_manager,
                forall|p: int|
                    0 <= p < oi && (#[trigger] order@[p]) < n ==> self.connections@[
                        order@[p] as int
                    ].message_manager.delivered@.len() == 0,
                forall|j: int|
                    0 <= j < n ==> (#[trigger] self.connections@[j]).message_manager.delivered@
                        == after_tick.connections@[j].message_manager.delivered@
                        || self.connections@[j].message_manager.delivered@.len() == 0,
                forall|k: int|
                    after_tick.events.list@.len() <= k < self.events.list@.len() ==> (
                    #[trigger] self.events.list@[k]) matches crate::events::Event::Message(
                        _,
                        _,
                        _,
                    ),
                forall|j: int, d: int|
                    0 <= j < n && self.connections@[j].message_manager.delivered@.len() == 0
                        && 0 <= d
                        < after_tick.connections@[j].message_manager.delivered@.len() ==> exists|
                        k: int,
                    |
                        after_tick.events.list@.len() <= k < self.events.list@.len()
                            && #[trigger] self.events.list@[k] == crate::events::Event::Message(
                            after_tick.connections@[j].user_key,
                            (#[trigger] after_tick.connections@[j].message_manager.delivered@[d]).0,
                            after_tick.connections@[j].message_manager.delivered@[d].1,
                        ),
                (forall|j: int|
                    0 <= j < n ==> (#[trigger] after_tick.connections@[j]).message_manager.delivered@.len() == 0) ==> self.events == after_tick.events,
            decreases on - oi,
        {
            let ghost step_pre = *self;
            let ci = order[oi];
            if ci < self.connections.len() {
                let user_key = self.connections[ci].user_key;
                let ghost mid = *self;
                let mut delivered = {
                    let c = &mut self.connections[ci];
                    c.message_manager.take_delivered()
                };
                proof {
                    self.lemma_conns_touch_frame(mid);
                }
                let ghost inner_pre = *self;
                let ghost dvr0 = delivered@;
                let dn: usize = delivered.len();
                let mut di: usize = 0;
                while di < dn
                    invariant
                        self.wf(),
                        self.last_now_ms == now_ms,
                        dn == dvr0.len(),
                        di <= dn,
                        delivered@ =~= dvr0.skip(di as int),
                        self.connections@ == inner_pre.connections@,
                        self.tick_manager == inner_pre.tick_manager,
                        self.users == inner_pre.users,
                        self.rooms == inner_pre.rooms,
                        inner_pre.events.list@.is_prefix_of(self.events.list@),
                        dn == 0 ==> self.events == inner_pre.events,
                        forall|k: int|
                            inner_pre.events.list@.len() <= k < self.events.list@.len() ==> (
                            #[trigger] self.events.list@[k]) matches crate::events::Event::Message(
                                _,
                                _,
                                _,
                            ),
                        forall|d: int|
                            0 <= d < di ==> exists|k: int|
                                inner_pre.events.list@.len() <= k < self.events.list@.len()
                                    && #[trigger] self.events.list@[k]
                                    == crate::events::Event::Message(
                                    user_key,
                                    (#[trigger] dvr0[d]).0,
                                    dvr0[d].1,
                                ),
                    decreases delivered@.len(),
                {
                    let (channel, payload) = delivered.remove(0);
                    let ghost mid2 = *self;
                    self.events.push_message(user_key, channel, payload);
                    di = di + 1;
                    proof {
                        self.lemma_wf_core_frame(mid2);
                        assert(self.events.list@.last() == crate::events::Event::Message(
                            user_key,
                            dvr0[di as int - 1].0,
                            dvr0[di as int - 1].1,
                        ));
                        assert forall|d: int| 0 <= d < di implies exists|k: int|
                            inner_pre.events.list@.len() <= k < self.events.list@.len()
                                && #[trigger] self.events.list@[k]
                                == crate::events::Event::Message(
                                user_key,
                                (#[trigger] dvr0[d]).0,
                                dvr0[d].1,
                            ) by {
                            if d < di - 1 {
                                let k0 = choose|k: int|
                                    inner_pre.events.list@.len() <= k
                                        < mid2.events.list@.len() && #[trigger] mid2.events.list@[k]
                                        == crate::events::Event::Message(
                                        user_key,
                                        dvr0[d].0,
                                        dvr0[d].1,
                                    );
                                assert(self.events.list@[k0] == mid2.events.list@[k0]);
                            } else {
                                assert(self.events.list@[self.events.list@.len() - 1]
                                    == crate::events::Event::Message(
                                    user_key,
                                    dvr0[d].0,
                                    dvr0[d].1,
                                ));
                            }
                        }
                    }
                }
                proof {
                    assert forall|k: int|
                        after_tick.events.list@.len() <= k < self.events.list@.len() implies (
                        #[trigger] self.events.list@[k]) matches crate::events::Event::Message(
                            _,
                            _,
                            _,
                        ) by {
                        if k < inner_pre.events.list@.len() {
                            assert(self.events.list@.take(inner_pre.events.list@.len() as int)
                                =~= inner_pre.events.list@);
                            assert(self.events.list@[k] == inner_pre.events.list@[k]);
                        }
                    }
                }
            }
            oi = oi + 1;
            proof {
                assert(step_pre.events.list@.is_prefix_of(self.events.list@));
                assert forall|k: int|
                    0 <= k < step_pre.events.list@.len() implies self.events.list@[k]
                    == step_pre.events.list@[k] by {
                    assert(self.events.list@.take(step_pre.events.list@.len() as int)
                        =~= step_pre.events.list@);
                }
                assert forall|j: int, d: int|
                    0 <= j < n && self.connections@[j].message_manager.delivered@.len() == 0
                        && 0 <= d
                        < after_tick.connections@[j].message_manager.delivered@.len() implies
                    exists|k: int|
                        after_tick.events.list@.len() <= k < self.events.list@.len()
                            && #[trigger] self.events.list@[k] == crate::events::Event::Message(
                            after_tick.connections@[j].user_key,
                            (#[trigger] after_tick.connections@[j].message_manager.delivered@[d]).0,
                            after_tick.connections@[j].message_manager.delivered@[d].1,
                        ) by {
                    if step_pre.connections@[j].message_manager.delivered@.len() == 0 {
                        // already drained before this visit: the fact stands
                        let k0 = choose|k: int|
                            after_tick.events.list@.len() <= k < step_pre.events.list@.len()
                                && #[trigger] step_pre.events.list@[k]
                                == crate::events::Event::Message(
                                after_tick.connections@[j].user_key,
                                after_tick.connections@[j].message_manager.delivered@[d].0,
                                after_tick.connections@[j].message_manager.delivered@[d].1,
                            );
                        assert(self.events.list@[k0] == step_pre.events.list@[k0]);
                    }
                }
                if forall|j: int|
                    0 <= j < n ==> (#[trigger] after_tick.connections@[j]).message_manager.delivered@.len() == 0 {
                    assert(self.events == step_pre.events);
                }
            }
        }
        proof {
            assert forall|j: int|
                0 <= j < self.connections@.len() implies (#[trigger] self.connections@[j]).message_manager.delivered@.len() == 0 by {
                assert(order@.contains(j as usize));
                let p = choose|p: int| 0 <= p < order@.len() && order@[p] == j as usize;
            }
        }
        // on a consumed tick, release the tick-buffered inputs, then mark it
        let ghost after_drain = *self;
        if did_tick {
            let on2: usize = order.len();
            let mut oi2: usize = 0;
            while oi2 < on2
                invariant
                    self.wf(),
                    on2 == order@.len(),
                    oi2 <= on2,
                    n == self.connections@.len(),
                    n == after_drain.connections@.len(),
                    self.last_now_ms == now_ms,
                    self.tick_manager == after_drain.tick_manager,
                    self.users == after_drain.users,
                    self.rooms == after_drain.rooms,
                    after_drain.events.list@.is_prefix_of(self.events.list@),
                    forall|k: int|
                        after_drain.events.list@.len() <= k < self.events.list@.len() ==> (
                        #[trigger] self.events.list@[k]) matches crate::events::Event::Message(
                            _,
                            _,
                            _,
                        ),
                    forall|j: int|
                        0 <= j < n ==> (#[trigger] self.connections@[j]).user_key
                            == after_drain.connections@[j].user_key
                            && self.connections@[j].address
                            == after_drain.connections@[j].address
                            && self.connections@[j].message_manager.delivered@.len() == 0,
                    forall|j: int|
                        0 <= j < n ==> (#[trigger] self.connections@[j]).tick_buffer
                            == after_drain.connections@[j].tick_buffer || ({
                            &&& self.connections@[j].tick_buffer.messages@
                                == crate::tick_buffer::spec_retained(
                                after_drain.connections@[j].tick_buffer.messages@,
                                current_tick,
                            )
                            &&& forall|r: int|
                                0 <= r < crate::tick_buffer::spec_released(
                                    after_drain.connections@[j].tick_buffer.messages@,
                                    current_tick,
                                ).len() ==> exists|k: int|
                                    after_drain.events.list@.len() <= k
                                        < self.events.list@.len()
                                        && #[trigger] self.events.list@[k]
                                        == crate::events::Event::Message(
                                        after_drain.connections@[j].user_key,
                                        (#[trigger] crate::tick_buffer::spec_released(
                                            after_drain.connections@[j].tick_buffer.messages@,
                                            current_tick,
                                        )[r]).channel,
                                        crate::tick_buffer::spec_released(
                                            after_drain.connections@[j].tick_buffer.messages@,
                                            current_tick,
                                        )[r].payload,
                                    )
                        }),
                    forall|p: int|
                        0 <= p < oi2 && (#[trigger] order@[p]) < n ==> self.connections@[
                            order@[p] as int
                        ].tick_buffer.messages@ == crate::tick_buffer::spec_retained(
                            after_drain.connections@[order@[p] as int].tick_buffer.messages@,
                            current_tick,
                        ),
                decreases on2 - oi2,
            {
                let ghost step_pre = *self;
                let ci = order[oi2];
                if ci < self.connections.len() {
                    let user_key = self.connections[ci].user_key;
                    let ghost mid = *self;
                    let mut released = {
                        let c = &mut self.connections[ci];
                        c.tick_buffer.receive_messages(current_tick)
                    };
                    proof {
                        self.lemma_conns_touch_frame(mid);
                        crate::tick_buffer::lemma_retained_idempotent(
                            after_drain.connections@[ci as int].tick_buffer.messages@,
                            current_tick,
                        );
                        crate::tick_buffer::lemma_released_after_retained(
                            after_drain.connections@[ci as int].tick_buffer.messages@,
                            current_tick,
                        );
                    }
                    let ghost inner_pre = *self;
                    let ghost rl0 = released@;
                    let rn: usize = released.len();
                    let mut ri: usize = 0;
                    while ri < rn
                        invariant
                            self.wf(),
                            self.last_now_ms == now_ms,
                            rn == rl0.len(),
                            ri <= rn,
                            released@ =~= rl0.skip(ri as int),
                            self.connections@ == inner_pre.connections@,
                            self.tick_manager == inner_pre.tick_manager,
                            self.users == inner_pre.users,
                            self.rooms == inner_pre.rooms,
                            inner_pre.events.list@.is_prefix_of(self.events.list@),
                            rn == 0 ==> self.events == inner_pre.events,
                            forall|k: int|
                                inner_pre.events.list@.len() <= k < self.events.list@.len()
                                    ==> (#[trigger] self.events.list@[k]) matches crate::events::Event::Message(
                                    _,
                                    _,
                                    _,
                                ),
                            forall|r: int|
                                0 <= r < ri ==> exists|k: int|
                                    inner_pre.events.list@.len() <= k
                                        < self.events.list@.len()
                                        && #[trigger] self.events.list@[k]
                                        == crate::events::Event::Message(
                                        user_key,
                                        (#[trigger] rl0[r]).channel,
                                        rl0[r].payload,
                                    ),
                        decreases rn - ri,
                    {
                        let m = released.remove(0);
                        let ghost mid2 = *self;
                        self.events.push_message(user_key, m.channel, m.payload);
                        ri = ri + 1;
                        proof {
                            self.lemma_wf_core_frame(mid2);
                            assert(self.events.list@.last() == crate::events::Event::Message(
                                user_key,
                                rl0[ri as int - 1].channel,
                                rl0[ri as int - 1].payload,
                            ));
                            assert forall|r: int| 0 <= r < ri implies exists|k: int|
                                inner_pre.events.list@.len() <= k < self.events.list@.len()
                                    && #[trigger] self.events.list@[k]
                                    == crate::events::Event::Message(
                                    user_key,
                                    (#[trigger] rl0[r]).channel,
                                    rl0[r].payload,
                                ) by {
                                if r < ri - 1 {
                                    let k0 = choose|k: int|
                                        inner_pre.events.list@.len() <= k
                                            < mid2.events.list@.len()
                                            && #[trigger] mid2.events.list@[k]
                                            == crate::events::Event::Message(
                                            user_key,
                                            rl0[r].channel,
                                            rl0[r].payload,
                                        );
                                    assert(self.events.list@[k0] == mid2.events.list@[k0]);
                                } else {
                                    assert(self.events.list@[self.events.list@.len() - 1]
                                        == crate::events::Event::Message(
                                        user_key,
                                        rl0[r].channel,
                                        rl0[r].payload,
                                    ));
                                }
                            }
                        }
                    }
                    proof {
                        assert forall|k: int|
                            after_drain.events.list@.len() <= k < self.events.list@.len() implies (
                            #[trigger] self.events.list@[k]) matches crate::events::Event::Message(
                                _,
                                _,
                                _,
                            ) by {
                            if k < inner_pre.events.list@.len() {
                                assert(self.events.list@.take(
                                    inner_pre.events.list@.len() as int,
                                ) =~= inner_pre.events.list@);
                                assert(self.events.list@[k] == inner_pre.events.list@[k]);
                            }
                        }
                    }
                }
                oi2 = oi2 + 1;
                proof {
                    assert(step_pre.events.list@.is_prefix_of(self.events.list@));
                    assert forall|k: int|
                        0 <= k < step_pre.events.list@.len() implies self.events.list@[k]
                        == step_pre.events.list@[k] by {
                        assert(self.events.list@.take(step_pre.events.list@.len() as int)
                            =~= step_pre.events.list@);
                    }
                    assert forall|j: int|
                        0 <= j < n && !(self.connections@[j].tick_buffer
                            == after_drain.connections@[j].tick_buffer) implies ({
                        &&& (#[trigger] self.connections@[j]).tick_buffer.messages@
                            == crate::tick_buffer::spec_retained(
                            after_drain.connections@[j].tick_buffer.messages@,
                            current_tick,
                        )
                        &&& forall|r: int|
                            0 <= r < crate::tick_buffer::spec_released(
                                after_drain.connections@[j].tick_buffer.messages@,
                                current_tick,
                            ).len() ==> exists|k: int|
                                after_drain.events.list@.len() <= k < self.events.list@.len()
                                    && #[trigger] self.events.list@[k]
                                    == crate::events::Event::Message(
                                    after_drain.connections@[j].user_key,
                                    (#[trigger] crate::tick_buffer::spec_released(
                                        after_drain.connections@[j].tick_buffer.messages@,
                                        current_tick,
                                    )[r]).channel,
                                    crate::tick_buffer::spec_released(
                                        after_drain.connections@[j].tick_buffer.messages@,
                                        current_tick,
                                    )[r].payload,
                                )
                    }) by {
                        if step_pre.connections@[j].tick_buffer
                            != after_drain.connections@[j].tick_buffer {
                            assert forall|r: int|
                                0 <= r < crate::tick_buffer::spec_released(
                                    after_drain.connections@[j].tick_buffer.messages@,
                                    current_tick,
                                ).len() implies exists|k: int|
                                after_drain.events.list@.len() <= k < self.events.list@.len()
                                    && #[trigger] self.events.list@[k]
                                    == crate::events::Event::Message(
                                    after_drain.connections@[j].user_key,
                                    (#[trigger] crate::tick_buffer::spec_released(
                                        after_drain.connections@[j].tick_buffer.messages@,
                                        current_tick,
                                    )[r]).channel,
                                    crate::tick_buffer::spec_released(
                                        after_drain.connections@[j].tick_buffer.messages@,
                                        current_tick,
                                    )[r].payload,
                                ) by {
                                let k0 = choose|k: int|
                                    after_drain.events.list@.len() <= k
                                        < step_pre.events.list@.len()
                                        && #[trigger] step_pre.events.list@[k]
                                        == crate::events::Event::Message(
                                        after_drain.connections@[j].user_key,
                                        crate::tick_buffer::spec_released(
                                            after_drain.connections@[j].tick_buffer.messages@,
                                            current_tick,
                                        )[r].channel,
                                        crate::tick_buffer::spec_released(
                                            after_drain.connections@[j].tick_buffer.messages@,
                                            current_tick,
                                        )[r].payload,
                                    );
                                assert(self.events.list@[k0] == step_pre.events.list@[k0]);
                            }
                        }
                    }
                }
            }
            proof {
                assert forall|j: int|
                    0 <= j < self.connections@.len() implies (#[trigger] self.connections@[j]).tick_buffer.messages@
                    == crate::tick_buffer::spec_retained(
                    after_drain.connections@[j].tick_buffer.messages@,
                    current_tick,
                ) by {
                    assert(order@.contains(j as usize));
                    let p = choose|p: int| 0 <= p < order@.len() && order@[p] == j as usize;
                }
            }
            let ghost mid3 = *self;
            self.events.push_tick();
            proof {
                self.lemma_wf_core_frame(mid3);
                assert forall|k: int|
                    0 <= k < mid3.events.list@.len() implies self.events.list@[k]
                    == mid3.events.list@[k] by {
                    assert(self.events.list@ == mid3.events.list@.push(
                        crate::events::Event::Tick,
                    ));
                }
                assert forall|j: int|
                    0 <= j < n && !(self.connections@[j].tick_buffer
                        == after_drain.connections@[j].tick_buffer) implies forall|r: int|
                    0 <= r < crate::tick_buffer::spec_released(
                        after_drain.connections@[j].tick_buffer.messages@,
                        current_tick,
                    ).len() ==> exists|k: int|
                        after_drain.events.list@.len() <= k < self.events.list@.len()
                            && #[trigger] self.events.list@[k] == crate::events::Event::Message(
                            after_drain.connections@[j].user_key,
                            (#[trigger] crate::tick_buffer::spec_released(
                                after_drain.connections@[j].tick_buffer.messages@,
                                current_tick,
                            )[r]).channel,
                            crate::tick_buffer::spec_released(
                                after_drain.connections@[j].tick_buffer.messages@,
                                current_tick,
                            )[r].payload,
                        ) by {
                    assert forall|r: int|
                        0 <= r < crate::tick_buffer::spec_released(
                            after_drain.connections@[j].tick_buffer.messages@,
                            current_tick,
                        ).len() implies exists|k: int|
                        after_drain.events.list@.len() <= k < self.events.list@.len()
                            && #[trigger] self.events.list@[k] == crate::events::Event::Message(
                            after_drain.connections@[j].user_key,
                            (#[trigger] crate::tick_buffer::spec_released(
                                after_drain.connections@[j].tick_buffer.messages@,
                                current_tick,
                            )[r]).channel,
                            crate::tick_buffer::spec_released(
                                after_drain.connections@[j].tick_buffer.messages@,
                                current_tick,
                            )[r].payload,
                        ) by {
                        let k0 = choose|k: int|
                            after_drain.events.list@.len() <= k < mid3.events.list@.len()
                                && #[trigger] mid3.events.list@[k]
                                == crate::events::Event::Message(
                                after_drain.connections@[j].user_key,
                                crate::tick_buffer::spec_released(
                                    after_drain.connections@[j].tick_buffer.messages@,
                                    current_tick,
                                )[r].channel,
                                crate::tick_buffer::spec_released(
                                    after_drain.connections@[j].tick_buffer.messages@,
                                    current_tick,
                                )[r].payload,
                            );
                        assert(self.events.list@[k0] == mid3.events.list@[k0]);
                    }
                }
            }
        }
        let ghost mid4 = *self;
        let out = self.events.take_all();
        proof {
            self.lemma_wf_core_frame(mid4);
            assert(out@ == mid4.events.list@);
            assert(after_drain.events.list@.is_prefix_of(out@));
            assert forall|k: int|
                0 <= k < after_drain.events.list@.len() implies out@[k]
                == after_drain.events.list@[k] by {
                assert(out@.take(after_drain.events.list@.len() as int)
                    =~= after_drain.events.list@);
            }
            // drained deliveries appear in the final batch
            assert forall|j: int, d: int|
                0 <= j < old(self).connections@.len() && 0 <= d < old(self).connections@[j].message_manager.delivered@.len() implies exists|k: int|
                old(self).events.list@.len() <= k < out@.len() && #[trigger] out@[k]
                    == crate::events::Event::Message(
                    old(self).connections@[j].user_key,
                    (#[trigger] old(self).connections@[j].message_manager.delivered@[d]).0,
                    old(self).connections@[j].message_manager.delivered@[d].1,
                ) by {
                let k0 = choose|k: int|
                    after_tick.events.list@.len() <= k < after_drain.events.list@.len()
                        && #[trigger] after_drain.events.list@[k]
                        == crate::events::Event::Message(
                        after_tick.connections@[j].user_key,
                        after_tick.connections@[j].message_manager.delivered@[d].0,
                        after_tick.connections@[j].message_manager.delivered@[d].1,
                    );
                assert(out@[k0] == after_drain.events.list@[k0]);
            }
            // released tick inputs appear in the final batch
            if did_tick {
                assert forall|j: int, r: int|
                    0 <= j < old(self).connections@.len() && 0 <= r
                        < crate::tick_buffer::spec_released(
                        old(self).connections@[j].tick_buffer.messages@,
                        current_tick,
                    ).len() implies exists|k: int|
                    old(self).events.list@.len() <= k < out@.len() && #[trigger] out@[k]
                        == crate::events::Event::Message(
                        old(self).connections@[j].user_key,
                        (#[trigger] crate::tick_buffer::spec_released(
                            old(self).connections@[j].tick_buffer.messages@,
                            current_tick,
                        )[r]).channel,
                        crate::tick_buffer::spec_released(
                            old(self).connections@[j].tick_buffer.messages@,
                            current_tick,
                        )[r].payload,
                    ) by {
                    if mid4.connections@[j].tick_buffer
                        == after_drain.connections@[j].tick_buffer {
                        // untouched yet equal to its own retained form: it
                        // had nothing to release
                        crate::tick_buffer::lemma_retained_full(
                            after_drain.connections@[j].tick_buffer.messages@,
                            current_tick,
                        );
                        assert(false);
                    } else {
                        let k0 = choose|k: int|
                            after_drain.events.list@.len() <= k < mid4.events.list@.len()
                                && #[trigger] mid4.events.list@[k]
                                == crate::events::Event::Message(
                                after_drain.connections@[j].user_key,
                                crate::tick_buffer::spec_released(
                                    after_drain.connections@[j].tick_buffer.messages@,
                                    current_tick,
                                )[r].channel,
                                crate::tick_buffer::spec_released(
                                    after_drain.connections@[j].tick_buffer.messages@,
                                    current_tick,
                                )[r].payload,
                            );
                        assert(out@[k0] == mid4.events.list@[k0]);
                        assert(after_tick.connections@[j].tick_buffer
                            == old(self).connections@[j].tick_buffer);
                    }
                }
            }
        }
        out
    }

    /// Every (room, user, entity) combination of a room's members and
    /// entities: the candidate pairs the scope pass will decide on.
    pub fn scope_checks(&self) -> (r: Vec<(RoomKey, UserKey, EntityId)>)
        requires
            self.rooms.wf(),
        ensures
            forall|j: int|
                0 <= j < r@.len() ==> {
                    let t = #[trigger] r@[j];
                    &&& self.rooms.spec_contains(t.0.index as int, t.0.generation)
                    &&& self.rooms.spec_at(t.0.index as int).spec_has_user(t.1)
                    &&& self.rooms.spec_at(t.0.index as int).spec_has_entity(t.2)
                },
    {
        let mut list: Vec<(RoomKey, UserKey, EntityId)> = Vec::new();
        let keys = self.rooms.keys();
        let kn: usize = keys.len();
        let mut ki: usize = 0;
        while ki < kn
            invariant
                kn == keys@.len(),
                ki <= kn,
                forall|j: int|
                    0 <= j < keys@.len() ==> self.rooms.spec_contains(
                        (#[trigger] keys@[j]).0 as int,
                        keys@[j].1,
                    ),
                forall|j: int|
                    0 <= j < list@.len() ==> {
                        let t = #[trigger] list@[j];
                        &&& self.rooms.spec_contains(t.0.index as int, t.0.generation)
                        &&& self.rooms.spec_at(t.0.index as int).spec_has_user(t.1)
                        &&& self.rooms.spec_at(t.0.index as int).spec_has_entity(t.2)
                    },
            decreases kn - ki,
        {
            let (rindex, rgen) = keys[ki];
            let room_key = RoomKey { index: rindex, generation: rgen };
            match self.rooms.get(rindex, rgen) {
                Some(room) => {
                    let un: usize = room.users.len();
                    let mut ui: usize = 0;
                    while ui < un
                        invariant
                            un == room.users@.len(),
                            ui <= un,
                            *room == self.rooms.spec_at(rindex as int),
                            self.rooms.spec_contains(rindex as int, rgen),
                            room_key.index == rindex && room_key.generation == rgen,
                            forall|j: int|
                                0 <= j < list@.len() ==> {
                                    let t = #[trigger] list@[j];
                                    &&& self.rooms.spec_contains(t.0.index as int, t.0.generation)
                                    &&& self.rooms.spec_at(t.0.index as int).spec_has_user(t.1)
                                    &&& self.rooms.spec_at(t.0.index as int).spec_has_entity(t.2)
                                },
                        decreases un - ui,
                    {
                        let uk = room.users[ui];
                        let en: usize = room.entities.len();
                        let mut ei: usize = 0;
                        while ei < en
                            invariant
                                en == room.entities@.len(),
                                un == room.users@.len(),
                                ui < un,
                                ei <= en,
                                *room == self.rooms.spec_at(rindex as int),
                                self.rooms.spec_contains(rindex as int, rgen),
                                room_key.index == rindex && room_key.generation == rgen,
                                uk == room.users@[ui as int],
                                forall|j: int|
                                    0 <= j < list@.len() ==> {
                                        let t = #[trigger] list@[j];
                                        &&& self.rooms.spec_contains(
                                            t.0.index as int,
                                            t.0.generation,
                                        )
                                        &&& self.rooms.spec_at(t.0.index as int).spec_has_user(t.1)
                                        &&& self.rooms.spec_at(t.0.index as int).spec_has_entity(
                                            t.2,
                                        )
                                    },
                            decreases en - ei,
                        {
                            let e = room.entities[ei];
                            list.push((room_key, uk, e));
                            ei = ei + 1;
                        }
                        ui = ui + 1;
                    }
                },
                None => {
                    proof {
                        assert(false);
                    }
                },
            }
            ki = ki + 1;
        }
        list
    }
}

} // verus!
