use lightyear_server::channels::{
    ChannelCatalog, ChannelDirection, ChannelMeta, ChannelOrdering, ChannelReliability,
};
use lightyear_server::events::Event;
use lightyear_server::packet::{decode_header, PacketType};
use lightyear_server::server::{OutgoingPacket, Server, ServerConfig};
use lightyear_server::types::Address;

fn test_config(require_auth: bool, tick_interval_ms: Option<u64>) -> ServerConfig {
    ServerConfig {
        heartbeat_interval_ms: 100,
        disconnection_timeout_ms: 1000,
        ping_interval_ms: 100,
        bandwidth_measure_ms: 1000,
        require_auth,
        tick_interval_ms,
    }
}

fn test_catalog() -> ChannelCatalog {
    ChannelCatalog::new(vec![
        ChannelMeta {
            direction: ChannelDirection::Bidirectional,
            reliability: ChannelReliability::Reliable,
            ordering: ChannelOrdering::Ordered,
        },
        ChannelMeta {
            direction: ChannelDirection::ClientToServer,
            reliability: ChannelReliability::Unreliable,
            ordering: ChannelOrdering::TickBuffered,
        },
        ChannelMeta {
            direction: ChannelDirection::ServerToClient,
            reliability: ChannelReliability::Unreliable,
            ordering: ChannelOrdering::Sequenced,
        },
    ])
}

fn addr(n: u16) -> Address {
    Address { ip: n as u128, port: n }
}

fn header_only(ptype: u8) -> Vec<u8> {
    let mut b = vec![ptype];
    b.extend_from_slice(&[0, 0, 0, 0, 0, 0, 0, 0]);
    b
}

fn challenge_request(ts: u64) -> Vec<u8> {
    let mut b = header_only(0);
    b.extend_from_slice(&ts.to_be_bytes());
    b
}

fn connect_request_from_challenge(response: &[u8], auth: Option<&[u8]>) -> Vec<u8> {
    // the challenge response is header(9) + ts(8) + token(32)
    let mut b = header_only(2);
    b.extend_from_slice(&response[9..17]);
    b.extend_from_slice(&response[17..49]);
    match auth {
        Some(payload) => {
            b.push(1);
            b.extend_from_slice(&(payload.len() as u16).to_be_bytes());
            b.extend_from_slice(payload);
        }
        None => {
            b.push(0);
        }
    }
    b
}

/// Runs the two-step handshake for a client at `a`; returns the datagrams
/// the server wants sent in response to the connect request.
fn connect(server: &mut Server, a: Address, auth: Option<&[u8]>, now: u64) -> Vec<OutgoingPacket> {
    let replies = server.handle_packet(a, &challenge_request(42), now);
    assert_eq!(replies.len(), 1);
    let response = &replies[0].bytes;
    assert_eq!(response[0], 1); // ServerChallengeResponse
    let req = connect_request_from_challenge(response, auth);
    server.handle_packet(a, &req, now)
}

#[test]
fn happy_connect() {
    let mut server = Server::new(test_config(false, None), test_catalog(), 0);
    let a = addr(5000);
    let out = connect(&mut server, a, None, 10);
    assert_eq!(server.users_count(), 1);
    assert_eq!(out.len(), 1);
    let h = decode_header(&out[0].bytes).unwrap();
    assert_eq!(h.packet_type, PacketType::ServerConnectResponse);
    let events = server.receive(11);
    assert!(events.iter().any(|e| matches!(e, Event::Connection(_))));
}

#[test]
fn auth_flow() {
    let mut server = Server::new(test_config(true, None), test_catalog(), 0);
    let a = addr(5001);
    let out = connect(&mut server, a, Some(b"token"), 10);
    // no acceptance yet: the application must decide first
    assert_eq!(out.len(), 0);
    assert_eq!(server.users_count(), 1);
    let events = server.receive(11);
    let key = match events.iter().find(|e| matches!(e, Event::Auth(_, _))) {
        Some(Event::Auth(k, payload)) => {
            assert_eq!(payload, b"token");
            *k
        }
        _ => panic!("expected an authorization event"),
    };
    // a disconnect before acceptance has no effect: no connection exists
    let disc = header_only(9);
    server.handle_packet(a, &disc, 12);
    assert_eq!(server.users_count(), 1);
    // the application accepts; the acceptance datagram goes out
    let accepted = server.accept_connection(&key);
    assert_eq!(accepted.len(), 1);
    let h = decode_header(&accepted[0].bytes).unwrap();
    assert_eq!(h.packet_type, PacketType::ServerConnectResponse);
    let events = server.receive(13);
    assert!(events.iter().any(|e| matches!(e, Event::Connection(_))));
}

#[test]
fn idempotent_accept() {
    let mut server = Server::new(test_config(false, None), test_catalog(), 0);
    let a = addr(5002);
    connect(&mut server, a, None, 10);
    assert_eq!(server.users_count(), 1);
    // replaying the whole handshake from the same address adds nothing
    let out = connect(&mut server, a, None, 20);
    assert_eq!(server.users_count(), 1);
    assert_eq!(out.len(), 1);
    let h = decode_header(&out[0].bytes).unwrap();
    assert_eq!(h.packet_type, PacketType::ServerConnectResponse);
}

#[test]
fn handshake_replay_rejected() {
    let mut server = Server::new(test_config(false, None), test_catalog(), 0);
    let a = addr(5003);
    let b = addr(6003);
    // the challenge is answered for address a ...
    let replies = server.handle_packet(a, &challenge_request(7), 10);
    let req = connect_request_from_challenge(&replies[0].bytes, None);
    // ... but the connect request is replayed from address b
    let out = server.handle_packet(b, &req, 11);
    assert_eq!(out.len(), 0);
    assert_eq!(server.users_count(), 0);
}

#[test]
fn malformed_packets_are_dropped() {
    let mut server = Server::new(test_config(false, None), test_catalog(), 0);
    let a = addr(5004);
    server.handle_packet(a, &vec![], 10);
    server.handle_packet(a, &vec![0, 1], 11);
    server.handle_packet(a, &vec![255, 0, 0, 0, 0, 0, 0, 0, 0], 12);
    assert_eq!(server.users_count(), 0);
    let events = server.receive(13);
    assert!(events.iter().all(|e| !matches!(e, Event::Connection(_))));
}

#[test]
fn scope_include() {
    let mut server = Server::new(test_config(false, None), test_catalog(), 0);
    let a = addr(5005);
    connect(&mut server, a, None, 10);
    let keys = server.user_keys();
    let u = keys[0];
    let e: u64 = 77;
    server.spawn_entity(e);
    server.insert_component(e, 3);
    let r = server.make_room();
    server.room_add_user(&r, &u);
    server.room_add_entity(&r, e);
    // without an explicit include, room co-membership is not enough
    server.send_all_updates(20);
    assert!(!server.connections[0].entity_manager.scope_has_entity(e));
    // after the include the entity is spawned with its component kind
    server.user_scope_include(&u, e);
    let out = server.send_all_updates(30);
    assert!(server.connections[0].entity_manager.scope_has_entity(e));
    assert_eq!(out.len(), 1);
    // a following frame with no changes has nothing left to say
    let out2 = server.send_all_updates(40);
    assert_eq!(out2.len(), 0);
}

#[test]
fn scope_exclude_despawns() {
    let mut server = Server::new(test_config(false, None), test_catalog(), 0);
    let a = addr(5006);
    connect(&mut server, a, None, 10);
    let u = server.user_keys()[0];
    let e: u64 = 78;
    server.spawn_entity(e);
    let r = server.make_room();
    server.room_add_user(&r, &u);
    server.room_add_entity(&r, e);
    server.user_scope_include(&u, e);
    server.send_all_updates(20);
    assert!(server.connections[0].entity_manager.scope_has_entity(e));
    server.user_scope_exclude(&u, e);
    server.send_all_updates(30);
    assert!(!server.connections[0].entity_manager.scope_has_entity(e));
}

#[test]
fn entity_message_gating() {
    let mut server = Server::new(test_config(false, None), test_catalog(), 0);
    let a = addr(5007);
    connect(&mut server, a, None, 10);
    let u = server.user_keys()[0];
    let e: u64 = 79;
    server.spawn_entity(e);
    let r = server.make_room();
    server.room_add_user(&r, &u);
    server.room_add_entity(&r, e);
    // the entity is not in scope: the message referencing it is parked
    server.send_message(&u, 0, b"hello".to_vec(), vec![e]);
    assert_eq!(server.connections[0].message_manager.outgoing.len(), 0);
    assert_eq!(server.connections[0].entity_manager.pending.len(), 1);
    // including the entity releases the parked message exactly once
    server.user_scope_include(&u, e);
    server.send_all_updates(20);
    assert_eq!(server.connections[0].entity_manager.pending.len(), 0);
    // the released message was queued and written into that same frame
    let outgoing = &server.connections[0].message_manager.outgoing;
    assert!(outgoing.len() <= 1);
    // a message whose dependencies are already in scope goes straight out
    server.send_message(&u, 0, b"direct".to_vec(), vec![e]);
    assert_eq!(server.connections[0].entity_manager.pending.len(), 0);
}

#[test]
fn timeout_disconnect() {
    let mut server = Server::new(test_config(false, None), test_catalog(), 0);
    let a = addr(5008);
    connect(&mut server, a, None, 10);
    assert_eq!(server.users_count(), 1);
    // stay quiet past the timeout; the next maintenance pass drops the user
    server.maintain(1200);
    assert_eq!(server.users_count(), 0);
    let events = server.receive(1201);
    assert!(events.iter().any(|e| matches!(e, Event::Disconnection(_, _))));
}

#[test]
fn heartbeat_emitted_when_idle() {
    let mut server = Server::new(test_config(false, None), test_catalog(), 0);
    let a = addr(5009);
    connect(&mut server, a, None, 10);
    let out = server.maintain(500);
    assert!(out
        .iter()
        .any(|p| decode_header(&p.bytes).unwrap().packet_type == PacketType::Heartbeat));
}

fn data_packet_with_tick(tick: u16, channel: u16, seq: u16, payload: &[u8]) -> Vec<u8> {
    let mut b = header_only(5);
    b.extend_from_slice(&tick.to_be_bytes());
    b.extend_from_slice(&0u16.to_be_bytes()); // no replication actions
    b.extend_from_slice(&1u16.to_be_bytes()); // one message frame
    b.extend_from_slice(&channel.to_be_bytes());
    b.extend_from_slice(&seq.to_be_bytes());
    b.extend_from_slice(&(payload.len() as u16).to_be_bytes());
    b.extend_from_slice(payload);
    b
}

#[test]
fn tick_buffered_input() {
    // a 10 ms tick: the server is at tick 9 once 90 ms have passed
    let mut server = Server::new(test_config(false, Some(10)), test_catalog(), 0);
    let a = addr(5010);
    connect(&mut server, a, None, 0);
    for i in 1..=9u64 {
        let events = server.receive(i * 10);
        assert!(events.iter().any(|e| matches!(e, Event::Tick)));
    }
    assert_eq!(server.server_tick(), Some(9));
    // three inputs tagged for ticks 10, 11 and 12 arrive early
    server.handle_packet(a, &data_packet_with_tick(10, 1, 0, b"t10"), 91);
    server.handle_packet(a, &data_packet_with_tick(11, 1, 1, b"t11"), 92);
    server.handle_packet(a, &data_packet_with_tick(12, 1, 2, b"t12"), 93);
    // still tick 9: nothing is released
    let events = server.receive(95);
    assert!(events
        .iter()
        .all(|e| !matches!(e, Event::Message(_, _, _))));
    // tick 10 releases exactly the tick-10 input, then the tick marker
    let events = server.receive(100);
    let msgs: Vec<&Vec<u8>> = events
        .iter()
        .filter_map(|e| match e {
            Event::Message(_, _, p) => Some(p),
            _ => None,
        })
        .collect();
    assert_eq!(msgs.len(), 1);
    assert_eq!(msgs[0], &b"t10".to_vec());
    assert!(matches!(events.last().unwrap(), Event::Tick));
    // and so on for tick 11
    let events = server.receive(110);
    let msgs: Vec<&Vec<u8>> = events
        .iter()
        .filter_map(|e| match e {
            Event::Message(_, _, p) => Some(p),
            _ => None,
        })
        .collect();
    assert_eq!(msgs.len(), 1);
    assert_eq!(msgs[0], &b"t11".to_vec());
}

#[test]
fn inbound_ordered_channel_delivers_in_sequence() {
    let mut server = Server::new(test_config(false, None), test_catalog(), 0);
    let a = addr(5011);
    connect(&mut server, a, None, 0);
    // seq 1 arrives before seq 0: it is buffered, then released in order
    let mut p1 = header_only(5);
    p1.extend_from_slice(&0u16.to_be_bytes());
    p1.extend_from_slice(&1u16.to_be_bytes());
    p1.extend_from_slice(&0u16.to_be_bytes());
    p1.extend_from_slice(&1u16.to_be_bytes());
    p1.extend_from_slice(&3u16.to_be_bytes());
    p1.extend_from_slice(b"two");
    server.handle_packet(a, &p1, 10);
    let events = server.receive(11);
    assert!(events.iter().all(|e| !matches!(e, Event::Message(_, _, _))));
    let mut p0 = header_only(5);
    p0.extend_from_slice(&0u16.to_be_bytes());
    p0.extend_from_slice(&1u16.to_be_bytes());
    p0.extend_from_slice(&0u16.to_be_bytes());
    p0.extend_from_slice(&0u16.to_be_bytes());
    p0.extend_from_slice(&3u16.to_be_bytes());
    p0.extend_from_slice(b"one");
    server.handle_packet(a, &p0, 12);
    let events = server.receive(13);
    let msgs: Vec<&Vec<u8>> = events
        .iter()
        .filter_map(|e| match e {
            Event::Message(_, _, p) => Some(p),
            _ => None,
        })
        .collect();
    assert_eq!(msgs.len(), 2);
    assert_eq!(msgs[0], &b"one".to_vec());
    assert_eq!(msgs[1], &b"two".to_vec());
}

#[test]
fn ping_is_answered_with_pong() {
    let mut server = Server::new(test_config(false, None), test_catalog(), 0);
    let a = addr(5012);
    connect(&mut server, a, None, 0);
    let mut ping = header_only(7);
    ping.extend_from_slice(&9u16.to_be_bytes());
    let out = server.handle_packet(a, &ping, 10);
    assert_eq!(out.len(), 1);
    let h = decode_header(&out[0].bytes).unwrap();
    assert_eq!(h.packet_type, PacketType::Pong);
    // the pong echoes the ping index
    assert_eq!(&out[0].bytes[9..11], &9u16.to_be_bytes());
}

#[test]
fn room_membership_is_symmetric() {
    let mut server = Server::new(test_config(false, None), test_catalog(), 0);
    let a = addr(5013);
    connect(&mut server, a, None, 0);
    let u = server.user_keys()[0];
    let r = server.make_room();
    assert!(!server.room_has_user(&r, &u));
    server.room_add_user(&r, &u);
    assert!(server.room_has_user(&r, &u));
    assert_eq!(server.user_room_keys(&u).unwrap(), vec![r]);
    assert_eq!(server.room_users_count(&r), 1);
    server.room_remove_user(&r, &u);
    assert!(!server.room_has_user(&r, &u));
    assert_eq!(server.user_rooms_count(&u), Some(0));
}

#[test]
fn room_destroy_uncaches_members() {
    let mut server = Server::new(test_config(false, None), test_catalog(), 0);
    let a = addr(5014);
    connect(&mut server, a, None, 0);
    let u = server.user_keys()[0];
    let r = server.make_room();
    server.room_add_user(&r, &u);
    let e: u64 = 91;
    server.spawn_entity(e);
    server.room_add_entity(&r, e);
    assert!(server.room_destroy(&r));
    assert!(!server.room_exists(&r));
    assert_eq!(server.user_rooms_count(&u), Some(0));
    assert_eq!(server.rooms_count(), 0);
    // destroying it again reports that it is gone
    assert!(!server.room_destroy(&r));
}

#[test]
fn user_delete_frees_the_handle() {
    let mut server = Server::new(test_config(false, None), test_catalog(), 0);
    let a = addr(5015);
    connect(&mut server, a, None, 0);
    let u = server.user_keys()[0];
    assert!(server.user_exists(&u));
    let removed = server.user_delete(&u);
    assert!(removed.is_some());
    assert!(!server.user_exists(&u));
    assert_eq!(server.users_count(), 0);
    // the stale handle stays dead even after another user connects
    connect(&mut server, addr(5016), None, 5);
    assert!(!server.user_exists(&u));
}

#[test]
fn despawn_entity_prunes_everything() {
    let mut server = Server::new(test_config(false, None), test_catalog(), 0);
    let a = addr(5017);
    connect(&mut server, a, None, 0);
    let u = server.user_keys()[0];
    let e: u64 = 92;
    server.spawn_entity(e);
    let r = server.make_room();
    server.room_add_user(&r, &u);
    server.room_add_entity(&r, e);
    server.user_scope_include(&u, e);
    server.send_all_updates(10);
    assert!(server.connections[0].entity_manager.scope_has_entity(e));
    server.despawn_entity(e);
    assert!(!server.connections[0].entity_manager.scope_has_entity(e));
}

#[test]
fn reject_connection_removes_the_user() {
    let mut server = Server::new(test_config(true, None), test_catalog(), 0);
    let a = addr(5018);
    connect(&mut server, a, Some(b"bad"), 10);
    let events = server.receive(11);
    let key = match events.iter().find(|e| matches!(e, Event::Auth(_, _))) {
        Some(Event::Auth(k, _)) => *k,
        _ => panic!("expected an authorization event"),
    };
    let out = server.reject_connection(&key);
    assert_eq!(out.len(), 1);
    let h = decode_header(&out[0].bytes).unwrap();
    assert_eq!(h.packet_type, PacketType::ServerRejectResponse);
    assert_eq!(server.users_count(), 0);
}

#[test]
fn broadcast_reaches_every_connection() {
    let mut server = Server::new(test_config(false, None), test_catalog(), 0);
    connect(&mut server, addr(5019), None, 10);
    connect(&mut server, addr(5020), None, 11);
    server.broadcast_message(0, b"all".to_vec(), vec![]);
    assert_eq!(server.connections.len(), 2);
    assert_eq!(server.connections[0].message_manager.outgoing.len(), 1);
    assert_eq!(server.connections[1].message_manager.outgoing.len(), 1);
}

#[test]
fn room_broadcast_reaches_members_only() {
    let mut server = Server::new(test_config(false, None), test_catalog(), 0);
    connect(&mut server, addr(5021), None, 10);
    connect(&mut server, addr(5022), None, 11);
    let keys = server.user_keys();
    let r = server.make_room();
    server.room_add_user(&r, &keys[0]);
    server.room_broadcast_message(0, b"room".to_vec(), vec![], &r);
    let total: usize = server
        .connections
        .iter()
        .map(|c| c.message_manager.outgoing.len())
        .sum();
    assert_eq!(total, 1);
}

#[test]
fn user_accessors_report_the_address() {
    let mut server = Server::new(test_config(false, None), test_catalog(), 0);
    let a = addr(5023);
    connect(&mut server, a, None, 10);
    let u = server.user_keys()[0];
    assert_eq!(server.user_address(&u), Some(a));
    assert_eq!(server.user(&u).address, a);
    assert_eq!(server.client_tick(&u), Some(0));
}
