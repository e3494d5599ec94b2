use lightyear_server::codec::{read_u16, read_u32, read_u64, write_u16, write_u32, write_u64};
use lightyear_server::message_manager::MessageManager;
use lightyear_server::channels::ChannelOrdering;
use lightyear_server::packet::{decode_header, encode_header, PacketType, StandardHeader};
use lightyear_server::ping::PingManager;
use lightyear_server::tick::{tick_gt, TickManager};
use lightyear_server::tick_buffer::TickBuffer;
use lightyear_server::types::Address;

#[test]
fn integer_codec_round_trips() {
    let mut b: Vec<u8> = Vec::new();
    write_u16(&mut b, 0xBEEF);
    write_u32(&mut b, 0xDEAD_BEEF);
    write_u64(&mut b, 0x0123_4567_89AB_CDEF);
    assert_eq!(b, vec![0xBE, 0xEF, 0xDE, 0xAD, 0xBE, 0xEF, 0x01, 0x23, 0x45, 0x67, 0x89, 0xAB, 0xCD, 0xEF]);
    assert_eq!(read_u16(&b, 0), 0xBEEF);
    assert_eq!(read_u32(&b, 2), 0xDEAD_BEEF);
    assert_eq!(read_u64(&b, 6), 0x0123_4567_89AB_CDEF);
}

#[test]
fn header_round_trip() {
    let h = StandardHeader {
        packet_type: PacketType::Data,
        local_seq: 513,
        remote_seq: 65535,
        ack_bitfield: 0xA5A5_5A5A,
    };
    let mut b: Vec<u8> = Vec::new();
    encode_header(&h, &mut b);
    assert_eq!(b.len(), 9);
    let h2 = decode_header(&b).unwrap();
    assert_eq!(h2, h);
}

#[test]
fn header_rejects_unknown_type() {
    assert!(decode_header(&vec![42, 0, 0, 0, 0, 0, 0, 0, 0]).is_none());
    assert!(decode_header(&vec![5, 0, 0]).is_none());
}

#[test]
fn tick_comparison_is_wrap_aware() {
    assert!(tick_gt(1, 0));
    assert!(!tick_gt(0, 1));
    assert!(!tick_gt(7, 7));
    // the step from the top of the counter back to zero is an increase
    assert!(tick_gt(0, 65535));
    assert!(!tick_gt(65535, 0));
    assert!(tick_gt(100, 65500));
}

#[test]
fn tick_manager_consumes_one_tick_per_call() {
    let mut tm = TickManager::new(10, 0);
    assert!(!tm.recv_server_tick(5));
    assert!(tm.recv_server_tick(10));
    assert_eq!(tm.server_tick, 1);
    // falling behind: each call still consumes exactly one tick
    assert!(tm.recv_server_tick(40));
    assert_eq!(tm.server_tick, 2);
    assert!(tm.recv_server_tick(40));
    assert!(tm.recv_server_tick(40));
    assert_eq!(tm.server_tick, 4);
    assert!(!tm.recv_server_tick(41));
}

#[test]
fn ping_manager_matches_index_and_smooths() {
    let mut pm = PingManager::new(100, 0);
    let idx = pm.write_ping(1000);
    assert_eq!(idx, 0);
    // a pong with a different index is ignored
    assert_eq!(pm.process_pong(7, 1040), None);
    assert_eq!(pm.rtt_ms, 0);
    // the matching pong yields the full round trip: 40 ms
    assert_eq!(pm.process_pong(0, 1040), Some(40));
    // smoothed an eighth of the way: (7 * 0 + 40) / 8
    assert_eq!(pm.rtt_ms, 5);
    assert_eq!(pm.jitter_ms, 5);
    // a duplicate pong no longer matches anything
    assert_eq!(pm.process_pong(0, 1050), None);
}

#[test]
fn tick_buffer_releases_exact_tick() {
    let mut tb = TickBuffer::new();
    tb.push_message(9, 1, b"old".to_vec());
    tb.push_message(10, 1, b"now".to_vec());
    tb.push_message(11, 1, b"future".to_vec());
    let out = tb.receive_messages(10);
    assert_eq!(out.len(), 1);
    assert_eq!(out[0].payload, b"now".to_vec());
    // the stale message is dropped, the future one retained
    assert_eq!(tb.messages.len(), 1);
    assert_eq!(tb.messages[0].tick, 11);
    let out2 = tb.receive_messages(11);
    assert_eq!(out2.len(), 1);
    assert_eq!(out2[0].payload, b"future".to_vec());
    assert_eq!(tb.messages.len(), 0);
}

#[test]
fn unordered_channel_dedupes() {
    let mut mm = MessageManager::new(3);
    mm.recv_message(ChannelOrdering::Unordered, 0, 5, b"a".to_vec());
    mm.recv_message(ChannelOrdering::Unordered, 0, 5, b"a".to_vec());
    mm.recv_message(ChannelOrdering::Unordered, 0, 6, b"b".to_vec());
    let out = mm.take_delivered();
    assert_eq!(out.len(), 2);
}

#[test]
fn sequenced_channel_drops_stale() {
    let mut mm = MessageManager::new(3);
    mm.recv_message(ChannelOrdering::Sequenced, 2, 5, b"five".to_vec());
    mm.recv_message(ChannelOrdering::Sequenced, 2, 3, b"three".to_vec());
    mm.recv_message(ChannelOrdering::Sequenced, 2, 8, b"eight".to_vec());
    let out = mm.take_delivered();
    assert_eq!(out.len(), 2);
    assert_eq!(out[0].1, b"five".to_vec());
    assert_eq!(out[1].1, b"eight".to_vec());
}

#[test]
fn reliable_messages_stay_until_acked() {
    let mut mm = MessageManager::new(3);
    mm.send_message(0, b"keep me".to_vec(), vec![], true);
    let frames = mm.take_outgoing(1200, 0, 50, 17);
    assert_eq!(frames.len(), 1);
    // written but unacknowledged: the message is still queued
    assert_eq!(mm.outgoing.len(), 1);
    assert_eq!(mm.outgoing[0].packet_seq, 17);
    // not due again before the resend delay
    let frames2 = mm.take_outgoing(1200, 10, 50, 18);
    assert_eq!(frames2.len(), 0);
    // due again after it
    let frames3 = mm.take_outgoing(1200, 60, 50, 19);
    assert_eq!(frames3.len(), 1);
    // the acknowledgement finally clears it
    mm.process_acks(&vec![19]);
    assert_eq!(mm.outgoing.len(), 0);
}

#[test]
fn unreliable_messages_leave_on_first_write() {
    let mut mm = MessageManager::new(3);
    mm.send_message(2, b"fire and forget".to_vec(), vec![], false);
    let frames = mm.take_outgoing(1200, 0, 50, 1);
    assert_eq!(frames.len(), 1);
    assert_eq!(mm.outgoing.len(), 0);
}

#[test]
fn packing_respects_the_budget() {
    let mut mm = MessageManager::new(3);
    mm.send_message(0, vec![7u8; 30], vec![], false);
    mm.send_message(0, vec![8u8; 30], vec![], false);
    // only the first message fits a 40-byte budget (frame cost is 6 + len)
    let frames = mm.take_outgoing(40, 0, 50, 1);
    assert_eq!(frames.len(), 1);
    assert_eq!(frames[0].payload, vec![7u8; 30]);
    assert_eq!(mm.outgoing.len(), 1);
}

#[test]
fn addresses_compare_by_value() {
    let a = Address { ip: 1, port: 2 };
    let b = Address { ip: 1, port: 2 };
    let c = Address { ip: 1, port: 3 };
    assert_eq!(a, b);
    assert_ne!(a, c);
}

#[test]
fn tick_counter_wraps_as_an_increase() {
    let mut tm = TickManager {
        tick_interval_ms: 10,
        server_tick: 65535,
        last_instant_ms: 0,
        accum_ms: 0,
    };
    assert!(tm.recv_server_tick(10));
    assert_eq!(tm.server_tick, 0);
    assert!(tick_gt(0, 65535));
}
