use p2p_icmp_chat::connection::{Connection, TimerOutcome};
use p2p_icmp_chat::error::ChatError;
use p2p_icmp_chat::fragment::Fragment;
use p2p_icmp_chat::ids::IdAllocator;

const PEER: u32 = 0x0a00_0002;

fn request(fragment_id: u16, message_id: u16, count: u16, payload: &[u8]) -> Vec<u8> {
    Fragment::new(fragment_id, message_id, count, payload.to_vec()).to_icmp_request_packet()
}

fn reply(fragment_id: u16, message_id: u16, count: u16, payload: &[u8]) -> Vec<u8> {
    Fragment::new(fragment_id, message_id, count, payload.to_vec()).to_icmp_reply_packet()
}

#[test]
fn send_hi_gives_one_request() {
    let mut conn = Connection::new(PEER, 32, 3);
    let sent = conn.send_payload(&b"hi".to_vec()).unwrap();
    assert_eq!(sent.message_id, 0);
    assert_eq!(sent.datagrams.len(), 1);
    assert_eq!(sent.datagrams[0], request(0, 0, 1, b"hi"));
}

#[test]
fn send_sixty_five_bytes_gives_three_requests() {
    let mut conn = Connection::new(PEER, 32, 3);
    let payload: Vec<u8> = (0..65u8).collect();
    let sent = conn.send_payload(&payload).unwrap();
    let sizes: Vec<usize> = sent
        .datagrams
        .iter()
        .map(|d| Fragment::from_icmp_packet(d).unwrap().1.payload.len())
        .collect();
    assert_eq!(sizes, vec![32, 32, 1]);
}

#[test]
fn sequential_sends_get_distinct_ids() {
    let mut conn = Connection::new(PEER, 32, 3);
    let first = conn.send_payload(&b"one".to_vec()).unwrap();
    let second = conn.send_payload(&b"two".to_vec()).unwrap();
    assert_ne!(first.message_id, second.message_id);
}

#[test]
fn inbound_fragments_out_of_order_deliver_once() {
    let mut conn = Connection::new(PEER, 32, 3);
    let parts: [(u16, &[u8]); 3] = [(2, b"ef"), (0, b"ab"), (1, b"cd")];
    let mut delivered = Vec::new();
    for (id, bytes) in parts {
        let step = conn.handle_datagram(PEER, &request(id, 5, 3, bytes));
        assert_eq!(step.reply, Some(reply(id, 5, 3, bytes)));
        assert_eq!(step.acknowledged, None);
        if let Some(payload) = step.delivered {
            delivered.push(payload);
        }
    }
    assert_eq!(delivered, vec![b"abcdef".to_vec()]);
}

#[test]
fn acknowledgments_complete_a_send() {
    let mut conn = Connection::new(PEER, 2, 3);
    let sent = conn.send_payload(&b"abc".to_vec()).unwrap();
    let id = sent.message_id;
    let step = conn.handle_datagram(PEER, &reply(1, id, 2, b"c"));
    assert_eq!(step.acknowledged, None);
    let step = conn.handle_datagram(PEER, &reply(1, id, 2, b"c"));
    assert_eq!(step.acknowledged, None);
    let step = conn.handle_datagram(PEER, &reply(0, id, 2, b"ab"));
    assert_eq!(step.acknowledged, Some(id));
    assert!(matches!(conn.on_timeout(id), TimerOutcome::Idle));
    assert_eq!(conn.send_payload(&b"x".to_vec()).unwrap().message_id, id);
}

#[test]
fn unacknowledged_send_is_retried_then_abandoned() {
    let mut conn = Connection::new(PEER, 2, 2);
    let sent = conn.send_payload(&b"abc".to_vec()).unwrap();
    let id = sent.message_id;
    conn.handle_datagram(PEER, &reply(0, id, 2, b"ab"));
    for _ in 0..2 {
        match conn.on_timeout(id) {
            TimerOutcome::Resend(datagrams) => assert_eq!(datagrams, vec![sent.datagrams[1].clone()]),
            _ => panic!("expected a resend"),
        }
    }
    assert!(matches!(conn.on_timeout(id), TimerOutcome::Abandoned));
    assert!(matches!(conn.on_timeout(id), TimerOutcome::Idle));
    assert_eq!(conn.send_payload(&b"again".to_vec()).unwrap().message_id, id);
}

#[test]
fn corrupted_datagram_never_delivers() {
    let mut conn = Connection::new(PEER, 32, 3);
    let mut bytes = request(0, 3, 1, b"secret");
    bytes[12] ^= 0x40;
    let step = conn.handle_datagram(PEER, &bytes);
    assert_eq!(step.delivered, None);
    assert_eq!(step.reply, None);
    let step = conn.handle_datagram(PEER, &request(0, 3, 1, b"secret"));
    assert_eq!(step.delivered, Some(b"secret".to_vec()));
}

#[test]
fn other_hosts_are_ignored() {
    let mut conn = Connection::new(PEER, 32, 3);
    let step = conn.handle_datagram(PEER + 1, &request(0, 3, 1, b"x"));
    assert_eq!(step.reply, None);
    assert_eq!(step.delivered, None);
    assert_eq!(conn.peer(), PEER);
}

#[test]
fn inbound_id_held_by_a_send_is_dropped() {
    let mut conn = Connection::new(PEER, 32, 3);
    let sent = conn.send_payload(&b"mine".to_vec()).unwrap();
    let step = conn.handle_datagram(PEER, &request(0, sent.message_id, 2, b"th"));
    assert_eq!(step.reply, None);
    let step = conn.handle_datagram(PEER, &request(0, sent.message_id + 1, 2, b"th"));
    assert!(step.reply.is_some());
    assert_eq!(conn.send_payload(&b"next".to_vec()).unwrap().message_id, sent.message_id + 2);
}

#[test]
fn inbound_fragment_beyond_its_count_is_dropped() {
    let mut conn = Connection::new(PEER, 32, 3);
    let step = conn.handle_datagram(PEER, &request(3, 1, 3, b"x"));
    assert_eq!(step.reply, None);
    conn.handle_datagram(PEER, &request(0, 1, 2, b"a"));
    let step = conn.handle_datagram(PEER, &request(2, 1, 3, b"x"));
    assert_eq!(step.reply, None);
}

#[test]
fn empty_payload_has_no_fragment() {
    let mut conn = Connection::new(PEER, 32, 3);
    let sent = conn.send_payload(&Vec::new()).unwrap();
    assert!(sent.datagrams.is_empty());
    assert!(matches!(conn.on_timeout(sent.message_id), TimerOutcome::Idle));
}

#[test]
fn allocator_picks_lowest_free_and_exhausts() {
    let mut ids = IdAllocator::new();
    assert_eq!(ids.reserve(), Ok(0));
    assert_eq!(ids.reserve(), Ok(1));
    ids.release(0);
    ids.release(0);
    assert!(!ids.is_reserved(0));
    assert_eq!(ids.reserve(), Ok(0));
    for id in 0..=u16::MAX {
        ids.reserve_id(id);
    }
    assert_eq!(ids.reserve(), Err(ChatError::IdSpaceExhausted));
    ids.release(40000);
    assert_eq!(ids.reserve(), Ok(40000));
}
