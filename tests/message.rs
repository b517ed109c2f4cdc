use p2p_icmp_chat::error::ChatError;
use p2p_icmp_chat::fragment::{Fragment, ICMP_PAYLOAD_LEN};
use p2p_icmp_chat::message::Message;

fn split(len: usize, max: usize) -> (Message, Vec<u8>) {
    let payload: Vec<u8> = (0..len).map(|i| (i % 251) as u8).collect();
    (Message::from_payload(9, &payload, max), payload)
}

#[test]
fn split_join_round_trip() {
    let m = ICMP_PAYLOAD_LEN;
    for (len, count) in [(0, 0), (1, 1), (m, 1), (m + 1, 2), (2 * m, 2), (2 * m + 1, 3)] {
        let (message, payload) = split(len, m);
        assert_eq!(message.expected_fragment_count(), count);
        assert!(message.contains_all_fragments());
        for i in 0..count {
            let f = message.fragment(i).unwrap();
            assert_eq!(f.fragment_id as usize, i);
            assert_eq!(f.message_id, 9);
            assert_eq!(f.fragment_count as usize, count);
            let expected = if i + 1 < count { m } else { len - (count - 1) * m };
            assert_eq!(f.payload.len(), expected);
        }
        assert_eq!(message.to_payload(), payload);
    }
}

#[test]
fn send_hi_is_one_fragment() {
    let message = Message::from_payload(0, &b"hi".to_vec(), 32);
    assert_eq!(message.expected_fragment_count(), 1);
    let f = message.fragment(0).unwrap();
    assert_eq!(f.fragment_id, 0);
    assert_eq!(f.payload, b"hi".to_vec());
}

#[test]
fn sixty_five_bytes_make_three_fragments() {
    let (message, _) = split(65, 32);
    let sizes: Vec<usize> = (0..3).map(|i| message.fragment(i).unwrap().payload.len()).collect();
    assert_eq!(message.expected_fragment_count(), 3);
    assert_eq!(sizes, vec![32, 32, 1]);
}

#[test]
fn any_arrival_order_gives_the_same_payload() {
    let (source, payload) = split(100, 16);
    let n = source.expected_fragment_count();
    let orders: Vec<Vec<usize>> = vec![(0..n).collect(), (0..n).rev().collect(), vec![3, 0, 6, 1, 5, 2, 4]];
    for order in orders {
        let mut message = Message::new(9, n);
        for (k, &i) in order.iter().enumerate() {
            assert!(!message.contains_all_fragments());
            assert_eq!(message.add_fragment(source.fragment(i).unwrap()), Ok(()));
            assert_eq!(message.contains_all_fragments(), k + 1 == n);
        }
        assert_eq!(message.to_payload(), payload);
    }
}

#[test]
fn repeated_fragment_changes_nothing() {
    let mut message = Message::new(4, 2);
    let first = Fragment::new(0, 4, 2, b"ab".to_vec());
    assert_eq!(message.add_fragment(&first), Ok(()));
    assert_eq!(message.add_fragment(&first), Ok(()));
    assert!(!message.contains_all_fragments());
    assert_eq!(message.to_payload(), b"ab".to_vec());
    assert_eq!(message.add_fragment(&Fragment::new(1, 4, 2, b"cd".to_vec())), Ok(()));
    assert_eq!(message.add_fragment(&first), Ok(()));
    assert!(message.contains_all_fragments());
    assert_eq!(message.to_payload(), b"abcd".to_vec());
}

#[test]
fn fragment_beyond_count_is_rejected() {
    let mut message = Message::new(1, 2);
    let f = Fragment::new(2, 1, 3, vec![1]);
    assert_eq!(message.add_fragment(&f), Err(ChatError::FragmentIndexOutOfRange));
    assert!(message.fragment(0).is_none());
    assert!(message.fragment(1).is_none());
}

#[test]
fn new_message_is_empty() {
    let message = Message::new(77, 3);
    assert_eq!(message.message_id(), 77);
    assert_eq!(message.expected_fragment_count(), 3);
    assert!(!message.contains_all_fragments());
    assert_eq!(message.to_payload(), Vec::<u8>::new());
    assert!(Message::new(1, 0).contains_all_fragments());
}
