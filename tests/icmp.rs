use p2p_icmp_chat::error::ChatError;
use p2p_icmp_chat::fragment::Fragment;
use p2p_icmp_chat::icmp::{encode_request_packet_from_fragment, IcmpKind, MAX_FRAGMENT_PAYLOAD};
use pnet::packet::icmp::echo_request::EchoRequestPacket;
use pnet::packet::icmp::IcmpTypes;
use pnet::packet::Packet;
use pnet::util::checksum;

#[test]
fn test_encode_request_packet_from_fragment() {
    let fragment = Fragment {
        message_id: 42,
        fragment_id: 7,
        fragment_count: 8,
        payload: vec![1, 2, 3, 4, 5],
    };

    let encoded_packet_result = encode_request_packet_from_fragment(&fragment);
    assert!(encoded_packet_result.is_ok());

    let bytes = encoded_packet_result.unwrap();
    let packet = EchoRequestPacket::new(&bytes).unwrap();

    assert_eq!(packet.get_icmp_type(), IcmpTypes::EchoRequest);
    assert_eq!(packet.get_identifier(), fragment.message_id);
    assert_eq!(packet.get_sequence_number(), fragment.fragment_id);

    // The ICMP payload is the fragment count, then the fragment's bytes.
    assert_eq!(&packet.payload()[..2], &[0, 8]);
    assert_eq!(&packet.payload()[2..], fragment.payload.as_slice());

    let expected_checksum = checksum(packet.packet(), 1);
    assert_eq!(packet.get_checksum(), expected_checksum);
}

#[test]
fn encoded_bytes_are_exact() {
    let fragment = Fragment::new(7, 42, 8, vec![1, 2, 3, 4, 5]);
    let bytes = fragment.to_icmp_request_packet();
    assert_eq!(bytes, vec![8, 0, 0xee, 0xc0, 0, 42, 0, 7, 0, 8, 1, 2, 3, 4, 5]);
}

#[test]
fn reply_has_echo_reply_type() {
    let fragment = Fragment::new(1, 2, 3, vec![9]);
    let bytes = fragment.to_icmp_reply_packet();
    assert_eq!(bytes[0], 0);
    assert_eq!(checksum(&bytes, 1), u16::from_be_bytes([bytes[2], bytes[3]]));
}

#[test]
fn decode_round_trip() {
    let fragment = Fragment::new(3, 1000, 4, b"abc".to_vec());
    let bytes = fragment.to_icmp_request_packet();
    let (kind, decoded) = Fragment::from_icmp_packet(&bytes).unwrap();
    assert_eq!(kind, IcmpKind::EchoRequest);
    assert_eq!(decoded, fragment);

    let reply = fragment.to_icmp_reply_packet();
    let (kind, decoded) = Fragment::from_icmp_packet(&reply).unwrap();
    assert_eq!(kind, IcmpKind::EchoReply);
    assert_eq!(decoded, fragment);
}

#[test]
fn corrupted_payload_byte_is_rejected() {
    let fragment = Fragment::new(0, 1, 1, b"hello".to_vec());
    let mut bytes = fragment.to_icmp_request_packet();
    bytes[11] ^= 0x01;
    assert_eq!(Fragment::from_icmp_packet(&bytes), Err(ChatError::ChecksumMismatch));
}

fn with_checksum(mut bytes: Vec<u8>) -> Vec<u8> {
    let sum = checksum(&bytes, 1);
    bytes[2] = (sum >> 8) as u8;
    bytes[3] = sum as u8;
    bytes
}

#[test]
fn short_buffer_is_packet_error() {
    assert_eq!(Fragment::from_icmp_packet(&[]), Err(ChatError::PacketError));
    assert_eq!(Fragment::from_icmp_packet(&[8, 0, 0, 0, 0, 1, 0]), Err(ChatError::PacketError));
}

#[test]
fn echo_without_fragment_count_is_packet_error() {
    let nine = with_checksum(vec![8, 0, 0, 0, 0, 1, 0, 0, 0]);
    assert_eq!(Fragment::from_icmp_packet(&nine), Err(ChatError::PacketError));
    let eight = with_checksum(vec![0, 0, 0, 0, 0, 1, 0, 0]);
    assert_eq!(Fragment::from_icmp_packet(&eight), Err(ChatError::PacketError));
    assert_eq!(Fragment::from_icmp_packet(&[8, 0, 0, 0, 0, 1, 0, 0, 0]), Err(ChatError::ChecksumMismatch));
}

#[test]
fn short_non_echo_is_unsupported() {
    let eight = with_checksum(vec![3, 0, 0, 0, 0, 0, 0, 0]);
    assert_eq!(Fragment::from_icmp_packet(&eight), Err(ChatError::UnsupportedIcmpType));
    let nine = with_checksum(vec![11, 0, 0, 0, 0, 0, 0, 0, 1]);
    assert_eq!(Fragment::from_icmp_packet(&nine), Err(ChatError::UnsupportedIcmpType));
}

#[test]
fn other_icmp_type_is_unsupported() {
    // A destination-unreachable message with a correct checksum.
    let mut bytes = vec![3u8, 0, 0, 0, 0, 1, 0, 0, 0, 1, 7];
    let sum = checksum(&bytes, 1);
    bytes[2] = (sum >> 8) as u8;
    bytes[3] = sum as u8;
    assert_eq!(Fragment::from_icmp_packet(&bytes), Err(ChatError::UnsupportedIcmpType));
}

#[test]
fn oversized_fragment_is_not_encoded() {
    let fragment = Fragment::new(0, 0, 1, vec![0; MAX_FRAGMENT_PAYLOAD + 1]);
    assert_eq!(encode_request_packet_from_fragment(&fragment), Err(ChatError::PacketError));
    let fits = Fragment::new(0, 0, 1, vec![0; MAX_FRAGMENT_PAYLOAD]);
    assert_eq!(encode_request_packet_from_fragment(&fits).unwrap().len(), 65535);
}
