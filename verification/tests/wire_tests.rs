use soe_protocol::multi_packet::PacketError;
use soe_protocol::soe_op_code::SoeOpCode;
use soe_protocol::wire::encode_reliable_data;
use soe_protocol::wire::encode_sequence_feedback;
use soe_protocol::wire::parse_sequenced_datagram;

#[test]
fn reliable_data_is_framed_behind_op_code_and_sequence() {
    let datagram = encode_reliable_data(SoeOpCode::ReliableData, 0x0102, b"payload");
    assert_eq!(&datagram[..4], &[0x00, 0x09, 0x01, 0x02]);
    assert_eq!(&datagram[4..], b"payload");
}

#[test]
fn feedback_packets_carry_just_the_sequence() {
    assert_eq!(
        encode_sequence_feedback(SoeOpCode::Acknowledge, 0xBEEF),
        vec![0x00, 0x15, 0xBE, 0xEF]
    );
    assert_eq!(
        encode_sequence_feedback(SoeOpCode::OutOfOrder, 0x0007),
        vec![0x00, 0x11, 0x00, 0x07]
    );
}

#[test]
fn framing_then_parsing_returns_sequence_and_payload() {
    let datagram = encode_reliable_data(SoeOpCode::ReliableDataFragment, 0xFFFE, b"bytes");
    let (sequence, payload) = parse_sequenced_datagram(&datagram).unwrap();
    assert_eq!(sequence, 0xFFFE);
    assert_eq!(payload, b"bytes".to_vec());
}

#[test]
fn a_datagram_too_short_for_a_sequence_is_malformed() {
    assert_eq!(
        parse_sequenced_datagram(&[0x00, 0x09, 0x01]),
        Err(PacketError::MalformedPacket)
    );
}
