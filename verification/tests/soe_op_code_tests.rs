use soe_protocol::soe_op_code::parse_op_code;
use soe_protocol::soe_op_code::SoeOpCode;

#[test]
fn op_codes_round_trip_through_their_wire_value() {
    let codes = [
        SoeOpCode::Invalid,
        SoeOpCode::SessionRequest,
        SoeOpCode::SessionResponse,
        SoeOpCode::MultiPacket,
        SoeOpCode::Disconnect,
        SoeOpCode::Heartbeat,
        SoeOpCode::NetStatusRequest,
        SoeOpCode::NetStatusResponse,
        SoeOpCode::ReliableData,
        SoeOpCode::ReliableDataFragment,
        SoeOpCode::OutOfOrder,
        SoeOpCode::Acknowledge,
        SoeOpCode::UnknownSender,
        SoeOpCode::RemapConnection,
    ];
    for code in codes {
        assert_eq!(SoeOpCode::from_u16(code.to_u16()), code);
    }
}

#[test]
fn known_wire_values_map_to_their_op_code() {
    assert_eq!(SoeOpCode::from_u16(0x01), SoeOpCode::SessionRequest);
    assert_eq!(SoeOpCode::from_u16(0x09), SoeOpCode::ReliableData);
    assert_eq!(SoeOpCode::from_u16(0x0D), SoeOpCode::ReliableDataFragment);
    assert_eq!(SoeOpCode::from_u16(0x15), SoeOpCode::Acknowledge);
    assert_eq!(SoeOpCode::from_u16(0x1E), SoeOpCode::RemapConnection);
}

#[test]
fn unknown_wire_values_map_to_invalid() {
    assert_eq!(SoeOpCode::from_u16(0x00), SoeOpCode::Invalid);
    assert_eq!(SoeOpCode::from_u16(0x04), SoeOpCode::Invalid);
    assert_eq!(SoeOpCode::from_u16(0x1F), SoeOpCode::Invalid);
    assert_eq!(SoeOpCode::from_u16(0xFFFF), SoeOpCode::Invalid);
}

#[test]
fn datagrams_dispatch_on_their_leading_bytes() {
    assert_eq!(parse_op_code(&[0x00, 0x09, 0xAB, 0xCD]), SoeOpCode::ReliableData);
    assert_eq!(parse_op_code(&[0x00, 0x03]), SoeOpCode::MultiPacket);
    assert_eq!(parse_op_code(&[0x00, 0x42]), SoeOpCode::Invalid);
    assert_eq!(parse_op_code(&[0x01, 0x01]), SoeOpCode::Invalid);
}
