use soe_protocol::multi_packet::pack_multi_data;
use soe_protocol::multi_packet::split_multi_data;
use soe_protocol::multi_packet::PacketError;

#[test]
fn a_container_splits_into_its_inner_packets() {
    let buffer: Vec<u8> = vec![
        0x00, 0x19, 0x05, b'h', b'e', b'l', b'l', b'o', 0x02, b'h', b'i',
    ];
    let packets = split_multi_data(&buffer).unwrap();
    assert_eq!(packets, vec![b"hello".to_vec(), b"hi".to_vec()]);
}

#[test]
fn an_empty_container_splits_into_no_packets() {
    let buffer: Vec<u8> = vec![0x00, 0x19];
    let packets = split_multi_data(&buffer).unwrap();
    assert!(packets.is_empty());
}

#[test]
fn a_missing_indicator_is_malformed() {
    assert_eq!(
        split_multi_data(&[0x00, 0x18, 0x01, 0x41]),
        Err(PacketError::MalformedPacket)
    );
    assert_eq!(split_multi_data(&[0x00]), Err(PacketError::MalformedPacket));
}

#[test]
fn an_overrunning_frame_is_malformed() {
    // the prefix claims five bytes; only three follow
    let buffer: Vec<u8> = vec![0x00, 0x19, 0x05, b'h', b'e', b'l'];
    assert_eq!(split_multi_data(&buffer), Err(PacketError::MalformedPacket));
}

#[test]
fn a_truncated_length_prefix_is_malformed() {
    let buffer: Vec<u8> = vec![0x00, 0x19, 0xFF, 0x01];
    assert_eq!(split_multi_data(&buffer), Err(PacketError::MalformedPacket));
}

#[test]
fn packing_writes_the_indicator_and_frames() {
    let packets: Vec<Vec<u8>> = vec![b"hello".to_vec(), b"hi".to_vec()];
    let buffer = pack_multi_data(&packets).unwrap();
    assert_eq!(
        buffer,
        vec![0x00, 0x19, 0x05, b'h', b'e', b'l', b'l', b'o', 0x02, b'h', b'i']
    );
}

#[test]
fn packing_then_splitting_returns_the_same_packets() {
    let long_packet: Vec<u8> = vec![0x5A; 300];
    let packets: Vec<Vec<u8>> = vec![
        b"alpha".to_vec(),
        Vec::new(),
        long_packet,
        vec![0xFF; 254],
    ];
    let buffer = pack_multi_data(&packets).unwrap();
    assert_eq!(split_multi_data(&buffer).unwrap(), packets);
}
