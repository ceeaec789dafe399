use soe_protocol::binary_primitives::read_u16_be;
use soe_protocol::binary_primitives::read_u32_be;
use soe_protocol::binary_primitives::write_u16_be;

#[test]
fn u16_values_decode_big_endian() {
    assert_eq!(read_u16_be(&[0x00, 0x19]), 0x0019);
    assert_eq!(read_u16_be(&[0x12, 0x34]), 0x1234);
    assert_eq!(read_u16_be(&[0xFF, 0xFF, 0x55]), 0xFFFF);
}

#[test]
fn u32_values_decode_big_endian() {
    assert_eq!(read_u32_be(&[0x00, 0x00, 0x00, 0x2A]), 42);
    assert_eq!(read_u32_be(&[0x12, 0x34, 0x56, 0x78]), 0x12345678);
    assert_eq!(read_u32_be(&[0xFF, 0xFF, 0xFF, 0xFF]), u32::MAX);
}

#[test]
fn u16_values_write_both_bytes() {
    let mut buffer: Vec<u8> = vec![0xAA, 0xAA, 0xAA];
    write_u16_be(&mut buffer, 0x1234);
    assert_eq!(buffer, vec![0x12, 0x34, 0xAA]);
}

#[test]
fn u16_write_then_read_round_trips() {
    let mut buffer: Vec<u8> = vec![0x00, 0x00];
    write_u16_be(&mut buffer, 0xBEEF);
    assert_eq!(read_u16_be(&buffer), 0xBEEF);
}
