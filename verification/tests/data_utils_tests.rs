use soe_protocol::data_utils::get_true_incoming_sequence;
use soe_protocol::data_utils::get_variable_length_size;
use soe_protocol::data_utils::has_multi_data_indicator;
use soe_protocol::data_utils::read_variable_length;
use soe_protocol::data_utils::write_multi_data_indicator;
use soe_protocol::data_utils::write_variable_length;

#[test]
fn sequence_wraps_forward_into_the_next_block() {
    assert_eq!(get_true_incoming_sequence(0x0001, 0x1FFFF, 256), 0x20001);
}

#[test]
fn sequence_wraps_back_into_the_previous_block() {
    assert_eq!(get_true_incoming_sequence(0xFFFE, 0x20002, 256), 0x1FFFE);
}

#[test]
fn sequence_within_the_window_is_kept() {
    assert_eq!(get_true_incoming_sequence(0x0005, 0x10003, 256), 0x10005);
    assert_eq!(get_true_incoming_sequence(0x0003, 0x10003, 256), 0x10003);
}

#[test]
fn sequence_extension_handles_a_small_current_sequence() {
    assert_eq!(get_true_incoming_sequence(0x0002, 0x0000, 256), 0x0002);
    assert_eq!(get_true_incoming_sequence(0x0000, 0x0100, 256), 0x0000);
}

#[test]
fn variable_length_size_matches_the_encoding_tiers() {
    assert_eq!(get_variable_length_size(10), 1);
    assert_eq!(get_variable_length_size(300), 3);
    assert_eq!(get_variable_length_size(70000), 7);
    assert_eq!(get_variable_length_size(0xFE), 1);
    assert_eq!(get_variable_length_size(0xFF), 3);
    assert_eq!(get_variable_length_size(0xFFFE), 3);
    assert_eq!(get_variable_length_size(0xFFFF), 7);
}

fn variable_length_round_trip(value: u32) -> usize {
    let mut buffer: Vec<u8> = vec![0u8; 16];
    let mut offset: usize = 3;
    write_variable_length(&mut buffer, value, &mut offset);
    let written = offset - 3;
    assert_eq!(written, get_variable_length_size(value));

    let mut read_offset: usize = 3;
    let read_back = read_variable_length(&buffer, &mut read_offset);
    assert_eq!(read_back, value);
    assert_eq!(read_offset, offset);
    written
}

#[test]
fn variable_length_round_trips_across_all_tiers() {
    assert_eq!(variable_length_round_trip(0), 1);
    assert_eq!(variable_length_round_trip(10), 1);
    assert_eq!(variable_length_round_trip(0xFE), 1);
    assert_eq!(variable_length_round_trip(0xFF), 3);
    assert_eq!(variable_length_round_trip(300), 3);
    assert_eq!(variable_length_round_trip(0xFFFE), 3);
    assert_eq!(variable_length_round_trip(0xFFFF), 7);
    assert_eq!(variable_length_round_trip(70000), 7);
    assert_eq!(variable_length_round_trip(u32::MAX), 7);
}

#[test]
fn one_byte_values_decode_directly() {
    let buffer: Vec<u8> = vec![0x2A, 0x00];
    let mut offset: usize = 0;
    assert_eq!(read_variable_length(&buffer, &mut offset), 0x2A);
    assert_eq!(offset, 1);
}

#[test]
fn three_byte_values_decode_after_the_marker() {
    let buffer: Vec<u8> = vec![0xFF, 0x01, 0x2C];
    let mut offset: usize = 0;
    assert_eq!(read_variable_length(&buffer, &mut offset), 300);
    assert_eq!(offset, 3);
}

#[test]
fn seven_byte_values_decode_after_the_triple_marker() {
    let buffer: Vec<u8> = vec![0xFF, 0xFF, 0xFF, 0x00, 0x01, 0x11, 0x70];
    let mut offset: usize = 0;
    assert_eq!(read_variable_length(&buffer, &mut offset), 70000);
    assert_eq!(offset, 7);
}

#[test]
fn multi_data_indicator_is_recognised() {
    assert!(has_multi_data_indicator(&[0x00, 0x19]));
    assert!(has_multi_data_indicator(&[0x00, 0x19, 0x07]));
    assert!(!has_multi_data_indicator(&[0x00, 0x18, 0x07]));
    assert!(!has_multi_data_indicator(&[0x19, 0x00]));
    assert!(!has_multi_data_indicator(&[0x00]));
    assert!(!has_multi_data_indicator(&[]));
}

#[test]
fn multi_data_indicator_is_written_at_the_offset() {
    let mut buffer: Vec<u8> = vec![0xAA; 5];
    let mut offset: usize = 1;
    write_multi_data_indicator(&mut buffer, &mut offset);
    assert_eq!(buffer, vec![0xAA, 0x00, 0x19, 0xAA, 0xAA]);
    assert_eq!(offset, 3);
}
