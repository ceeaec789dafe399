//! Utilities of the reliable-data path: the 16-bit wire-sequence extension,
//! the multi-data indicator, and the variable-length length prefix that
//! frames each inner packet of a multi-packet container.

use vstd::prelude::*;
use crate::binary_primitives::u16_from_be;
use crate::binary_primitives::u32_from_be;

verus! {

broadcast use vstd::std_specs::vec::axiom_spec_len;

/// The high 48 bits of the receiver's current sequence, with the packet's
/// 16-bit wire sequence in the low bits.
pub open spec fn sequence_candidate(packet_sequence: u16, current_sequence: u64) -> int {
    (current_sequence & 0xFFFF_FFFF_FFFF_0000) + packet_sequence
}

/// The logical sequence the receiver reconstructs from a wire sequence: the
/// candidate, shifted by one 16-bit block when it falls outside the window
/// of `window` packets around the current sequence.
pub open spec fn extended_sequence(packet_sequence: u16, current_sequence: u64, window: int) -> int {
    let candidate = sequence_candidate(packet_sequence, current_sequence);
    if candidate < current_sequence - window {
        candidate + 0x10000
    } else if candidate > current_sequence + window {
        candidate - 0x10000
    } else {
        candidate
    }
}

/// Calculates the true data sequence from an incoming packet sequence.
///
/// The wire carries only the low 16 bits of the 64-bit logical sequence; the
/// receiver re-attaches the high bits of its current sequence and corrects
/// for a wrap in either direction, relying on the queued-packet bound being
/// well below a 16-bit block.
pub fn get_true_incoming_sequence(
    packet_sequence: u16,
    current_sequence: u64,
    max_queued_reliable_data_packets: i16,
) -> (sequence: u64)
    requires
        max_queued_reliable_data_packets >= 0,
        0 <= extended_sequence(
            packet_sequence,
            current_sequence,
            max_queued_reliable_data_packets as int,
        ) <= u64::MAX,
    ensures
        sequence == extended_sequence(
            packet_sequence,
            current_sequence,
            max_queued_reliable_data_packets as int,
        ),
        sequence & 0xFFFF == packet_sequence,
{
    let window = max_queued_reliable_data_packets as u64;
    let high_block = current_sequence & 0xFFFF_FFFF_FFFF_0000;
    let mut sequence: u64 = (packet_sequence as u64) | high_block;
    proof {
        assert((packet_sequence as u64) | (current_sequence & 0xFFFF_FFFF_FFFF_0000) == (
        current_sequence & 0xFFFF_FFFF_FFFF_0000) + packet_sequence) by (bit_vector);
    }
    if sequence < current_sequence.saturating_sub(window) {
        sequence += 0x10000;
    } else if sequence > current_sequence.saturating_add(window) {
        sequence -= 0x10000;
    }
    proof {
        let c = sequence_candidate(packet_sequence, current_sequence) as u64;
        assert(c & 0xFFFF == packet_sequence && (c + 0x10000) as u64 & 0xFFFF == packet_sequence
            && (c - 0x10000) as u64 & 0xFFFF == packet_sequence) by (bit_vector)
            requires
                c == (packet_sequence as u64) | (current_sequence & 0xFFFF_FFFF_FFFF_0000),
        ;
    }
    sequence
}

/// The extension is exact on the window: if some logical sequence within
/// `window` packets of the current sequence carries the packet's low 16
/// bits, `extended_sequence` returns exactly that sequence, and so stays
/// within the window. Packets from outside the window may be extended to a
/// sequence almost a whole 16-bit block away.
pub proof fn lemma_extended_sequence_exact(
    packet_sequence: u16,
    current_sequence: u64,
    window: int,
    true_sequence: u64,
)
    requires
        0 <= window < 0x8000,
        true_sequence & 0xFFFF == packet_sequence,
        current_sequence - window <= true_sequence <= current_sequence + window,
    ensures
        extended_sequence(packet_sequence, current_sequence, window) == true_sequence,
{
    let c = current_sequence;
    let t = true_sequence;
    let p = packet_sequence;
    assert(c & 0xFFFF_FFFF_FFFF_0000 == (c / 0x10000) * 0x10000) by (bit_vector);
    assert(t & 0xFFFF == t % 0x10000) by (bit_vector);
    assert(c % 0x10000 < 0x10000 && c == (c / 0x10000) * 0x10000 + c % 0x10000) by (bit_vector);
    assert(t == (t / 0x10000) * 0x10000 + t % 0x10000) by (bit_vector);
    let candidate = sequence_candidate(p, c);
    let d = c / 0x10000 - t / 0x10000;
    assert(candidate - t == d * 0x10000);
    assert(candidate - c <= 0xFFFF && c - candidate <= 0xFFFF);
    assert(-(0x10000 * 2) < candidate - t < 0x10000 * 2);
    assert(-(0x10000 * 2) < d * 0x10000 < 0x10000 * 2 ==> -2 < d < 2) by (nonlinear_arith);
    if d == 0 {
        assert(c - window <= candidate <= c + window);
    } else if d == 1 {
        assert(candidate == t + 0x10000);
        assert(candidate > c + window);
    } else {
        assert(d == -1);
        assert(candidate == t - 0x10000);
        assert(candidate < c - window);
    }
}

/// The mathematical payloads a vector of payload buffers stands for.
pub open spec fn payloads_view(payloads: Seq<Vec<u8>>) -> Seq<Seq<u8>> {
    payloads.map_values(|payload: Vec<u8>| payload@)
}

/// True of a buffer that starts with the two-byte multi-data indicator.
pub open spec fn starts_with_multi_data_indicator(data: Seq<u8>) -> bool {
    data.len() >= 2 && data[0] == 0x00 && data[1] == 0x19
}

/// Checks if the given buffer starts with the multi-data indicator.
pub fn has_multi_data_indicator(buffer: &[u8]) -> (r: bool)
    ensures
        r == starts_with_multi_data_indicator(buffer@),
{
    buffer.len() >= 2 && buffer[0] == 0x00 && buffer[1] == 0x19
}

/// Writes the multi-data indicator at `offset` and advances the offset past
/// it; the rest of the buffer is untouched.
pub fn write_multi_data_indicator(buffer: &mut Vec<u8>, offset: &mut usize)
    requires
        *old(offset) + 2 <= old(buffer).len(),
    ensures
        final(buffer)@.len() == old(buffer)@.len(),
        final(buffer)@[*old(offset) as int] == 0x00,
        final(buffer)@[*old(offset) + 1] == 0x19,
        forall|i: int|
            0 <= i < old(buffer)@.len() && !(*old(offset) <= i < *old(offset) + 2)
                ==> final(buffer)@[i] == old(buffer)@[i],
        *final(offset) == *old(offset) + 2,
{
    buffer[*offset] = 0x00;
    buffer[*offset + 1] = 0x19;
    *offset += 2;
}

/// The number of bytes the variable-length prefix of `length` occupies.
pub open spec fn variable_length_size(length: u32) -> int {
    if length < 0xFF {
        1
    } else if length < 0xFFFF {
        3
    } else {
        7
    }
}

/// The bytes of the variable-length prefix of `length`: one byte below
/// 0xFF, an 0xFF marker and two big-endian bytes below 0xFFFF, and a
/// three-byte 0xFF marker followed by four big-endian bytes otherwise.
pub open spec fn variable_length_encoding(length: u32) -> Seq<u8> {
    if length < 0xFF {
        seq![length as u8]
    } else if length < 0xFFFF {
        seq![0xFFu8, (length / 0x100) as u8, (length % 0x100) as u8]
    } else {
        seq![
            0xFFu8,
            0xFFu8,
            0xFFu8,
            (length / 0x100_0000) as u8,
            ((length / 0x1_0000) % 0x100) as u8,
            ((length / 0x100) % 0x100) as u8,
            (length % 0x100) as u8,
        ]
    }
}

/// The number of bytes the variable-length prefix found at `offset` in
/// `data` occupies, read off its leading marker bytes.
pub open spec fn variable_length_size_at(data: Seq<u8>, offset: int) -> int {
    if data[offset] < 0xFF {
        1
    } else if data[offset + 1] == 0xFF && data[offset + 2] == 0xFF {
        7
    } else {
        3
    }
}

/// The value of the variable-length prefix found at `offset` in `data`.
pub open spec fn variable_length_value(data: Seq<u8>, offset: int) -> int {
    if data[offset] < 0xFF {
        data[offset] as int
    } else if data[offset + 1] == 0xFF && data[offset + 2] == 0xFF {
        u32_from_be(data[offset + 3], data[offset + 4], data[offset + 5], data[offset + 6])
    } else {
        u16_from_be(data[offset + 1], data[offset + 2])
    }
}

/// Reads a variable-length value from a buffer, advancing `offset` past it.
pub fn read_variable_length(buffer: &[u8], offset: &mut usize) -> (value: u32)
    requires
        *old(offset) < buffer@.len(),
        buffer@[*old(offset) as int] == 0xFF ==> *old(offset) + 3 <= buffer@.len(),
        buffer@[*old(offset) as int] == 0xFF && buffer@[*old(offset) + 1] == 0xFF
            && buffer@[*old(offset) + 2] == 0xFF ==> *old(offset) + 7 <= buffer@.len(),
    ensures
        value == variable_length_value(buffer@, *old(offset) as int),
        *final(offset) == *old(offset) + variable_length_size_at(buffer@, *old(offset) as int),
{
    let mut value: u32 = 0;
    if buffer[*offset] < 0xFF {
        value = buffer[*offset] as u32;
        *offset += 1;
    } else if buffer[*offset + 1] == 0xFF && buffer[*offset + 2] == 0xFF {
        value = (buffer[*offset + 3] as u32) * 0x100_0000;
        value += (buffer[*offset + 4] as u32) * 0x1_0000;
        value += (buffer[*offset + 5] as u32) * 0x100;
        value += buffer[*offset + 6] as u32;
        *offset += 7;
    } else {
        value = (buffer[*offset + 1] as u32) * 0x100;
        value += buffer[*offset + 2] as u32;
        *offset += 3;
    }
    value
}

/// Gets the amount of space in a buffer that a variable-length value will
/// consume.
pub fn get_variable_length_size(length: u32) -> (size: usize)
    ensures
        size == variable_length_size(length),
{
    if length < 0xFF {
        1
    } else if length < 0xFFFF {
        3
    } else {
        7
    }
}

/// Writes the variable-length prefix of `length` at `offset` and advances
/// the offset past it; the rest of the buffer is untouched.
pub fn write_variable_length(buffer: &mut Vec<u8>, length: u32, offset: &mut usize)
    requires
        *old(offset) + variable_length_size(length) <= old(buffer).len(),
    ensures
        final(buffer)@.len() == old(buffer)@.len(),
        *final(offset) == *old(offset) + variable_length_size(length),
        final(buffer)@.subrange(*old(offset) as int, *final(offset) as int)
            == variable_length_encoding(length),
        forall|i: int|
            0 <= i < old(buffer)@.len() && !(*old(offset) <= i < *old(offset)
                + variable_length_size(length)) ==> final(buffer)@[i] == old(buffer)@[i],
{
    if length < 0xFF {
        buffer[*offset] = length as u8;
        *offset += 1;
    } else if length < 0xFFFF {
        buffer[*offset] = 0xFF;
        buffer[*offset + 1] = (length / 0x100) as u8;
        buffer[*offset + 2] = (length % 0x100) as u8;
        *offset += 3;
    } else {
        buffer[*offset] = 0xFF;
        buffer[*offset + 1] = 0xFF;
        buffer[*offset + 2] = 0xFF;
        buffer[*offset + 3] = (length / 0x100_0000) as u8;
        buffer[*offset + 4] = ((length / 0x1_0000) % 0x100) as u8;
        buffer[*offset + 5] = ((length / 0x100) % 0x100) as u8;
        buffer[*offset + 6] = (length % 0x100) as u8;
        *offset += 7;
    }
    proof {
        assert(final(buffer)@.subrange(*old(offset) as int, *final(offset) as int)
            =~= variable_length_encoding(length));
    }
}

/// Write-then-read round trip: a buffer that holds the variable-length
/// encoding of `length` at `offset` decodes to `length` again, and the
/// decoder advances by exactly `variable_length_size(length)` bytes.
pub proof fn lemma_variable_length_round_trip(data: Seq<u8>, offset: int, length: u32)
    requires
        0 <= offset,
        offset + variable_length_size(length) <= data.len(),
        data.subrange(offset, offset + variable_length_size(length))
            == variable_length_encoding(length),
    ensures
        variable_length_size_at(data, offset) == variable_length_size(length),
        variable_length_value(data, offset) == length,
{
    let enc = variable_length_encoding(length);
    let size = variable_length_size(length);
    let sub = data.subrange(offset, offset + size);
    if length < 0xFF {
        assert(data[offset] == sub[0]);
        assert(data[offset] == length as u8);
    } else if length < 0xFFFF {
        assert(data[offset] == sub[0]);
        assert(data[offset + 1] == sub[1]);
        assert(data[offset + 2] == sub[2]);
        assert(data[offset + 1] == (length / 0x100) as u8);
        assert(data[offset + 2] == (length % 0x100) as u8);
        assert(!((length / 0x100) as u8 == 0xFF && (length % 0x100) as u8 == 0xFF)
            && (length / 0x100) as u8 * 0x100 + (length % 0x100) as u8 == length) by (bit_vector)
            requires
                0xFF <= length < 0xFFFF,
        ;
    } else {
        assert(data[offset] == sub[0]);
        assert(data[offset + 1] == sub[1]);
        assert(data[offset + 2] == sub[2]);
        assert(data[offset + 3] == sub[3]);
        assert(data[offset + 4] == sub[4]);
        assert(data[offset + 5] == sub[5]);
        assert(data[offset + 6] == sub[6]);
        assert((length / 0x100_0000) as u8 * 0x100_0000 + ((length / 0x1_0000) % 0x100) as u8
            * 0x1_0000 + ((length / 0x100) % 0x100) as u8 * 0x100 + (length % 0x100) as u8
            == length) by (bit_vector)
            requires
                length >= 0xFFFF,
        ;
    }
}

} // verus!
