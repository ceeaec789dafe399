//! Big-endian fixed-width integer helpers. All multi-byte protocol integers
//! are big-endian on the wire.

use vstd::prelude::*;

verus! {

/// The value encoded by two big-endian bytes.
pub open spec fn u16_from_be(b0: u8, b1: u8) -> int {
    b0 * 0x100 + b1
}

/// The value encoded by four big-endian bytes.
pub open spec fn u32_from_be(b0: u8, b1: u8, b2: u8, b3: u8) -> int {
    b0 * 0x100_0000 + b1 * 0x1_0000 + b2 * 0x100 + b3
}

/// The high byte of a 16-bit value.
pub open spec fn u16_high_byte(value: u16) -> u8 {
    (value / 0x100) as u8
}

/// The low byte of a 16-bit value.
pub open spec fn u16_low_byte(value: u16) -> u8 {
    (value % 0x100) as u8
}

/// Decodes a big-endian 16-bit integer from the first two bytes of `buffer`.
pub fn read_u16_be(buffer: &[u8]) -> (value: u16)
    requires
        buffer@.len() >= 2,
    ensures
        value == u16_from_be(buffer@[0], buffer@[1]),
{
    let b0 = buffer[0];
    let b1 = buffer[1];
    let value: u16 = ((b0 as u16) << 8) | (b1 as u16);
    proof {
        assert(((b0 as u16) << 8) | (b1 as u16) == b0 * 0x100 + b1) by (bit_vector);
    }
    value
}

/// Decodes a big-endian 32-bit integer from the first four bytes of `buffer`.
pub fn read_u32_be(buffer: &[u8]) -> (value: u32)
    requires
        buffer@.len() >= 4,
    ensures
        value == u32_from_be(buffer@[0], buffer@[1], buffer@[2], buffer@[3]),
{
    let b0 = buffer[0];
    let b1 = buffer[1];
    let b2 = buffer[2];
    let b3 = buffer[3];
    let value: u32 = ((b0 as u32) << 24) | ((b1 as u32) << 16) | ((b2 as u32) << 8) | (b3
        as u32);
    proof {
        assert(((b0 as u32) << 24) | ((b1 as u32) << 16) | ((b2 as u32) << 8) | (b3 as u32) == b0
            * 0x100_0000 + b1 * 0x1_0000 + b2 * 0x100 + b3) by (bit_vector);
    }
    value
}

/// Encodes `value` big-endian into the first two bytes of `buffer`; the rest
/// of the buffer is untouched.
pub fn write_u16_be(buffer: &mut Vec<u8>, value: u16)
    requires
        old(buffer)@.len() >= 2,
    ensures
        final(buffer)@.len() == old(buffer)@.len(),
        final(buffer)@[0] == u16_high_byte(value),
        final(buffer)@[1] == u16_low_byte(value),
        forall|i: int| 2 <= i < old(buffer)@.len() ==> final(buffer)@[i] == old(buffer)@[i],
{
    proof {
        assert((value >> 8) as u8 == value / 0x100 && (value & 0xFF) as u8 == value % 0x100)
            by (bit_vector);
    }
    buffer[0] = (value >> 8) as u8;
    buffer[1] = (value & 0xFF) as u8;
}

/// Writing a 16-bit value and decoding the two bytes back is the identity.
pub proof fn lemma_u16_be_round_trip(value: u16)
    ensures
        u16_from_be(u16_high_byte(value), u16_low_byte(value)) == value,
{
    assert((value / 0x100) as u8 * 0x100 + (value % 0x100) as u8 == value) by (bit_vector);
}

} // verus!
