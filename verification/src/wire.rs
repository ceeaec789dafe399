//! Framing of the sequence-carrying datagrams. Every datagram begins with
//! its big-endian 16-bit op-code; ReliableData and ReliableDataFragment
//! carry the 16-bit wire sequence next and the payload after it, and
//! OutOfOrder and Acknowledge carry just the wire sequence.

use vstd::prelude::*;
use vstd::slice::slice_subrange;
use vstd::slice::slice_to_vec;
use crate::binary_primitives::u16_from_be;
use crate::binary_primitives::u16_high_byte;
use crate::binary_primitives::u16_low_byte;
use crate::multi_packet::PacketError;
use crate::soe_op_code::op_code_value;
use crate::soe_op_code::SoeOpCode;

verus! {

broadcast use vstd::std_specs::vec::axiom_spec_len, vstd::slice::axiom_spec_len;

/// The bytes of a datagram that carries an op-code, a wire sequence, and
/// a payload: both 16-bit values big-endian, the payload behind them.
pub open spec fn sequenced_datagram_bytes(op: SoeOpCode, sequence: u16, payload: Seq<u8>) -> Seq<
    u8,
> {
    seq![
        u16_high_byte(op_code_value(op)),
        u16_low_byte(op_code_value(op)),
        u16_high_byte(sequence),
        u16_low_byte(sequence),
    ] + payload
}

/// Builds a ReliableData or ReliableDataFragment datagram: the op-code,
/// the low 16 bits of the logical sequence, and the payload.
pub fn encode_reliable_data(op: SoeOpCode, sequence: u16, payload: &[u8]) -> (datagram: Vec<u8>)
    ensures
        datagram@ == sequenced_datagram_bytes(op, sequence, payload@),
{
    let op_value = op.to_u16();
    let mut datagram: Vec<u8> = Vec::new();
    datagram.push((op_value / 0x100) as u8);
    datagram.push((op_value % 0x100) as u8);
    datagram.push((sequence / 0x100) as u8);
    datagram.push((sequence % 0x100) as u8);
    let mut body = slice_to_vec(slice_subrange(payload, 0, payload.len()));
    proof {
        assert(body@ =~= payload@);
    }
    datagram.append(&mut body);
    proof {
        assert(datagram@ =~= sequenced_datagram_bytes(op, sequence, payload@));
    }
    datagram
}

/// Builds an OutOfOrder or Acknowledge datagram: the op-code and the low
/// 16 bits of the acknowledged or out-of-order logical sequence.
pub fn encode_sequence_feedback(op: SoeOpCode, sequence: u16) -> (datagram: Vec<u8>)
    ensures
        datagram@ == sequenced_datagram_bytes(op, sequence, Seq::<u8>::empty()),
{
    let op_value = op.to_u16();
    let mut datagram: Vec<u8> = Vec::new();
    datagram.push((op_value / 0x100) as u8);
    datagram.push((op_value % 0x100) as u8);
    datagram.push((sequence / 0x100) as u8);
    datagram.push((sequence % 0x100) as u8);
    proof {
        assert(datagram@ =~= sequenced_datagram_bytes(op, sequence, Seq::<u8>::empty()));
    }
    datagram
}

/// Takes a datagram apart behind its op-code: the wire sequence in its
/// third and fourth bytes, and the payload behind them. Fails with
/// `MalformedPacket` exactly when the datagram is too short to carry a
/// sequence.
pub fn parse_sequenced_datagram(buffer: &[u8]) -> (r: Result<(u16, Vec<u8>), PacketError>)
    ensures
        buffer@.len() >= 4 ==> (match r {
            Result::Ok(parts) => parts.0 == u16_from_be(buffer@[2], buffer@[3]) && parts.1@
                == buffer@.subrange(4, buffer@.len() as int),
            Result::Err(_) => false,
        }),
        buffer@.len() < 4 ==> r == Result::<(u16, Vec<u8>), PacketError>::Err(
            PacketError::MalformedPacket,
        ),
{
    if buffer.len() < 4 {
        return Result::Err(PacketError::MalformedPacket);
    }
    let sequence = ((buffer[2] as u16) << 8) | (buffer[3] as u16);
    proof {
        let b2 = buffer@[2];
        let b3 = buffer@[3];
        assert(((b2 as u16) << 8) | (b3 as u16) == b2 * 0x100 + b3) by (bit_vector);
    }
    let payload = slice_to_vec(slice_subrange(buffer, 4, buffer.len()));
    Result::Ok((sequence, payload))
}

/// Framing then parsing a sequenced datagram returns the sequence and
/// payload it was built from.
pub proof fn lemma_sequenced_datagram_round_trip(op: SoeOpCode, sequence: u16, payload: Seq<u8>)
    ensures
        u16_from_be(
            sequenced_datagram_bytes(op, sequence, payload)[2],
            sequenced_datagram_bytes(op, sequence, payload)[3],
        ) == sequence,
        sequenced_datagram_bytes(op, sequence, payload).subrange(
            4,
            sequenced_datagram_bytes(op, sequence, payload).len() as int,
        ) == payload,
        u16_from_be(
            sequenced_datagram_bytes(op, sequence, payload)[0],
            sequenced_datagram_bytes(op, sequence, payload)[1],
        ) == op_code_value(op),
{
    let datagram = sequenced_datagram_bytes(op, sequence, payload);
    crate::binary_primitives::lemma_u16_be_round_trip(sequence);
    crate::binary_primitives::lemma_u16_be_round_trip(op_code_value(op));
    assert(datagram.subrange(4, datagram.len() as int) =~= payload);
}

} // verus!
