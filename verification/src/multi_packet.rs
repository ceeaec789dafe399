//! The multi-packet container: one datagram payload that coalesces several
//! protocol packets. It starts with the two-byte multi-data indicator;
//! each inner packet follows behind its variable-length length prefix.

use vstd::prelude::*;
use vstd::slice::slice_subrange;
use vstd::slice::slice_to_vec;
use crate::data_utils::has_multi_data_indicator;
use crate::data_utils::lemma_variable_length_round_trip;
use crate::data_utils::payloads_view;
use crate::data_utils::read_variable_length;
use crate::data_utils::starts_with_multi_data_indicator;
use crate::data_utils::variable_length_encoding;
use crate::data_utils::variable_length_size;
use crate::data_utils::variable_length_size_at;
use crate::data_utils::variable_length_value;

verus! {

broadcast use vstd::std_specs::vec::axiom_spec_len, vstd::slice::axiom_spec_len;

/// The error of the packet-framing layer: a missing indicator, a frame
/// that overruns its buffer, or a packet too long to frame.
#[derive(Clone, Copy, Debug, PartialEq, Eq, Structural)]
pub enum PacketError {
    /// The buffer is truncated, a length prefix is bad, or the indicator
    /// is missing.
    MalformedPacket,
}

/// True when a variable-length prefix can be read at `offset` without
/// running off the buffer.
pub open spec fn varlen_readable(data: Seq<u8>, offset: int) -> bool {
    &&& offset < data.len()
    &&& data[offset] == 0xFF ==> offset + 3 <= data.len()
    &&& (data[offset] == 0xFF && data[offset + 1] == 0xFF && data[offset + 2] == 0xFF) ==> offset
        + 7 <= data.len()
}

/// The inner packets framed from `offset` to the end of the buffer, each a
/// variable-length prefix followed by that many bytes; nothing on overrun
/// or truncation.
pub open spec fn framed_packets_from(data: Seq<u8>, offset: int) -> Option<Seq<Seq<u8>>>
    decreases data.len() - offset
        when 0 <= offset <= data.len()
{
    if offset == data.len() {
        Option::Some(seq![])
    } else if varlen_readable(data, offset) {
        let size = variable_length_size_at(data, offset);
        let length = variable_length_value(data, offset);
        if offset + size + length <= data.len() {
            match framed_packets_from(data, offset + size + length) {
                Option::Some(rest) => Option::Some(
                    seq![data.subrange(offset + size, offset + size + length)] + rest,
                ),
                Option::None => Option::None,
            }
        } else {
            Option::None
        }
    } else {
        Option::None
    }
}

/// The inner packets of a whole multi-packet payload: the indicator, then
/// framed packets to its end.
pub open spec fn split_multi_data_spec(data: Seq<u8>) -> Option<Seq<Seq<u8>>> {
    if starts_with_multi_data_indicator(data) {
        framed_packets_from(data, 2)
    } else {
        Option::None
    }
}

/// Splits a multi-packet payload into its inner packets: after the
/// indicator the buffer is walked by repeatedly reading a variable-length
/// prefix and taking that many bytes. Fails with `MalformedPacket` when
/// the indicator is missing or a frame overruns the buffer.
pub fn split_multi_data(buffer: &[u8]) -> (r: Result<Vec<Vec<u8>>, PacketError>)
    ensures
        match r {
            Result::Ok(packets) => split_multi_data_spec(buffer@) == Option::Some(
                payloads_view(packets@),
            ),
            Result::Err(e) => e == PacketError::MalformedPacket && split_multi_data_spec(buffer@)
                is None,
        },
{
    if !has_multi_data_indicator(buffer) {
        return Result::Err(PacketError::MalformedPacket);
    }
    let n = buffer.len();
    let mut packets: Vec<Vec<u8>> = Vec::new();
    let mut offset: usize = 2;
    proof {
        assert(payloads_view(packets@) =~= Seq::<Seq<u8>>::empty());
        assert(payloads_view(packets@) + match framed_packets_from(buffer@, 2) {
            Option::Some(rest) => rest,
            Option::None => seq![],
        } =~= match framed_packets_from(buffer@, 2) {
            Option::Some(rest) => rest,
            Option::None => seq![],
        });
    }
    while offset < n
        invariant
            n == buffer@.len(),
            2 <= offset <= n,
            framed_packets_from(buffer@, 2) == match framed_packets_from(buffer@, offset as int) {
                Option::Some(rest) => Option::Some(payloads_view(packets@) + rest),
                Option::None => Option::None::<Seq<Seq<u8>>>,
            },
        decreases n - offset,
    {
        if buffer[offset] == 0xFF {
            if n - offset < 3 {
                return Result::Err(PacketError::MalformedPacket);
            }
            if buffer[offset + 1] == 0xFF && buffer[offset + 2] == 0xFF && n - offset < 7 {
                return Result::Err(PacketError::MalformedPacket);
            }
        }
        let ghost frame_start = offset as int;
        let ghost packets_before = packets@;
        let length = read_variable_length(buffer, &mut offset);
        let remaining = n - offset;
        if (length as usize) > remaining {
            return Result::Err(PacketError::MalformedPacket);
        }
        let data_end = offset + length as usize;
        let piece = slice_subrange(buffer, offset, data_end);
        packets.push(slice_to_vec(piece));
        proof {
            assert(payloads_view(packets@) =~= payloads_view(packets_before).push(piece@));
            assert(match framed_packets_from(buffer@, data_end as int) {
                Option::Some(rest) => payloads_view(packets_before).push(piece@) + rest
                    =~= payloads_view(packets_before) + (seq![piece@] + rest),
                Option::None => true,
            });
        }
        offset = data_end;
    }
    proof {
        assert(payloads_view(packets@) + Seq::<Seq<u8>>::empty() =~= payloads_view(packets@));
    }
    Result::Ok(packets)
}

/// The wire bytes framing `packets` one after another, each behind its
/// variable-length prefix.
pub open spec fn framed_packets_encoding(packets: Seq<Seq<u8>>) -> Seq<u8>
    decreases packets.len(),
{
    if packets.len() == 0 {
        seq![]
    } else {
        variable_length_encoding(packets[0].len() as u32) + packets[0] + framed_packets_encoding(
            packets.drop_first(),
        )
    }
}

/// Appending one packet to a frame train appends its prefix and bytes.
proof fn lemma_framed_encoding_push(packets: Seq<Seq<u8>>, packet: Seq<u8>)
    ensures
        framed_packets_encoding(packets.push(packet)) == framed_packets_encoding(packets)
            + variable_length_encoding(packet.len() as u32) + packet,
    decreases packets.len(),
{
    let whole = packets.push(packet);
    assert(whole.len() == packets.len() + 1);
    assert(framed_packets_encoding(whole) == variable_length_encoding(whole[0].len() as u32)
        + whole[0] + framed_packets_encoding(whole.drop_first()));
    if packets.len() == 0 {
        assert(whole[0] == packet);
        assert(whole.drop_first() =~= Seq::<Seq<u8>>::empty());
        assert(framed_packets_encoding(whole.drop_first()) == Seq::<u8>::empty());
        assert(framed_packets_encoding(packets) == Seq::<u8>::empty());
        assert(framed_packets_encoding(whole) =~= framed_packets_encoding(packets)
            + variable_length_encoding(packet.len() as u32) + packet);
    } else {
        lemma_framed_encoding_push(packets.drop_first(), packet);
        assert(whole[0] == packets[0]);
        assert(whole.drop_first() =~= packets.drop_first().push(packet));
        assert(framed_packets_encoding(packets) == variable_length_encoding(
            packets[0].len() as u32,
        ) + packets[0] + framed_packets_encoding(packets.drop_first()));
        assert(framed_packets_encoding(whole) =~= framed_packets_encoding(packets)
            + variable_length_encoding(packet.len() as u32) + packet);
    }
}

/// A buffer whose tail from `offset` holds the frame train of `packets`
/// decodes to exactly those packets.
proof fn lemma_framed_packets_decode(data: Seq<u8>, offset: int, packets: Seq<Seq<u8>>)
    requires
        0 <= offset <= data.len(),
        data.subrange(offset, data.len() as int) == framed_packets_encoding(packets),
        forall|k: int| 0 <= k < packets.len() ==> #[trigger] packets[k].len() <= u32::MAX,
    ensures
        framed_packets_from(data, offset) == Option::Some(packets),
    decreases packets.len(),
{
    let suffix = data.subrange(offset, data.len() as int);
    if packets.len() == 0 {
        assert(suffix.len() == 0);
        assert(framed_packets_from(data, offset) == Option::Some(Seq::<Seq<u8>>::empty()));
        assert(packets =~= Seq::<Seq<u8>>::empty());
    } else {
        let head = packets[0];
        let head_length = head.len() as u32;
        let enc = variable_length_encoding(head_length);
        let size = variable_length_size(head_length);
        let rest_enc = framed_packets_encoding(packets.drop_first());
        assert(suffix == enc + head + rest_enc);
        assert(enc.len() == size);
        assert forall|i: int| 0 <= i < size implies data.subrange(offset, offset + size)[i]
            == enc[i] by {
            assert(data.subrange(offset, offset + size)[i] == data[offset + i]);
            assert(suffix[i] == data[offset + i]);
            assert((enc + head + rest_enc)[i] == enc[i]);
        }
        assert(data.subrange(offset, offset + size) =~= enc);
        lemma_variable_length_round_trip(data, offset, head_length);
        assert(variable_length_size_at(data, offset) == size);
        assert(variable_length_value(data, offset) == head_length);
        assert(varlen_readable(data, offset)) by {
            if size == 1 {
                assert(data[offset] == enc[0]);
                assert(enc[0] < 0xFF);
            }
        }
        let tail_start = offset + size + head.len();
        assert(tail_start <= data.len());
        assert forall|i: int| 0 <= i < head.len() implies data.subrange(
            offset + size,
            tail_start as int,
        )[i] == head[i] by {
            assert(data.subrange(offset + size, tail_start as int)[i] == data[offset + (size
                + i)]);
            assert(suffix[size + i] == data[offset + (size + i)]);
            assert((enc + head + rest_enc)[size + i] == head[i]);
        }
        assert(data.subrange(offset + size, tail_start as int) =~= head);
        assert forall|i: int| 0 <= i < rest_enc.len() implies data.subrange(
            tail_start as int,
            data.len() as int,
        )[i] == rest_enc[i] by {
            assert(data.subrange(tail_start as int, data.len() as int)[i] == data[offset + (size
                + head.len() + i)]);
            assert(suffix[size + head.len() + i] == data[offset + (size + head.len() + i)]);
            assert((enc + head + rest_enc)[size + head.len() + i] == rest_enc[i]);
        }
        assert(data.subrange(tail_start as int, data.len() as int) =~= rest_enc);
        assert(forall|k: int|
            0 <= k < packets.drop_first().len() ==> #[trigger] packets.drop_first()[k].len()
                <= u32::MAX);
        lemma_framed_packets_decode(data, tail_start as int, packets.drop_first());
        assert(framed_packets_from(data, offset) == Option::Some(
            seq![head] + packets.drop_first(),
        ));
        assert(seq![head] + packets.drop_first() =~= packets);
    }
}

/// Coalescing packets and splitting the result returns the same packets:
/// the splitter is the inverse of the coalescer, for every list of packets
/// short enough to frame.
pub proof fn lemma_multi_data_round_trip(packets: Seq<Seq<u8>>)
    requires
        forall|k: int| 0 <= k < packets.len() ==> #[trigger] packets[k].len() <= u32::MAX,
    ensures
        split_multi_data_spec(seq![0x00u8, 0x19u8] + framed_packets_encoding(packets))
            == Option::Some(packets),
{
    let data = seq![0x00u8, 0x19u8] + framed_packets_encoding(packets);
    assert(data[0] == 0x00 && data[1] == 0x19);
    assert(data.subrange(2, data.len() as int) =~= framed_packets_encoding(packets));
    lemma_framed_packets_decode(data, 2, packets);
}

/// Coalesces protocol packets into one multi-packet payload: the
/// indicator, then each packet behind its variable-length prefix. A packet
/// too long for the prefix cannot be framed.
pub fn pack_multi_data(packets: &Vec<Vec<u8>>) -> (r: Result<Vec<u8>, PacketError>)
    ensures
        r is Ok <==> (forall|k: int|
            0 <= k < packets@.len() ==> (#[trigger] packets@[k])@.len() <= u32::MAX),
        match r {
            Result::Ok(out) => out@ == seq![0x00u8, 0x19u8] + framed_packets_encoding(
                payloads_view(packets@),
            ),
            Result::Err(e) => e == PacketError::MalformedPacket,
        },
{
    let mut out: Vec<u8> = Vec::new();
    out.push(0x00);
    out.push(0x19);
    let mut i: usize = 0;
    proof {
        assert(payloads_view(packets@.subrange(0, 0)) =~= Seq::<Seq<u8>>::empty());
        assert(out@ =~= seq![0x00u8, 0x19u8] + framed_packets_encoding(
            payloads_view(packets@.subrange(0, 0)),
        ));
    }
    while i < packets.len()
        invariant
            i <= packets@.len(),
            forall|k: int| 0 <= k < i ==> (#[trigger] packets@[k])@.len() <= u32::MAX,
            out@ == seq![0x00u8, 0x19u8] + framed_packets_encoding(
                payloads_view(packets@.subrange(0, i as int)),
            ),
        decreases packets@.len() - i,
    {
        let packet = &packets[i];
        if packet.len() > 0xFFFF_FFFF {
            return Result::Err(PacketError::MalformedPacket);
        }
        let length = packet.len() as u32;
        let ghost out_before = out@;
        if length < 0xFF {
            out.push(length as u8);
        } else if length < 0xFFFF {
            out.push(0xFF);
            out.push((length / 0x100) as u8);
            out.push((length % 0x100) as u8);
        } else {
            out.push(0xFF);
            out.push(0xFF);
            out.push(0xFF);
            out.push((length / 0x100_0000) as u8);
            out.push(((length / 0x1_0000) % 0x100) as u8);
            out.push(((length / 0x100) % 0x100) as u8);
            out.push((length % 0x100) as u8);
        }
        proof {
            assert(out@ =~= out_before + variable_length_encoding(length));
        }
        out.extend_from_slice(packet.as_slice());
        proof {
            lemma_framed_encoding_push(payloads_view(packets@.subrange(0, i as int)), packet@);
            assert(payloads_view(packets@.subrange(0, i + 1)) =~= payloads_view(
                packets@.subrange(0, i as int),
            ).push(packet@));
            assert(out@ =~= seq![0x00u8, 0x19u8] + framed_packets_encoding(
                payloads_view(packets@.subrange(0, i + 1)),
            ));
        }
        i += 1;
    }
    proof {
        assert(packets@.subrange(0, packets@.len() as int) =~= packets@);
    }
    Result::Ok(out)
}

} // verus!
