//! The fragment reassembler: concatenates a train of ReliableDataFragment
//! payloads into one application buffer. The first fragment declares the
//! total length in a big-endian 32-bit prefix; the following fragments
//! contribute raw bytes, in logical sequence order, until that many bytes
//! are collected.

use vstd::prelude::*;
use vstd::slice::slice_subrange;
use vstd::slice::slice_to_vec;
use crate::binary_primitives::read_u32_be;
use crate::binary_primitives::u32_from_be;
use crate::data_utils::payloads_view;

verus! {

broadcast use vstd::std_specs::vec::axiom_spec_len;

/// The ways a fragment train can go wrong.
#[derive(Clone, Copy, Debug, PartialEq, Eq, Structural)]
pub enum FragmentError {
    /// A first fragment too short to carry its total-length prefix.
    MalformedFragment,
    /// More bytes arrived than the first fragment declared.
    FragmentOverflow,
    /// A non-fragment reliable packet interrupted the train.
    FragmentAbandoned,
}

/// The mathematical state of a reassembler: whether a train is in
/// progress, the total length its first fragment declared, and the bytes
/// collected so far.
pub struct ReassemblerModel {
    pub in_progress: bool,
    pub expected_length: int,
    pub collected: Seq<u8>,
}

impl ReassemblerModel {
    /// Well-formedness: a train in progress has collected fewer bytes than
    /// it expects; an idle reassembler holds none.
    pub open spec fn wf(self) -> bool {
        &&& self.in_progress ==> self.collected.len() < self.expected_length <= u32::MAX
        &&& !self.in_progress ==> self.collected.len() == 0
    }

    /// The idle state.
    pub open spec fn idle() -> ReassemblerModel {
        ReassemblerModel { in_progress: false, expected_length: 0, collected: seq![] }
    }
}

/// The reassembler's transition on one fragment payload: the next state,
/// and either the completed buffer, nothing yet, or the error that ends
/// the train.
pub open spec fn fragment_transition(m: ReassemblerModel, payload: Seq<u8>) -> (
    ReassemblerModel,
    Result<Option<Seq<u8>>, FragmentError>,
) {
    if !m.in_progress {
        if payload.len() < 4 {
            (ReassemblerModel::idle(), Result::Err(FragmentError::MalformedFragment))
        } else {
            let total = u32_from_be(payload[0], payload[1], payload[2], payload[3]);
            let first = payload.subrange(4, payload.len() as int);
            if first.len() > total {
                (ReassemblerModel::idle(), Result::Err(FragmentError::FragmentOverflow))
            } else if first.len() == total {
                (ReassemblerModel::idle(), Result::Ok(Option::Some(first)))
            } else {
                (
                    ReassemblerModel {
                        in_progress: true,
                        expected_length: total,
                        collected: first,
                    },
                    Result::Ok(Option::None),
                )
            }
        }
    } else {
        if m.collected.len() + payload.len() > m.expected_length {
            (ReassemblerModel::idle(), Result::Err(FragmentError::FragmentOverflow))
        } else if m.collected.len() + payload.len() == m.expected_length {
            (ReassemblerModel::idle(), Result::Ok(Option::Some(m.collected + payload)))
        } else {
            (
                ReassemblerModel {
                    in_progress: true,
                    expected_length: m.expected_length,
                    collected: m.collected + payload,
                },
                Result::Ok(Option::None),
            )
        }
    }
}

/// The four big-endian bytes of a 32-bit value.
pub open spec fn be32_bytes(value: u32) -> Seq<u8> {
    seq![
        (value / 0x100_0000) as u8,
        ((value / 0x1_0000) % 0x100) as u8,
        ((value / 0x100) % 0x100) as u8,
        (value % 0x100) as u8,
    ]
}

/// `data` cut from `from` into chunks of at most `chunk_length` bytes.
pub open spec fn chunked(data: Seq<u8>, from: int, chunk_length: int) -> Seq<Seq<u8>>
    decreases data.len() - from
        when 0 <= from <= data.len() && chunk_length >= 1
{
    if from == data.len() {
        seq![]
    } else if data.len() - from <= chunk_length {
        seq![data.subrange(from, data.len() as int)]
    } else {
        seq![data.subrange(from, from + chunk_length)] + chunked(
            data,
            from + chunk_length,
            chunk_length,
        )
    }
}

/// The fragment train an oversize payload is split into: a first fragment
/// carrying the big-endian total length and the first bytes, then the
/// remaining bytes in chunks, each fragment at most `max_fragment_length`
/// bytes.
pub open spec fn fragment_payloads(data: Seq<u8>, max_fragment_length: int) -> Seq<Seq<u8>> {
    let first_take = if data.len() <= max_fragment_length - 4 {
        data.len() as int
    } else {
        max_fragment_length - 4
    };
    seq![be32_bytes(data.len() as u32) + data.subrange(0, first_take)] + chunked(
        data,
        first_take,
        max_fragment_length,
    )
}

/// Splits a payload into the fragment train of `fragment_payloads`: the
/// first fragment declares the total length, and no fragment exceeds
/// `max_fragment_length` bytes.
pub fn split_into_fragments(payload: &[u8], max_fragment_length: usize) -> (fragments: Vec<
    Vec<u8>,
>)
    requires
        5 <= max_fragment_length,
        payload@.len() <= u32::MAX,
    ensures
        payloads_view(fragments@) == fragment_payloads(payload@, max_fragment_length as int),
{
    let total = payload.len() as u32;
    let first_take = if payload.len() <= max_fragment_length - 4 {
        payload.len()
    } else {
        max_fragment_length - 4
    };
    let mut first: Vec<u8> = Vec::new();
    first.push((total / 0x100_0000) as u8);
    first.push(((total / 0x1_0000) % 0x100) as u8);
    first.push(((total / 0x100) % 0x100) as u8);
    first.push((total % 0x100) as u8);
    proof {
        assert(first@ =~= be32_bytes(total));
    }
    let mut first_chunk = slice_to_vec(slice_subrange(payload, 0, first_take));
    first.append(&mut first_chunk);
    let mut fragments: Vec<Vec<u8>> = Vec::new();
    fragments.push(first);
    let mut from = first_take;
    proof {
        assert(payloads_view(fragments@) =~= seq![
            be32_bytes(payload@.len() as u32) + payload@.subrange(0, first_take as int),
        ]);
        assert(payloads_view(fragments@) + chunked(
            payload@,
            from as int,
            max_fragment_length as int,
        ) =~= fragment_payloads(payload@, max_fragment_length as int));
    }
    while from < payload.len()
        invariant
            5 <= max_fragment_length,
            from <= payload@.len(),
            payloads_view(fragments@) + chunked(
                payload@,
                from as int,
                max_fragment_length as int,
            ) == fragment_payloads(payload@, max_fragment_length as int),
        decreases payload@.len() - from,
    {
        let end = if payload.len() - from <= max_fragment_length {
            payload.len()
        } else {
            from + max_fragment_length
        };
        let ghost fragments_before = fragments@;
        let piece = slice_to_vec(slice_subrange(payload, from, end));
        fragments.push(piece);
        proof {
            assert(payloads_view(fragments@) =~= payloads_view(fragments_before).push(
                payload@.subrange(from as int, end as int),
            ));
            assert(payloads_view(fragments_before).push(
                payload@.subrange(from as int, end as int),
            ) + chunked(payload@, end as int, max_fragment_length as int) =~= payloads_view(
                fragments_before,
            ) + (seq![payload@.subrange(from as int, end as int)] + chunked(
                payload@,
                end as int,
                max_fragment_length as int,
            )));
            if payload@.len() - from <= max_fragment_length {
                assert(chunked(payload@, end as int, max_fragment_length as int)
                    =~= Seq::<Seq<u8>>::empty());
                assert(seq![payload@.subrange(from as int, end as int)] + chunked(
                    payload@,
                    end as int,
                    max_fragment_length as int,
                ) =~= chunked(payload@, from as int, max_fragment_length as int));
            }
        }
        from = end;
    }
    proof {
        assert(chunked(payload@, from as int, max_fragment_length as int)
            =~= Seq::<Seq<u8>>::empty());
        assert(payloads_view(fragments@) + Seq::<Seq<u8>>::empty() =~= payloads_view(fragments@));
    }
    fragments
}

/// Decoding the four big-endian bytes of a value returns the value.
proof fn lemma_be32_round_trip(value: u32)
    ensures
        u32_from_be(
            (value / 0x100_0000) as u8,
            ((value / 0x1_0000) % 0x100) as u8,
            ((value / 0x100) % 0x100) as u8,
            (value % 0x100) as u8,
        ) == value,
{
    assert((value / 0x100_0000) as u8 * 0x100_0000 + ((value / 0x1_0000) % 0x100) as u8 * 0x1_0000
        + ((value / 0x100) % 0x100) as u8 * 0x100 + (value % 0x100) as u8 == value)
        by (bit_vector);
}

/// Folds the reassembler transition over a train of fragment payloads,
/// collecting every buffer it delivers.
pub open spec fn run_reassembler(m: ReassemblerModel, payloads: Seq<Seq<u8>>) -> (
    ReassemblerModel,
    Seq<Seq<u8>>,
)
    decreases payloads.len(),
{
    if payloads.len() == 0 {
        (m, seq![])
    } else {
        let step = fragment_transition(m, payloads[0]);
        let rest = run_reassembler(step.0, payloads.drop_first());
        (
            rest.0,
            (match step.1 {
                Result::Ok(Option::Some(delivered)) => seq![delivered],
                _ => seq![],
            }) + rest.1,
        )
    }
}

/// A partly collected train consumes its remaining chunks and delivers
/// the whole payload with the last one.
proof fn lemma_chunks_reassemble(data: Seq<u8>, from: int, max_fragment_length: int)
    requires
        0 <= from < data.len() <= u32::MAX,
        max_fragment_length >= 1,
    ensures
        ({
            let m = (ReassemblerModel {
                in_progress: true,
                expected_length: data.len() as int,
                collected: data.subrange(0, from),
            });
            run_reassembler(m, chunked(data, from, max_fragment_length)) == (
                ReassemblerModel::idle(),
                seq![data],
            )
        }),
    decreases data.len() - from,
{
    reveal_with_fuel(run_reassembler, 3);
    let m = ReassemblerModel {
        in_progress: true,
        expected_length: data.len() as int,
        collected: data.subrange(0, from),
    };
    let train = chunked(data, from, max_fragment_length);
    if data.len() - from <= max_fragment_length {
        let last = data.subrange(from, data.len() as int);
        assert(train[0] == last);
        assert(m.collected + last =~= data);
        assert(fragment_transition(m, train[0]).1 == Result::<Option<Seq<u8>>, FragmentError>::Ok(
            Option::Some(data),
        ));
        assert(train.drop_first() =~= Seq::<Seq<u8>>::empty());
        assert(run_reassembler(m, train).1 =~= seq![data]);
    } else {
        let chunk = data.subrange(from, from + max_fragment_length);
        assert(train[0] == chunk);
        assert(m.collected + chunk =~= data.subrange(0, from + max_fragment_length));
        lemma_chunks_reassemble(data, from + max_fragment_length, max_fragment_length);
        assert(train.drop_first() =~= chunked(
            data,
            from + max_fragment_length,
            max_fragment_length,
        ));
        let step = fragment_transition(m, chunk);
        assert(step.0 == (ReassemblerModel {
            in_progress: true,
            expected_length: data.len() as int,
            collected: data.subrange(0, from + max_fragment_length),
        }));
        assert(run_reassembler(m, train).1 =~= seq![data]);
    }
}

/// Splitting a payload into fragments and feeding them, in order, to an
/// idle reassembler delivers exactly the original payload, once, with the
/// last fragment, and leaves the reassembler idle again.
pub proof fn lemma_fragments_reassemble(data: Seq<u8>, max_fragment_length: int)
    requires
        5 <= max_fragment_length,
        data.len() <= u32::MAX,
    ensures
        run_reassembler(ReassemblerModel::idle(), fragment_payloads(data, max_fragment_length))
            == (ReassemblerModel::idle(), seq![data]),
{
    reveal_with_fuel(run_reassembler, 3);
    let train = fragment_payloads(data, max_fragment_length);
    let first_take = if data.len() <= max_fragment_length - 4 {
        data.len() as int
    } else {
        max_fragment_length - 4
    };
    let first = be32_bytes(data.len() as u32) + data.subrange(0, first_take);
    assert(train[0] == first);
    lemma_be32_round_trip(data.len() as u32);
    assert(first[0] == be32_bytes(data.len() as u32)[0]);
    assert(first[1] == be32_bytes(data.len() as u32)[1]);
    assert(first[2] == be32_bytes(data.len() as u32)[2]);
    assert(first[3] == be32_bytes(data.len() as u32)[3]);
    assert(u32_from_be(first[0], first[1], first[2], first[3]) == data.len());
    assert(first.subrange(4, first.len() as int) =~= data.subrange(0, first_take));
    let step = fragment_transition(ReassemblerModel::idle(), first);
    if data.len() <= max_fragment_length - 4 {
        assert(data.subrange(0, first_take) =~= data);
        assert(step.1 == Result::<Option<Seq<u8>>, FragmentError>::Ok(Option::Some(data)));
        assert(train.drop_first() =~= Seq::<Seq<u8>>::empty());
        assert(run_reassembler(ReassemblerModel::idle(), train).1 =~= seq![data]);
    } else {
        assert(step.0 == (ReassemblerModel {
            in_progress: true,
            expected_length: data.len() as int,
            collected: data.subrange(0, first_take),
        }));
        lemma_chunks_reassemble(data, first_take, max_fragment_length);
        assert(train.drop_first() =~= chunked(data, first_take, max_fragment_length));
        assert(run_reassembler(ReassemblerModel::idle(), train).1 =~= seq![data]);
    }
}

/// The fragment reassembler: a growable buffer and the total length the
/// first fragment of the train declared.
pub struct FragmentReassembler {
    buffer: Vec<u8>,
    expected_length: u32,
    in_progress: bool,
}

impl View for FragmentReassembler {
    type V = ReassemblerModel;

    closed spec fn view(&self) -> ReassemblerModel {
        ReassemblerModel {
            in_progress: self.in_progress,
            expected_length: if self.in_progress {
                self.expected_length as int
            } else {
                0
            },
            collected: self.buffer@,
        }
    }
}

impl FragmentReassembler {
    /// Creates an idle reassembler.
    pub fn new() -> (reassembler: FragmentReassembler)
        ensures
            reassembler@.wf(),
            reassembler@ == ReassemblerModel::idle(),
    {
        let reassembler = FragmentReassembler {
            buffer: Vec::new(),
            expected_length: 0,
            in_progress: false,
        };
        proof {
            assert(reassembler@.collected =~= Seq::<u8>::empty());
        }
        reassembler
    }

    /// True while a fragment train is waiting for more bytes.
    pub fn is_in_progress(&self) -> (in_progress: bool)
        ensures
            in_progress == self@.in_progress,
    {
        self.in_progress
    }

    /// Hands the next fragment payload of the train to the reassembler.
    /// The first fragment carries the total length; once exactly that many
    /// bytes are collected the whole buffer is returned and the train
    /// ends. A fragment that would overrun the declared total ends the
    /// train with `FragmentOverflow`.
    pub fn receive_fragment(&mut self, payload: Vec<u8>) -> (r: Result<
        Option<Vec<u8>>,
        FragmentError,
    >)
        requires
            old(self)@.wf(),
        ensures
            final(self)@.wf(),
            ({
                let t = fragment_transition(old(self)@, payload@);
                &&& final(self)@ == t.0
                &&& (match (r, t.1) {
                    (Result::Ok(Option::None), Result::Ok(Option::None)) => true,
                    (Result::Ok(Option::Some(delivered)), Result::Ok(Option::Some(expected))) => (
                    delivered@ == expected),
                    (Result::Err(e), Result::Err(expected_e)) => e == expected_e,
                    _ => false,
                })
            }),
    {
        if !self.in_progress {
            proof {
                assert(self@.collected =~= Seq::<u8>::empty());
            }
            if payload.len() < 4 {
                return Result::Err(FragmentError::MalformedFragment);
            }
            let total = read_u32_be(payload.as_slice());
            let first = slice_to_vec(slice_subrange(payload.as_slice(), 4, payload.len()));
            if first.len() > total as usize {
                return Result::Err(FragmentError::FragmentOverflow);
            }
            if first.len() == total as usize {
                return Result::Ok(Option::Some(first));
            }
            self.buffer = first;
            self.expected_length = total;
            self.in_progress = true;
            Result::Ok(Option::None)
        } else {
            let remaining = self.expected_length as usize - self.buffer.len();
            if payload.len() > remaining {
                self.buffer = Vec::new();
                self.in_progress = false;
                proof {
                    assert(self@.collected =~= Seq::<u8>::empty());
                }
                return Result::Err(FragmentError::FragmentOverflow);
            }
            let payload_length = payload.len();
            let mut incoming = payload;
            self.buffer.append(&mut incoming);
            if payload_length == remaining {
                let mut completed: Vec<u8> = Vec::new();
                core::mem::swap(&mut completed, &mut self.buffer);
                self.in_progress = false;
                proof {
                    assert(self@.collected =~= Seq::<u8>::empty());
                }
                Result::Ok(Option::Some(completed))
            } else {
                Result::Ok(Option::None)
            }
        }
    }

    /// Tells the reassembler that a non-fragment reliable packet arrived.
    /// Mid-train that is fragment sequence corruption: the train is
    /// abandoned. Idle, it is no error.
    pub fn receive_non_fragment(&mut self) -> (r: Result<(), FragmentError>)
        requires
            old(self)@.wf(),
        ensures
            final(self)@.wf(),
            final(self)@ == ReassemblerModel::idle(),
            old(self)@.in_progress ==> r == Result::<(), FragmentError>::Err(
                FragmentError::FragmentAbandoned,
            ),
            !old(self)@.in_progress ==> r == Result::<(), FragmentError>::Ok(()),
    {
        if self.in_progress {
            self.buffer = Vec::new();
            self.in_progress = false;
            proof {
                assert(self@.collected =~= Seq::<u8>::empty());
            }
            Result::Err(FragmentError::FragmentAbandoned)
        } else {
            proof {
                assert(self@.collected =~= Seq::<u8>::empty());
            }
            Result::Ok(())
        }
    }

    /// Discards a stalled train; the supervisor calls this when its
    /// fragment timer expires.
    pub fn abandon(&mut self)
        ensures
            final(self)@.wf(),
            final(self)@ == ReassemblerModel::idle(),
    {
        self.buffer = Vec::new();
        self.in_progress = false;
        proof {
            assert(self@.collected =~= Seq::<u8>::empty());
        }
    }
}

} // verus!
