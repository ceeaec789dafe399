//! The reliable receive channel: takes the unordered, lossy, duplicated
//! stream of reliable-data packets and presents the application with an
//! ordered, gap-free, de-duplicated payload stream. Out-of-order packets
//! within a bounded window are buffered; duplicates are dropped; feedback
//! packets drive the peer's retransmission.

use vstd::prelude::*;
use crate::data_utils::extended_sequence;
use crate::data_utils::get_true_incoming_sequence;
use crate::data_utils::payloads_view;

verus! {

broadcast use vstd::std_specs::vec::axiom_spec_len;

/// The feedback a received packet provokes, carrying a logical sequence.
pub enum FeedbackModel {
    /// All sequences up to and including the carried one were delivered.
    Acknowledge(int),
    /// The carried sequence was received ahead of a gap.
    OutOfOrder(int),
}

/// The feedback packet the channel asks its peer-facing side to send.
#[derive(Clone, Copy, Debug, PartialEq, Eq, Structural)]
pub enum ReceiveFeedback {
    /// All sequences up to and including the carried one were delivered.
    Acknowledge(u64),
    /// The carried sequence was received ahead of a gap.
    OutOfOrder(u64),
}

/// The mathematical feedback an exec feedback value stands for.
pub open spec fn feedback_view(feedback: Option<ReceiveFeedback>) -> Option<FeedbackModel> {
    match feedback {
        Option::Some(ReceiveFeedback::Acknowledge(a)) => Option::Some(
            FeedbackModel::Acknowledge(a as int),
        ),
        Option::Some(ReceiveFeedback::OutOfOrder(o)) => Option::Some(
            FeedbackModel::OutOfOrder(o as int),
        ),
        Option::None => Option::None,
    }
}

/// The mathematical state of a receive channel: the next sequence to
/// deliver, the buffered out-of-order packets sorted by sequence, the
/// window bound, and whether an acknowledgement is waiting to be sent.
pub struct ChannelModel {
    pub expected: int,
    pub window: Seq<(int, Seq<u8>)>,
    pub max_queued: int,
    pub ack_pending: bool,
}

/// True of a window whose entries are sorted by strictly increasing
/// sequence; sequences are therefore unique.
pub open spec fn window_sorted(window: Seq<(int, Seq<u8>)>) -> bool {
    forall|k1: int, k2: int| 0 <= k1 < k2 < window.len() ==> window[k1].0 < window[k2].0
}

/// True when some window entry buffers sequence `s`.
pub open spec fn window_contains(window: Seq<(int, Seq<u8>)>, s: int) -> bool {
    exists|k: int| 0 <= k < window.len() && window[k].0 == s
}

/// The position at which sequence `s` belongs in a sorted window: the
/// number of entries with a smaller sequence.
pub open spec fn insert_position(window: Seq<(int, Seq<u8>)>, s: int) -> int
    decreases window.len(),
{
    if window.len() == 0 {
        0
    } else if window[0].0 < s {
        1 + insert_position(window.drop_first(), s)
    } else {
        0
    }
}

/// The window with `(s, payload)` buffered at its sorted position.
pub open spec fn window_insert(window: Seq<(int, Seq<u8>)>, s: int, payload: Seq<u8>) -> Seq<
    (int, Seq<u8>),
> {
    let position = insert_position(window, s);
    window.subrange(0, position) + seq![(s, payload)] + window.subrange(
        position,
        window.len() as int,
    )
}

/// Draining a window from `expected`: while the head entry buffers exactly
/// the next sequence, it is delivered. Returns the remaining window, the
/// payloads delivered in sequence order, and the new expected sequence.
pub open spec fn drain(window: Seq<(int, Seq<u8>)>, expected: int) -> (
    Seq<(int, Seq<u8>)>,
    Seq<Seq<u8>>,
    int,
)
    decreases window.len(),
{
    if window.len() > 0 && window[0].0 == expected {
        let rest = drain(window.drop_first(), expected + 1);
        (rest.0, seq![window[0].1] + rest.1, rest.2)
    } else {
        (window, seq![], expected)
    }
}

impl ChannelModel {
    /// Well-formedness: the window bound is strictly below a half 16-bit
    /// block, entries are sorted, and every buffered sequence lies strictly
    /// between the expected sequence and the far edge of the window. An
    /// acknowledgement can only be pending once something was delivered.
    pub open spec fn wf(self) -> bool {
        &&& 0 <= self.max_queued < 0x8000
        &&& 0 <= self.expected
        &&& window_sorted(self.window)
        &&& forall|k: int|
            0 <= k < self.window.len() ==> self.expected < #[trigger] self.window[k].0
                <= self.expected + self.max_queued
        &&& self.ack_pending ==> self.expected >= 1
    }
}

/// The outcome of handing one packet to the channel: the next channel
/// state, the payloads delivered to the application, and the feedback
/// emitted at once.
pub struct ReceiveOutcome {
    pub state: ChannelModel,
    pub delivered: Seq<Seq<u8>>,
    pub feedback: Option<FeedbackModel>,
}

/// The channel's transition on one reliable-data packet whose logical
/// sequence is `s`. A sequence already delivered is dropped and the current
/// acknowledgement repeated; the expected sequence is delivered together
/// with the contiguous run buffered behind it, scheduling an
/// acknowledgement; a sequence within the window beyond the expected one is
/// buffered (duplicates dropped) and reported out of order; anything else
/// is dropped and reported out of order at the expected sequence.
pub open spec fn receive_transition(m: ChannelModel, s: int, payload: Seq<u8>) -> ReceiveOutcome {
    if 0 <= s < m.expected {
        ReceiveOutcome {
            state: m,
            delivered: seq![],
            feedback: Option::Some(FeedbackModel::Acknowledge(m.expected - 1)),
        }
    } else if s == m.expected {
        let drained = drain(m.window, m.expected + 1);
        ReceiveOutcome {
            state: ChannelModel {
                expected: drained.2,
                window: drained.0,
                max_queued: m.max_queued,
                ack_pending: true,
            },
            delivered: seq![payload] + drained.1,
            feedback: Option::None,
        }
    } else if m.expected < s <= m.expected + m.max_queued {
        if window_contains(m.window, s) {
            ReceiveOutcome {
                state: m,
                delivered: seq![],
                feedback: Option::Some(FeedbackModel::OutOfOrder(s)),
            }
        } else {
            ReceiveOutcome {
                state: ChannelModel {
                    expected: m.expected,
                    window: window_insert(m.window, s, payload),
                    max_queued: m.max_queued,
                    ack_pending: m.ack_pending,
                },
                delivered: seq![],
                feedback: Option::Some(FeedbackModel::OutOfOrder(s)),
            }
        }
    } else {
        ReceiveOutcome {
            state: m,
            delivered: seq![],
            feedback: Option::Some(FeedbackModel::OutOfOrder(m.expected)),
        }
    }
}

/// The logical sequence the channel reconstructs for a wire sequence.
pub open spec fn incoming_logical_sequence(m: ChannelModel, packet_sequence: u16) -> int {
    extended_sequence(packet_sequence, m.expected as u64, m.max_queued)
}

/// The mathematical window a vector of buffered packets stands for.
pub open spec fn window_view(entries: Seq<(u64, Vec<u8>)>) -> Seq<(int, Seq<u8>)> {
    entries.map_values(|entry: (u64, Vec<u8>)| (entry.0 as int, entry.1@))
}

/// The reliable receive channel: the next sequence to deliver, the buffered
/// out-of-order packets sorted by sequence, the window bound, and whether
/// an acknowledgement is waiting for the next tick.
pub struct ReceiveChannel {
    expected_sequence: u64,
    window: Vec<(u64, Vec<u8>)>,
    max_queued_reliable_data_packets: u16,
    ack_pending: bool,
}

impl View for ReceiveChannel {
    type V = ChannelModel;

    closed spec fn view(&self) -> ChannelModel {
        ChannelModel {
            expected: self.expected_sequence as int,
            window: window_view(self.window@),
            max_queued: self.max_queued_reliable_data_packets as int,
            ack_pending: self.ack_pending,
        }
    }
}

impl ReceiveChannel {
    /// Creates a channel expecting sequence zero. The window bound must be
    /// strictly below a half 16-bit block for the sequence extension to be
    /// unambiguous; that is guarded here, at construction.
    pub fn new(max_queued_reliable_data_packets: u16) -> (channel: ReceiveChannel)
        requires
            max_queued_reliable_data_packets < 0x8000,
        ensures
            channel@.wf(),
            channel@.expected == 0,
            channel@.window == Seq::<(int, Seq<u8>)>::empty(),
            channel@.max_queued == max_queued_reliable_data_packets as int,
            channel@.ack_pending == false,
    {
        let channel = ReceiveChannel {
            expected_sequence: 0,
            window: Vec::new(),
            max_queued_reliable_data_packets,
            ack_pending: false,
        };
        proof {
            assert(channel@.window =~= Seq::<(int, Seq<u8>)>::empty());
        }
        channel
    }

    /// The next sequence the channel will deliver; everything below it has
    /// been delivered.
    pub fn expected_sequence(&self) -> (sequence: u64)
        ensures
            sequence == self@.expected,
    {
        self.expected_sequence
    }

    /// Takes the coalesced acknowledgement scheduled by delivered packets,
    /// if one is pending: it carries the highest contiguously delivered
    /// sequence. At most one acknowledgement is emitted per delivered run.
    pub fn take_pending_ack(&mut self) -> (ack: Option<u64>)
        requires
            old(self)@.wf(),
        ensures
            final(self)@.wf(),
            final(self)@.expected == old(self)@.expected,
            final(self)@.window == old(self)@.window,
            final(self)@.max_queued == old(self)@.max_queued,
            final(self)@.ack_pending == false,
            old(self)@.ack_pending ==> ack == Option::Some((old(self)@.expected - 1) as u64),
            !old(self)@.ack_pending ==> ack == Option::<u64>::None,
    {
        if self.ack_pending {
            self.ack_pending = false;
            Option::Some(self.expected_sequence - 1)
        } else {
            Option::None
        }
    }

    /// Hands one reliable-data packet to the channel: its 16-bit wire
    /// sequence and its payload. Returns the payloads now deliverable to
    /// the application, in sequence order, and the feedback to send at
    /// once; delivery schedules a coalesced acknowledgement instead. The
    /// behaviour is exactly the channel transition on the reconstructed
    /// logical sequence.
    pub fn receive_data(&mut self, packet_sequence: u16, payload: Vec<u8>) -> (r: (
        Vec<Vec<u8>>,
        Option<ReceiveFeedback>,
    ))
        requires
            old(self)@.wf(),
            old(self)@.expected + 0x20000 <= u64::MAX,
        ensures
            final(self)@.wf(),
            ({
                let outcome = receive_transition(
                    old(self)@,
                    incoming_logical_sequence(old(self)@, packet_sequence),
                    payload@,
                );
                &&& final(self)@ == outcome.state
                &&& payloads_view(r.0@) == outcome.delivered
                &&& feedback_view(r.1) == outcome.feedback
            }),
    {
        let ghost m0 = self@;
        let ghost s_spec = incoming_logical_sequence(m0, packet_sequence);
        proof {
            lemma_receive_advances(m0, s_spec, payload@);
            let e = self.expected_sequence;
            assert((packet_sequence as u64) | (e & 0xFFFF_FFFF_FFFF_0000) == (e
                & 0xFFFF_FFFF_FFFF_0000) + packet_sequence) by (bit_vector);
            assert((e & 0xFFFF_FFFF_FFFF_0000) <= e) by (bit_vector);
        }
        let window_bound = self.max_queued_reliable_data_packets as u64;
        let candidate = (packet_sequence as u64) | (self.expected_sequence
            & 0xFFFF_FFFF_FFFF_0000);
        if candidate > self.expected_sequence.saturating_add(window_bound) && candidate < 0x10000 {
            // the candidate would be pushed a whole block before sequence
            // zero: the packet lies outside any representable window
            proof {
                assert(payloads_view(Seq::<Vec<u8>>::empty()) =~= Seq::<Seq<u8>>::empty());
            }
            return (Vec::new(), Option::Some(ReceiveFeedback::OutOfOrder(self.expected_sequence)));
        }
        let s = get_true_incoming_sequence(
            packet_sequence,
            self.expected_sequence,
            self.max_queued_reliable_data_packets as i16,
        );
        if s < self.expected_sequence {
            // already delivered: drop the duplicate, repeat the acknowledgement
            proof {
                assert(payloads_view(Seq::<Vec<u8>>::empty()) =~= Seq::<Seq<u8>>::empty());
            }
            (Vec::new(), Option::Some(ReceiveFeedback::Acknowledge(self.expected_sequence - 1)))
        } else if s == self.expected_sequence {
            // the expected packet: deliver it and the contiguous run behind it
            let ghost w0 = m0.window;
            let ghost e1 = m0.expected + 1;
            let mut delivered: Vec<Vec<u8>> = Vec::new();
            delivered.push(payload);
            self.expected_sequence = self.expected_sequence + 1;
            proof {
                assert(payloads_view(delivered@) =~= seq![payload@]);
                assert(seq![payload@] + drain(w0, e1).1 =~= payloads_view(delivered@) + drain(
                    self@.window,
                    self@.expected,
                ).1);
            }
            while self.window.len() > 0 && self.window[0].0 == self.expected_sequence
                invariant
                    self@.max_queued == m0.max_queued,
                    self@.ack_pending == m0.ack_pending,
                    m0.wf(),
                    m0.expected + 0x20000 <= u64::MAX,
                    window_sorted(self@.window),
                    forall|k: int|
                        0 <= k < self@.window.len() ==> self@.expected <= #[trigger] self@.window[k].0
                            <= m0.expected + m0.max_queued,
                    m0.expected + 1 <= self@.expected <= m0.expected + m0.max_queued + 1,
                    drain(w0, e1).0 == drain(self@.window, self@.expected).0,
                    drain(w0, e1).2 == drain(self@.window, self@.expected).2,
                    seq![payload@] + drain(w0, e1).1 == payloads_view(delivered@) + drain(
                        self@.window,
                        self@.expected,
                    ).1,
                decreases self@.window.len(),
            {
                let ghost wv_old = window_view(self.window@);
                let ghost e_old = self@.expected;
                let ghost d_old = delivered@;
                let entry = self.window.remove(0);
                delivered.push(entry.1);
                self.expected_sequence = self.expected_sequence + 1;
                proof {
                    assert(wv_old[0].0 == e_old);
                    assert(wv_old[0].1 == entry.1@);
                    assert(window_view(self.window@) =~= wv_old.drop_first());
                    assert(forall|k: int|
                        0 <= k < window_view(self.window@).len() ==> #[trigger] window_view(
                            self.window@,
                        )[k] == wv_old[k + 1]);
                    assert(payloads_view(delivered@) =~= payloads_view(d_old).push(entry.1@));
                    assert(payloads_view(d_old).push(entry.1@) + drain(
                        window_view(self.window@),
                        self@.expected,
                    ).1 =~= payloads_view(d_old) + (seq![entry.1@] + drain(
                        window_view(self.window@),
                        self@.expected,
                    ).1));
                }
            }
            self.ack_pending = true;
            proof {
                assert(payloads_view(delivered@) + Seq::<Seq<u8>>::empty() =~= payloads_view(
                    delivered@,
                ));
            }
            (delivered, Option::None)
        } else if s <= self.expected_sequence + window_bound {
            // within the window, ahead of a gap: buffer it, report out of order
            let ghost wv = m0.window;
            let mut idx: usize = 0;
            while idx < self.window.len() && self.window[idx].0 < s
                invariant
                    idx <= self.window@.len(),
                    self@ == m0,
                    forall|k: int| 0 <= k < idx ==> #[trigger] m0.window[k].0 < s,
                decreases self.window@.len() - idx,
            {
                proof {
                    assert(m0.window[idx as int].0 == self.window@[idx as int].0 as int);
                }
                idx += 1;
            }
            if idx < self.window.len() && self.window[idx].0 == s {
                // the very sequence is already buffered: drop the duplicate
                proof {
                    assert(window_contains(wv, s_spec)) by {
                        assert(wv[idx as int].0 == s_spec);
                    }
                    assert(payloads_view(Seq::<Vec<u8>>::empty()) =~= Seq::<Seq<u8>>::empty());
                }
                (Vec::new(), Option::Some(ReceiveFeedback::OutOfOrder(s)))
            } else {
                proof {
                    assert(!window_contains(wv, s_spec)) by {
                        assert(forall|k: int|
                            0 <= k < wv.len() && k > idx ==> #[trigger] wv[k].0 > wv[
                                idx as int].0);
                    }
                    lemma_insert_position_splits(wv, s_spec);
                    let position = insert_position(wv, s_spec);
                    if idx < position {
                        assert(wv[idx as int].0 < s_spec);
                        assert(false);
                    }
                    if position < idx {
                        assert(wv[position].0 < s_spec);
                        assert(false);
                    }
                }
                self.window.insert(idx, (s, payload));
                proof {
                    assert(window_view(self.window@) =~= window_insert(wv, s_spec, payload@));
                    assert(payloads_view(Seq::<Vec<u8>>::empty()) =~= Seq::<Seq<u8>>::empty());
                }
                (Vec::new(), Option::Some(ReceiveFeedback::OutOfOrder(s)))
            }
        } else {
            // beyond the window: drop it, point the peer at the gap
            proof {
                assert(payloads_view(Seq::<Vec<u8>>::empty()) =~= Seq::<Seq<u8>>::empty());
            }
            (Vec::new(), Option::Some(ReceiveFeedback::OutOfOrder(self.expected_sequence)))
        }
    }
}

/// The position returned by `insert_position` splits a window into the
/// entries below `s` and the rest.
proof fn lemma_insert_position_splits(window: Seq<(int, Seq<u8>)>, s: int)
    ensures
        0 <= insert_position(window, s) <= window.len(),
        forall|k: int| 0 <= k < insert_position(window, s) ==> window[k].0 < s,
        insert_position(window, s) < window.len() ==> window[insert_position(window, s)].0 >= s,
    decreases window.len(),
{
    if window.len() > 0 && window[0].0 < s {
        lemma_insert_position_splits(window.drop_first(), s);
        assert(forall|k: int|
            1 <= k < window.len() ==> #[trigger] window[k] == window.drop_first()[k - 1]);
    }
}

/// Inserting a fresh sequence into a sorted window keeps it sorted, keeps
/// every old entry, and adds exactly the new one.
proof fn lemma_window_insert(window: Seq<(int, Seq<u8>)>, s: int, payload: Seq<u8>)
    requires
        window_sorted(window),
        !window_contains(window, s),
    ensures
        window_sorted(window_insert(window, s, payload)),
        window_insert(window, s, payload).len() == window.len() + 1,
        window_contains(window_insert(window, s, payload), s),
{
    lemma_insert_position_splits(window, s);
    let position = insert_position(window, s);
    let inserted = window_insert(window, s, payload);
    assert(forall|k: int| 0 <= k < position ==> inserted[k] == window[k]);
    assert(inserted[position] == (s, payload));
    assert(forall|k: int| position < k < inserted.len() ==> inserted[k] == window[k - 1]);
    assert(position < window.len() ==> window[position].0 > s);
    assert forall|k1: int, k2: int| 0 <= k1 < k2 < inserted.len() implies inserted[k1].0
        < inserted[k2].0 by {
        if k1 == position {
            assert(window[k2 - 1].0 >= window[position].0);
        }
        if k2 == position && k1 < position {
            assert(window[k1].0 < s);
        }
    }
    assert(window_contains(inserted, s)) by {
        assert(inserted[position] == (s, payload));
    }
}

/// Draining a sorted window delivers one payload per sequence step, leaves
/// a sorted suffix of the window whose entries all lie beyond the new
/// expected sequence, and never moves the expected sequence backwards.
proof fn lemma_drain(window: Seq<(int, Seq<u8>)>, expected: int)
    requires
        window_sorted(window),
        forall|k: int| 0 <= k < window.len() ==> #[trigger] window[k].0 >= expected,
    ensures
        drain(window, expected).2 >= expected,
        drain(window, expected).1.len() == drain(window, expected).2 - expected,
        drain(window, expected).1.len() <= window.len(),
        drain(window, expected).0 == window.subrange(
            drain(window, expected).1.len() as int,
            window.len() as int,
        ),
        window_sorted(drain(window, expected).0),
        forall|k: int|
            0 <= k < drain(window, expected).0.len() ==> #[trigger] drain(window, expected).0[k].0
                > drain(window, expected).2,
    decreases window.len(),
{
    let d = drain(window, expected);
    if window.len() > 0 && window[0].0 == expected {
        assert(forall|k: int|
            1 <= k < window.len() ==> #[trigger] window[k] == window.drop_first()[k - 1]);
        assert(forall|k: int|
            0 <= k < window.drop_first().len() ==> #[trigger] window.drop_first()[k].0 >= expected
                + 1);
        lemma_drain(window.drop_first(), expected + 1);
        let rest = drain(window.drop_first(), expected + 1);
        assert forall|i: int| 0 <= i < rest.0.len() implies rest.0[i] == window[rest.1.len() + 1
            + i] by {
            assert(rest.0[i] == window.drop_first().subrange(
                rest.1.len() as int,
                window.drop_first().len() as int,
            )[i]);
        }
        assert(d.0 =~= window.subrange(d.1.len() as int, window.len() as int));
    } else {
        assert(d.0 =~= window.subrange(0, window.len() as int));
        if window.len() > 0 {
            assert(window[0].0 > expected);
            assert(forall|k: int| 0 < k < window.len() ==> #[trigger] window[k].0 > window[0].0);
        }
    }
}

/// One packet never moves the channel backwards: the state stays well
/// formed, the expected sequence never decreases, and exactly one payload
/// is delivered per sequence the expected sequence advances over.
pub proof fn lemma_receive_advances(m: ChannelModel, s: int, payload: Seq<u8>)
    requires
        m.wf(),
    ensures
        receive_transition(m, s, payload).state.wf(),
        receive_transition(m, s, payload).state.expected >= m.expected,
        receive_transition(m, s, payload).state.max_queued == m.max_queued,
        receive_transition(m, s, payload).delivered.len() == receive_transition(
            m,
            s,
            payload,
        ).state.expected - m.expected,
{
    let o = receive_transition(m, s, payload);
    if s == m.expected {
        assert(forall|k: int| 0 <= k < m.window.len() ==> #[trigger] m.window[k].0 >= m.expected
            + 1);
        lemma_drain(m.window, m.expected + 1);
        let d = drain(m.window, m.expected + 1);
        assert forall|k: int| 0 <= k < d.0.len() implies m.expected < #[trigger] d.0[k].0
            <= m.expected + m.max_queued by {
            assert(d.0[k] == m.window.subrange(d.1.len() as int, m.window.len() as int)[k]);
            assert(d.0[k] == m.window[k + d.1.len()]);
        }
    } else if m.expected < s <= m.expected + m.max_queued && !window_contains(m.window, s) {
        lemma_window_insert(m.window, s, payload);
        lemma_insert_position_splits(m.window, s);
        let position = insert_position(m.window, s);
        let inserted = window_insert(m.window, s, payload);
        assert forall|k: int| 0 <= k < inserted.len() implies m.expected < #[trigger] inserted[k].0
            <= m.expected + m.max_queued by {
            if k < position {
                assert(inserted[k] == m.window[k]);
            } else if k > position {
                assert(inserted[k] == m.window.subrange(position, m.window.len() as int)[k
                    - position - 1]);
                assert(inserted[k] == m.window[k - 1]);
            }
        }
    }
}

/// In a sorted window, sequences spread at least as fast as indices.
proof fn lemma_sorted_spread(window: Seq<(int, Seq<u8>)>, k1: int, k2: int)
    requires
        window_sorted(window),
        0 <= k1 <= k2 < window.len(),
    ensures
        window[k2].0 - window[k1].0 >= k2 - k1,
    decreases k2 - k1,
{
    if k1 < k2 {
        lemma_sorted_spread(window, k1, k2 - 1);
        assert(window[k2 - 1].0 < window[k2].0);
    }
}

/// A well-formed channel buffers at most `max_queued` packets: the
/// buffered sequences are distinct and confined to the window.
pub proof fn lemma_window_len_bound(m: ChannelModel)
    requires
        m.wf(),
    ensures
        m.window.len() <= m.max_queued,
{
    if m.window.len() > 0 {
        let last = m.window.len() - 1;
        lemma_sorted_spread(m.window, 0, last as int);
        assert(m.window[0].0 >= m.expected + 1);
        assert(m.window[last as int].0 <= m.expected + m.max_queued);
    }
}

/// True when the channel only holds data the peer actually sent: the
/// expected sequence has not run past the sent payloads, and every buffered
/// entry carries the payload sent under its sequence.
pub open spec fn channel_matches(m: ChannelModel, sent: Seq<Seq<u8>>) -> bool {
    &&& 0 <= m.expected <= sent.len()
    &&& forall|k: int|
        #![trigger m.window[k]]
        0 <= k < m.window.len() ==> 0 <= m.window[k].0 < sent.len() && m.window[k].1
            == sent[m.window[k].0]
}

/// Draining a window consistent with `sent` delivers exactly the sent
/// payloads of the drained sequence range, in order.
proof fn lemma_drain_matches(window: Seq<(int, Seq<u8>)>, expected: int, sent: Seq<Seq<u8>>)
    requires
        window_sorted(window),
        forall|k: int| 0 <= k < window.len() ==> #[trigger] window[k].0 >= expected,
        forall|k: int|
            #![trigger window[k]]
            0 <= k < window.len() ==> 0 <= window[k].0 < sent.len() && window[k].1
                == sent[window[k].0],
        0 <= expected <= sent.len(),
    ensures
        expected <= drain(window, expected).2 <= sent.len(),
        drain(window, expected).1 == sent.subrange(expected, drain(window, expected).2),
    decreases window.len(),
{
    let d = drain(window, expected);
    if window.len() > 0 && window[0].0 == expected {
        assert(forall|k: int|
            1 <= k < window.len() ==> #[trigger] window[k] == window.drop_first()[k - 1]);
        lemma_drain_matches(window.drop_first(), expected + 1, sent);
        assert(window[0].1 == sent[expected]);
        assert(d.1 =~= sent.subrange(expected, d.2));
    } else {
        assert(d.1 =~= sent.subrange(expected, expected));
    }
}

/// One consistent packet keeps the channel consistent, and what it delivers
/// is exactly the sent payload of each sequence the channel advances over.
pub proof fn lemma_receive_matches(m: ChannelModel, s: int, payload: Seq<u8>, sent: Seq<Seq<u8>>)
    requires
        m.wf(),
        channel_matches(m, sent),
        s < sent.len(),
        0 <= s ==> payload == sent[s],
    ensures
        channel_matches(receive_transition(m, s, payload).state, sent),
        receive_transition(m, s, payload).delivered == sent.subrange(
            m.expected,
            receive_transition(m, s, payload).state.expected,
        ),
{
    let o = receive_transition(m, s, payload);
    if s == m.expected {
        assert(forall|k: int| 0 <= k < m.window.len() ==> #[trigger] m.window[k].0 >= m.expected
            + 1);
        lemma_drain(m.window, m.expected + 1);
        lemma_drain_matches(m.window, m.expected + 1, sent);
        let d = drain(m.window, m.expected + 1);
        assert forall|k: int|
            #![trigger d.0[k]]
            0 <= k < d.0.len() implies 0 <= d.0[k].0 < sent.len() && d.0[k].1
            == sent[d.0[k].0] by {
            assert(d.0[k] == m.window.subrange(d.1.len() as int, m.window.len() as int)[k]);
            assert(d.0[k] == m.window[k + d.1.len()]);
        }
        assert(o.delivered =~= sent.subrange(m.expected, o.state.expected));
    } else if m.expected < s <= m.expected + m.max_queued && !window_contains(m.window, s) {
        lemma_window_insert(m.window, s, payload);
        lemma_insert_position_splits(m.window, s);
        let position = insert_position(m.window, s);
        let inserted = window_insert(m.window, s, payload);
        assert forall|k: int|
            #![trigger inserted[k]]
            0 <= k < inserted.len() implies 0 <= inserted[k].0 < sent.len() && inserted[k].1
            == sent[inserted[k].0] by {
            if k < position {
                assert(inserted[k] == m.window[k]);
            } else if k > position {
                assert(inserted[k] == m.window.subrange(position, m.window.len() as int)[k
                    - position - 1]);
                assert(inserted[k] == m.window[k - 1]);
            } else {
                assert(inserted[k] == (s, payload));
            }
        }
        assert(o.delivered =~= sent.subrange(m.expected, m.expected));
    } else {
        assert(o.delivered =~= sent.subrange(m.expected, m.expected));
    }
}

/// The outcome of feeding a whole stream of packets to a channel: the final
/// state, every payload delivered, and the logical sequence each delivered
/// payload was delivered under.
pub struct RunOutcome {
    pub state: ChannelModel,
    pub delivered: Seq<Seq<u8>>,
    pub sequences: Seq<int>,
}

/// Folds the receive transition over a stream of packets, each a logical
/// sequence with its payload, collecting the delivered payloads and their
/// sequences in delivery order.
pub open spec fn run_receive(m: ChannelModel, inputs: Seq<(int, Seq<u8>)>) -> RunOutcome
    decreases inputs.len(),
{
    if inputs.len() == 0 {
        RunOutcome { state: m, delivered: seq![], sequences: seq![] }
    } else {
        let o = receive_transition(m, inputs[0].0, inputs[0].1);
        let rest = run_receive(o.state, inputs.drop_first());
        RunOutcome {
            state: rest.state,
            delivered: o.delivered + rest.delivered,
            sequences: Seq::new(o.delivered.len(), |k: int| m.expected + k) + rest.sequences,
        }
    }
}

/// No duplicate delivery: over any stream of packets, the sequences the
/// channel delivers are strictly increasing, so each logical sequence is
/// delivered to the application at most once; they all lie between the
/// initial and the final expected sequence, and there are exactly as many
/// deliveries as sequences the channel advanced over.
pub proof fn lemma_no_duplicate_delivery(m: ChannelModel, inputs: Seq<(int, Seq<u8>)>)
    requires
        m.wf(),
    ensures
        run_receive(m, inputs).state.wf(),
        run_receive(m, inputs).state.expected >= m.expected,
        run_receive(m, inputs).sequences.len() == run_receive(m, inputs).delivered.len(),
        run_receive(m, inputs).delivered.len() == run_receive(m, inputs).state.expected
            - m.expected,
        forall|k1: int, k2: int|
            0 <= k1 < k2 < run_receive(m, inputs).sequences.len() ==> run_receive(
                m,
                inputs,
            ).sequences[k1] < run_receive(m, inputs).sequences[k2],
        forall|k: int|
            0 <= k < run_receive(m, inputs).sequences.len() ==> m.expected <= #[trigger] run_receive(
                m,
                inputs,
            ).sequences[k] < run_receive(m, inputs).state.expected,
    decreases inputs.len(),
{
    let r = run_receive(m, inputs);
    if inputs.len() > 0 {
        let o = receive_transition(m, inputs[0].0, inputs[0].1);
        lemma_receive_advances(m, inputs[0].0, inputs[0].1);
        lemma_no_duplicate_delivery(o.state, inputs.drop_first());
        let rest = run_receive(o.state, inputs.drop_first());
        let head = Seq::new(o.delivered.len(), |k: int| m.expected + k);
        assert(forall|k: int|
            0 <= k < r.sequences.len() ==> r.sequences[k] == if k < head.len() {
                head[k]
            } else {
                rest.sequences[k - head.len()]
            });
    }
}

/// Reliable delivery: feed a channel any stream of packets drawn from the
/// payload sequence a sender produced, in any order, with any duplication
/// and loss, and what it delivers is exactly the sent payload run from the
/// channel's starting sequence up to its final one, in order, with no gap,
/// duplicate, or foreign payload.
pub proof fn lemma_reliable_delivery(
    m: ChannelModel,
    inputs: Seq<(int, Seq<u8>)>,
    sent: Seq<Seq<u8>>,
)
    requires
        m.wf(),
        channel_matches(m, sent),
        forall|k: int|
            #![trigger inputs[k]]
            0 <= k < inputs.len() ==> inputs[k].0 < sent.len() && (0 <= inputs[k].0
                ==> inputs[k].1 == sent[inputs[k].0]),
    ensures
        channel_matches(run_receive(m, inputs).state, sent),
        run_receive(m, inputs).delivered == sent.subrange(
            m.expected,
            run_receive(m, inputs).state.expected,
        ),
    decreases inputs.len(),
{
    let r = run_receive(m, inputs);
    if inputs.len() == 0 {
        assert(r.delivered =~= sent.subrange(m.expected, m.expected));
    } else {
        let o = receive_transition(m, inputs[0].0, inputs[0].1);
        lemma_receive_advances(m, inputs[0].0, inputs[0].1);
        lemma_receive_matches(m, inputs[0].0, inputs[0].1, sent);
        assert(forall|k: int|
            0 <= k < inputs.drop_first().len() ==> #[trigger] inputs.drop_first()[k] == inputs[k
                + 1]);
        lemma_reliable_delivery(o.state, inputs.drop_first(), sent);
        let rest = run_receive(o.state, inputs.drop_first());
        lemma_no_duplicate_delivery(o.state, inputs.drop_first());
        assert(r.delivered =~= sent.subrange(m.expected, r.state.expected));
    }
}

/// A freshly created channel expecting sequence zero therefore delivers a
/// prefix of whatever the sender sent, in order and exactly once.
pub proof fn lemma_delivery_is_sent_prefix(
    max_queued: int,
    inputs: Seq<(int, Seq<u8>)>,
    sent: Seq<Seq<u8>>,
)
    requires
        0 <= max_queued < 0x8000,
        forall|k: int|
            #![trigger inputs[k]]
            0 <= k < inputs.len() ==> inputs[k].0 < sent.len() && (0 <= inputs[k].0
                ==> inputs[k].1 == sent[inputs[k].0]),
    ensures
        ({
            let fresh = (ChannelModel {
                expected: 0,
                window: seq![],
                max_queued: max_queued,
                ack_pending: false,
            });
            run_receive(fresh, inputs).delivered == sent.subrange(
                0,
                run_receive(fresh, inputs).state.expected,
            )
        }),
{
    let fresh = ChannelModel {
        expected: 0,
        window: seq![],
        max_queued: max_queued,
        ack_pending: false,
    };
    lemma_reliable_delivery(fresh, inputs, sent);
}

} // verus!
