//! The reliable send channel: numbers outgoing payloads, keeps them until
//! they are acknowledged, retransmits on peer feedback or timeout within a
//! bounded send window, and signals a dead peer when retries are
//! exhausted.

use vstd::prelude::*;

verus! {

broadcast use vstd::std_specs::vec::axiom_spec_len;

/// The errors of the send side.
#[derive(Clone, Copy, Debug, PartialEq, Eq, Structural)]
pub enum SendError {
    /// The send window is full; the submission is refused, recoverable.
    Backpressure,
}

/// One payload in flight: its logical sequence, its bytes, when it was
/// last sent, and how often it was retransmitted.
pub struct SendEntry {
    pub sequence: u64,
    pub payload: Vec<u8>,
    pub send_time: u64,
    pub retries: u32,
}

/// The mathematical value of one in-flight entry.
pub struct SendEntryModel {
    pub sequence: int,
    pub payload: Seq<u8>,
    pub send_time: int,
    pub retries: int,
}

impl View for SendEntry {
    type V = SendEntryModel;

    open spec fn view(&self) -> SendEntryModel {
        SendEntryModel {
            sequence: self.sequence as int,
            payload: self.payload@,
            send_time: self.send_time as int,
            retries: self.retries as int,
        }
    }
}

/// The mathematical entries a vector of in-flight entries stands for.
pub open spec fn entries_view(entries: Seq<SendEntry>) -> Seq<SendEntryModel> {
    entries.map_values(|entry: SendEntry| entry@)
}

/// An in-flight entry as retransmission leaves it: sent now, its retry
/// count bumped, saturating at the register limit.
pub open spec fn bumped_entry(entry: SendEntryModel, now: int) -> SendEntryModel {
    SendEntryModel {
        sequence: entry.sequence,
        payload: entry.payload,
        send_time: now,
        retries: if entry.retries < u32::MAX {
            entry.retries + 1
        } else {
            entry.retries
        },
    }
}

/// The mathematical state of a send channel: the next sequence to assign,
/// the unacknowledged entries in sending order, and the window limit.
pub struct SendChannelModel {
    pub next_sequence: int,
    pub unacked: Seq<SendEntryModel>,
    pub limit: int,
}

impl SendChannelModel {
    /// Well-formedness: the window limit is strictly below a half 16-bit
    /// block, and the in-flight entries carry strictly increasing
    /// sequences, all below the next one to assign.
    pub open spec fn wf(self) -> bool {
        &&& 0 <= self.limit < 0x8000
        &&& 0 <= self.next_sequence
        &&& forall|k1: int, k2: int|
            0 <= k1 < k2 < self.unacked.len() ==> self.unacked[k1].sequence
                < self.unacked[k2].sequence
        &&& forall|k: int|
            0 <= k < self.unacked.len() ==> 0 <= #[trigger] self.unacked[k].sequence
                < self.next_sequence
        &&& self.unacked.len() <= self.limit
    }
}

/// The reliable send channel.
pub struct SendChannel {
    next_sequence: u64,
    unacked: Vec<SendEntry>,
    send_window_limit: u16,
}

impl View for SendChannel {
    type V = SendChannelModel;

    closed spec fn view(&self) -> SendChannelModel {
        SendChannelModel {
            next_sequence: self.next_sequence as int,
            unacked: entries_view(self.unacked@),
            limit: self.send_window_limit as int,
        }
    }
}

impl SendChannel {
    /// Creates a send channel assigning sequences from zero, with a send
    /// window of at most `send_window_limit` packets in flight.
    pub fn new(send_window_limit: u16) -> (channel: SendChannel)
        requires
            send_window_limit < 0x8000,
        ensures
            channel@.wf(),
            channel@.next_sequence == 0,
            channel@.unacked == Seq::<SendEntryModel>::empty(),
            channel@.limit == send_window_limit as int,
    {
        let channel = SendChannel {
            next_sequence: 0,
            unacked: Vec::new(),
            send_window_limit,
        };
        proof {
            assert(channel@.unacked =~= Seq::<SendEntryModel>::empty());
        }
        channel
    }

    /// How many payloads are waiting for an acknowledgement.
    pub fn in_flight(&self) -> (count: usize)
        ensures
            count == self@.unacked.len(),
    {
        self.unacked.len()
    }

    /// The sequence the next submission will be assigned.
    pub fn next_sequence(&self) -> (sequence: u64)
        ensures
            sequence == self@.next_sequence,
    {
        self.next_sequence
    }

    /// Numbers and enqueues one outgoing payload, returning its sequence;
    /// refuses with `Backpressure` when the window limit is reached.
    pub fn submit(&mut self, payload: Vec<u8>, now: u64) -> (r: Result<u64, SendError>)
        requires
            old(self)@.wf(),
            old(self)@.next_sequence + 1 <= u64::MAX,
        ensures
            final(self)@.wf(),
            final(self)@.limit == old(self)@.limit,
            old(self)@.unacked.len() >= old(self)@.limit ==> r == Result::<u64, SendError>::Err(
                SendError::Backpressure,
            ) && final(self)@ == old(self)@,
            old(self)@.unacked.len() < old(self)@.limit ==> r == Result::<u64, SendError>::Ok(
                (old(self)@.next_sequence as u64),
            ) && final(self)@.next_sequence == old(self)@.next_sequence + 1
                && final(self)@.unacked == old(self)@.unacked.push(
                (SendEntryModel {
                    sequence: old(self)@.next_sequence,
                    payload: payload@,
                    send_time: now as int,
                    retries: 0,
                }),
            ),
    {
        if self.unacked.len() >= self.send_window_limit as usize {
            return Result::Err(SendError::Backpressure);
        }
        let sequence = self.next_sequence;
        let entry = SendEntry { sequence, payload, send_time: now, retries: 0 };
        self.unacked.push(entry);
        self.next_sequence = self.next_sequence + 1;
        proof {
            assert(self@.unacked =~= old(self)@.unacked.push(
                (SendEntryModel {
                    sequence: old(self)@.next_sequence,
                    payload: payload@,
                    send_time: now as int,
                    retries: 0,
                }),
            ));
        }
        Result::Ok(sequence)
    }

    /// Handles an acknowledgement as a high-water mark: every in-flight
    /// entry with a sequence up to and including the acknowledged one is
    /// removed, exactly once, and the rest stay.
    pub fn acknowledge(&mut self, sequence: u64)
        requires
            old(self)@.wf(),
        ensures
            final(self)@.wf(),
            final(self)@.next_sequence == old(self)@.next_sequence,
            final(self)@.limit == old(self)@.limit,
            final(self)@.unacked.len() <= old(self)@.unacked.len(),
            final(self)@.unacked == old(self)@.unacked.subrange(
                old(self)@.unacked.len() - final(self)@.unacked.len(),
                old(self)@.unacked.len() as int,
            ),
            forall|i: int|
                0 <= i < old(self)@.unacked.len() - final(self)@.unacked.len()
                    ==> old(self)@.unacked[i].sequence <= sequence,
            forall|i: int|
                0 <= i < final(self)@.unacked.len()
                    ==> #[trigger] final(self)@.unacked[i].sequence > sequence,
    {
        let ghost m0 = self@;
        while self.unacked.len() > 0 && self.unacked[0].sequence <= sequence
            invariant
                m0.wf(),
                self@.next_sequence == m0.next_sequence,
                self@.limit == m0.limit,
                self@.unacked.len() <= m0.unacked.len(),
                self@.unacked == m0.unacked.subrange(
                    m0.unacked.len() - self@.unacked.len(),
                    m0.unacked.len() as int,
                ),
                forall|i: int|
                    0 <= i < m0.unacked.len() - self@.unacked.len() ==> m0.unacked[i].sequence
                        <= sequence,
            decreases self.unacked.len(),
        {
            let ghost before = self@.unacked;
            let ghost dropped_before = m0.unacked.len() - before.len();
            proof {
                assert(before[0] == m0.unacked[dropped_before]);
                assert(before[0].sequence <= sequence);
            }
            let _ = self.unacked.remove(0);
            proof {
                assert(self@.unacked =~= before.drop_first());
                assert(self@.unacked =~= m0.unacked.subrange(
                    m0.unacked.len() - self@.unacked.len(),
                    m0.unacked.len() as int,
                ));
            }
        }
        proof {
            let kept = self@.unacked.len();
            let dropped = m0.unacked.len() - kept;
            if kept > 0 {
                assert(self@.unacked[0] == m0.unacked[dropped]);
                assert forall|i: int| 0 <= i < kept implies #[trigger] self@.unacked[i].sequence
                    > sequence by {
                    assert(self@.unacked[i] == m0.unacked[dropped + i]);
                    assert(m0.unacked[dropped].sequence <= m0.unacked[dropped + i].sequence);
                }
            }
        }
    }

    /// Handles an out-of-order report: every in-flight entry with a
    /// sequence at or above the reported one is to be retransmitted now;
    /// its retry count is bumped (saturating at the register limit) and
    /// its send time reset. Returns the sequences to retransmit, in order.
    pub fn on_out_of_order(&mut self, sequence: u64, now: u64) -> (retransmit: Vec<u64>)
        requires
            old(self)@.wf(),
        ensures
            final(self)@.wf(),
            final(self)@.next_sequence == old(self)@.next_sequence,
            final(self)@.limit == old(self)@.limit,
            final(self)@.unacked.len() == old(self)@.unacked.len(),
            retransmit@.len() <= old(self)@.unacked.len(),
            ({
                let first = old(self)@.unacked.len() - retransmit@.len();
                &&& forall|i: int|
                    0 <= i < first ==> old(self)@.unacked[i].sequence < sequence
                        && final(self)@.unacked[i] == old(self)@.unacked[i]
                &&& forall|i: int|
                    first <= i < old(self)@.unacked.len() ==> old(self)@.unacked[i].sequence
                        >= sequence && #[trigger] final(self)@.unacked[i] == bumped_entry(
                        old(self)@.unacked[i],
                        now as int,
                    ) && retransmit@[i - first] == old(self)@.unacked[i].sequence
            }),
    {
        let ghost m0 = self@;
        let mut idx: usize = 0;
        while idx < self.unacked.len() && self.unacked[idx].sequence < sequence
            invariant
                idx <= self.unacked@.len(),
                self@ == m0,
                forall|i: int| 0 <= i < idx ==> #[trigger] m0.unacked[i].sequence < sequence,
            decreases self.unacked@.len() - idx,
        {
            proof {
                assert(m0.unacked[idx as int].sequence == self.unacked@[idx as int].sequence
                    as int);
            }
            idx += 1;
        }
        let ghost first = idx as int;
        proof {
            assert forall|i: int| first <= i < m0.unacked.len() implies m0.unacked[i].sequence
                >= sequence by {
                if first < m0.unacked.len() {
                    assert(m0.unacked[first].sequence >= sequence);
                    if i > first {
                        assert(m0.unacked[first].sequence < m0.unacked[i].sequence);
                    }
                }
            }
        }
        let mut retransmit: Vec<u64> = Vec::new();
        while idx < self.unacked.len()
            invariant
                0 <= first <= idx <= self.unacked@.len(),
                self@.next_sequence == m0.next_sequence,
                self@.limit == m0.limit,
                self@.unacked.len() == m0.unacked.len(),
                retransmit@.len() == idx - first,
                forall|i: int| 0 <= i < first || idx <= i < m0.unacked.len()
                    ==> #[trigger] self@.unacked[i] == m0.unacked[i],
                forall|i: int|
                    first <= i < idx ==> #[trigger] self@.unacked[i] == bumped_entry(
                        m0.unacked[i],
                        now as int,
                    ) && retransmit@[i - first] == m0.unacked[i].sequence,
            decreases self.unacked@.len() - idx,
        {
            let ghost unacked_before = self.unacked@;
            let entry = vstd::std_specs::vec::vec_index_mut(&mut self.unacked, idx);
            let entry_sequence = entry.sequence;
            entry.send_time = now;
            if entry.retries < u32::MAX {
                entry.retries = entry.retries + 1;
            }
            retransmit.push(entry_sequence);
            proof {
                assert(forall|i: int|
                    0 <= i < self.unacked@.len() && i != idx ==> #[trigger] self.unacked@[i]
                        == unacked_before[i]);
                assert(forall|i: int|
                    0 <= i < self.unacked@.len() && i != idx ==> #[trigger] entries_view(
                        self.unacked@,
                    )[i] == entries_view(unacked_before)[i]);
                assert(self.unacked@[idx as int].sequence == unacked_before[idx as int].sequence);
                assert(self.unacked@[idx as int].payload == unacked_before[idx as int].payload);
                assert(self.unacked@[idx as int].send_time == now);
                assert(entries_view(self.unacked@)[idx as int] == bumped_entry(
                    entries_view(unacked_before)[idx as int],
                    now as int,
                ));
                assert(entry_sequence as int == entries_view(unacked_before)[
                    idx as int].sequence);
                assert(entries_view(unacked_before)[idx as int] == m0.unacked[idx as int]);
            }
            let ghost j = idx as int;
            idx += 1;
            proof {
                assert forall|i: int| 0 <= i < first || idx <= i < m0.unacked.len() implies
                    #[trigger] self@.unacked[i] == m0.unacked[i] by {
                    assert(self.unacked@[i] == unacked_before[i]);
                    assert(entries_view(self.unacked@)[i] == self.unacked@[i]@);
                    assert(entries_view(unacked_before)[i] == unacked_before[i]@);
                }
                assert forall|i: int| first <= i < idx implies #[trigger] self@.unacked[i]
                    == bumped_entry(m0.unacked[i], now as int) && retransmit@[i - first]
                    == m0.unacked[i].sequence by {
                    if i < j {
                        assert(self.unacked@[i] == unacked_before[i]);
                        assert(entries_view(self.unacked@)[i] == self.unacked@[i]@);
                        assert(entries_view(unacked_before)[i] == unacked_before[i]@);
                    }
                }
            }
        }
        proof {
            assert(forall|i: int|
                0 <= i < self@.unacked.len() ==> #[trigger] self@.unacked[i].sequence
                    == m0.unacked[i].sequence);
        }
        retransmit
    }

    /// Drives retransmission timers: every in-flight entry last sent `rto`
    /// or more ago is to be retransmitted now, its retry count bumped
    /// (saturating at the register limit) and its send time reset. Returns
    /// the sequences to retransmit, in order, and whether any entry's
    /// retries now exceed `max_retries`: then the peer is dead and the
    /// session must be torn down.
    pub fn tick(&mut self, now: u64, rto: u64, max_retries: u32) -> (r: (Vec<u64>, bool))
        requires
            old(self)@.wf(),
        ensures
            final(self)@.wf(),
            final(self)@.next_sequence == old(self)@.next_sequence,
            final(self)@.limit == old(self)@.limit,
            final(self)@.unacked.len() == old(self)@.unacked.len(),
            forall|i: int|
                0 <= i < old(self)@.unacked.len() ==> #[trigger] final(self)@.unacked[i] == (
                if old(self)@.unacked[i].send_time + rto <= now {
                    bumped_entry(old(self)@.unacked[i], now as int)
                } else {
                    old(self)@.unacked[i]
                }),
            r.0@.map_values(|s: u64| s as int) == stale_sequences(
                old(self)@.unacked,
                now as int,
                rto as int,
            ),
            r.1 <==> exists|i: int|
                0 <= i < final(self)@.unacked.len() && #[trigger] final(self)@.unacked[i].retries
                    > max_retries,
    {
        let ghost m0 = self@;
        let mut retransmit: Vec<u64> = Vec::new();
        let mut dead_peer = false;
        let mut idx: usize = 0;
        proof {
            assert(retransmit@.map_values(|s: u64| s as int) =~= stale_sequences(
                m0.unacked.subrange(0, 0),
                now as int,
                rto as int,
            ));
        }
        while idx < self.unacked.len()
            invariant
                idx <= self.unacked@.len(),
                self@.next_sequence == m0.next_sequence,
                self@.limit == m0.limit,
                self@.unacked.len() == m0.unacked.len(),
                forall|i: int|
                    0 <= i < idx ==> #[trigger] self@.unacked[i] == (
                    if m0.unacked[i].send_time + rto <= now {
                        bumped_entry(m0.unacked[i], now as int)
                    } else {
                        m0.unacked[i]
                    }),
                forall|i: int| idx <= i < m0.unacked.len() ==> #[trigger] self@.unacked[i]
                    == m0.unacked[i],
                retransmit@.map_values(|s: u64| s as int) == stale_sequences(
                    m0.unacked.subrange(0, idx as int),
                    now as int,
                    rto as int,
                ),
                dead_peer <==> exists|i: int|
                    0 <= i < idx && #[trigger] self@.unacked[i].retries > max_retries,
            decreases self.unacked@.len() - idx,
        {
            let ghost unacked_before = self.unacked@;
            let ghost retransmit_before = retransmit@;
            let ghost dead_before = dead_peer;
            let entry = vstd::std_specs::vec::vec_index_mut(&mut self.unacked, idx);
            let stale = now >= rto && entry.send_time <= now - rto;
            let entry_sequence = entry.sequence;
            if stale {
                entry.send_time = now;
                if entry.retries < u32::MAX {
                    entry.retries = entry.retries + 1;
                }
            }
            let bumped_retries = entry.retries;
            if stale {
                retransmit.push(entry_sequence);
            }
            if bumped_retries > max_retries {
                dead_peer = true;
            }
            proof {
                let j = idx as int;
                assert(entries_view(unacked_before)[j] == m0.unacked[j]);
                assert(stale <==> m0.unacked[j].send_time + rto <= now);
                assert forall|i: int| 0 <= i < m0.unacked.len() && i != j implies #[trigger] self@.unacked[i]
                    == entries_view(unacked_before)[i] by {
                    assert(self.unacked@[i] == unacked_before[i]);
                    assert(entries_view(self.unacked@)[i] == self.unacked@[i]@);
                    assert(entries_view(unacked_before)[i] == unacked_before[i]@);
                }
                if stale {
                    assert(self@.unacked[j] == bumped_entry(m0.unacked[j], now as int));
                } else {
                    assert(self@.unacked[j] == m0.unacked[j]);
                }
                assert(self@.unacked[j].retries == bumped_retries);
                lemma_stale_sequences_push(
                    m0.unacked.subrange(0, j),
                    m0.unacked[j],
                    now as int,
                    rto as int,
                );
                assert(m0.unacked.subrange(0, j).push(m0.unacked[j]) =~= m0.unacked.subrange(
                    0,
                    j + 1,
                ));
                if stale {
                    assert(retransmit@.map_values(|s: u64| s as int) =~= retransmit_before
                        .map_values(|s: u64| s as int).push(entry_sequence as int));
                } else {
                    assert(stale_sequences(m0.unacked.subrange(0, j + 1), now as int, rto as int)
                        =~= stale_sequences(m0.unacked.subrange(0, j), now as int, rto as int));
                }
                if dead_peer {
                    if dead_before {
                        let w = choose|i: int|
                            0 <= i < j && entries_view(unacked_before)[i].retries > max_retries;
                        assert(self@.unacked[w].retries > max_retries);
                    } else {
                        assert(self@.unacked[j].retries > max_retries);
                    }
                } else {
                    assert forall|i: int| 0 <= i <= j implies !(#[trigger] self@.unacked[i].retries
                        > max_retries) by {
                        if i < j {
                            assert(self@.unacked[i] == entries_view(unacked_before)[i]);
                        }
                    }
                }
            }
            idx += 1;
        }
        proof {
            assert(m0.unacked.subrange(0, m0.unacked.len() as int) =~= m0.unacked);
        }
        (retransmit, dead_peer)
    }
}

/// Appending an entry to a window appends its sequence to the stale list
/// exactly when its last send is at least `rto` old.
proof fn lemma_stale_sequences_push(
    entries: Seq<SendEntryModel>,
    entry: SendEntryModel,
    now: int,
    rto: int,
)
    ensures
        stale_sequences(entries.push(entry), now, rto) == if entry.send_time + rto <= now {
            stale_sequences(entries, now, rto).push(entry.sequence)
        } else {
            stale_sequences(entries, now, rto)
        },
    decreases entries.len(),
{
    let whole = entries.push(entry);
    assert(stale_sequences(whole, now, rto) == if whole[0].send_time + rto <= now {
        seq![whole[0].sequence] + stale_sequences(whole.drop_first(), now, rto)
    } else {
        stale_sequences(whole.drop_first(), now, rto)
    });
    if entries.len() == 0 {
        assert(whole[0] == entry);
        assert(whole.drop_first() =~= Seq::<SendEntryModel>::empty());
        assert(stale_sequences(whole.drop_first(), now, rto) == Seq::<int>::empty());
        if entry.send_time + rto <= now {
            assert(stale_sequences(whole, now, rto) =~= stale_sequences(entries, now, rto).push(
                entry.sequence,
            ));
        }
    } else {
        lemma_stale_sequences_push(entries.drop_first(), entry, now, rto);
        assert(whole[0] == entries[0]);
        assert(whole.drop_first() =~= entries.drop_first().push(entry));
        if entry.send_time + rto <= now {
            assert(stale_sequences(whole, now, rto) =~= stale_sequences(entries, now, rto).push(
                entry.sequence,
            ));
        } else {
            assert(stale_sequences(whole, now, rto) =~= stale_sequences(entries, now, rto));
        }
    }
}

/// The sequences of the in-flight entries whose last send is at least
/// `rto` old, in window order.
pub open spec fn stale_sequences(entries: Seq<SendEntryModel>, now: int, rto: int) -> Seq<int>
    decreases entries.len(),
{
    if entries.len() == 0 {
        seq![]
    } else {
        let rest = stale_sequences(entries.drop_first(), now, rto);
        if entries[0].send_time + rto <= now {
            seq![entries[0].sequence] + rest
        } else {
            rest
        }
    }
}

} // verus!
