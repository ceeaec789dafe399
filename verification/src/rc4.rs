//! The RC4 keystream cipher that obfuscates reliable payloads. The cipher is
//! a seedable keystream generator; transforming a buffer XORs each of its
//! bytes with the next keystream byte. It is obfuscation only, not a
//! security boundary.

use vstd::prelude::*;
use vstd::arithmetic::div_mod::lemma_add_mod_noop;
use vstd::arithmetic::div_mod::lemma_mod_self_0;
use vstd::arithmetic::div_mod::lemma_small_mod;

verus! {

broadcast use vstd::std_specs::vec::axiom_spec_len;

/// The mathematical cipher state: the two indices and the 256-entry state
/// table, which the key schedule makes a permutation of the byte values.
pub struct Rc4Model {
    pub i: u8,
    pub j: u8,
    pub s: Seq<u8>,
}

/// The identity state table the key schedule starts from.
pub open spec fn ksa_initial() -> Seq<u8> {
    Seq::new(256, |k: int| k as u8)
}

/// One round of the key-scheduling algorithm: fold the next key byte into
/// the running index and swap the round's entry with the indexed one.
pub open spec fn ksa_round(s: Seq<u8>, j: int, key: Seq<u8>, round: int) -> (Seq<u8>, int) {
    let j2 = (j + s[round] + key[round % (key.len() as int)]) % 256;
    (s.update(round, s[j2]).update(j2, s[round]), j2)
}

/// The state table and running index after the first `n` rounds of the
/// key-scheduling algorithm.
pub open spec fn ksa(key: Seq<u8>, n: nat) -> (Seq<u8>, int)
    decreases n,
{
    if n == 0 {
        (ksa_initial(), 0)
    } else {
        let prev = ksa(key, (n - 1) as nat);
        ksa_round(prev.0, prev.1, key, n - 1)
    }
}

/// The state table seeded from `key` by the full 256-round key schedule.
pub open spec fn key_schedule(key: Seq<u8>) -> Seq<u8> {
    ksa(key, 256).0
}

/// The cipher state after one keystream step: both indices advance, the
/// entries they name are swapped.
pub open spec fn rc4_step(m: Rc4Model) -> Rc4Model {
    let i = ((m.i + 1) % 256) as u8;
    let j = ((m.j + m.s[i as int]) % 256) as u8;
    Rc4Model { i, j, s: m.s.update(i as int, m.s[j as int]).update(j as int, m.s[i as int]) }
}

/// The keystream byte one step produces: the entry named by the sum of the
/// two freshly swapped entries.
pub open spec fn rc4_output(m: Rc4Model) -> u8 {
    let next = rc4_step(m);
    next.s[((next.s[next.i as int] + next.s[next.j as int]) % 256) as int]
}

/// The cipher state after `n` keystream steps.
pub open spec fn rc4_after(m: Rc4Model, n: nat) -> Rc4Model
    decreases n,
{
    if n == 0 {
        m
    } else {
        rc4_step(rc4_after(m, (n - 1) as nat))
    }
}

/// The `n`-th keystream byte drawn from state `m`.
pub open spec fn keystream_byte(m: Rc4Model, n: nat) -> u8 {
    rc4_output(rc4_after(m, n))
}

/// `data` XOR-ed with the keystream drawn from state `m`.
pub open spec fn rc4_apply(m: Rc4Model, data: Seq<u8>) -> Seq<u8> {
    Seq::new(data.len(), |k: int| data[k] ^ keystream_byte(m, k as nat))
}

/// The cipher state freshly seeded from `key`.
pub open spec fn rc4_seeded(key: Seq<u8>) -> Rc4Model {
    Rc4Model { i: 0, j: 0, s: key_schedule(key) }
}

/// The RC4 cipher: a state table of the 256 byte values and two indices.
pub struct Rc4 {
    index_1: u8,
    index_2: u8,
    state: Vec<u8>,
}

impl View for Rc4 {
    type V = Rc4Model;

    closed spec fn view(&self) -> Rc4Model {
        Rc4Model { i: self.index_1, j: self.index_2, s: self.state@ }
    }
}

impl Rc4 {
    /// A cipher state is well formed when its table has an entry for every
    /// byte value.
    pub open spec fn wf(self) -> bool {
        self@.s.len() == 256
    }

    /// Seeds a cipher from a key of 1 to 256 bytes by the standard key
    /// schedule.
    pub fn new(key: &[u8]) -> (rc4: Rc4)
        requires
            1 <= key@.len() <= 256,
        ensures
            rc4.wf(),
            rc4@ == rc4_seeded(key@),
    {
        let mut state: Vec<u8> = Vec::new();
        let mut i: usize = 0;
        while i < 256
            invariant
                i <= 256,
                state@.len() == i,
                forall|k: int| 0 <= k < i ==> state@[k] == k as u8,
            decreases 256 - i,
        {
            state.push(i as u8);
            i += 1;
        }
        proof {
            assert(state@ =~= ksa_initial());
        }
        let mut rc4 = Rc4 { index_1: 0, index_2: 0, state };

        let mut swap_index_1: usize = 0;
        let mut swap_index_2: usize = 0;
        i = 0;
        while i < 256
            invariant
                i <= 256,
                1 <= key@.len() <= 256,
                rc4.state@.len() == 256,
                swap_index_1 == i as int % (key@.len() as int),
                0 <= swap_index_2 < 256,
                (rc4.state@, swap_index_2 as int) == ksa(key@, i as nat),
            decreases 256 - i,
        {
            swap_index_2 = (swap_index_2 + rc4.state[i] as usize + key[swap_index_1] as usize)
                % 256;
            let a = rc4.state[i];
            let b = rc4.state[swap_index_2];
            rc4.state[i] = b;
            rc4.state[swap_index_2] = a;
            proof {
                assert((rc4.state@, swap_index_2 as int) == ksa(key@, (i + 1) as nat));
                lemma_add_mod_noop(i as int, 1, key@.len() as int);
                lemma_mod_self_0(key@.len() as int);
                if swap_index_1 + 1 < key@.len() {
                    lemma_small_mod((swap_index_1 + 1) as nat, key@.len() as nat);
                }
                if key@.len() > 1 {
                    lemma_small_mod(1, key@.len() as nat);
                } else {
                    lemma_small_mod(0, 1);
                }
            }
            swap_index_1 = (swap_index_1 + 1) % key.len();
            i += 1;
        }
        rc4.index_1 = 0;
        rc4.index_2 = 0;
        rc4
    }

    /// Draws the next keystream byte, advancing the cipher state one step.
    pub fn next(&mut self) -> (r: u8)
        requires
            old(self).wf(),
        ensures
            final(self).wf(),
            final(self)@ == rc4_step(old(self)@),
            r == rc4_output(old(self)@),
    {
        self.index_1 = self.index_1.wrapping_add(1);
        let i = self.index_1 as usize;
        self.index_2 = self.index_2.wrapping_add(self.state[i]);
        let j = self.index_2 as usize;
        let a = self.state[i];
        let b = self.state[j];
        self.state[i] = b;
        self.state[j] = a;
        let index = b.wrapping_add(a) as usize;
        self.state[index]
    }

    /// Transforms the buffer in place, XOR-ing each byte with the next
    /// keystream byte. The stream has no block boundary: transforming two
    /// buffers in turn produces the same bytes as transforming their
    /// concatenation.
    pub fn transform(&mut self, buffer: &mut Vec<u8>)
        requires
            old(self).wf(),
        ensures
            final(self).wf(),
            final(self)@ == rc4_after(old(self)@, old(buffer)@.len()),
            final(buffer)@ == rc4_apply(old(self)@, old(buffer)@),
    {
        let mut k: usize = 0;
        while k < buffer.len()
            invariant
                old(self).wf(),
                self.wf(),
                k <= buffer@.len(),
                buffer@.len() == old(buffer)@.len(),
                self@ == rc4_after(old(self)@, k as nat),
                forall|x: int|
                    0 <= x < k ==> buffer@[x] == old(buffer)@[x] ^ keystream_byte(
                        old(self)@,
                        x as nat,
                    ),
                forall|x: int| k <= x < buffer@.len() ==> buffer@[x] == old(buffer)@[x],
            decreases buffer@.len() - k,
        {
            let key_byte = self.next();
            buffer[k] = buffer[k] ^ key_byte;
            k += 1;
        }
        proof {
            assert(buffer@ =~= rc4_apply(old(self)@, old(buffer)@));
        }
    }
}

/// Drawing keystream in two runs lands in the same state as one run of
/// their combined length.
proof fn lemma_rc4_after_additive(m: Rc4Model, n1: nat, n2: nat)
    ensures
        rc4_after(m, n1 + n2) == rc4_after(rc4_after(m, n1), n2),
    decreases n2,
{
    if n2 > 0 {
        lemma_rc4_after_additive(m, n1, (n2 - 1) as nat);
    }
}

/// The keystream has no block boundary: transforming two buffers in turn
/// produces the same bytes as transforming their concatenation.
pub proof fn lemma_transform_concatenation(m: Rc4Model, a: Seq<u8>, b: Seq<u8>)
    ensures
        rc4_apply(m, a + b) == rc4_apply(m, a) + rc4_apply(rc4_after(m, a.len()), b),
{
    let joined = rc4_apply(m, a + b);
    let split = rc4_apply(m, a) + rc4_apply(rc4_after(m, a.len()), b);
    assert forall|k: int| 0 <= k < joined.len() implies joined[k] == split[k] by {
        if k >= a.len() {
            lemma_rc4_after_additive(m, a.len(), (k - a.len()) as nat);
        }
    }
    assert(joined =~= split);
}

/// True when some entry of the state table holds the value.
pub open spec fn state_has_value(s: Seq<u8>, v: u8) -> bool {
    exists|i: int| 0 <= i < 256 && #[trigger] s[i] == v
}

/// True of a state table that is a permutation of the 256 byte values:
/// every value appears at some index.
pub open spec fn is_state_permutation(s: Seq<u8>) -> bool {
    s.len() == 256 && forall|v: u8| state_has_value(s, v)
}

/// Swapping two entries of a permutation leaves a permutation.
proof fn lemma_swap_preserves_permutation(s: Seq<u8>, a: int, b: int)
    requires
        is_state_permutation(s),
        0 <= a < 256,
        0 <= b < 256,
    ensures
        is_state_permutation(s.update(a, s[b]).update(b, s[a])),
{
    let t = s.update(a, s[b]).update(b, s[a]);
    assert forall|v: u8| state_has_value(t, v) by {
        assert(state_has_value(s, v));
        let j = choose|i: int| 0 <= i < 256 && #[trigger] s[i] == v;
        if j == a {
            assert(t[b] == v);
        } else if j == b {
            assert(if a == b {
                t[b]
            } else {
                t[a]
            } == v);
        } else {
            assert(t[j] == v);
        }
    }
}

/// The state and running index after any number of key-schedule rounds:
/// the table stays a permutation and the index stays a byte.
proof fn lemma_ksa_is_permutation(key: Seq<u8>, n: nat)
    requires
        1 <= key.len() <= 256,
        n <= 256,
    ensures
        is_state_permutation(ksa(key, n).0),
        0 <= ksa(key, n).1 < 256,
    decreases n,
{
    if n == 0 {
        assert forall|v: u8| state_has_value(ksa_initial(), v) by {
            assert(ksa_initial()[v as int] == v);
        }
    } else {
        lemma_ksa_is_permutation(key, (n - 1) as nat);
        let prev = ksa(key, (n - 1) as nat);
        let round = n - 1;
        let j2 = (prev.1 + prev.0[round] + key[round % (key.len() as int)]) % 256;
        lemma_swap_preserves_permutation(prev.0, round, j2);
    }
}

/// The key schedule seeds a permutation of the byte values.
pub proof fn lemma_key_schedule_is_permutation(key: Seq<u8>)
    requires
        1 <= key.len() <= 256,
    ensures
        is_state_permutation(key_schedule(key)),
{
    lemma_ksa_is_permutation(key, 256);
}

/// Every keystream step keeps the state table a permutation: it holds of
/// the cipher across all operations.
pub proof fn lemma_step_preserves_permutation(m: Rc4Model)
    requires
        is_state_permutation(m.s),
    ensures
        is_state_permutation(rc4_step(m).s),
{
    let i = ((m.i + 1) % 256) as int;
    let j = ((m.j + m.s[i]) % 256) as int;
    lemma_swap_preserves_permutation(m.s, i, j);
}

/// RC4 is an involution for identical keystreams: applying the keystream
/// drawn from one state twice restores the data.
pub proof fn lemma_apply_involution(m: Rc4Model, data: Seq<u8>)
    ensures
        rc4_apply(m, rc4_apply(m, data)) == data,
{
    let once = rc4_apply(m, data);
    let twice = rc4_apply(m, once);
    assert forall|k: int| 0 <= k < data.len() implies twice[k] == data[k] by {
        let b = data[k];
        let s = keystream_byte(m, k as nat);
        assert((b ^ s) ^ s == b) by (bit_vector);
    }
    assert(twice =~= data);
}

/// For every key of 1 to 256 bytes and every byte sequence, transforming
/// twice from a freshly seeded cipher restores the sequence.
pub proof fn lemma_transform_involution(key: Seq<u8>, data: Seq<u8>)
    requires
        1 <= key.len() <= 256,
    ensures
        rc4_apply(rc4_seeded(key), rc4_apply(rc4_seeded(key), data)) == data,
{
    lemma_apply_involution(rc4_seeded(key), data);
}

} // verus!
