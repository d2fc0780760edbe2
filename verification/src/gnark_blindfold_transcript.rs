//! A concrete Poseidon transcript over the BN254 scalar field, for the
//! BlindFold verification circuit.
//!
//! Absorbing hashes `Hash(state, n_rounds, data)`; squeezing hashes
//! `Hash(state, n_rounds, 0)` and makes the result the new state; byte
//! strings longer than 32 bytes are chained chunk by chunk, with zero in
//! place of the round counter after the first chunk. Every operation moves
//! the round counter on by one.

use vstd::prelude::*;
use vstd::arithmetic::div_mod::{lemma_fundamental_div_mod_converse, lemma_mul_mod_noop_left};
use vstd::arithmetic::power::pow;
use crate::ast_evaluator::{canonical, fr_from_le_bytes_mod_order, fr_mul, le_repr, lemma_le_repr, poseidon3, poseidon_hash3};
use crate::bytes::{le_nat, limbs_le_bytes, u64_le_bytes};
use crate::scalar::{limbs_val, modulus, mul_mod_spec};

verus! {

/// The field element a little-endian byte string stands for.
pub open spec fn bytes_value(b: Seq<u8>) -> nat {
    le_nat(b) % modulus()
}

/// Chunk `k` of a byte string, as `chunks(32)` cuts it (the last may be short).
pub open spec fn chunk_of(bytes: Seq<u8>, k: int) -> Seq<u8> {
    bytes.subrange(32 * k, if 32 * k + 32 <= bytes.len() { 32 * k + 32 } else { bytes.len() as int })
}

/// The number of chunks `chunks(32)` gives.
pub open spec fn chunk_count(n: nat) -> nat {
    (n + 31) / 32
}

/// The state after chaining chunks `k..m` of `bytes` onto `state`, each with
/// zero in place of the round counter.
pub open spec fn chain_from(state: nat, bytes: Seq<u8>, k: nat, m: nat) -> nat
    decreases m - k,
{
    if k >= m {
        state
    } else {
        chain_from(poseidon3(state, 0, bytes_value(chunk_of(bytes, k as int))), bytes, k + 1, m)
    }
}

/// The state after absorbing `bytes` at round `n`: the first chunk (zero
/// when there is none) is hashed with the round counter, the rest chained.
pub open spec fn absorb_bytes_state(state: nat, n: nat, bytes: Seq<u8>) -> nat {
    let m = chunk_count(bytes.len());
    if m == 0 {
        poseidon3(state, n, 0)
    } else {
        chain_from(poseidon3(state, n, bytes_value(chunk_of(bytes, 0))), bytes, 1, m)
    }
}

/// A label of at most 24 bytes packed with a length: the label zero-padded
/// to 24 bytes, then the length's 8 bytes in big-endian order.
pub open spec fn packed_label(label: Seq<u8>, len: u64) -> Seq<u8> {
    label + Seq::new((24 - label.len()) as nat, |i: int| 0u8) + le_repr(len as nat, 8).reverse()
}

/// The BlindFold transcript: the current state and the round counter.
pub struct GnarkBlindFoldTranscript {
    state: [u64; 4],
    n_rounds: u32,
}

impl GnarkBlindFoldTranscript {
    #[verifier::type_invariant]
    spec fn state_is_field_element(self) -> bool {
        canonical(self.state)
    }

    /// The value of the current state.
    pub closed spec fn state_value(self) -> nat {
        limbs_val(self.state)
    }

    /// The round counter.
    pub closed spec fn rounds(self) -> nat {
        self.n_rounds as nat
    }

    /// The current state.
    pub fn state(&self) -> (r: [u64; 4])
        ensures
            canonical(r),
            limbs_val(r) == self.state_value(),
    {
        proof {
            use_type_invariant(self);
        }
        self.state
    }

    /// The round counter.
    pub fn n_rounds(&self) -> (r: u32)
        ensures
            r == self.rounds(),
    {
        self.n_rounds
    }

    /// `Hash(state, n_rounds, data)` becomes the state.
    fn absorb(&mut self, data: [u64; 4])
        requires
            canonical(data),
            old(self).rounds() < u32::MAX,
        ensures
            final(self).state_value() == poseidon3(old(self).state_value(), old(self).rounds(), limbs_val(data)),
            final(self).rounds() == old(self).rounds() + 1,
    {
        proof {
            use_type_invariant(&*self);
        }
        let out = poseidon_hash3(self.state, [self.n_rounds as u64, 0, 0, 0], data);
        self.state = out;
        self.n_rounds = self.n_rounds + 1;
    }

    /// `Hash(state, n_rounds, 0)` becomes the state and is returned.
    fn squeeze(&mut self) -> (r: [u64; 4])
        requires
            old(self).rounds() < u32::MAX,
        ensures
            canonical(r),
            limbs_val(r) == poseidon3(old(self).state_value(), old(self).rounds(), 0),
            final(self).state_value() == limbs_val(r),
            final(self).rounds() == old(self).rounds() + 1,
    {
        proof {
            use_type_invariant(&*self);
        }
        let out = poseidon_hash3(self.state, [self.n_rounds as u64, 0, 0, 0], [0, 0, 0, 0]);
        self.state = out;
        self.n_rounds = self.n_rounds + 1;
        out
    }

    /// A transcript whose state is `Hash(label, 0, 0)` (`new`).
    pub fn new(label: &[u8]) -> (r: Self)
        requires
            label@.len() <= 32,
        ensures
            r.state_value() == poseidon3(bytes_value(label@), 0, 0),
            r.rounds() == 0,
    {
        let l = fr_from_le_bytes_mod_order(label);
        let state = poseidon_hash3(l, [0, 0, 0, 0], [0, 0, 0, 0]);
        GnarkBlindFoldTranscript { state, n_rounds: 0 }
    }

    /// The transcript labelled `default` (`default`).
    pub fn default_transcript() -> (r: Self)
        ensures
            r.state_value() == poseidon3(bytes_value(seq![100u8, 101, 102, 97, 117, 108, 116]), 0, 0),
            r.rounds() == 0,
    {
        let label: [u8; 7] = [100, 101, 102, 97, 117, 108, 116];
        assert(label@ =~= seq![100u8, 101, 102, 97, 117, 108, 116]);
        Self::new(&label)
    }

    /// Absorbs a label of at most 32 bytes as one field element
    /// (`raw_append_label`).
    pub fn raw_append_label(&mut self, label: &[u8])
        requires
            label@.len() <= 32,
            old(self).rounds() < u32::MAX,
        ensures
            final(self).state_value() == poseidon3(old(self).state_value(), old(self).rounds(), bytes_value(label@)),
            final(self).rounds() == old(self).rounds() + 1,
    {
        let l = fr_from_le_bytes_mod_order(label);
        self.absorb(l);
    }

    /// Absorbs a label of at most 24 bytes packed with a length
    /// (`raw_append_label_with_len`).
    pub fn raw_append_label_with_len(&mut self, label: &[u8], len: u64)
        requires
            label@.len() <= 24,
            old(self).rounds() < u32::MAX,
        ensures
            final(self).state_value() == poseidon3(old(self).state_value(), old(self).rounds(),
                bytes_value(packed_label(label@, len))),
            final(self).rounds() == old(self).rounds() + 1,
    {
        let mut packed: Vec<u8> = Vec::new();
        let mut i: usize = 0;
        while i < 24
            invariant
                i <= 24,
                label@.len() <= 24,
                packed@ == (label@ + Seq::new((24 - label@.len()) as nat, |j: int| 0u8)).subrange(0, i as int),
            decreases 24 - i,
        {
            if i < label.len() {
                packed.push(label[i]);
            } else {
                packed.push(0u8);
            }
            i += 1;
            assert(packed@ =~= (label@ + Seq::new((24 - label@.len()) as nat, |j: int| 0u8)).subrange(0, i as int));
        }
        let le = u64_le_bytes(len);
        proof {
            lemma_le_repr(le@);
        }
        let mut k: usize = 8;
        let ghost head = packed@;
        while k > 0
            invariant
                k <= 8,
                le@.len() == 8,
                le@ == le_repr(len as nat, 8),
                packed@ == head + le@.subrange(k as int, 8).reverse(),
            decreases k,
        {
            k -= 1;
            packed.push(le[k]);
            assert(packed@ =~= head + le@.subrange(k as int, 8).reverse());
        }
        proof {
            assert(le@.subrange(0, 8) =~= le@);
            assert(head =~= label@ + Seq::new((24 - label@.len()) as nat, |j: int| 0u8));
            assert(packed@ =~= packed_label(label@, len));
        }
        let v = fr_from_le_bytes_mod_order(packed.as_slice());
        self.absorb(v);
    }

    /// Absorbs a byte string (`raw_append_bytes`): the first 32-byte chunk
    /// (zero if there is none) with the round counter, the further chunks
    /// chained with zero in its place.
    pub fn raw_append_bytes(&mut self, bytes: &[u8])
        requires
            old(self).rounds() < u32::MAX,
        ensures
            final(self).state_value() == absorb_bytes_state(old(self).state_value(), old(self).rounds(), bytes@),
            final(self).rounds() == old(self).rounds() + 1,
    {
        proof {
            use_type_invariant(&*self);
        }
        let n = bytes.len();
        let m = n / 32 + if n % 32 == 0 { 0 } else { 1 };
        let round: [u64; 4] = [self.n_rounds as u64, 0, 0, 0];
        if m == 0 {
            let out = poseidon_hash3(self.state, round, [0, 0, 0, 0]);
            self.state = out;
            self.n_rounds = self.n_rounds + 1;
            return;
        }
        let first = chunk_value(bytes, 0);
        let mut current = poseidon_hash3(self.state, round, first);
        let ghost target = absorb_bytes_state(old(self).state_value(), old(self).rounds(), bytes@);
        let mut k: usize = 1;
        while k < m
            invariant
                n == bytes@.len(),
                m == chunk_count(n as nat),
                1 <= k <= m,
                canonical(current),
                chain_from(limbs_val(current), bytes@, k as nat, m as nat) == target,
            decreases m - k,
        {
            let c = chunk_value(bytes, k);
            current = poseidon_hash3(current, [0, 0, 0, 0], c);
            k += 1;
        }
        self.state = current;
        self.n_rounds = self.n_rounds + 1;
    }

    /// Absorbs a `u64` as the field element it stands for (`raw_append_u64`).
    pub fn raw_append_u64(&mut self, x: u64)
        requires
            old(self).rounds() < u32::MAX,
        ensures
            final(self).state_value() == poseidon3(old(self).state_value(), old(self).rounds(), x as nat),
            final(self).rounds() == old(self).rounds() + 1,
    {
        self.absorb([x, 0, 0, 0]);
    }

    /// Absorbs a field element by its 32 little-endian bytes
    /// (`raw_append_scalar`).
    pub fn raw_append_scalar(&mut self, scalar: [u64; 4])
        requires
            canonical(scalar),
            old(self).rounds() < u32::MAX,
        ensures
            final(self).state_value() == absorb_bytes_state(old(self).state_value(), old(self).rounds(),
                le_repr(limbs_val(scalar), 32)),
            final(self).rounds() == old(self).rounds() + 1,
    {
        let b = limbs_le_bytes(scalar);
        proof {
            lemma_le_repr(b@);
        }
        self.raw_append_bytes(b.as_slice());
    }

    /// Absorbs a serialized object: its label packed with the length of the
    /// serialization, then the serialized bytes (`append_serializable`).
    pub fn append_serializable(&mut self, label: &[u8], data: &[u8])
        requires
            label@.len() <= 24,
            old(self).rounds() + 1 < u32::MAX,
        ensures
            final(self).state_value() == absorb_bytes_state(
                poseidon3(old(self).state_value(), old(self).rounds(), bytes_value(packed_label(label@, data@.len() as u64))),
                old(self).rounds() + 1, data@),
            final(self).rounds() == old(self).rounds() + 2,
    {
        self.raw_append_label_with_len(label, data.len() as u64);
        self.raw_append_bytes(data);
    }

    /// A challenge as a 128-bit number: the low 16 bytes of a squeezed
    /// element (`challenge_u128`).
    pub fn challenge_u128(&mut self) -> (r: u128)
        requires
            old(self).rounds() < u32::MAX,
        ensures
            r as nat == poseidon3(old(self).state_value(), old(self).rounds(), 0) % 0x1_0000_0000_0000_0000_0000_0000_0000_0000nat,
            final(self).state_value() == poseidon3(old(self).state_value(), old(self).rounds(), 0),
            final(self).rounds() == old(self).rounds() + 1,
    {
        let out = self.squeeze();
        let r = (out[0] as u128) + (out[1] as u128) * 0x1_0000_0000_0000_0000u128;
        proof {
            let q = out[2] as nat + out[3] as nat * 0x1_0000_0000_0000_0000nat;
            assert(limbs_val(out) == q * 0x1_0000_0000_0000_0000_0000_0000_0000_0000nat
                + (out[0] as nat + out[1] as nat * 0x1_0000_0000_0000_0000nat)) by (nonlinear_arith)
                requires
                    q == out[2] as nat + out[3] as nat * 0x1_0000_0000_0000_0000nat,
            ;
            assert(out[0] as nat + out[1] as nat * 0x1_0000_0000_0000_0000nat < 0x1_0000_0000_0000_0000_0000_0000_0000_0000nat)
                by (nonlinear_arith);
            lemma_fundamental_div_mod_converse(limbs_val(out) as int, 0x1_0000_0000_0000_0000_0000_0000_0000_0000int, q as int,
                (out[0] as nat + out[1] as nat * 0x1_0000_0000_0000_0000nat) as int);
        }
        r
    }

    /// A challenge field element: the squeezed element, read back from its
    /// 32 bytes (`challenge_scalar`).
    pub fn challenge_scalar(&mut self) -> (r: [u64; 4])
        requires
            old(self).rounds() < u32::MAX,
        ensures
            canonical(r),
            limbs_val(r) == poseidon3(old(self).state_value(), old(self).rounds(), 0),
            final(self).state_value() == limbs_val(r),
            final(self).rounds() == old(self).rounds() + 1,
    {
        self.squeeze()
    }

    /// A challenge field element; the same as `challenge_scalar`, which
    /// draws a full 32-byte element (`challenge_scalar_128_bits`).
    pub fn challenge_scalar_128_bits(&mut self) -> (r: [u64; 4])
        requires
            old(self).rounds() < u32::MAX,
        ensures
            canonical(r),
            limbs_val(r) == poseidon3(old(self).state_value(), old(self).rounds(), 0),
            final(self).state_value() == limbs_val(r),
            final(self).rounds() == old(self).rounds() + 1,
    {
        self.squeeze()
    }

    /// `len` challenge field elements in turn (`challenge_vector`).
    pub fn challenge_vector(&mut self, len: usize) -> (r: Vec<[u64; 4]>)
        requires
            old(self).rounds() + len <= u32::MAX,
        ensures
            r@.len() == len,
            forall|k: int| 0 <= k < len ==> canonical(#[trigger] r@[k]),
            len > 0 ==> limbs_val(r@[0]) == poseidon3(old(self).state_value(), old(self).rounds(), 0),
            forall|k: int| 0 < k < len ==> limbs_val(#[trigger] r@[k]) == poseidon3(limbs_val(r@[k - 1]), (old(self).rounds() + k) as nat, 0),
            len > 0 ==> final(self).state_value() == limbs_val(r@[len - 1]),
            len == 0 ==> final(self).state_value() == old(self).state_value(),
            final(self).rounds() == old(self).rounds() + len,
    {
        let mut r: Vec<[u64; 4]> = Vec::new();
        let mut i: usize = 0;
        while i < len
            invariant
                i <= len,
                old(self).rounds() + len <= u32::MAX,
                self.rounds() == old(self).rounds() + i,
                r@.len() == i,
                forall|k: int| 0 <= k < i ==> canonical(#[trigger] r@[k]),
                i > 0 ==> limbs_val(r@[0]) == poseidon3(old(self).state_value(), old(self).rounds(), 0),
                forall|k: int| 0 < k < i ==> limbs_val(#[trigger] r@[k]) == poseidon3(limbs_val(r@[k - 1]), (old(self).rounds() + k) as nat, 0),
                i > 0 ==> self.state_value() == limbs_val(r@[i - 1]),
                i == 0 ==> self.state_value() == old(self).state_value(),
            decreases len - i,
        {
            let c = self.challenge_scalar();
            r.push(c);
            i += 1;
        }
        r
    }

    /// One challenge `q` and its first `len` powers `1, q, q², ...`
    /// (`challenge_scalar_powers`).
    pub fn challenge_scalar_powers(&mut self, len: usize) -> (r: Vec<[u64; 4]>)
        requires
            old(self).rounds() < u32::MAX,
        ensures
            r@.len() == len,
            forall|k: int| 0 <= k < len ==> canonical(#[trigger] r@[k])
                && limbs_val(r@[k]) == pow(poseidon3(old(self).state_value(), old(self).rounds(), 0) as int, k as nat) % (modulus() as int),
            final(self).state_value() == poseidon3(old(self).state_value(), old(self).rounds(), 0),
            final(self).rounds() == old(self).rounds() + 1,
    {
        let q = self.challenge_scalar();
        let ghost qv = limbs_val(q) as int;
        let mut r: Vec<[u64; 4]> = Vec::new();
        if len == 0 {
            return r;
        }
        r.push([1, 0, 0, 0]);
        proof {
            assert(pow(qv, 0) == 1) by {
                vstd::arithmetic::power::lemma_pow0(qv);
            }
        }
        let mut i: usize = 1;
        while i < len
            invariant
                1 <= i <= len,
                r@.len() == i,
                canonical(q),
                qv == limbs_val(q) as int,
                forall|k: int| 0 <= k < i ==> canonical(#[trigger] r@[k])
                    && limbs_val(r@[k]) == pow(qv, k as nat) % (modulus() as int),
            decreases len - i,
        {
            let prev = r[i - 1];
            let next = fr_mul(prev, q);
            proof {
                let m = modulus() as int;
                let pv = pow(qv, (i - 1) as nat);
                lemma_mul_mod_noop_left(pv, qv, m);
                vstd::arithmetic::power::lemma_pow_adds(qv, (i - 1) as nat, 1);
                vstd::arithmetic::power::lemma_pow1(qv);
                assert(pow(qv, i as nat) == pv * qv);
                assert(limbs_val(next) == (pv % m) * qv % m);
            }
            r.push(next);
            i += 1;
        }
        r
    }
}

/// The field element of chunk `k` of `bytes` (`from_le_bytes_mod_order` on it).
fn chunk_value(bytes: &[u8], k: usize) -> (r: [u64; 4])
    requires
        32 * k < bytes@.len(),
    ensures
        canonical(r),
        limbs_val(r) == bytes_value(chunk_of(bytes@, k as int)),
{
    let n = bytes.len();
    let start = 32 * k;
    let end = if n - start >= 32 { start + 32 } else { n };
    let mut c: Vec<u8> = Vec::new();
    let mut i = start;
    while i < end
        invariant
            start <= i <= end,
            end <= n,
            n == bytes@.len(),
            c@ == bytes@.subrange(start as int, i as int),
        decreases end - i,
    {
        c.push(bytes[i]);
        i += 1;
        assert(c@ =~= bytes@.subrange(start as int, i as int));
    }
    fr_from_le_bytes_mod_order(c.as_slice())
}

} // verus!
