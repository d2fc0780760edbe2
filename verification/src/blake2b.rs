//! Blake2b transcript for symbolic execution.
//!
//! Unlike Poseidon, which chains fixed-arity hashes, Blake2b hashes all data
//! of one append in a single call: each append records one node
//! `TranscriptHash(Blake2b([d0, d1, ...]), state, n_rounds)`.

use vstd::prelude::*;
use blake2::Digest;
use crate::bytes::{bytes_to_scalar, le_nat};
use crate::mle_ast::{arena_wf, edge_of, valid, Arena, Atom, Edge, MleAst, Node, TranscriptHashData, UnOp};
use crate::poseidon::u64_atom;

verus! {

/// The 32-byte Blake2b (`Blake2b<U32>`) digest of a byte string.
pub uninterp spec fn blake2b256(data: Seq<u8>) -> Seq<u8>;

/// Calls `Digest::digest` of `blake2::Blake2b<U32>` on the data. The digest is
/// named by `blake2b256`; its output size is 32 bytes, as the `U32` output
/// size parameter fixes. Nothing else is stated of the hash.
#[verifier::external_body]
fn blake2b256_digest(data: &[u8]) -> (r: Vec<u8>)
    ensures
        r@ == blake2b256(data@),
        r@.len() == 32,
{
    <blake2::Blake2b<blake2::digest::consts::U32> as Digest>::digest(data).to_vec()
}

/// The bytes right-padded with zeros to 32 bytes.
pub open spec fn pad32(b: Seq<u8>) -> Seq<u8> {
    b + Seq::new((32 - b.len()) as nat, |i: int| 0u8)
}

/// `l` holds the four little-endian 64-bit words of the 32 bytes `b`.
pub open spec fn limbs_of_bytes(l: [u64; 4], b: Seq<u8>) -> bool {
    forall|j: int| 0 <= j < 4 ==> l[j] as nat == #[trigger] le_nat(b.subrange(8 * j, 8 * j + 8))
}

/// The node is a Blake2b hash of (state, round, data).
pub open spec fn is_blake2b_node(n: Node, state: Edge, round: Edge, data: Seq<Edge>) -> bool {
    n matches Node::TranscriptHash(TranscriptHashData::Blake2b(v), s, r) && s == state && r == round && v@ == data
}

/// Chunk `k` (32 bytes, the last one possibly shorter) of a byte string.
pub open spec fn chunk(bytes: Seq<u8>, k: int) -> Seq<u8> {
    bytes.subrange(32 * k, if 32 * k + 32 <= bytes.len() { 32 * k + 32 } else { bytes.len() as int })
}

/// Number of 32-byte chunks of a byte string.
pub open spec fn num_chunks(n: nat) -> nat {
    (n + 31) / 32
}

/// Pads up to 32 bytes with zeros.
fn pad_to_32(b: &[u8], start: usize, end: usize) -> (r: Vec<u8>)
    requires
        start <= end <= b@.len(),
        end - start <= 32,
    ensures
        r@ == pad32(b@.subrange(start as int, end as int)),
        r@.len() == 32,
{
    let mut r: Vec<u8> = Vec::new();
    let mut i = start;
    while i < end
        invariant
            start <= i <= end,
            end <= b@.len(),
            r@ == b@.subrange(start as int, i as int),
        decreases end - i,
    {
        r.push(b[i]);
        i += 1;
        assert(r@ =~= b@.subrange(start as int, i as int));
    }
    let ghost body = r@;
    while r.len() < 32
        invariant
            r@.len() <= 32,
            body.len() == end - start,
            r@ == body + Seq::new((r@.len() - body.len()) as nat, |i: int| 0u8),
        decreases 32 - r@.len(),
    {
        r.push(0u8);
        assert(r@ =~= body + Seq::new((r@.len() - body.len()) as nat, |i: int| 0u8));
    }
    r
}

/// Symbolic Blake2b transcript: the current state and the round counter.
pub struct Blake2bAstTranscript {
    /// Current state (symbolic field element).
    pub state: MleAst,
    /// Round counter for domain separation.
    pub n_rounds: u32,
}

impl Blake2bAstTranscript {
    /// A new transcript whose state is the concrete constant
    /// `blake2b(label padded with zeros to 32 bytes)`.
    pub fn new(arena: &mut Arena, label: &[u8]) -> (r: Self)
        requires
            label@.len() < 33,
            old(arena)@.len() < usize::MAX,
            arena_wf(old(arena)@),
        ensures
            final(arena)@.len() == old(arena)@.len() + 1,
            final(arena)@.subrange(0, old(arena)@.len() as int) == old(arena)@,
            final(arena)@[old(arena)@.len() as int] matches Node::Atom(Atom::Scalar(l))
                && limbs_of_bytes(l, blake2b256(pad32(label@))),
            r.state.root == old(arena)@.len(),
            r.n_rounds == 0,
            arena_wf(final(arena)@),
    {
        let padded = pad_to_32(label, 0, label.len());
        proof {
            assert(label@.subrange(0, label@.len() as int) =~= label@);
        }
        let out = blake2b256_digest(padded.as_slice());
        let limbs = bytes_to_scalar(out.as_slice());
        let state = MleAst::from_scalar(arena, limbs);
        assert(final(arena)@.subrange(0, old(arena)@.len() as int) =~= old(arena)@);
        Blake2bAstTranscript { state, n_rounds: 0 }
    }

    /// Converts a label to a field constant: the label right-padded to 32
    /// bytes, read as four little-endian words.
    pub fn label_to_field(arena: &mut Arena, label: &[u8]) -> (r: MleAst)
        requires
            label@.len() <= 32,
            old(arena)@.len() < usize::MAX,
            arena_wf(old(arena)@),
        ensures
            final(arena)@.len() == old(arena)@.len() + 1,
            final(arena)@.subrange(0, old(arena)@.len() as int) == old(arena)@,
            final(arena)@[old(arena)@.len() as int] matches Node::Atom(Atom::Scalar(l)) && limbs_of_bytes(l, pad32(label@)),
            r.root == old(arena)@.len(),
            arena_wf(final(arena)@),
    {
        let padded = pad_to_32(label, 0, label.len());
        proof {
            assert(label@.subrange(0, label@.len() as int) =~= label@);
        }
        let limbs = bytes_to_scalar(padded.as_slice());
        let r = MleAst::from_scalar(arena, limbs);
        assert(final(arena)@.subrange(0, old(arena)@.len() as int) =~= old(arena)@);
        r
    }

    /// Hashes several data elements in a single Blake2b call:
    /// `state = blake2b(state, n_rounds, data)`, then `n_rounds += 1`.
    pub fn hash_and_update_multi(&mut self, arena: &mut Arena, data: &[MleAst])
        requires
            old(self).n_rounds < u32::MAX,
            old(arena)@.len() + 2 < usize::MAX,
            arena_wf(old(arena)@),
            valid(old(arena)@, old(self).state),
            forall|k: int| 0 <= k < data@.len() ==> valid(old(arena)@, #[trigger] data@[k]),
        ensures
            final(arena)@.len() == old(arena)@.len() + 2,
            final(arena)@.subrange(0, old(arena)@.len() as int) == old(arena)@,
            final(arena)@[old(arena)@.len() as int] == Node::Atom(u64_atom(old(self).n_rounds as u64)),
            is_blake2b_node(final(arena)@[old(arena)@.len() + 1int], edge_of(old(arena)@, old(self).state),
                Edge::Atom(u64_atom(old(self).n_rounds as u64)), data@.map_values(|h: MleAst| edge_of(old(arena)@, h))),
            final(self).state.root == old(arena)@.len() + 1,
            final(self).n_rounds == old(self).n_rounds + 1,
            arena_wf(final(arena)@),
    {
        let round = MleAst::from_u64(arena, self.n_rounds as u64);
        let ghost mid = arena@;
        proof {
            assert forall|k: int| 0 <= k < data@.len() implies valid(arena@, #[trigger] data@[k]) by {
                assert(valid(old(arena)@, data@[k]));
            }
            assert(data@.map_values(|h: MleAst| edge_of(arena@, h)) =~= data@.map_values(|h: MleAst| edge_of(old(arena)@, h))) by {
                assert forall|k: int| 0 <= k < data@.len() implies edge_of(arena@, data@[k]) == edge_of(old(arena)@, data@[k]) by {
                    assert(valid(old(arena)@, data@[k]));
                    assert(arena@[data@[k].root as int] == old(arena)@[data@[k].root as int]);
                }
            }
        }
        self.state = MleAst::blake2b(arena, self.state, round, data);
        self.n_rounds = self.n_rounds + 1;
        proof {
            assert(final(arena)@.subrange(0, old(arena)@.len() as int) =~= old(arena)@) by {
                assert(mid.subrange(0, old(arena)@.len() as int) =~= old(arena)@);
                assert(final(arena)@.subrange(0, mid.len() as int) == mid);
            }
        }
    }

    /// Hashes one data element: `state = blake2b(state, n_rounds, [element])`.
    pub fn hash_and_update(&mut self, arena: &mut Arena, element: MleAst)
        requires
            old(self).n_rounds < u32::MAX,
            old(arena)@.len() + 2 < usize::MAX,
            arena_wf(old(arena)@),
            valid(old(arena)@, old(self).state),
            valid(old(arena)@, element),
        ensures
            final(arena)@.len() == old(arena)@.len() + 2,
            final(arena)@.subrange(0, old(arena)@.len() as int) == old(arena)@,
            final(arena)@[old(arena)@.len() as int] == Node::Atom(u64_atom(old(self).n_rounds as u64)),
            is_blake2b_node(final(arena)@[old(arena)@.len() + 1int], edge_of(old(arena)@, old(self).state),
                Edge::Atom(u64_atom(old(self).n_rounds as u64)), seq![edge_of(old(arena)@, element)]),
            final(self).state.root == old(arena)@.len() + 1,
            final(self).n_rounds == old(self).n_rounds + 1,
            arena_wf(final(arena)@),
    {
        let data = [element];
        proof {
            assert(data@.map_values(|h: MleAst| edge_of(old(arena)@, h)) =~= seq![edge_of(old(arena)@, element)]);
        }
        self.hash_and_update_multi(arena, &data);
    }

    /// Derives a challenge: `blake2b(state, n_rounds, [])` with no data,
    /// which becomes the new state; `n_rounds += 1`.
    pub fn challenge_ast(&mut self, arena: &mut Arena) -> (r: MleAst)
        requires
            old(self).n_rounds < u32::MAX,
            old(arena)@.len() + 2 < usize::MAX,
            arena_wf(old(arena)@),
            valid(old(arena)@, old(self).state),
        ensures
            final(arena)@.len() == old(arena)@.len() + 2,
            final(arena)@.subrange(0, old(arena)@.len() as int) == old(arena)@,
            final(arena)@[old(arena)@.len() as int] == Node::Atom(u64_atom(old(self).n_rounds as u64)),
            is_blake2b_node(final(arena)@[old(arena)@.len() + 1int], edge_of(old(arena)@, old(self).state),
                Edge::Atom(u64_atom(old(self).n_rounds as u64)), Seq::<Edge>::empty()),
            r.root == old(arena)@.len() + 1,
            final(self).state == r,
            final(self).n_rounds == old(self).n_rounds + 1,
            arena_wf(final(arena)@),
    {
        let empty: [MleAst; 0] = [];
        proof {
            assert(empty@.map_values(|h: MleAst| edge_of(old(arena)@, h)) =~= Seq::<Edge>::empty());
        }
        self.hash_and_update_multi(arena, &empty);
        self.state
    }

    /// Appends a label: its padded field constant is hashed as one element.
    pub fn raw_append_label(&mut self, arena: &mut Arena, label: &[u8])
        requires
            label@.len() <= 32,
            old(self).n_rounds < u32::MAX,
            old(arena)@.len() + 3 < usize::MAX,
            arena_wf(old(arena)@),
            valid(old(arena)@, old(self).state),
        ensures
            final(arena)@.len() == old(arena)@.len() + 3,
            final(arena)@.subrange(0, old(arena)@.len() as int) == old(arena)@,
            final(arena)@[old(arena)@.len() as int] matches Node::Atom(a) && a matches Atom::Scalar(l)
                && limbs_of_bytes(l, pad32(label@))
                && is_blake2b_node(final(arena)@[old(arena)@.len() + 2int], edge_of(old(arena)@, old(self).state),
                    Edge::Atom(u64_atom(old(self).n_rounds as u64)), seq![Edge::Atom(a)]),
            final(arena)@[old(arena)@.len() + 1int] == Node::Atom(u64_atom(old(self).n_rounds as u64)),
            final(self).state.root == old(arena)@.len() + 2,
            final(self).n_rounds == old(self).n_rounds + 1,
            arena_wf(final(arena)@),
    {
        let field = Self::label_to_field(arena, label);
        proof {
            assert(arena@[self.state.root as int] == old(arena)@[self.state.root as int]);
        }
        self.hash_and_update(arena, field);
        proof {
            assert(final(arena)@.subrange(0, old(arena)@.len() as int) =~= old(arena)@);
        }
    }

    /// Appends a `u64`: `AppendU64Transform(x)` is hashed as one element.
    pub fn raw_append_u64(&mut self, arena: &mut Arena, x: u64)
        requires
            old(self).n_rounds < u32::MAX,
            old(arena)@.len() + 4 < usize::MAX,
            arena_wf(old(arena)@),
            valid(old(arena)@, old(self).state),
        ensures
            final(arena)@.len() == old(arena)@.len() + 4,
            final(arena)@.subrange(0, old(arena)@.len() as int) == old(arena)@,
            final(arena)@[old(arena)@.len() as int] == Node::Atom(u64_atom(x)),
            final(arena)@[old(arena)@.len() + 1int] == Node::AppendU64Transform(Edge::Atom(u64_atom(x))),
            final(arena)@[old(arena)@.len() + 2int] == Node::Atom(u64_atom(old(self).n_rounds as u64)),
            is_blake2b_node(final(arena)@[old(arena)@.len() + 3int], edge_of(old(arena)@, old(self).state),
                Edge::Atom(u64_atom(old(self).n_rounds as u64)), seq![Edge::NodeRef((old(arena)@.len() + 1) as usize)]),
            final(self).state.root == old(arena)@.len() + 3,
            final(self).n_rounds == old(self).n_rounds + 1,
            arena_wf(final(arena)@),
    {
        let v = MleAst::from_u64(arena, x);
        let transformed = MleAst::unary(arena, UnOp::AppendU64Transform, v);
        proof {
            assert(arena@[self.state.root as int] == old(arena)@[self.state.root as int]);
        }
        let ghost a2 = arena@;
        self.hash_and_update(arena, transformed);
        proof {
            assert(final(arena)@.subrange(0, old(arena)@.len() as int) =~= old(arena)@);
            assert(final(arena)@.subrange(0, a2.len() as int)[old(arena)@.len() as int] == a2[old(arena)@.len() as int]);
            assert(final(arena)@.subrange(0, a2.len() as int)[old(arena)@.len() + 1int] == a2[old(arena)@.len() + 1int]);
        }
    }

    /// Appends a curve point: symbolically a no-op hash of the constant 0.
    pub fn raw_append_point(&mut self, arena: &mut Arena)
        requires
            old(self).n_rounds < u32::MAX,
            old(arena)@.len() + 3 < usize::MAX,
            arena_wf(old(arena)@),
            valid(old(arena)@, old(self).state),
        ensures
            final(arena)@.len() == old(arena)@.len() + 3,
            final(arena)@.subrange(0, old(arena)@.len() as int) == old(arena)@,
            final(arena)@[old(arena)@.len() as int] == Node::Atom(u64_atom(0)),
            final(arena)@[old(arena)@.len() + 1int] == Node::Atom(u64_atom(old(self).n_rounds as u64)),
            is_blake2b_node(final(arena)@[old(arena)@.len() + 2int], edge_of(old(arena)@, old(self).state),
                Edge::Atom(u64_atom(old(self).n_rounds as u64)), seq![Edge::Atom(u64_atom(0))]),
            final(self).state.root == old(arena)@.len() + 2,
            final(self).n_rounds == old(self).n_rounds + 1,
            arena_wf(final(arena)@),
    {
        let zero = MleAst::from_u64(arena, 0);
        proof {
            assert(arena@[self.state.root as int] == old(arena)@[self.state.root as int]);
        }
        self.hash_and_update(arena, zero);
        proof {
            assert(final(arena)@.subrange(0, old(arena)@.len() as int) =~= old(arena)@);
        }
    }
}

} // verus!

verus! {

/// `b` is `a` after a Blake2b challenge from `state` at round `n` that is
/// then cut by `cut` (`Truncate128` or `Truncate128Reverse`): the round
/// constant, the hash with no data, and the cut of the hash.
pub open spec fn cut_challenge(a: Seq<Node>, b: Seq<Node>, state: Edge, n: u32, truncate_reverse: bool) -> bool {
    &&& b.len() == a.len() + 3
    &&& b.subrange(0, a.len() as int) == a
    &&& b[a.len() as int] == Node::Atom(u64_atom(n as u64))
    &&& is_blake2b_node(b[a.len() + 1int], state, Edge::Atom(u64_atom(n as u64)), Seq::<Edge>::empty())
    &&& b[a.len() + 2int] == if truncate_reverse {
        Node::Truncate128Reverse(Edge::NodeRef((a.len() + 1) as usize))
    } else {
        Node::Truncate128(Edge::NodeRef((a.len() + 1) as usize))
    }
}

/// `b` is `a` after `len` cut challenges from `state` at rounds `n, n + 1, ...`.
pub open spec fn cut_challenges(a: Seq<Node>, b: Seq<Node>, state: Edge, n: nat, len: nat, truncate_reverse: bool) -> bool {
    &&& b.len() == a.len() + 3 * len
    &&& forall|k: int| 0 <= k <= len ==> (#[trigger] b.subrange(0, a.len() + 3 * k)).subrange(0, a.len() as int) == a
    &&& forall|k: int| 0 <= k < len ==> cut_challenge(
        #[trigger] b.subrange(0, a.len() + 3 * k), b.subrange(0, a.len() + 3 * k + 3),
        if k == 0 { state } else { Edge::NodeRef((a.len() + 3 * k - 2) as usize) },
        (n + k) as u32, truncate_reverse)
}

/// The Blake2b product nodes of powers: the constant 1, then `len` products
/// of the previous power (the constant for the first) with the challenge at `c`.
pub open spec fn blake_power_nodes(base: nat, c: usize, len: nat) -> Seq<Node> {
    seq![Node::Atom(u64_atom(1))] + Seq::new(len, |k: int|
        Node::Mul(if k == 0 { Edge::Atom(u64_atom(1)) } else { Edge::NodeRef((base + k) as usize) }, Edge::NodeRef(c)))
}

impl Blake2bAstTranscript {
    /// A transcript at round 0 whose state is the constant 0 (`default`).
    pub fn default_in(arena: &mut Arena) -> (r: Self)
        requires
            old(arena)@.len() < usize::MAX,
            arena_wf(old(arena)@),
        ensures
            final(arena)@ == old(arena)@.push(Node::Atom(u64_atom(0))),
            r.state.root == old(arena)@.len(),
            r.n_rounds == 0,
            arena_wf(final(arena)@),
    {
        let state = MleAst::from_u64(arena, 0);
        Blake2bAstTranscript { state, n_rounds: 0 }
    }

    /// Appends bytes: each 32-byte chunk (the last zero-padded) becomes a
    /// constant, and all of them are hashed in one Blake2b call
    /// (`raw_append_bytes`).
    pub fn raw_append_bytes(&mut self, arena: &mut Arena, bytes: &[u8])
        requires
            old(self).n_rounds < u32::MAX,
            old(arena)@.len() + bytes@.len() + 3 < usize::MAX,
            arena_wf(old(arena)@),
            valid(old(arena)@, old(self).state),
        ensures
            ({
                let a0 = old(arena)@;
                let m = num_chunks(bytes@.len());
                &&& final(arena)@.len() == a0.len() + m + 2
                &&& final(arena)@.subrange(0, a0.len() as int) == a0
                &&& forall|k: int| 0 <= k < m ==> ((#[trigger] final(arena)@[a0.len() + k]) matches Node::Atom(Atom::Scalar(l))
                    && limbs_of_bytes(l, pad32(chunk(bytes@, k))))
                &&& final(arena)@[a0.len() + m as int] == Node::Atom(u64_atom(old(self).n_rounds as u64))
                &&& is_blake2b_node(final(arena)@[a0.len() + m as int + 1], edge_of(a0, old(self).state),
                    Edge::Atom(u64_atom(old(self).n_rounds as u64)),
                    Seq::new(m, |k: int| edge_of(final(arena)@, MleAst { root: (a0.len() + k) as usize })))
            }),
            final(self).state.root == final(arena)@.len() - 1,
            final(self).n_rounds == old(self).n_rounds + 1,
            arena_wf(final(arena)@),
    {
        let ghost a0 = old(arena)@;
        let n = bytes.len();
        let m = n / 32 + if n % 32 == 0 { 0 } else { 1 };
        let mut elements: Vec<MleAst> = Vec::new();
        let mut k: usize = 0;
        while k < m
            invariant
                n == bytes@.len(),
                m == num_chunks(n as nat),
                k <= m,
                a0 == old(arena)@,
                a0.len() + n + 3 < usize::MAX,
                arena@.len() == a0.len() + k,
                arena@.subrange(0, a0.len() as int) == a0,
                arena_wf(arena@),
                elements@.len() == k,
                forall|j: int| 0 <= j < k ==> (#[trigger] elements@[j]).root == a0.len() + j,
                forall|j: int| 0 <= j < k ==> ((#[trigger] arena@[a0.len() + j]) matches Node::Atom(Atom::Scalar(l))
                    && limbs_of_bytes(l, pad32(chunk(bytes@, j)))),
            decreases m - k,
        {
            assert(32 * k < n);
            let start = 32 * k;
            let end = if n - start >= 32 { start + 32 } else { n };
            let padded = pad_to_32(bytes, start, end);
            let limbs = bytes_to_scalar(padded.as_slice());
            let ghost before = arena@;
            let e = MleAst::from_scalar(arena, limbs);
            elements.push(e);
            k += 1;
            proof {
                assert(arena@.subrange(0, a0.len() as int) =~= before.subrange(0, a0.len() as int));
                assert forall|j: int| 0 <= j < k implies ((#[trigger] arena@[a0.len() + j]) matches Node::Atom(Atom::Scalar(l))
                    && limbs_of_bytes(l, pad32(chunk(bytes@, j)))) by {
                    if j < k - 1 {
                        assert(arena@[a0.len() + j] == before[a0.len() + j]);
                    }
                }
            }
        }
        let ghost a1 = arena@;
        proof {
            assert(arena@[self.state.root as int] == a0[self.state.root as int]);
        }
        self.hash_and_update_multi(arena, elements.as_slice());
        proof {
            let fin = final(arena)@;
            assert(fin.subrange(0, a0.len() as int) =~= a0) by {
                assert(fin.subrange(0, a0.len() as int) =~= fin.subrange(0, a1.len() as int).subrange(0, a0.len() as int));
            }
            assert forall|j: int| 0 <= j < m implies ((#[trigger] fin[a0.len() + j]) matches Node::Atom(Atom::Scalar(l))
                && limbs_of_bytes(l, pad32(chunk(bytes@, j)))) by {
                assert(fin[a0.len() + j] == a1[a0.len() + j]);
            }
            assert(elements@.map_values(|h: MleAst| edge_of(a1, h))
                =~= Seq::new(m as nat, |j: int| edge_of(fin, MleAst { root: (a0.len() + j) as usize }))) by {
                assert forall|j: int| 0 <= j < m implies edge_of(a1, elements@[j]) == edge_of(fin, MleAst { root: (a0.len() + j) as usize }) by {
                    assert(fin[a0.len() + j] == a1[a0.len() + j]);
                }
            }
            assert(edge_of(a1, old(self).state) == edge_of(a0, old(self).state));
        }
    }

    /// Appends a symbolic scalar: its byte reversal is hashed as one element
    /// (`raw_append_scalar`).
    pub fn raw_append_scalar(&mut self, arena: &mut Arena, scalar: MleAst)
        requires
            old(self).n_rounds < u32::MAX,
            old(arena)@.len() + 3 < usize::MAX,
            arena_wf(old(arena)@),
            valid(old(arena)@, old(self).state),
            valid(old(arena)@, scalar),
        ensures
            final(arena)@.len() == old(arena)@.len() + 3,
            final(arena)@.subrange(0, old(arena)@.len() as int) == old(arena)@,
            final(arena)@[old(arena)@.len() as int] == Node::ByteReverse(edge_of(old(arena)@, scalar)),
            final(arena)@[old(arena)@.len() + 1int] == Node::Atom(u64_atom(old(self).n_rounds as u64)),
            is_blake2b_node(final(arena)@[old(arena)@.len() + 2int], edge_of(old(arena)@, old(self).state),
                Edge::Atom(u64_atom(old(self).n_rounds as u64)), seq![Edge::NodeRef(old(arena)@.len() as usize)]),
            final(self).state.root == old(arena)@.len() + 2,
            final(self).n_rounds == old(self).n_rounds + 1,
            arena_wf(final(arena)@),
    {
        let reversed = MleAst::unary(arena, UnOp::ByteReverse, scalar);
        proof {
            assert(arena@[self.state.root as int] == old(arena)@[self.state.root as int]);
        }
        let ghost a1 = arena@;
        self.hash_and_update(arena, reversed);
        proof {
            assert(final(arena)@.subrange(0, old(arena)@.len() as int) =~= old(arena)@);
            assert(final(arena)@.subrange(0, a1.len() as int)[old(arena)@.len() as int] == a1[old(arena)@.len() as int]);
        }
    }

    /// Derives a challenge and answers 0, as the symbolic transcript has no
    /// concrete value to give (`challenge_u128`).
    pub fn challenge_u128(&mut self, arena: &mut Arena) -> (r: u128)
        requires
            old(self).n_rounds < u32::MAX,
            old(arena)@.len() + 2 < usize::MAX,
            arena_wf(old(arena)@),
            valid(old(arena)@, old(self).state),
        ensures
            r == 0,
            final(arena)@.len() == old(arena)@.len() + 2,
            final(arena)@.subrange(0, old(arena)@.len() as int) == old(arena)@,
            final(arena)@[old(arena)@.len() as int] == Node::Atom(u64_atom(old(self).n_rounds as u64)),
            is_blake2b_node(final(arena)@[old(arena)@.len() + 1int], edge_of(old(arena)@, old(self).state),
                Edge::Atom(u64_atom(old(self).n_rounds as u64)), Seq::<Edge>::empty()),
            final(self).state.root == old(arena)@.len() + 1,
            final(self).n_rounds == old(self).n_rounds + 1,
            arena_wf(final(arena)@),
    {
        let _ = self.challenge_ast(arena);
        0
    }

    fn cut_challenge_exec(&mut self, arena: &mut Arena, truncate_reverse: bool) -> (r: MleAst)
        requires
            old(self).n_rounds < u32::MAX,
            old(arena)@.len() + 3 < usize::MAX,
            arena_wf(old(arena)@),
            valid(old(arena)@, old(self).state),
        ensures
            cut_challenge(old(arena)@, final(arena)@, edge_of(old(arena)@, old(self).state), old(self).n_rounds, truncate_reverse),
            r.root == old(arena)@.len() + 2,
            final(self).state.root == old(arena)@.len() + 1,
            final(self).n_rounds == old(self).n_rounds + 1,
            arena_wf(final(arena)@),
    {
        let hash = self.challenge_ast(arena);
        let ghost a1 = arena@;
        let kind = if truncate_reverse { UnOp::Truncate128Reverse } else { UnOp::Truncate128 };
        let r = MleAst::unary(arena, kind, hash);
        proof {
            assert(final(arena)@.subrange(0, old(arena)@.len() as int) =~= old(arena)@) by {
                assert(final(arena)@.subrange(0, old(arena)@.len() as int) =~= a1.subrange(0, old(arena)@.len() as int));
            }
            assert(edge_of(a1, hash) == Edge::NodeRef(hash.root));
        }
        r
    }

    /// Derives a challenge: the low 128 bits of a fresh Blake2b hash
    /// (`challenge_scalar_128_bits`).
    pub fn challenge_scalar_128_bits(&mut self, arena: &mut Arena) -> (r: MleAst)
        requires
            old(self).n_rounds < u32::MAX,
            old(arena)@.len() + 3 < usize::MAX,
            arena_wf(old(arena)@),
            valid(old(arena)@, old(self).state),
        ensures
            cut_challenge(old(arena)@, final(arena)@, edge_of(old(arena)@, old(self).state), old(self).n_rounds, false),
            r.root == old(arena)@.len() + 2,
            final(self).state.root == old(arena)@.len() + 1,
            final(self).n_rounds == old(self).n_rounds + 1,
            arena_wf(final(arena)@),
    {
        self.cut_challenge_exec(arena, false)
    }

    /// Derives a challenge; the same as `challenge_scalar_128_bits`
    /// (`challenge_scalar`).
    pub fn challenge_scalar(&mut self, arena: &mut Arena) -> (r: MleAst)
        requires
            old(self).n_rounds < u32::MAX,
            old(arena)@.len() + 3 < usize::MAX,
            arena_wf(old(arena)@),
            valid(old(arena)@, old(self).state),
        ensures
            cut_challenge(old(arena)@, final(arena)@, edge_of(old(arena)@, old(self).state), old(self).n_rounds, false),
            r.root == old(arena)@.len() + 2,
            final(self).state.root == old(arena)@.len() + 1,
            final(self).n_rounds == old(self).n_rounds + 1,
            arena_wf(final(arena)@),
    {
        self.challenge_scalar_128_bits(arena)
    }

    /// Derives a challenge in the optimized form: the low 128 bits of a fresh
    /// hash in reversed byte order (`challenge_scalar_optimized`).
    pub fn challenge_scalar_optimized(&mut self, arena: &mut Arena) -> (r: MleAst)
        requires
            old(self).n_rounds < u32::MAX,
            old(arena)@.len() + 3 < usize::MAX,
            arena_wf(old(arena)@),
            valid(old(arena)@, old(self).state),
        ensures
            cut_challenge(old(arena)@, final(arena)@, edge_of(old(arena)@, old(self).state), old(self).n_rounds, true),
            r.root == old(arena)@.len() + 2,
            final(self).state.root == old(arena)@.len() + 1,
            final(self).n_rounds == old(self).n_rounds + 1,
            arena_wf(final(arena)@),
    {
        self.cut_challenge_exec(arena, true)
    }

    fn cut_challenges_exec(&mut self, arena: &mut Arena, len: usize, truncate_reverse: bool) -> (r: Vec<MleAst>)
        requires
            old(self).n_rounds + len <= u32::MAX,
            old(arena)@.len() + 3 * len + 3 < usize::MAX,
            arena_wf(old(arena)@),
            valid(old(arena)@, old(self).state),
        ensures
            cut_challenges(old(arena)@, final(arena)@, edge_of(old(arena)@, old(self).state), old(self).n_rounds as nat,
                len as nat, truncate_reverse),
            r@.len() == len,
            forall|k: int| 0 <= k < len ==> (#[trigger] r@[k]).root == old(arena)@.len() + 3 * k + 2,
            final(self).n_rounds == old(self).n_rounds + len,
            len == 0 ==> final(self).state == old(self).state,
            len > 0 ==> final(self).state.root == final(arena)@.len() - 2,
            arena_wf(final(arena)@),
    {
        let ghost a0 = old(arena)@;
        let ghost s0 = edge_of(old(arena)@, old(self).state);
        let ghost n0 = old(self).n_rounds as nat;
        let mut r: Vec<MleAst> = Vec::new();
        let mut i: usize = 0;
        assert(arena@.subrange(0, a0.len() as int) =~= a0);
        while i < len
            invariant
                i <= len,
                a0 == old(arena)@,
                n0 + len <= u32::MAX,
                a0.len() + 3 * len + 3 < usize::MAX,
                self.n_rounds == n0 + i,
                arena@.len() == a0.len() + 3 * i,
                arena_wf(arena@),
                valid(arena@, self.state),
                i == 0 ==> self.state == old(self).state,
                valid(a0, old(self).state),
                s0 == edge_of(a0, old(self).state),
                n0 == old(self).n_rounds,
                arena@.subrange(0, a0.len() as int) == a0,
                i > 0 ==> self.state.root == arena@.len() - 2,
                i > 0 ==> arena@[self.state.root as int] is TranscriptHash,
                r@.len() == i,
                forall|k: int| 0 <= k < i ==> (#[trigger] r@[k]).root == a0.len() + 3 * k + 2,
                cut_challenges(a0, arena@, s0, n0, i as nat, truncate_reverse),
            decreases len - i,
        {
            let ghost before = arena@;
            proof {
                if i == 0 {
                    assert(before.subrange(0, a0.len() as int) =~= a0) by {
                        assert(before.subrange(0, a0.len() + 3 * 0int) == before.subrange(0, a0.len() as int));
                    }
                    assert(before[self.state.root as int] == a0[self.state.root as int]);
                }
                if i == 0 {
                    assert(self.state == old(self).state);
                    assert(edge_of(a0, self.state) == s0);
                    assert(edge_of(before, self.state) == s0);
                } else {
                    assert(before[self.state.root as int] is TranscriptHash);
                    assert(edge_of(before, self.state) == Edge::NodeRef((a0.len() + 3 * i - 2) as usize));
                }
            }
            let c = self.cut_challenge_exec(arena, truncate_reverse);
            r.push(c);
            i += 1;
            proof {
                let fin = arena@;
                assert(fin.subrange(0, a0.len() as int) =~= before.subrange(0, a0.len() as int)) by {
                    assert(fin.subrange(0, a0.len() as int) =~= fin.subrange(0, before.len() as int).subrange(0, a0.len() as int));
                }
                assert forall|k: int| 0 <= k <= i implies (#[trigger] fin.subrange(0, a0.len() + 3 * k)).subrange(0, a0.len() as int) == a0 by {
                    if k < i {
                        assert(fin.subrange(0, a0.len() + 3 * k) =~= before.subrange(0, a0.len() + 3 * k));
                    } else {
                        assert(fin.subrange(0, a0.len() + 3 * k).subrange(0, a0.len() as int) =~= before.subrange(0, a0.len() + 3 * (k - 1)).subrange(0, a0.len() as int));
                    }
                }
                assert forall|k: int| 0 <= k < i implies cut_challenge(
                    #[trigger] fin.subrange(0, a0.len() + 3 * k), fin.subrange(0, a0.len() + 3 * k + 3),
                    if k == 0 { s0 } else { Edge::NodeRef((a0.len() + 3 * k - 2) as usize) },
                    (n0 + k) as u32, truncate_reverse) by {
                    if k < i - 1 {
                        assert(fin.subrange(0, a0.len() + 3 * k) =~= before.subrange(0, a0.len() + 3 * k));
                        assert(fin.subrange(0, a0.len() + 3 * k + 3) =~= before.subrange(0, a0.len() + 3 * k + 3));
                    } else {
                        assert(fin.subrange(0, a0.len() + 3 * k) =~= before);
                        assert(fin.subrange(0, a0.len() + 3 * k + 3) =~= fin);
                    }
                }
            }
        }
        r
    }

    /// Derives `len` challenges as `challenge_scalar` does (`challenge_vector`).
    pub fn challenge_vector(&mut self, arena: &mut Arena, len: usize) -> (r: Vec<MleAst>)
        requires
            old(self).n_rounds + len <= u32::MAX,
            old(arena)@.len() + 3 * len + 3 < usize::MAX,
            arena_wf(old(arena)@),
            valid(old(arena)@, old(self).state),
        ensures
            cut_challenges(old(arena)@, final(arena)@, edge_of(old(arena)@, old(self).state), old(self).n_rounds as nat,
                len as nat, false),
            r@.len() == len,
            forall|k: int| 0 <= k < len ==> (#[trigger] r@[k]).root == old(arena)@.len() + 3 * k + 2,
            final(self).n_rounds == old(self).n_rounds + len,
            arena_wf(final(arena)@),
    {
        self.cut_challenges_exec(arena, len, false)
    }

    /// Derives `len` challenges as `challenge_scalar_optimized` does
    /// (`challenge_vector_optimized`).
    pub fn challenge_vector_optimized(&mut self, arena: &mut Arena, len: usize) -> (r: Vec<MleAst>)
        requires
            old(self).n_rounds + len <= u32::MAX,
            old(arena)@.len() + 3 * len + 3 < usize::MAX,
            arena_wf(old(arena)@),
            valid(old(arena)@, old(self).state),
        ensures
            cut_challenges(old(arena)@, final(arena)@, edge_of(old(arena)@, old(self).state), old(self).n_rounds as nat,
                len as nat, true),
            r@.len() == len,
            forall|k: int| 0 <= k < len ==> (#[trigger] r@[k]).root == old(arena)@.len() + 3 * k + 2,
            final(self).n_rounds == old(self).n_rounds + len,
            arena_wf(final(arena)@),
    {
        self.cut_challenges_exec(arena, len, true)
    }

    /// Derives one challenge `x` (as `challenge_scalar` does) and returns its
    /// first `len` powers `1, x, x², ...` as symbolic products
    /// (`challenge_scalar_powers`).
    pub fn challenge_scalar_powers(&mut self, arena: &mut Arena, len: usize) -> (r: Vec<MleAst>)
        requires
            old(self).n_rounds < u32::MAX,
            old(arena)@.len() + len + 6 < usize::MAX,
            arena_wf(old(arena)@),
            valid(old(arena)@, old(self).state),
        ensures
            ({
                let a0 = old(arena)@;
                let a1 = final(arena)@.subrange(0, a0.len() + 3int);
                &&& cut_challenge(a0, a1, edge_of(a0, old(self).state), old(self).n_rounds, false)
                &&& final(arena)@ == a1 + blake_power_nodes(a0.len() + 3, (a0.len() + 2) as usize, len as nat)
            }),
            r@.len() == len,
            forall|k: int| 0 <= k < len ==> (#[trigger] r@[k]).root == old(arena)@.len() + 3 + k,
            final(self).n_rounds == old(self).n_rounds + 1,
            arena_wf(final(arena)@),
    {
        let base = self.challenge_scalar(arena);
        let ghost a1 = arena@;
        let mut current = MleAst::from_u64(arena, 1);
        let ghost a2 = arena@;
        proof {
            assert(a2[base.root as int] == a1[base.root as int]);
            assert(edge_of(a2, base) == Edge::NodeRef(base.root));
        }
        let mut powers: Vec<MleAst> = Vec::new();
        let mut i: usize = 0;
        while i < len
            invariant
                i <= len,
                a2.len() == a1.len() + 1,
                a1.len() == old(arena)@.len() + 3,
                base.root == a1.len() - 1,
                old(arena)@.len() + len + 6 < usize::MAX,
                a2[base.root as int] is Truncate128,
                a2[a1.len() as int] == Node::Atom(u64_atom(1)),
                arena_wf(arena@),
                arena@ == a2 + Seq::new(i as nat, |k: int|
                    Node::Mul(if k == 0 { Edge::Atom(u64_atom(1)) } else { Edge::NodeRef((a1.len() + k) as usize) },
                        Edge::NodeRef(base.root))),
                current.root == arena@.len() - 1,
                powers@.len() == i,
                forall|k: int| 0 <= k < i ==> (#[trigger] powers@[k]).root == a1.len() + k,
            decreases len - i,
        {
            let ghost before = arena@;
            proof {
                assert(before[base.root as int] == a2[base.root as int]);
                if i == 0 {
                    assert(before =~= a2);
                    assert(before[current.root as int] == Node::Atom(u64_atom(1)));
                } else {
                    assert(before[current.root as int] is Mul);
                }
            }
            powers.push(current);
            current = MleAst::mul(arena, current, base);
            i += 1;
            proof {
                assert(arena@ =~= a2 + Seq::new(i as nat, |k: int|
                    Node::Mul(if k == 0 { Edge::Atom(u64_atom(1)) } else { Edge::NodeRef((a1.len() + k) as usize) },
                        Edge::NodeRef(base.root))));
            }
        }
        proof {
            assert(final(arena)@.subrange(0, old(arena)@.len() + 3int) =~= a1);
            assert(final(arena)@ =~= a1 + blake_power_nodes(old(arena)@.len() + 3, (old(arena)@.len() + 2) as usize, len as nat));
        }
        powers
    }
}

} // verus!

verus! {

/// The nodes of optimized powers after the challenge (at `c`): the constant
/// 1, then `len - 1` products of the challenge with the previous power.
pub open spec fn optimized_power_nodes(base: nat, c: usize, len: nat) -> Seq<Node> {
    seq![Node::Atom(u64_atom(1))] + Seq::new(if len > 0 { (len - 1) as nat } else { 0 }, |k: int|
        Node::Mul(Edge::NodeRef(c), if k == 0 { Edge::Atom(u64_atom(1)) } else { Edge::NodeRef((base + k) as usize) }))
}

impl Blake2bAstTranscript {
    /// Derives one challenge `q` as `challenge_scalar_optimized` does and
    /// returns `1, q, q², ...` (`len` of them) as products `q * previous`
    /// (`challenge_scalar_powers_optimized`).
    pub fn challenge_scalar_powers_optimized(&mut self, arena: &mut Arena, len: usize) -> (r: Vec<MleAst>)
        requires
            old(self).n_rounds < u32::MAX,
            old(arena)@.len() + len + 6 < usize::MAX,
            arena_wf(old(arena)@),
            valid(old(arena)@, old(self).state),
        ensures
            ({
                let a0 = old(arena)@;
                let a1 = final(arena)@.subrange(0, a0.len() + 3int);
                &&& cut_challenge(a0, a1, edge_of(a0, old(self).state), old(self).n_rounds, true)
                &&& final(arena)@ == a1 + optimized_power_nodes(a0.len() + 3, (a0.len() + 2) as usize, len as nat)
            }),
            r@.len() == len,
            forall|k: int| 0 <= k < len ==> (#[trigger] r@[k]).root == old(arena)@.len() + 3 + k,
            final(self).n_rounds == old(self).n_rounds + 1,
            arena_wf(final(arena)@),
    {
        let q = self.challenge_scalar_optimized(arena);
        let ghost a1 = arena@;
        let one = MleAst::from_u64(arena, 1);
        let ghost a2 = arena@;
        proof {
            assert(a2[q.root as int] == a1[q.root as int]);
            assert(edge_of(a2, q) == Edge::NodeRef(q.root));
        }
        let mut powers: Vec<MleAst> = Vec::new();
        if len == 0 {
            proof {
                assert(final(arena)@.subrange(0, old(arena)@.len() + 3int) =~= a1);
                assert(final(arena)@ =~= a1 + optimized_power_nodes(old(arena)@.len() + 3, (old(arena)@.len() + 2) as usize, 0));
            }
            return powers;
        }
        powers.push(one);
        let mut current = one;
        let mut i: usize = 1;
        while i < len
            invariant
                1 <= i <= len,
                a2.len() == a1.len() + 1,
                a1.len() == old(arena)@.len() + 3,
                q.root == a1.len() - 1,
                old(arena)@.len() + len + 6 < usize::MAX,
                a2[q.root as int] is Truncate128Reverse,
                a2[a1.len() as int] == Node::Atom(u64_atom(1)),
                arena_wf(arena@),
                arena@ == a2 + Seq::new((i - 1) as nat, |k: int|
                    Node::Mul(Edge::NodeRef(q.root), if k == 0 { Edge::Atom(u64_atom(1)) } else { Edge::NodeRef((a1.len() + k) as usize) })),
                current.root == arena@.len() - 1,
                powers@.len() == i,
                forall|k: int| 0 <= k < i ==> (#[trigger] powers@[k]).root == a1.len() + k,
            decreases len - i,
        {
            let ghost before = arena@;
            proof {
                assert(before[q.root as int] == a2[q.root as int]);
                if i == 1 {
                    assert(before =~= a2);
                    assert(before[current.root as int] == Node::Atom(u64_atom(1)));
                } else {
                    assert(before[current.root as int] is Mul);
                }
            }
            current = MleAst::mul(arena, q, current);
            powers.push(current);
            i += 1;
            proof {
                assert(arena@ =~= a2 + Seq::new((i - 1) as nat, |k: int|
                    Node::Mul(Edge::NodeRef(q.root), if k == 0 { Edge::Atom(u64_atom(1)) } else { Edge::NodeRef((a1.len() + k) as usize) })));
            }
        }
        proof {
            assert(final(arena)@.subrange(0, old(arena)@.len() + 3int) =~= a1);
            assert(final(arena)@ =~= a1 + optimized_power_nodes(old(arena)@.len() + 3, (old(arena)@.len() + 2) as usize, len as nat));
        }
        powers
    }
}

} // verus!
