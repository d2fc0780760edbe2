//! Poseidon transcript for symbolic execution.
//!
//! Records the transcript's hashes as arena nodes instead of computing them,
//! with the same structure as the concrete transcript:
//! width-3 Poseidon `hash(state, n_rounds, data)`, domain separation by the
//! round counter, and the same chunking of byte strings.

use vstd::prelude::*;
use crate::bytes::le_nat;
use crate::symbolize::{chunk32, num_chunks32, padded};
use crate::text::{ascii_bytes, char_bytes};
use crate::mle_ast::{arena_wf, edge_of, i128_scalar_val, valid, Arena, Atom, Edge, MleAst, Node, TranscriptHashData};
use crate::scalar::{limbs_val, modulus};
use crate::ast_evaluator::{fr_from_le_bytes_mod_order, le_repr, lemma_le_repr};

verus! {

/// The field constant `v` as an atom.
pub open spec fn u64_atom(v: u64) -> Atom {
    Atom::Scalar([v, 0u64, 0u64, 0u64])
}

/// A Poseidon hash node of (state, round, data).
pub open spec fn pos_node(state: Edge, round: Edge, data: Edge) -> Node {
    Node::TranscriptHash(TranscriptHashData::Poseidon(data), state, round)
}

/// The field element a label (at most 32 bytes) stands for: its bytes read
/// as a little-endian number, reduced modulo `p`.
pub open spec fn label_value(label: Seq<u8>) -> nat {
    le_nat(label) % modulus()
}

/// A constant atom whose value is `v`.
pub open spec fn is_const_atom(a: Atom, v: nat) -> bool {
    a matches Atom::Scalar(l) && limbs_val(l) == v
}

/// Poseidon transcript state: the current symbolic state and the round counter.
pub struct PoseidonMleTranscript {
    /// Current state (symbolic field element).
    pub state: MleAst,
    /// Round counter for domain separation.
    pub n_rounds: u32,
}

/// The nodes `challenge_mle` appends: the round constant, zero, and the hash.
pub open spec fn challenge_nodes(state: Edge, n: u32) -> Seq<Node> {
    seq![
        Node::Atom(u64_atom(n as u64)),
        Node::Atom(u64_atom(0)),
        pos_node(state, Edge::Atom(u64_atom(n as u64)), Edge::Atom(u64_atom(0))),
    ]
}

/// The nodes of `len` successive challenges appended at index `base`,
/// starting from `state` and round `n`.
pub open spec fn challenge_chain(base: nat, state: Edge, n: nat, len: nat) -> Seq<Node>
    decreases len,
{
    if len == 0 {
        seq![]
    } else {
        challenge_nodes(state, n as u32) + challenge_chain(base + 3, Edge::NodeRef((base + 2) as usize), n + 1, (len - 1) as nat)
    }
}

/// The hash nodes `append_field_elements` appends after the round constant
/// and zero (which sit at `base` and `base + 1`): the first element is hashed
/// with the round counter, each further one with zero.
pub open spec fn field_chain(base: nat, state: Edge, n: u32, data: Seq<Edge>) -> Seq<Node> {
    if data.len() == 0 {
        seq![pos_node(state, Edge::Atom(u64_atom(n as u64)), Edge::Atom(u64_atom(0)))]
    } else {
        Seq::new(data.len(), |k: int|
            if k == 0 {
                pos_node(state, Edge::Atom(u64_atom(n as u64)), data[0])
            } else {
                pos_node(Edge::NodeRef((base + 2 + k - 1) as usize), Edge::Atom(u64_atom(0)), data[k])
            })
    }
}

impl PoseidonMleTranscript {
    /// Converts a label to a field constant: its bytes read little-endian,
    /// reduced modulo `p` (as `Fr::from_le_bytes_mod_order` of the label
    /// zero-padded to 32 bytes).
    pub fn label_to_field(arena: &mut Arena, label: &[u8]) -> (r: MleAst)
        requires
            label@.len() <= 32,
            old(arena)@.len() < usize::MAX,
            arena_wf(old(arena)@),
        ensures
            final(arena)@.len() == old(arena)@.len() + 1,
            final(arena)@.subrange(0, old(arena)@.len() as int) == old(arena)@,
            final(arena)@[old(arena)@.len() as int] matches Node::Atom(a) && is_const_atom(a, label_value(label@)),
            r.root == old(arena)@.len(),
            arena_wf(final(arena)@),
    {
        let l = fr_from_le_bytes_mod_order(label);
        let r = MleAst::from_scalar(arena, l);
        assert(final(arena)@.subrange(0, old(arena)@.len() as int) =~= old(arena)@);
        r
    }

    /// A new transcript whose state is `poseidon(label, 0, 0)`.
    pub fn new_mle(arena: &mut Arena, label: &[u8]) -> (r: Self)
        requires
            label@.len() <= 32,
            old(arena)@.len() + 4 < usize::MAX,
            arena_wf(old(arena)@),
        ensures
            final(arena)@.len() == old(arena)@.len() + 4,
            final(arena)@.subrange(0, old(arena)@.len() as int) == old(arena)@,
            final(arena)@[old(arena)@.len() as int] matches Node::Atom(a) && is_const_atom(a, label_value(label@))
                && final(arena)@[old(arena)@.len() + 3int] == pos_node(Edge::Atom(a), Edge::Atom(u64_atom(0)), Edge::Atom(u64_atom(0))),
            final(arena)@[old(arena)@.len() + 1int] == Node::Atom(u64_atom(0)),
            final(arena)@[old(arena)@.len() + 2int] == Node::Atom(u64_atom(0)),
            r.state.root == old(arena)@.len() + 3,
            r.n_rounds == 0,
            arena_wf(final(arena)@),
    {
        let label_field = Self::label_to_field(arena, label);
        let z1 = MleAst::from_u64(arena, 0);
        let z2 = MleAst::from_u64(arena, 0);
        let initial_state = MleAst::poseidon(arena, label_field, z1, z2);
        assert(final(arena)@.subrange(0, old(arena)@.len() as int) =~= old(arena)@);
        PoseidonMleTranscript { state: initial_state, n_rounds: 0 }
    }

    /// A new transcript (same as `new_mle`).
    pub fn new(arena: &mut Arena, label: &[u8]) -> (r: Self)
        requires
            label@.len() <= 32,
            old(arena)@.len() + 4 < usize::MAX,
            arena_wf(old(arena)@),
        ensures
            final(arena)@.len() == old(arena)@.len() + 4,
            final(arena)@.subrange(0, old(arena)@.len() as int) == old(arena)@,
            final(arena)@[old(arena)@.len() as int] matches Node::Atom(a) && is_const_atom(a, label_value(label@))
                && final(arena)@[old(arena)@.len() + 3int] == pos_node(Edge::Atom(a), Edge::Atom(u64_atom(0)), Edge::Atom(u64_atom(0))),
            final(arena)@[old(arena)@.len() + 1int] == Node::Atom(u64_atom(0)),
            final(arena)@[old(arena)@.len() + 2int] == Node::Atom(u64_atom(0)),
            r.state.root == old(arena)@.len() + 3,
            r.n_rounds == 0,
            arena_wf(final(arena)@),
    {
        Self::new_mle(arena, label)
    }

    /// Hashes a field element with domain separation:
    /// `state = poseidon(state, n_rounds, element)`, then `n_rounds += 1`.
    pub fn hash_and_update(&mut self, arena: &mut Arena, element: MleAst)
        requires
            old(self).n_rounds < u32::MAX,
            old(arena)@.len() + 2 < usize::MAX,
            arena_wf(old(arena)@),
            valid(old(arena)@, old(self).state),
            valid(old(arena)@, element),
        ensures
            final(arena)@ == old(arena)@ + seq![
                Node::Atom(u64_atom(old(self).n_rounds as u64)),
                pos_node(edge_of(old(arena)@, old(self).state), Edge::Atom(u64_atom(old(self).n_rounds as u64)), edge_of(old(arena)@, element)),
            ],
            final(self).state.root == old(arena)@.len() + 1,
            final(self).n_rounds == old(self).n_rounds + 1,
            arena_wf(final(arena)@),
    {
        let round = MleAst::from_u64(arena, self.n_rounds as u64);
        proof {
            assert(edge_of(arena@, self.state) == edge_of(old(arena)@, self.state));
            assert(edge_of(arena@, element) == edge_of(old(arena)@, element));
        }
        self.state = MleAst::poseidon(arena, self.state, round, element);
        self.n_rounds = self.n_rounds + 1;
        assert(final(arena)@ =~= old(arena)@ + seq![
            Node::Atom(u64_atom(old(self).n_rounds as u64)),
            pos_node(edge_of(old(arena)@, old(self).state), Edge::Atom(u64_atom(old(self).n_rounds as u64)), edge_of(old(arena)@, element)),
        ]);
    }

    /// Derives a challenge: `poseidon(state, n_rounds, 0)`, which becomes the
    /// new state; `n_rounds += 1`.
    pub fn challenge_mle(&mut self, arena: &mut Arena) -> (r: MleAst)
        requires
            old(self).n_rounds < u32::MAX,
            old(arena)@.len() + 3 < usize::MAX,
            arena_wf(old(arena)@),
            valid(old(arena)@, old(self).state),
        ensures
            final(arena)@ == old(arena)@ + challenge_nodes(edge_of(old(arena)@, old(self).state), old(self).n_rounds),
            r.root == old(arena)@.len() + 2,
            final(self).state == r,
            final(self).n_rounds == old(self).n_rounds + 1,
            arena_wf(final(arena)@),
    {
        let round = MleAst::from_u64(arena, self.n_rounds as u64);
        let zero = MleAst::from_u64(arena, 0);
        proof {
            assert(edge_of(arena@, self.state) == edge_of(old(arena)@, self.state));
        }
        let challenge = MleAst::poseidon(arena, self.state, round, zero);
        self.state = challenge;
        self.n_rounds = self.n_rounds + 1;
        assert(final(arena)@ =~= old(arena)@ + challenge_nodes(edge_of(old(arena)@, old(self).state), old(self).n_rounds));
        challenge
    }

    /// Derives `len` challenges in turn.
    pub fn challenge_vector_mle(&mut self, arena: &mut Arena, len: usize) -> (r: Vec<MleAst>)
        requires
            old(self).n_rounds + len <= u32::MAX,
            old(arena)@.len() + 3 * len + 1 < usize::MAX,
            arena_wf(old(arena)@),
            valid(old(arena)@, old(self).state),
        ensures
            final(arena)@ == old(arena)@ + challenge_chain(old(arena)@.len(), edge_of(old(arena)@, old(self).state), old(self).n_rounds as nat, len as nat),
            r@.len() == len,
            forall|k: int| 0 <= k < len ==> (#[trigger] r@[k]).root == old(arena)@.len() + 3 * k + 2,
            final(self).n_rounds == old(self).n_rounds + len,
            len > 0 ==> final(self).state == r@[len - 1],
            len == 0 ==> final(self).state == old(self).state,
            arena_wf(final(arena)@),
    {
        let mut r: Vec<MleAst> = Vec::new();
        let mut i: usize = 0;
        proof {
            assert(old(arena)@ + challenge_chain(old(arena)@.len(), edge_of(old(arena)@, old(self).state), old(self).n_rounds as nat, len as nat)
                =~= arena@ + challenge_chain(arena@.len(), edge_of(arena@, self.state), self.n_rounds as nat, (len - i) as nat));
        }
        while i < len
            invariant
                i <= len,
                self.n_rounds == old(self).n_rounds + i,
                old(self).n_rounds + len <= u32::MAX,
                arena@.len() == old(arena)@.len() + 3 * i,
                old(arena)@.len() + 3 * len + 1 < usize::MAX,
                arena_wf(arena@),
                valid(arena@, self.state),
                i > 0 ==> self.state.root == arena@.len() - 1,
                i == 0 ==> self.state == old(self).state,
                i > 0 ==> self.state == r@[i - 1],
                r@.len() == i,
                forall|k: int| 0 <= k < i ==> (#[trigger] r@[k]).root == old(arena)@.len() + 3 * k + 2,
                old(arena)@ + challenge_chain(old(arena)@.len(), edge_of(old(arena)@, old(self).state), old(self).n_rounds as nat, len as nat)
                    == arena@ + challenge_chain(arena@.len(), edge_of(arena@, self.state), self.n_rounds as nat, (len - i) as nat),
            decreases len - i,
        {
            let ghost a0 = arena@;
            let ghost s0 = self.state;
            let ghost n0 = self.n_rounds;
            let c = self.challenge_mle(arena);
            r.push(c);
            i += 1;
            proof {
                assert(edge_of(arena@, self.state) == Edge::NodeRef((a0.len() + 2) as usize)) by {
                    assert(arena@[c.root as int] == pos_node(edge_of(a0, s0), Edge::Atom(u64_atom(n0 as u64)), Edge::Atom(u64_atom(0))));
                }
                assert(challenge_chain(a0.len(), edge_of(a0, s0), n0 as nat, (len - i + 1) as nat)
                    == challenge_nodes(edge_of(a0, s0), n0) + challenge_chain(a0.len() + 3, Edge::NodeRef((a0.len() + 2) as usize), (n0 + 1) as nat, (len - i) as nat));
                assert(a0 + challenge_chain(a0.len(), edge_of(a0, s0), n0 as nat, (len - i + 1) as nat)
                    =~= arena@ + challenge_chain(arena@.len(), edge_of(arena@, self.state), self.n_rounds as nat, (len - i) as nat));
            }
        }
        proof {
            assert(arena@ + challenge_chain(arena@.len(), edge_of(arena@, self.state), self.n_rounds as nat, 0) =~= arena@);
        }
        r
    }

    /// Appends symbolic field elements (each standing for one 32-byte chunk):
    /// the first is hashed with the round counter, the rest are chained with
    /// zero; `n_rounds += 1`.
    pub fn append_field_elements(&mut self, arena: &mut Arena, elements: &[MleAst])
        requires
            old(self).n_rounds < u32::MAX,
            old(arena)@.len() + elements@.len() + 3 < usize::MAX,
            arena_wf(old(arena)@),
            valid(old(arena)@, old(self).state),
            forall|k: int| 0 <= k < elements@.len() ==> valid(old(arena)@, #[trigger] elements@[k]),
        ensures
            final(arena)@ == old(arena)@ + seq![Node::Atom(u64_atom(old(self).n_rounds as u64)), Node::Atom(u64_atom(0))]
                + field_chain(old(arena)@.len(), edge_of(old(arena)@, old(self).state), old(self).n_rounds,
                    elements@.map_values(|h: MleAst| edge_of(old(arena)@, h))),
            final(self).state.root == final(arena)@.len() - 1,
            final(self).n_rounds == old(self).n_rounds + 1,
            arena_wf(final(arena)@),
    {
        let ghost base = old(arena)@.len();
        let ghost data = elements@.map_values(|h: MleAst| edge_of(old(arena)@, h));
        let ghost s0 = edge_of(old(arena)@, old(self).state);
        let round = MleAst::from_u64(arena, self.n_rounds as u64);
        let zero = MleAst::from_u64(arena, 0);
        let ghost head = arena@;
        proof {
            assert(head[base + 1int] == Node::Atom(u64_atom(0)));
            assert(edge_of(arena@, self.state) == s0);
        }
        let mut current;
        if elements.len() == 0 {
            current = MleAst::poseidon(arena, self.state, round, zero);
            proof {
                assert(arena@ =~= head + field_chain(base, s0, old(self).n_rounds, data));
            }
        } else {
            proof {
                assert(edge_of(arena@, elements@[0]) == data[0]);
            }
            current = MleAst::poseidon(arena, self.state, round, elements[0]);
            let mut i: usize = 1;
            proof {
                assert(arena@ =~= head + field_chain(base, s0, old(self).n_rounds, data).subrange(0, 1));
            }
            while i < elements.len()
                invariant
                    1 <= i <= elements@.len(),
                    head.len() == base + 2,
                    head[base + 1int] == Node::Atom(u64_atom(0)),
                    zero.root == base + 1,
                    data.len() == elements@.len(),
                    forall|k: int| 0 <= k < elements@.len() ==> valid(old(arena)@, #[trigger] elements@[k]),
                    forall|k: int| 0 <= k < elements@.len() ==> #[trigger] data[k] == edge_of(old(arena)@, elements@[k]),
                    old(arena)@.len() + elements@.len() + 3 < usize::MAX,
                    arena_wf(arena@),
                    arena@ == head + field_chain(base, s0, old(self).n_rounds, data).subrange(0, i as int),
                    current.root == arena@.len() - 1,
                    arena@.subrange(0, base as int) == old(arena)@,
                decreases elements@.len() - i,
            {
                proof {
                    assert(arena@[base + 1int] == Node::Atom(u64_atom(0))) by {
                        assert(head[base + 1int] == Node::Atom(u64_atom(0)));
                    }
                    assert(edge_of(arena@, zero) == Edge::Atom(u64_atom(0)));
                    assert(valid(old(arena)@, elements@[i as int]));
                    assert(arena@[elements@[i as int].root as int] == old(arena)@[elements@[i as int].root as int]);
                    assert(edge_of(arena@, elements@[i as int]) == data[i as int]);
                    assert(arena@[current.root as int] is TranscriptHash);
                }
                let ghost prev = arena@;
                current = MleAst::poseidon(arena, current, zero, elements[i]);
                i += 1;
                proof {
                    assert(arena@ =~= head + field_chain(base, s0, old(self).n_rounds, data).subrange(0, i as int));
                    assert(arena@.subrange(0, base as int) =~= prev.subrange(0, base as int));
                }
            }
            proof {
                assert(field_chain(base, s0, old(self).n_rounds, data).subrange(0, i as int) =~= field_chain(base, s0, old(self).n_rounds, data));
            }
        }
        self.state = current;
        self.n_rounds = self.n_rounds + 1;
    }

    /// Appends a symbolic `u64` (hashed like any field element).
    pub fn append_u64_symbolic(&mut self, arena: &mut Arena, value: MleAst)
        requires
            old(self).n_rounds < u32::MAX,
            old(arena)@.len() + 2 < usize::MAX,
            arena_wf(old(arena)@),
            valid(old(arena)@, old(self).state),
            valid(old(arena)@, value),
        ensures
            final(arena)@ == old(arena)@ + seq![
                Node::Atom(u64_atom(old(self).n_rounds as u64)),
                pos_node(edge_of(old(arena)@, old(self).state), Edge::Atom(u64_atom(old(self).n_rounds as u64)), edge_of(old(arena)@, value)),
            ],
            final(self).state.root == old(arena)@.len() + 1,
            final(self).n_rounds == old(self).n_rounds + 1,
            arena_wf(final(arena)@),
    {
        self.hash_and_update(arena, value);
    }
}

} // verus!

verus! {

/// The field constant a byte string of at most 32 bytes is absorbed as: the
/// string zero-extended to 32 bytes, read as a little-endian number modulo `p`.
pub open spec fn word_value(bytes: Seq<u8>) -> nat {
    le_nat(padded(bytes, 32)) % modulus()
}

/// The constant of the `k`-th 32-byte chunk of `bytes`.
pub open spec fn chunk_value(bytes: Seq<u8>, k: int) -> nat {
    le_nat(chunk32(bytes, k)) % modulus()
}

/// The 32-byte word a `u64` is packed into: 24 zero bytes, then the
/// number's 8 bytes, most significant first.
pub open spec fn u64_word(x: u64) -> Seq<u8> {
    Seq::new(24, |i: int| 0u8) + le_repr(x as nat, 8).reverse()
}

/// The nodes an absorbed constant of value `v` adds: the constant, the
/// round constant, and the hash of the state with them.
pub open spec fn absorbs_const(a: Seq<Node>, b: Seq<Node>, state: Edge, n: u32, v: nat) -> bool {
    &&& b.len() == a.len() + 3
    &&& b.subrange(0, a.len() as int) == a
    &&& b[a.len() as int] matches Node::Atom(c) && is_const_atom(c, v)
    &&& b[a.len() + 1int] == Node::Atom(u64_atom(n as u64))
    &&& b[a.len() + 2int] == pos_node(state, Edge::Atom(u64_atom(n as u64)), edge_of(b, MleAst { root: a.len() as usize }))
}

/// `b` is `a` after absorbing `bytes` in 32-byte chunks from `state` at
/// round `n`: the round constant and zero, then per chunk its constant and a
/// hash — the first with the round counter, each further one chained from
/// the previous hash with zero. Without bytes, one hash of zero.
pub open spec fn absorbs_bytes(a: Seq<Node>, b: Seq<Node>, state: Edge, n: u32, bytes: Seq<u8>) -> bool {
    let base = a.len();
    let m = num_chunks32(bytes.len());
    &&& b.subrange(0, base as int) == a
    &&& b[base as int] == Node::Atom(u64_atom(n as u64))
    &&& b[base + 1int] == Node::Atom(u64_atom(0))
    &&& if m == 0 {
        &&& b.len() == base + 3
        &&& b[base + 2int] == pos_node(state, Edge::Atom(u64_atom(n as u64)), Edge::Atom(u64_atom(0)))
    } else {
        &&& b.len() == base + 2 + 2 * m
        &&& forall|k: int| 0 <= k < m ==> {
            &&& (#[trigger] b[base + 2 + 2 * k]) matches Node::Atom(c) && is_const_atom(c, chunk_value(bytes, k))
            &&& b[base + 3 + 2 * k] == pos_node(
                if k == 0 { state } else { Edge::NodeRef((base + 1 + 2 * k) as usize) },
                if k == 0 { Edge::Atom(u64_atom(n as u64)) } else { Edge::Atom(u64_atom(0)) },
                edge_of(b, MleAst { root: (base + 2 + 2 * k) as usize }))
        }
    }
}

/// The 32 bytes from `bytes[from..]`, zero-extended.
fn chunk_bytes(bytes: &[u8], from: usize) -> (r: Vec<u8>)
    requires
        from <= bytes@.len(),
    ensures
        r@ == padded(bytes@.subrange(from as int, bytes@.len() as int), 32),
{
    let n = bytes.len();
    let mut buf: Vec<u8> = Vec::new();
    let mut j: usize = 0;
    let ghost rest = bytes@.subrange(from as int, n as int);
    while j < 32
        invariant
            j <= 32,
            from <= n,
            n == bytes@.len(),
            rest == bytes@.subrange(from as int, n as int),
            buf@ == padded(rest, 32).subrange(0, j as int),
        decreases 32 - j,
    {
        if j < n - from {
            buf.push(bytes[from + j]);
        } else {
            buf.push(0u8);
        }
        j += 1;
        assert(buf@ =~= padded(rest, 32).subrange(0, j as int));
    }
    assert(buf@ =~= padded(rest, 32));
    buf
}

proof fn lemma_chunk_value(bytes: Seq<u8>, k: int)
    requires
        0 <= k,
        32 * k <= bytes.len(),
    ensures
        padded(bytes.subrange(32 * k, bytes.len() as int), 32) == chunk32(bytes, k),
{
    assert(padded(bytes.subrange(32 * k, bytes.len() as int), 32) =~= chunk32(bytes, k));
}

impl PoseidonMleTranscript {
    /// Absorbs a constant of the given value: the constant, then `hash_and_update`.
    fn absorb_i128(&mut self, arena: &mut Arena, value: i128)
        requires
            old(self).n_rounds < u32::MAX,
            old(arena)@.len() + 3 < usize::MAX,
            arena_wf(old(arena)@),
            valid(old(arena)@, old(self).state),
        ensures
            absorbs_const(old(arena)@, final(arena)@, edge_of(old(arena)@, old(self).state), old(self).n_rounds,
                i128_scalar_val(value as int)),
            final(self).state.root == old(arena)@.len() + 2,
            final(self).n_rounds == old(self).n_rounds + 1,
            arena_wf(final(arena)@),
    {
        let c = MleAst::from_i128(arena, value);
        proof {
            assert(edge_of(arena@, self.state) == edge_of(old(arena)@, self.state));
        }
        let ghost mid = arena@;
        self.hash_and_update(arena, c);
        proof {
            assert(final(arena)@.subrange(0, old(arena)@.len() as int) =~= old(arena)@);
            assert(final(arena)@[old(arena)@.len() as int] == mid[old(arena)@.len() as int]);
            assert(edge_of(final(arena)@, MleAst { root: old(arena)@.len() as usize }) == edge_of(mid, c));
        }
    }

    /// Absorbs the field element `bytes` stand for (little-endian, modulo
    /// `p`): the constant, then `hash_and_update`.
    fn absorb_le_bytes(&mut self, arena: &mut Arena, bytes: &[u8])
        requires
            old(self).n_rounds < u32::MAX,
            old(arena)@.len() + 3 < usize::MAX,
            arena_wf(old(arena)@),
            valid(old(arena)@, old(self).state),
        ensures
            absorbs_const(old(arena)@, final(arena)@, edge_of(old(arena)@, old(self).state), old(self).n_rounds,
                le_nat(bytes@) % modulus()),
            final(self).state.root == old(arena)@.len() + 2,
            final(self).n_rounds == old(self).n_rounds + 1,
            arena_wf(final(arena)@),
    {
        let l = fr_from_le_bytes_mod_order(bytes);
        let c = MleAst::from_scalar(arena, l);
        proof {
            assert(edge_of(arena@, self.state) == edge_of(old(arena)@, self.state));
        }
        let ghost mid = arena@;
        self.hash_and_update(arena, c);
        proof {
            assert(final(arena)@.subrange(0, old(arena)@.len() as int) =~= old(arena)@);
            assert(final(arena)@[old(arena)@.len() as int] == mid[old(arena)@.len() as int]);
            assert(edge_of(final(arena)@, MleAst { root: old(arena)@.len() as usize }) == edge_of(mid, c));
        }
    }

    /// Absorbs a static message of at most 32 bytes as one constant
    /// (`append_message`).
    pub fn append_message(&mut self, arena: &mut Arena, msg: &[u8])
        requires
            msg@.len() <= 32,
            old(self).n_rounds < u32::MAX,
            old(arena)@.len() + 3 < usize::MAX,
            arena_wf(old(arena)@),
            valid(old(arena)@, old(self).state),
        ensures
            absorbs_const(old(arena)@, final(arena)@, edge_of(old(arena)@, old(self).state), old(self).n_rounds,
                word_value(msg@)),
            final(self).state.root == old(arena)@.len() + 2,
            final(self).n_rounds == old(self).n_rounds + 1,
            arena_wf(final(arena)@),
    {
        let w = chunk_bytes(msg, 0);
        assert(msg@.subrange(0, msg@.len() as int) =~= msg@);
        self.absorb_le_bytes(arena, w.as_slice());
    }

    /// Absorbs a `u64` the way the concrete transcript packs it: big-endian
    /// into the last 8 of 32 bytes, the word read as a little-endian field
    /// element (`append_u64`).
    pub fn append_u64(&mut self, arena: &mut Arena, x: u64)
        requires
            old(self).n_rounds < u32::MAX,
            old(arena)@.len() + 3 < usize::MAX,
            arena_wf(old(arena)@),
            valid(old(arena)@, old(self).state),
        ensures
            absorbs_const(old(arena)@, final(arena)@, edge_of(old(arena)@, old(self).state), old(self).n_rounds,
                le_nat(u64_word(x)) % modulus()),
            final(self).state.root == old(arena)@.len() + 2,
            final(self).n_rounds == old(self).n_rounds + 1,
            arena_wf(final(arena)@),
    {
        let mut packed: Vec<u8> = Vec::new();
        let mut j: usize = 0;
        while j < 24
            invariant
                j <= 24,
                packed@.len() == j,
                forall|i: int| 0 <= i < j ==> packed@[i] == 0u8,
            decreases 24 - j,
        {
            packed.push(0u8);
            j += 1;
        }
        let be = crate::bytes::u64_le_bytes(x);
        proof {
            lemma_le_repr(be@);
        }
        let mut k: usize = 8;
        while k > 0
            invariant
                k <= 8,
                be@.len() == 8,
                be@ == le_repr(x as nat, 8),
                packed@.len() == 32 - k,
                forall|i: int| 0 <= i < 24 ==> packed@[i] == 0u8,
                forall|i: int| 24 <= i < 32 - k ==> packed@[i] == be@[31 - i],
            decreases k,
        {
            k -= 1;
            packed.push(be[k]);
        }
        assert(packed@ =~= u64_word(x));
        self.absorb_le_bytes(arena, packed.as_slice());
    }

    /// Absorbs a symbolic scalar (`append_scalar`).
    pub fn append_scalar(&mut self, arena: &mut Arena, scalar: MleAst)
        requires
            old(self).n_rounds < u32::MAX,
            old(arena)@.len() + 2 < usize::MAX,
            arena_wf(old(arena)@),
            valid(old(arena)@, old(self).state),
            valid(old(arena)@, scalar),
        ensures
            final(arena)@ == old(arena)@ + seq![
                Node::Atom(u64_atom(old(self).n_rounds as u64)),
                pos_node(edge_of(old(arena)@, old(self).state), Edge::Atom(u64_atom(old(self).n_rounds as u64)), edge_of(old(arena)@, scalar)),
            ],
            final(self).state.root == old(arena)@.len() + 1,
            final(self).n_rounds == old(self).n_rounds + 1,
            arena_wf(final(arena)@),
    {
        self.hash_and_update(arena, scalar);
    }

    /// Absorbs a value with no symbolic content (a serialized object or a
    /// curve point) as the constant 0 (`append_serializable`, `append_point`).
    pub fn append_serializable(&mut self, arena: &mut Arena)
        requires
            old(self).n_rounds < u32::MAX,
            old(arena)@.len() + 3 < usize::MAX,
            arena_wf(old(arena)@),
            valid(old(arena)@, old(self).state),
        ensures
            absorbs_const(old(arena)@, final(arena)@, edge_of(old(arena)@, old(self).state), old(self).n_rounds, 0),
            final(self).state.root == old(arena)@.len() + 2,
            final(self).n_rounds == old(self).n_rounds + 1,
            arena_wf(final(arena)@),
    {
        self.absorb_i128(arena, 0);
    }

    /// Absorbs a byte string in 32-byte chunks (`append_bytes`).
    pub fn append_bytes(&mut self, arena: &mut Arena, bytes: &[u8])
        requires
            old(self).n_rounds < u32::MAX,
            old(arena)@.len() + 2 * bytes@.len() + 5 < usize::MAX,
            arena_wf(old(arena)@),
            valid(old(arena)@, old(self).state),
        ensures
            absorbs_bytes(old(arena)@, final(arena)@, edge_of(old(arena)@, old(self).state), old(self).n_rounds, bytes@),
            final(self).state.root == final(arena)@.len() - 1,
            final(self).n_rounds == old(self).n_rounds + 1,
            arena_wf(final(arena)@),
    {
        let ghost base = old(arena)@.len();
        let ghost s0 = edge_of(old(arena)@, old(self).state);
        let ghost n0 = old(self).n_rounds;
        let n = bytes.len();
        let round = MleAst::from_u64(arena, self.n_rounds as u64);
        let zero = MleAst::from_u64(arena, 0);
        proof {
            assert(edge_of(arena@, self.state) == s0);
        }
        if n == 0 {
            let h = MleAst::poseidon(arena, self.state, round, zero);
            self.state = h;
            self.n_rounds = self.n_rounds + 1;
            proof {
                assert(arena@.subrange(0, base as int) =~= old(arena)@);
            }
            return;
        }
        let m = n / 32 + if n % 32 == 0 { 0 } else { 1 };
        let mut current = self.state;
        let mut k: usize = 0;
        while k < m
            invariant
                n == bytes@.len(),
                n > 0,
                m == num_chunks32(n as nat),
                k <= m,
                base == old(arena)@.len(),
                base + 2 * n + 5 < usize::MAX,
                arena@.len() == base + 2 + 2 * k,
                arena@.subrange(0, base as int) == old(arena)@,
                arena@[base as int] == Node::Atom(u64_atom(n0 as u64)),
                arena@[base + 1int] == Node::Atom(u64_atom(0)),
                round.root == base,
                zero.root == base + 1,
                arena_wf(arena@),
                k == 0 ==> edge_of(arena@, current) == s0 && valid(arena@, current),
                k > 0 ==> current.root == arena@.len() - 1,
                forall|j: int| 0 <= j < k ==> {
                    &&& (#[trigger] arena@[base + 2 + 2 * j]) matches Node::Atom(c) && is_const_atom(c, chunk_value(bytes@, j))
                    &&& arena@[base + 3 + 2 * j] == pos_node(
                        if j == 0 { s0 } else { Edge::NodeRef((base + 1 + 2 * j) as usize) },
                        if j == 0 { Edge::Atom(u64_atom(n0 as u64)) } else { Edge::Atom(u64_atom(0)) },
                        edge_of(arena@, MleAst { root: (base + 2 + 2 * j) as usize }))
                },
            decreases m - k,
        {
            assert(32 * k < n);
            let w = chunk_bytes(bytes, 32 * k);
            let l = fr_from_le_bytes_mod_order(w.as_slice());
            proof {
                lemma_chunk_value(bytes@, k as int);
            }
            let ghost before = arena@;
            let ghost kk = k as int;
            let c = MleAst::from_scalar(arena, l);
            let ghost mid = arena@;
            proof {
                assert(mid[base as int] == before[base as int]);
                assert(mid[base + 1int] == before[base + 1int]);
                assert(edge_of(mid, round) == Edge::Atom(u64_atom(n0 as u64)));
                assert(edge_of(mid, zero) == Edge::Atom(u64_atom(0)));
                if k == 0 {
                    assert(mid[current.root as int] == before[current.root as int]);
                    assert(edge_of(mid, current) == s0);
                } else {
                    let t = before[base + 2 + 2 * (kk - 1)];
                    assert(before[base + 3 + 2 * (kk - 1)] is TranscriptHash);
                    assert(mid[current.root as int] == before[current.root as int]);
                    assert(edge_of(mid, current) == Edge::NodeRef((base + 1 + 2 * kk) as usize));
                }
                assert(mid[base + 2 + 2 * kk] matches Node::Atom(a) && is_const_atom(a, chunk_value(bytes@, kk)));
            }
            let h = if k == 0 {
                MleAst::poseidon(arena, current, round, c)
            } else {
                MleAst::poseidon(arena, current, zero, c)
            };
            current = h;
            k += 1;
            proof {
                assert(arena@.subrange(0, base as int) =~= old(arena)@) by {
                    assert(arena@.subrange(0, base as int) =~= before.subrange(0, base as int));
                }
                assert(arena@[base + 3 + 2 * kk] == pos_node(
                    if kk == 0 { s0 } else { Edge::NodeRef((base + 1 + 2 * kk) as usize) },
                    if kk == 0 { Edge::Atom(u64_atom(n0 as u64)) } else { Edge::Atom(u64_atom(0)) },
                    edge_of(mid, c)));
                assert(edge_of(arena@, MleAst { root: (base + 2 + 2 * kk) as usize }) == edge_of(mid, c));
                assert forall|j: int| 0 <= j < k implies {
                    &&& (#[trigger] arena@[base + 2 + 2 * j]) matches Node::Atom(c) && is_const_atom(c, chunk_value(bytes@, j))
                    &&& arena@[base + 3 + 2 * j] == pos_node(
                        if j == 0 { s0 } else { Edge::NodeRef((base + 1 + 2 * j) as usize) },
                        if j == 0 { Edge::Atom(u64_atom(n0 as u64)) } else { Edge::Atom(u64_atom(0)) },
                        edge_of(arena@, MleAst { root: (base + 2 + 2 * j) as usize }))
                } by {
                    if j < kk {
                        assert(arena@[base + 2 + 2 * j] == before[base + 2 + 2 * j]);
                        assert(arena@[base + 3 + 2 * j] == before[base + 3 + 2 * j]);
                        assert(edge_of(arena@, MleAst { root: (base + 2 + 2 * j) as usize })
                            == edge_of(before, MleAst { root: (base + 2 + 2 * j) as usize }));
                    } else {
                        assert(arena@[base + 2 + 2 * j] == mid[base + 2 + 2 * j]);
                    }
                }
            }
        }
        self.state = current;
        self.n_rounds = self.n_rounds + 1;
        proof {
            assert(num_chunks32(n as nat) > 0);
        }
    }
}

/// `b` is `a` after absorbing the operands `data` one by one from `state`
/// at rounds `n, n + 1, ...`: per operand, its round constant and the hash of
/// the previous state, the round and the operand.
pub open spec fn absorbs_each(a: Seq<Node>, b: Seq<Node>, state: Edge, n: nat, data: Seq<Edge>) -> bool {
    &&& b.len() == a.len() + 2 * data.len()
    &&& b.subrange(0, a.len() as int) == a
    &&& forall|k: int| 0 <= k < data.len() ==> {
        &&& #[trigger] b[a.len() + 2 * k] == Node::Atom(u64_atom((n + k) as u64))
        &&& b[a.len() + 2 * k + 1] == pos_node(
            if k == 0 { state } else { Edge::NodeRef((a.len() + 2 * k - 1) as usize) },
            Edge::Atom(u64_atom((n + k) as u64)),
            data[k])
    }
}

/// `b` is `a` after absorbing `count` zeros from `state` at rounds
/// `n, n + 1, ...`: per zero, the constant, its round constant and the hash.
pub open spec fn absorbs_zeros(a: Seq<Node>, b: Seq<Node>, state: Edge, n: nat, count: nat) -> bool {
    &&& b.len() == a.len() + 3 * count
    &&& b.subrange(0, a.len() as int) == a
    &&& forall|k: int| 0 <= k < count ==> {
        &&& #[trigger] b[a.len() + 3 * k] matches Node::Atom(c) && is_const_atom(c, 0)
        &&& b[a.len() + 3 * k + 1] == Node::Atom(u64_atom((n + k) as u64))
        &&& b[a.len() + 3 * k + 2] == pos_node(
            if k == 0 { state } else { Edge::NodeRef((a.len() + 3 * k - 1) as usize) },
            Edge::Atom(u64_atom((n + k) as u64)),
            edge_of(b, MleAst { root: (a.len() + 3 * k) as usize }))
    }
}

/// The nodes `challenge_scalar_powers` appends after the challenge (at
/// `c`): the constant 1, then the products `1 * x`, `(1 * x) * x`, ...
pub open spec fn power_nodes(base: nat, c: usize, len: nat) -> Seq<Node> {
    seq![Node::Atom(u64_atom(1))] + Seq::new(len, |k: int|
        Node::Mul(if k == 0 { Edge::Atom(u64_atom(1)) } else { Edge::NodeRef((base + k) as usize) }, Edge::NodeRef(c)))
}

impl PoseidonMleTranscript {
    /// Absorbs symbolic scalars between the messages `begin_append_vector`
    /// and `end_append_vector` (`append_scalars`).
    pub fn append_scalars(&mut self, arena: &mut Arena, scalars: &[MleAst])
        requires
            old(self).n_rounds + scalars@.len() + 2 <= u32::MAX,
            old(arena)@.len() + 2 * scalars@.len() + 8 < usize::MAX,
            arena_wf(old(arena)@),
            valid(old(arena)@, old(self).state),
            forall|k: int| 0 <= k < scalars@.len() ==> valid(old(arena)@, #[trigger] scalars@[k]),
        ensures
            ({
                let a0 = old(arena)@;
                let n = old(self).n_rounds;
                let len = scalars@.len();
                let a1 = final(arena)@.subrange(0, a0.len() + 3int);
                let a2 = final(arena)@.subrange(0, a0.len() + 3 + 2 * len as int);
                &&& absorbs_const(a0, a1, edge_of(a0, old(self).state), n, word_value(char_bytes("begin_append_vector"@)))
                &&& absorbs_each(a1, a2, Edge::NodeRef((a0.len() + 2) as usize), (n + 1) as nat,
                    scalars@.map_values(|h: MleAst| edge_of(a0, h)))
                &&& absorbs_const(a2, final(arena)@, Edge::NodeRef((a2.len() - 1) as usize), (n + 1 + len) as u32,
                    word_value(char_bytes("end_append_vector"@)))
            }),
            final(self).state.root == final(arena)@.len() - 1,
            final(self).n_rounds == old(self).n_rounds + scalars@.len() + 2,
            arena_wf(final(arena)@),
    {
        let ghost a0 = old(arena)@;
        let ghost n0 = old(self).n_rounds as nat;
        let ghost data = scalars@.map_values(|h: MleAst| edge_of(a0, h));
        let begin = ascii_bytes("begin_append_vector");
        let end = ascii_bytes("end_append_vector");
        proof {
            reveal_strlit("begin_append_vector");
            reveal_strlit("end_append_vector");
        }
        self.append_message(arena, begin.as_slice());
        let ghost a1 = arena@;
        assert(arena@.subrange(0, a1.len() as int) =~= a1);
        let mut i: usize = 0;
        while i < scalars.len()
            invariant
                i <= scalars@.len(),
                a1.len() == a0.len() + 3,
                a1.subrange(0, a0.len() as int) == a0,
                n0 + scalars@.len() + 2 <= u32::MAX,
                a0.len() + 2 * scalars@.len() + 8 < usize::MAX,
                self.n_rounds == n0 + 1 + i,
                arena@.len() == a1.len() + 2 * i,
                self.state.root == arena@.len() - 1,
                arena@[self.state.root as int] is TranscriptHash,
                arena_wf(arena@),
                data.len() == scalars@.len(),
                forall|k: int| 0 <= k < scalars@.len() ==> valid(a0, #[trigger] scalars@[k]),
                forall|k: int| 0 <= k < scalars@.len() ==> #[trigger] data[k] == edge_of(a0, scalars@[k]),
                absorbs_each(a1, arena@, Edge::NodeRef((a0.len() + 2) as usize), n0 + 1, data.subrange(0, i as int)),
            decreases scalars@.len() - i,
        {
            let ghost before = arena@;
            let ghost st = self.state;
            proof {
                assert(before[scalars@[i as int].root as int] == a0[scalars@[i as int].root as int]) by {
                    assert(before.subrange(0, a0.len() as int) == a0) by {
                        assert(before.subrange(0, a0.len() as int) =~= before.subrange(0, a1.len() as int).subrange(0, a0.len() as int));
                    }
                }
                assert(edge_of(before, scalars@[i as int]) == data[i as int]);
                assert(edge_of(before, st) == if i == 0 { Edge::NodeRef((a0.len() + 2) as usize) } else {
                    Edge::NodeRef((a1.len() + 2 * i - 1) as usize) });
            }
            self.append_scalar(arena, scalars[i]);
            i += 1;
            proof {
                let d = data.subrange(0, i as int);
                assert(arena@.subrange(0, a1.len() as int) =~= before.subrange(0, a1.len() as int));
                assert forall|k: int| 0 <= k < d.len() implies {
                    &&& #[trigger] arena@[a1.len() + 2 * k] == Node::Atom(u64_atom((n0 + 1 + k) as u64))
                    &&& arena@[a1.len() + 2 * k + 1] == pos_node(
                        if k == 0 { Edge::NodeRef((a0.len() + 2) as usize) } else { Edge::NodeRef((a1.len() + 2 * k - 1) as usize) },
                        Edge::Atom(u64_atom((n0 + 1 + k) as u64)),
                        d[k])
                } by {
                    if k < i - 1 {
                        assert(arena@[a1.len() + 2 * k] == before[a1.len() + 2 * k]);
                        assert(arena@[a1.len() + 2 * k + 1] == before[a1.len() + 2 * k + 1]);
                        assert(data.subrange(0, i - 1)[k] == d[k]);
                    }
                }
            }
        }
        let ghost a2 = arena@;
        self.append_message(arena, end.as_slice());
        proof {
            assert(data.subrange(0, scalars@.len() as int) =~= data);
            assert(final(arena)@.subrange(0, a0.len() + 3int) =~= a1) by {
                assert(final(arena)@.subrange(0, a0.len() + 3int) =~= a2.subrange(0, a1.len() as int));
            }
            assert(final(arena)@.subrange(0, a2.len() as int) == a2);
            assert(edge_of(a2, old(self).state) == edge_of(a0, old(self).state)) by {
                assert(a2[old(self).state.root as int] == a0[old(self).state.root as int]) by {
                    assert(a2.subrange(0, a0.len() as int) =~= a0) by {
                        assert(a2.subrange(0, a0.len() as int) =~= a2.subrange(0, a1.len() as int).subrange(0, a0.len() as int));
                    }
                }
            }
        }
    }
}

impl PoseidonMleTranscript {
    /// Absorbs a curve point, which has no symbolic content, as the constant 0
    /// (`append_point`).
    pub fn append_point(&mut self, arena: &mut Arena)
        requires
            old(self).n_rounds < u32::MAX,
            old(arena)@.len() + 3 < usize::MAX,
            arena_wf(old(arena)@),
            valid(old(arena)@, old(self).state),
        ensures
            absorbs_const(old(arena)@, final(arena)@, edge_of(old(arena)@, old(self).state), old(self).n_rounds, 0),
            final(self).state.root == old(arena)@.len() + 2,
            final(self).n_rounds == old(self).n_rounds + 1,
            arena_wf(final(arena)@),
    {
        self.append_serializable(arena);
    }

    /// Absorbs `count` curve points (each as the constant 0) between the
    /// messages `begin_append_vector` and `end_append_vector` (`append_points`).
    pub fn append_points(&mut self, arena: &mut Arena, count: usize)
        requires
            old(self).n_rounds + count + 2 <= u32::MAX,
            old(arena)@.len() + 3 * count + 8 < usize::MAX,
            arena_wf(old(arena)@),
            valid(old(arena)@, old(self).state),
        ensures
            ({
                let a0 = old(arena)@;
                let n = old(self).n_rounds;
                let a1 = final(arena)@.subrange(0, a0.len() + 3int);
                let a2 = final(arena)@.subrange(0, a0.len() + 3 + 3 * count as int);
                &&& absorbs_const(a0, a1, edge_of(a0, old(self).state), n, word_value(char_bytes("begin_append_vector"@)))
                &&& absorbs_zeros(a1, a2, Edge::NodeRef((a0.len() + 2) as usize), (n + 1) as nat, count as nat)
                &&& absorbs_const(a2, final(arena)@, Edge::NodeRef((a2.len() - 1) as usize), (n + 1 + count) as u32,
                    word_value(char_bytes("end_append_vector"@)))
            }),
            final(self).state.root == final(arena)@.len() - 1,
            final(self).n_rounds == old(self).n_rounds + count + 2,
            arena_wf(final(arena)@),
    {
        let ghost a0 = old(arena)@;
        let ghost n0 = old(self).n_rounds as nat;
        let begin = ascii_bytes("begin_append_vector");
        let end = ascii_bytes("end_append_vector");
        proof {
            reveal_strlit("begin_append_vector");
            reveal_strlit("end_append_vector");
        }
        self.append_message(arena, begin.as_slice());
        let ghost a1 = arena@;
        assert(arena@.subrange(0, a1.len() as int) =~= a1);
        let mut i: usize = 0;
        while i < count
            invariant
                i <= count,
                a1.len() == a0.len() + 3,
                a1.subrange(0, a0.len() as int) == a0,
                n0 + count + 2 <= u32::MAX,
                a0.len() + 3 * count + 8 < usize::MAX,
                self.n_rounds == n0 + 1 + i,
                arena@.len() == a1.len() + 3 * i,
                self.state.root == arena@.len() - 1,
                arena@[self.state.root as int] is TranscriptHash,
                arena_wf(arena@),
                absorbs_zeros(a1, arena@, Edge::NodeRef((a0.len() + 2) as usize), n0 + 1, i as nat),
            decreases count - i,
        {
            let ghost before = arena@;
            let ghost st = self.state;
            proof {
                assert(edge_of(before, st) == if i == 0 { Edge::NodeRef((a0.len() + 2) as usize) } else {
                    Edge::NodeRef((a1.len() + 3 * i - 1) as usize) });
            }
            self.append_serializable(arena);
            i += 1;
            proof {
                assert(arena@.subrange(0, a1.len() as int) =~= before.subrange(0, a1.len() as int));
                assert forall|k: int| 0 <= k < i implies {
                    &&& #[trigger] arena@[a1.len() + 3 * k] matches Node::Atom(c) && is_const_atom(c, 0)
                    &&& arena@[a1.len() + 3 * k + 1] == Node::Atom(u64_atom((n0 + 1 + k) as u64))
                    &&& arena@[a1.len() + 3 * k + 2] == pos_node(
                        if k == 0 { Edge::NodeRef((a0.len() + 2) as usize) } else { Edge::NodeRef((a1.len() + 3 * k - 1) as usize) },
                        Edge::Atom(u64_atom((n0 + 1 + k) as u64)),
                        edge_of(arena@, MleAst { root: (a1.len() + 3 * k) as usize }))
                } by {
                    if k < i - 1 {
                        assert(arena@[a1.len() + 3 * k] == before[a1.len() + 3 * k]);
                        assert(arena@[a1.len() + 3 * k + 1] == before[a1.len() + 3 * k + 1]);
                        assert(arena@[a1.len() + 3 * k + 2] == before[a1.len() + 3 * k + 2]);
                    }
                }
            }
        }
        let ghost a2 = arena@;
        self.append_message(arena, end.as_slice());
        proof {
            assert(final(arena)@.subrange(0, a0.len() + 3int) =~= a1) by {
                assert(final(arena)@.subrange(0, a0.len() + 3int) =~= a2.subrange(0, a1.len() as int));
            }
            assert(final(arena)@.subrange(0, a2.len() as int) == a2);
            assert(a2.subrange(0, a1.len() as int) =~= a1);
        }
    }

    /// Derives a challenge and answers 0, as the symbolic transcript has no
    /// concrete value to give (`challenge_u128`).
    pub fn challenge_u128(&mut self, arena: &mut Arena) -> (r: u128)
        requires
            old(self).n_rounds < u32::MAX,
            old(arena)@.len() + 3 < usize::MAX,
            arena_wf(old(arena)@),
            valid(old(arena)@, old(self).state),
        ensures
            r == 0,
            final(arena)@ == old(arena)@ + challenge_nodes(edge_of(old(arena)@, old(self).state), old(self).n_rounds),
            final(self).state.root == old(arena)@.len() + 2,
            final(self).n_rounds == old(self).n_rounds + 1,
            arena_wf(final(arena)@),
    {
        let _ = self.challenge_mle(arena);
        0
    }

    /// Derives a challenge as a symbolic field element (`challenge_scalar`).
    pub fn challenge_scalar(&mut self, arena: &mut Arena) -> (r: MleAst)
        requires
            old(self).n_rounds < u32::MAX,
            old(arena)@.len() + 3 < usize::MAX,
            arena_wf(old(arena)@),
            valid(old(arena)@, old(self).state),
        ensures
            final(arena)@ == old(arena)@ + challenge_nodes(edge_of(old(arena)@, old(self).state), old(self).n_rounds),
            r.root == old(arena)@.len() + 2,
            final(self).state == r,
            final(self).n_rounds == old(self).n_rounds + 1,
            arena_wf(final(arena)@),
    {
        self.challenge_mle(arena)
    }

    /// Derives a 128-bit challenge; symbolically the same as
    /// `challenge_scalar` (`challenge_scalar_128_bits`).
    pub fn challenge_scalar_128_bits(&mut self, arena: &mut Arena) -> (r: MleAst)
        requires
            old(self).n_rounds < u32::MAX,
            old(arena)@.len() + 3 < usize::MAX,
            arena_wf(old(arena)@),
            valid(old(arena)@, old(self).state),
        ensures
            final(arena)@ == old(arena)@ + challenge_nodes(edge_of(old(arena)@, old(self).state), old(self).n_rounds),
            r.root == old(arena)@.len() + 2,
            final(self).state == r,
            final(self).n_rounds == old(self).n_rounds + 1,
            arena_wf(final(arena)@),
    {
        self.challenge_mle(arena)
    }

    /// Derives `len` challenges as symbolic field elements (`challenge_vector`).
    pub fn challenge_vector(&mut self, arena: &mut Arena, len: usize) -> (r: Vec<MleAst>)
        requires
            old(self).n_rounds + len <= u32::MAX,
            old(arena)@.len() + 3 * len + 1 < usize::MAX,
            arena_wf(old(arena)@),
            valid(old(arena)@, old(self).state),
        ensures
            final(arena)@ == old(arena)@ + challenge_chain(old(arena)@.len(), edge_of(old(arena)@, old(self).state), old(self).n_rounds as nat, len as nat),
            r@.len() == len,
            forall|k: int| 0 <= k < len ==> (#[trigger] r@[k]).root == old(arena)@.len() + 3 * k + 2,
            final(self).n_rounds == old(self).n_rounds + len,
            arena_wf(final(arena)@),
    {
        self.challenge_vector_mle(arena, len)
    }

    /// Derives one challenge `x` and returns its first `len` powers
    /// `1, x, x², ...` as symbolic products (`challenge_scalar_powers`).
    pub fn challenge_scalar_powers(&mut self, arena: &mut Arena, len: usize) -> (r: Vec<MleAst>)
        requires
            old(self).n_rounds < u32::MAX,
            old(arena)@.len() + len + 5 < usize::MAX,
            arena_wf(old(arena)@),
            valid(old(arena)@, old(self).state),
        ensures
            ({
                let a0 = old(arena)@;
                let c = (a0.len() + 2) as usize;
                final(arena)@ == a0 + challenge_nodes(edge_of(a0, old(self).state), old(self).n_rounds)
                    + power_nodes(a0.len() + 3, c, len as nat)
            }),
            r@.len() == len,
            forall|k: int| 0 <= k < len ==> (#[trigger] r@[k]).root == old(arena)@.len() + 3 + k,
            final(self).state.root == old(arena)@.len() + 2,
            final(self).n_rounds == old(self).n_rounds + 1,
            arena_wf(final(arena)@),
    {
        let base = self.challenge_mle(arena);
        let ghost a1 = arena@;
        let mut current = MleAst::from_u64(arena, 1);
        let ghost a2 = arena@;
        proof {
            assert(a2[base.root as int] == a1[base.root as int]);
            assert(edge_of(a2, base) == Edge::NodeRef(base.root));
        }
        let mut powers: Vec<MleAst> = Vec::new();
        let mut i: usize = 0;
        while i < len
            invariant
                i <= len,
                a2.len() == a1.len() + 1,
                a1.len() == old(arena)@.len() + 3,
                base.root == a1.len() - 1,
                old(arena)@.len() + len + 5 < usize::MAX,
                a2[base.root as int] is TranscriptHash,
                a2[a1.len() as int] == Node::Atom(u64_atom(1)),
                arena_wf(arena@),
                arena@ == a2 + Seq::new(i as nat, |k: int|
                    Node::Mul(if k == 0 { Edge::Atom(u64_atom(1)) } else { Edge::NodeRef((a1.len() + k) as usize) },
                        Edge::NodeRef(base.root))),
                current.root == arena@.len() - 1,
                powers@.len() == i,
                forall|k: int| 0 <= k < i ==> (#[trigger] powers@[k]).root == a1.len() + k,
            decreases len - i,
        {
            let ghost before = arena@;
            proof {
                assert(before[base.root as int] == a2[base.root as int]);
                if i == 0 {
                    assert(before =~= a2);
                    assert(before[current.root as int] == Node::Atom(u64_atom(1)));
                } else {
                    assert(before[current.root as int] is Mul);
                }
            }
            powers.push(current);
            current = MleAst::mul(arena, current, base);
            i += 1;
            proof {
                assert(arena@ =~= a2 + Seq::new(i as nat, |k: int|
                    Node::Mul(if k == 0 { Edge::Atom(u64_atom(1)) } else { Edge::NodeRef((a1.len() + k) as usize) },
                        Edge::NodeRef(base.root))));
            }
        }
        proof {
            assert(final(arena)@ =~= old(arena)@ + challenge_nodes(edge_of(old(arena)@, old(self).state), old(self).n_rounds)
                + power_nodes(old(arena)@.len() + 3, (old(arena)@.len() + 2) as usize, len as nat));
        }
        powers
    }
}

} // verus!
