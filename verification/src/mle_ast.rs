//! The symbolic expression arena: atoms, edges, nodes, and handles to nodes.
//!
//! Every operation on symbolic field elements appends a node to an arena; a
//! node may only refer to nodes that were allocated before it, so node ids
//! give a topological order of the expression DAG.

use vstd::prelude::*;
use crate::scalar::{limbs_val, neg_mod_spec, scalar_neg_mod};

verus! {

/// A leaf of an expression.
#[derive(Clone, Copy, Debug, PartialEq, Eq)]
pub enum Atom {
    /// A field constant as four little-endian 64-bit limbs.
    Scalar([u64; 4]),
    /// A circuit input variable.
    Var(u16),
    /// A let-bound (hoisted) variable.
    NamedVar(usize),
}

/// An operand: an inline atom or a reference to an arena node.
#[derive(Clone, Copy, Debug, PartialEq, Eq)]
pub enum Edge {
    Atom(Atom),
    NodeRef(usize),
}

/// The data hashed by a transcript hash, tagged by hash function.
#[derive(Clone, Debug, PartialEq, Eq)]
pub enum TranscriptHashData {
    /// Width-3 Poseidon: one data element.
    Poseidon(Edge),
    /// Blake2b over all data elements in one call.
    Blake2b(Vec<Edge>),
    /// Keccak over all data elements in one call.
    Keccak(Vec<Edge>),
}

/// An arena node.
#[derive(Clone, Debug, PartialEq, Eq)]
pub enum Node {
    Atom(Atom),
    Add(Edge, Edge),
    Mul(Edge, Edge),
    Sub(Edge, Edge),
    Neg(Edge),
    Inv(Edge),
    Div(Edge, Edge),
    /// Hash of (state, round counter, data).
    TranscriptHash(TranscriptHashData, Edge, Edge),
    ByteReverse(Edge),
    Truncate128Reverse(Edge),
    Truncate128(Edge),
    AppendU64Transform(Edge),
}

impl TranscriptHashData {
    /// The data elements, in order.
    pub open spec fn edges(&self) -> Seq<Edge> {
        match self {
            TranscriptHashData::Poseidon(e) => seq![*e],
            TranscriptHashData::Blake2b(v) => v@,
            TranscriptHashData::Keccak(v) => v@,
        }
    }
}

/// An edge refers only to nodes below `bound`.
pub open spec fn edge_ok(e: Edge, bound: int) -> bool {
    match e {
        Edge::Atom(_) => true,
        Edge::NodeRef(j) => j < bound,
    }
}

/// The operand edges of a node, in code-generation order
/// (for a hash: state, round counter, then the data).
pub open spec fn node_edges(n: Node) -> Seq<Edge> {
    match n {
        Node::Atom(_) => seq![],
        Node::Add(a, b) => seq![a, b],
        Node::Mul(a, b) => seq![a, b],
        Node::Sub(a, b) => seq![a, b],
        Node::Div(a, b) => seq![a, b],
        Node::Neg(a) => seq![a],
        Node::Inv(a) => seq![a],
        Node::ByteReverse(a) => seq![a],
        Node::Truncate128Reverse(a) => seq![a],
        Node::Truncate128(a) => seq![a],
        Node::AppendU64Transform(a) => seq![a],
        Node::TranscriptHash(h, s, r) => seq![s, r] + h.edges(),
    }
}

/// A node refers only to nodes below `bound`.
pub open spec fn node_ok(n: Node, bound: int) -> bool {
    forall|k: int| 0 <= k < node_edges(n).len() ==> edge_ok(#[trigger] node_edges(n)[k], bound)
}

/// Every node refers only to nodes allocated before it.
pub open spec fn arena_wf(nodes: Seq<Node>) -> bool {
    forall|i: int| 0 <= i < nodes.len() ==> node_ok(#[trigger] nodes[i], i)
}

/// The node ids that a node refers to, in operand order.
pub open spec fn edge_child(e: Edge) -> Seq<usize> {
    match e {
        Edge::Atom(_) => seq![],
        Edge::NodeRef(j) => seq![j],
    }
}

/// The ids of the nodes that the operands refer to, in operand order.
pub open spec fn children_of(es: Seq<Edge>) -> Seq<usize>
    decreases es.len(),
{
    if es.len() == 0 {
        seq![]
    } else {
        edge_child(es[0]) + children_of(es.drop_first())
    }
}

/// Checks that every node refers only to nodes allocated before it.
pub fn is_well_formed(nodes: &Vec<Node>) -> (r: bool)
    ensures
        r == arena_wf(nodes@),
{
    let mut i: usize = 0;
    while i < nodes.len()
        invariant
            i <= nodes.len(),
            forall|j: int| 0 <= j < i ==> node_ok(#[trigger] nodes@[j], j),
        decreases nodes.len() - i,
    {
        let es = node_edge_vec(&nodes[i]);
        let mut k: usize = 0;
        while k < es.len()
            invariant
                k <= es.len(),
                i < nodes@.len(),
                forall|j: int| 0 <= j < i ==> node_ok(#[trigger] nodes@[j], j),
                es@ == node_edges(nodes@[i as int]),
                forall|m: int| 0 <= m < k ==> edge_ok(#[trigger] es@[m], i as int),
            decreases es.len() - k,
        {
            match es[k] {
                Edge::NodeRef(j) => {
                    if j >= i {
                        proof {
                            assert(!edge_ok(es@[k as int], i as int));
                            assert(!node_ok(nodes@[i as int], i as int));
                            assert(!arena_wf(nodes@)) by {
                                if arena_wf(nodes@) {
                                    assert(node_ok(nodes@[i as int], i as int));
                                }
                            }
                        }
                        return false;
                    }
                },
                Edge::Atom(_) => {},
            }
            k += 1;
        }
        i += 1;
    }
    true
}

/// Copies a vector of edges.
pub fn copy_edges(v: &Vec<Edge>) -> (r: Vec<Edge>)
    ensures
        r@ == v@,
{
    let mut r: Vec<Edge> = Vec::new();
    let mut i: usize = 0;
    while i < v.len()
        invariant
            i <= v.len(),
            r@ == v@.subrange(0, i as int),
        decreases v.len() - i,
    {
        r.push(v[i]);
        i += 1;
        assert(r@ =~= v@.subrange(0, i as int));
    }
    assert(r@ =~= v@);
    r
}

/// The operand edges of a node, as a vector.
pub fn node_edge_vec(n: &Node) -> (r: Vec<Edge>)
    ensures
        r@ == node_edges(*n),
{
    match n {
        Node::Atom(_) => Vec::new(),
        Node::Add(a, b) | Node::Mul(a, b) | Node::Sub(a, b) | Node::Div(a, b) => {
            let r = vec![*a, *b];
            r
        },
        Node::Neg(a) | Node::Inv(a) | Node::ByteReverse(a) | Node::Truncate128Reverse(a)
        | Node::Truncate128(a) | Node::AppendU64Transform(a) => {
            let r = vec![*a];
            r
        },
        Node::TranscriptHash(h, s, r0) => {
            let mut r = vec![*s, *r0];
            match h {
                TranscriptHashData::Poseidon(e) => {
                    r.push(*e);
                },
                TranscriptHashData::Blake2b(v) | TranscriptHashData::Keccak(v) => {
                    let mut i: usize = 0;
                    while i < v.len()
                        invariant
                            i <= v.len(),
                            r@ == seq![*s, *r0] + v@.subrange(0, i as int),
                        decreases v.len() - i,
                    {
                        r.push(v[i]);
                        i += 1;
                        assert(r@ =~= seq![*s, *r0] + v@.subrange(0, i as int));
                    }
                    assert(v@.subrange(0, v@.len() as int) =~= v@);
                },
            }
            assert(r@ =~= node_edges(*n));
            r
        },
    }
}

/// A handle to an arena node: a symbolic field element.
#[derive(Clone, Copy, Debug, PartialEq, Eq)]
pub struct MleAst {
    pub root: usize,
}

impl MleAst {
    /// The id of the node this handle stands for.
    pub fn root(&self) -> (r: usize)
        ensures
            r == self.root,
    {
        self.root
    }
}

/// An arena of expression nodes.
pub struct Arena {
    nodes: Vec<Node>,
}

impl View for Arena {
    type V = Seq<Node>;

    closed spec fn view(&self) -> Seq<Node> {
        self.nodes@
    }
}

/// The edge by which a parent refers to the node a handle stands for:
/// atoms are inlined, other nodes are referenced.
pub open spec fn edge_of(nodes: Seq<Node>, h: MleAst) -> Edge {
    match nodes[h.root as int] {
        Node::Atom(a) => Edge::Atom(a),
        _ => Edge::NodeRef(h.root),
    }
}

/// A handle names an allocated node.
pub open spec fn valid(nodes: Seq<Node>, h: MleAst) -> bool {
    h.root < nodes.len()
}

/// The value `from_i128` gives a field constant: itself when non-negative,
/// its field negation otherwise.
pub open spec fn i128_scalar_val(v: int) -> nat {
    if v >= 0 {
        v as nat
    } else {
        neg_mod_spec((-v) as nat)
    }
}

impl Arena {
    /// An empty arena.
    pub fn new() -> (r: Arena)
        ensures
            r@ == Seq::<Node>::empty(),
            arena_wf(r@),
    {
        Arena { nodes: Vec::new() }
    }

    /// Number of nodes.
    pub fn len(&self) -> (r: usize)
        ensures
            r == self@.len(),
    {
        self.nodes.len()
    }

    /// The node with the given id (`get_node`).
    pub fn get_node(&self, id: usize) -> (r: &Node)
        requires
            id < self@.len(),
        ensures
            *r == self@[id as int],
    {
        &self.nodes[id]
    }

    /// All nodes, in allocation order.
    pub fn nodes(&self) -> (r: &Vec<Node>)
        ensures
            r@ == self@,
    {
        &self.nodes
    }

    /// Appends a node.
    pub fn push_node(&mut self, n: Node) -> (r: MleAst)
        requires
            old(self)@.len() < usize::MAX,
            arena_wf(old(self)@),
            node_ok(n, old(self)@.len() as int),
        ensures
            final(self)@ == old(self)@.push(n),
            r.root == old(self)@.len(),
            arena_wf(final(self)@),
    {
        let r = MleAst { root: self.nodes.len() };
        self.nodes.push(n);
        proof {
            assert forall|i: int| 0 <= i < self.nodes@.len() implies node_ok(#[trigger] self.nodes@[i], i) by {
                if i < old(self)@.len() {
                    assert(self.nodes@[i] == old(self)@[i]);
                }
            }
        }
        r
    }

    /// The edge by which a new node refers to `h`.
    pub fn edge_of(&self, h: MleAst) -> (r: Edge)
        requires
            valid(self@, h),
        ensures
            r == edge_of(self@, h),
            edge_ok(r, self@.len() as int),
    {
        match &self.nodes[h.root] {
            Node::Atom(a) => Edge::Atom(*a),
            _ => Edge::NodeRef(h.root),
        }
    }
}

/// The node a binary constructor appends.
pub open spec fn bin_node(kind: BinOp, a: Edge, b: Edge) -> Node {
    match kind {
        BinOp::Add => Node::Add(a, b),
        BinOp::Mul => Node::Mul(a, b),
        BinOp::Sub => Node::Sub(a, b),
        BinOp::Div => Node::Div(a, b),
    }
}

/// The node a unary constructor appends.
pub open spec fn un_node(kind: UnOp, a: Edge) -> Node {
    match kind {
        UnOp::Neg => Node::Neg(a),
        UnOp::Inv => Node::Inv(a),
        UnOp::ByteReverse => Node::ByteReverse(a),
        UnOp::Truncate128Reverse => Node::Truncate128Reverse(a),
        UnOp::Truncate128 => Node::Truncate128(a),
        UnOp::AppendU64Transform => Node::AppendU64Transform(a),
    }
}

/// Binary operations on symbolic field elements.
#[derive(Clone, Copy, Debug, PartialEq, Eq)]
pub enum BinOp {
    Add,
    Mul,
    Sub,
    Div,
}

/// Unary operations on symbolic field elements.
#[derive(Clone, Copy, Debug, PartialEq, Eq)]
pub enum UnOp {
    Neg,
    Inv,
    ByteReverse,
    Truncate128Reverse,
    Truncate128,
    AppendU64Transform,
}

impl MleAst {
    /// A field constant from four little-endian limbs.
    pub fn from_scalar(arena: &mut Arena, limbs: [u64; 4]) -> (r: MleAst)
        requires
            old(arena)@.len() < usize::MAX,
            arena_wf(old(arena)@),
        ensures
            final(arena)@ == old(arena)@.push(Node::Atom(Atom::Scalar(limbs))),
            r.root == old(arena)@.len(),
            arena_wf(final(arena)@),
    {
        arena.push_node(Node::Atom(Atom::Scalar(limbs)))
    }

    /// A field constant from a `u64`.
    pub fn from_u64(arena: &mut Arena, v: u64) -> (r: MleAst)
        requires
            old(arena)@.len() < usize::MAX,
            arena_wf(old(arena)@),
        ensures
            final(arena)@ == old(arena)@.push(Node::Atom(Atom::Scalar([v, 0u64, 0u64, 0u64]))),
            r.root == old(arena)@.len(),
            arena_wf(final(arena)@),
    {
        arena.push_node(Node::Atom(Atom::Scalar([v, 0u64, 0u64, 0u64])))
    }

    /// A field constant from an `i128` (negative values are negated in the field).
    pub fn from_i128(arena: &mut Arena, v: i128) -> (r: MleAst)
        requires
            old(arena)@.len() < usize::MAX,
            arena_wf(old(arena)@),
        ensures
            final(arena)@.len() == old(arena)@.len() + 1,
            final(arena)@.subrange(0, old(arena)@.len() as int) == old(arena)@,
            final(arena)@[old(arena)@.len() as int] matches Node::Atom(Atom::Scalar(l)) && limbs_val(l) == i128_scalar_val(v as int),
            r.root == old(arena)@.len(),
            arena_wf(final(arena)@),
    {
        let limbs = i128_limbs(v);
        let r = arena.push_node(Node::Atom(Atom::Scalar(limbs)));
        assert(final(arena)@.subrange(0, old(arena)@.len() as int) =~= old(arena)@);
        r
    }

    /// A circuit input variable.
    pub fn from_var(arena: &mut Arena, index: u16) -> (r: MleAst)
        requires
            old(arena)@.len() < usize::MAX,
            arena_wf(old(arena)@),
        ensures
            final(arena)@ == old(arena)@.push(Node::Atom(Atom::Var(index))),
            r.root == old(arena)@.len(),
            arena_wf(final(arena)@),
    {
        arena.push_node(Node::Atom(Atom::Var(index)))
    }

    /// A binary operation node.
    pub fn binary(arena: &mut Arena, kind: BinOp, a: MleAst, b: MleAst) -> (r: MleAst)
        requires
            old(arena)@.len() < usize::MAX,
            arena_wf(old(arena)@),
            valid(old(arena)@, a),
            valid(old(arena)@, b),
        ensures
            final(arena)@ == old(arena)@.push(bin_node(kind, edge_of(old(arena)@, a), edge_of(old(arena)@, b))),
            r.root == old(arena)@.len(),
            arena_wf(final(arena)@),
    {
        let ea = arena.edge_of(a);
        let eb = arena.edge_of(b);
        let n = match kind {
            BinOp::Add => Node::Add(ea, eb),
            BinOp::Mul => Node::Mul(ea, eb),
            BinOp::Sub => Node::Sub(ea, eb),
            BinOp::Div => Node::Div(ea, eb),
        };
        assert(node_edges(n) == seq![ea, eb]);
        arena.push_node(n)
    }

    /// A unary operation node.
    pub fn unary(arena: &mut Arena, kind: UnOp, a: MleAst) -> (r: MleAst)
        requires
            old(arena)@.len() < usize::MAX,
            arena_wf(old(arena)@),
            valid(old(arena)@, a),
        ensures
            final(arena)@ == old(arena)@.push(un_node(kind, edge_of(old(arena)@, a))),
            r.root == old(arena)@.len(),
            arena_wf(final(arena)@),
    {
        let ea = arena.edge_of(a);
        let n = match kind {
            UnOp::Neg => Node::Neg(ea),
            UnOp::Inv => Node::Inv(ea),
            UnOp::ByteReverse => Node::ByteReverse(ea),
            UnOp::Truncate128Reverse => Node::Truncate128Reverse(ea),
            UnOp::Truncate128 => Node::Truncate128(ea),
            UnOp::AppendU64Transform => Node::AppendU64Transform(ea),
        };
        assert(node_edges(n) == seq![ea]);
        arena.push_node(n)
    }

    /// `a + b`.
    pub fn add(arena: &mut Arena, a: MleAst, b: MleAst) -> (r: MleAst)
        requires
            old(arena)@.len() < usize::MAX,
            arena_wf(old(arena)@),
            valid(old(arena)@, a),
            valid(old(arena)@, b),
        ensures
            final(arena)@ == old(arena)@.push(Node::Add(edge_of(old(arena)@, a), edge_of(old(arena)@, b))),
            r.root == old(arena)@.len(),
            arena_wf(final(arena)@),
    {
        Self::binary(arena, BinOp::Add, a, b)
    }

    /// `a * b`.
    pub fn mul(arena: &mut Arena, a: MleAst, b: MleAst) -> (r: MleAst)
        requires
            old(arena)@.len() < usize::MAX,
            arena_wf(old(arena)@),
            valid(old(arena)@, a),
            valid(old(arena)@, b),
        ensures
            final(arena)@ == old(arena)@.push(Node::Mul(edge_of(old(arena)@, a), edge_of(old(arena)@, b))),
            r.root == old(arena)@.len(),
            arena_wf(final(arena)@),
    {
        Self::binary(arena, BinOp::Mul, a, b)
    }

    /// `a - b`.
    pub fn sub(arena: &mut Arena, a: MleAst, b: MleAst) -> (r: MleAst)
        requires
            old(arena)@.len() < usize::MAX,
            arena_wf(old(arena)@),
            valid(old(arena)@, a),
            valid(old(arena)@, b),
        ensures
            final(arena)@ == old(arena)@.push(Node::Sub(edge_of(old(arena)@, a), edge_of(old(arena)@, b))),
            r.root == old(arena)@.len(),
            arena_wf(final(arena)@),
    {
        Self::binary(arena, BinOp::Sub, a, b)
    }

    /// Width-3 Poseidon hash of (state, round, data).
    pub fn poseidon(arena: &mut Arena, state: MleAst, round: MleAst, data: MleAst) -> (r: MleAst)
        requires
            old(arena)@.len() < usize::MAX,
            arena_wf(old(arena)@),
            valid(old(arena)@, state),
            valid(old(arena)@, round),
            valid(old(arena)@, data),
        ensures
            final(arena)@ == old(arena)@.push(Node::TranscriptHash(
                TranscriptHashData::Poseidon(edge_of(old(arena)@, data)),
                edge_of(old(arena)@, state),
                edge_of(old(arena)@, round),
            )),
            r.root == old(arena)@.len(),
            arena_wf(final(arena)@),
    {
        let es = arena.edge_of(state);
        let er = arena.edge_of(round);
        let ed = arena.edge_of(data);
        let n = Node::TranscriptHash(TranscriptHashData::Poseidon(ed), es, er);
        assert(node_edges(n) =~= seq![es, er, ed]);
        arena.push_node(n)
    }

    /// Blake2b hash of (state, round, all data elements) in one call.
    pub fn blake2b(arena: &mut Arena, state: MleAst, round: MleAst, data: &[MleAst]) -> (r: MleAst)
        requires
            old(arena)@.len() < usize::MAX,
            arena_wf(old(arena)@),
            valid(old(arena)@, state),
            valid(old(arena)@, round),
            forall|k: int| 0 <= k < data@.len() ==> valid(old(arena)@, #[trigger] data@[k]),
        ensures
            final(arena)@.len() == old(arena)@.len() + 1,
            final(arena)@.subrange(0, old(arena)@.len() as int) == old(arena)@,
            final(arena)@[old(arena)@.len() as int] matches Node::TranscriptHash(TranscriptHashData::Blake2b(v), s, rd)
                && s == edge_of(old(arena)@, state) && rd == edge_of(old(arena)@, round)
                && v@ == data@.map_values(|h: MleAst| edge_of(old(arena)@, h)),
            r.root == old(arena)@.len(),
            arena_wf(final(arena)@),
    {
        let es = arena.edge_of(state);
        let er = arena.edge_of(round);
        let mut v: Vec<Edge> = Vec::new();
        let mut i: usize = 0;
        while i < data.len()
            invariant
                i <= data@.len(),
                forall|k: int| 0 <= k < data@.len() ==> valid(arena@, #[trigger] data@[k]),
                v@ == data@.subrange(0, i as int).map_values(|h: MleAst| edge_of(arena@, h)),
            decreases data.len() - i,
        {
            let e = arena.edge_of(data[i]);
            v.push(e);
            i += 1;
            assert(v@ =~= data@.subrange(0, i as int).map_values(|h: MleAst| edge_of(arena@, h)));
        }
        assert(data@.subrange(0, data@.len() as int) =~= data@);
        let ghost vv = v@;
        let n = Node::TranscriptHash(TranscriptHashData::Blake2b(v), es, er);
        assert forall|k: int| 0 <= k < node_edges(n).len() implies edge_ok(#[trigger] node_edges(n)[k], arena@.len() as int) by {
            assert(node_edges(n) =~= seq![es, er] + vv);
            if k >= 2 {
                assert(valid(arena@, data@[k - 2]));
            }
        }
        let r = arena.push_node(n);
        assert(final(arena)@.subrange(0, old(arena)@.len() as int) =~= old(arena)@);
        r
    }
}

/// The limbs of the field constant that an `i128` stands for.
fn i128_limbs(v: i128) -> (r: [u64; 4])
    ensures
        limbs_val(r) == i128_scalar_val(v as int),
{
    if v >= 0 {
        let u = v as u128;
        [(u % 0x1_0000_0000_0000_0000u128) as u64, (u / 0x1_0000_0000_0000_0000u128) as u64, 0u64, 0u64]
    } else {
        let m: u128 = (-(v + 1)) as u128 + 1;
        let l = [(m % 0x1_0000_0000_0000_0000u128) as u64, (m / 0x1_0000_0000_0000_0000u128) as u64, 0u64, 0u64];
        scalar_neg_mod(l)
    }
}

} // verus!
