//! Direct (unshared) gnark code generation from arena nodes.
//!
//! Every node is rendered inline, so a node that several parents share is
//! rendered once per parent.

use vstd::prelude::*;
use crate::mle_ast::{arena_wf, node_edges, Arena, Atom, Edge, MleAst, Node, TranscriptHashData};
use crate::scalar::limbs_val;
use crate::sorted::{insert_sorted, lemma_sorted_elems, lemma_sorted_elems_exist, sorted_elems, strictly_sorted};
use crate::text::{dec, has_sub, occurs_at, push_dec, push_str, scalar_decimal};
use crate::ast_evaluator::{edge_eval, node_eval};
use crate::go_semantics::{arith_edge, arith_from, atom_go, fn_name, go_eval, lemma_call_openings, render, GoExpr, GoFn};

verus! {

/// Gnark text of an atom: constants in decimal, inputs as `circuit.X_i`,
/// let-bound variables as `temp_i`.
pub open spec fn atom_text(a: Atom) -> Seq<char> {
    match a {
        Atom::Scalar(v) => dec(limbs_val(v)),
        Atom::Var(i) => "circuit.X_"@ + dec(i as nat),
        Atom::NamedVar(i) => "temp_"@ + dec(i as nat),
    }
}

/// Gnark text of an edge of a node with id `bound`.
pub open spec fn edge_text(nodes: Seq<Node>, e: Edge, bound: int) -> Seq<char>
    decreases bound, 0nat, 0nat,
{
    match e {
        Edge::Atom(a) => atom_text(a),
        Edge::NodeRef(j) => if 0 <= j < bound { node_text(nodes, j as int) } else { seq![] },
    }
}

/// `, e1, e2, ...` for the given edges.
pub open spec fn args_text(nodes: Seq<Node>, es: Seq<Edge>, bound: int) -> Seq<char>
    decreases bound, 1nat, es.len(),
{
    if es.len() == 0 {
        seq![]
    } else {
        ", "@ + edge_text(nodes, es[0], bound) + args_text(nodes, es.drop_first(), bound)
    }
}

/// The function a hash node is rendered as.
pub open spec fn hash_prefix(h: TranscriptHashData) -> Seq<char> {
    match h {
        TranscriptHashData::Poseidon(_) => "poseidon.Hash(api, "@,
        TranscriptHashData::Blake2b(_) => "blake2b.Hash(api, "@,
        TranscriptHashData::Keccak(_) => "keccak.Keccak256(api, "@,
    }
}

/// Gnark text of the expression rooted at node `id`, every subexpression inlined.
pub open spec fn node_text(nodes: Seq<Node>, id: int) -> Seq<char>
    decreases id, 2nat, 0nat,
{
    if id < 0 || id >= nodes.len() {
        seq![]
    } else {
        match nodes[id] {
            Node::Atom(a) => atom_text(a),
            Node::Add(l, r) => "api.Add("@ + edge_text(nodes, l, id) + ", "@ + edge_text(nodes, r, id) + ")"@,
            Node::Mul(l, r) => "api.Mul("@ + edge_text(nodes, l, id) + ", "@ + edge_text(nodes, r, id) + ")"@,
            Node::Sub(l, r) => "api.Sub("@ + edge_text(nodes, l, id) + ", "@ + edge_text(nodes, r, id) + ")"@,
            Node::Div(l, r) => "api.Div("@ + edge_text(nodes, l, id) + ", "@ + edge_text(nodes, r, id) + ")"@,
            Node::Neg(e) => "api.Neg("@ + edge_text(nodes, e, id) + ")"@,
            Node::Inv(e) => "api.Inverse("@ + edge_text(nodes, e, id) + ")"@,
            Node::ByteReverse(e) => "poseidon.ByteReverse(api, "@ + edge_text(nodes, e, id) + ")"@,
            Node::Truncate128Reverse(e) => "poseidon.Truncate128Reverse(api, "@ + edge_text(nodes, e, id) + ")"@,
            Node::Truncate128(e) => "poseidon.Truncate128(api, "@ + edge_text(nodes, e, id) + ")"@,
            Node::AppendU64Transform(e) => "poseidon.AppendU64Transform(api, "@ + edge_text(nodes, e, id) + ")"@,
            Node::TranscriptHash(h, s, r) => hash_prefix(h) + edge_text(nodes, s, id) + ", "@ + edge_text(nodes, r, id)
                + args_text(nodes, h.edges(), id) + ")"@,
        }
    }
}

/// Input variable indices of an atom.
pub open spec fn atom_vars(a: Atom) -> Set<u16> {
    match a {
        Atom::Var(i) => set![i],
        _ => Set::empty(),
    }
}

/// Input variable indices reachable through an edge.
pub open spec fn edge_vars(nodes: Seq<Node>, e: Edge, bound: int) -> Set<u16>
    decreases bound, 0nat, 0nat,
{
    match e {
        Edge::Atom(a) => atom_vars(a),
        Edge::NodeRef(j) => if 0 <= j < bound { node_vars(nodes, j as int) } else { Set::empty() },
    }
}

/// Input variable indices reachable through the given edges.
pub open spec fn args_vars(nodes: Seq<Node>, es: Seq<Edge>, bound: int) -> Set<u16>
    decreases bound, 1nat, es.len(),
{
    if es.len() == 0 {
        Set::empty()
    } else {
        edge_vars(nodes, es[0], bound).union(args_vars(nodes, es.drop_first(), bound))
    }
}

/// Input variable indices of the expression rooted at node `id`.
pub open spec fn node_vars(nodes: Seq<Node>, id: int) -> Set<u16>
    decreases id, 2nat, 0nat,
{
    if id < 0 || id >= nodes.len() {
        Set::empty()
    } else {
        match nodes[id] {
            Node::Atom(a) => atom_vars(a),
            _ => args_vars(nodes, node_edges(nodes[id]), id),
        }
    }
}

/// Appends the gnark text of an atom.
fn atom_to_gnark(out: &mut String, atom: Atom)
    ensures
        final(out)@ == old(out)@ + atom_text(atom),
{
    match atom {
        Atom::Scalar(value) => {
            let s = scalar_decimal(value);
            push_str(out, s.as_str());
        },
        Atom::Var(index) => {
            push_str(out, "circuit.X_");
            push_dec(out, index as u64);
        },
        Atom::NamedVar(index) => {
            push_str(out, "temp_");
            push_dec(out, index as u64);
        },
    }
    assert(final(out)@ =~= old(out)@ + atom_text(atom));
}

/// Appends the gnark text of an atom and records a variable it uses.
fn atom_to_gnark_with_vars(out: &mut String, atom: Atom, vars: &mut Vec<u16>)
    requires
        strictly_sorted(old(vars)@),
    ensures
        final(out)@ == old(out)@ + atom_text(atom),
        strictly_sorted(final(vars)@),
        final(vars)@.to_set() == old(vars)@.to_set().union(atom_vars(atom)),
{
    match atom {
        Atom::Var(index) => {
            insert_sorted(vars, index);
            assert(vars@.to_set() =~= old(vars)@.to_set().union(atom_vars(atom)));
        },
        _ => {
            assert(vars@.to_set() =~= old(vars)@.to_set().union(atom_vars(atom)));
        },
    }
    atom_to_gnark(out, atom);
}

/// Appends the gnark text of an edge of node `bound`.
fn edge_to_gnark(nodes: &Vec<Node>, out: &mut String, edge: Edge, bound: usize)
    requires
        arena_wf(nodes@),
        bound < nodes@.len(),
        crate::mle_ast::edge_ok(edge, bound as int),
    ensures
        final(out)@ == old(out)@ + edge_text(nodes@, edge, bound as int),
    decreases bound, 0nat,
{
    match edge {
        Edge::Atom(atom) => atom_to_gnark(out, atom),
        Edge::NodeRef(node_id) => emit_node(nodes, out, node_id),
    }
}

/// Appends `, e` for each edge.
fn args_to_gnark(nodes: &Vec<Node>, out: &mut String, es: &Vec<Edge>, bound: usize)
    requires
        arena_wf(nodes@),
        bound < nodes@.len(),
        forall|k: int| 0 <= k < es@.len() ==> crate::mle_ast::edge_ok(#[trigger] es@[k], bound as int),
    ensures
        final(out)@ == old(out)@ + args_text(nodes@, es@, bound as int),
    decreases bound, 1nat,
{
    let mut i: usize = 0;
    proof {
        assert(es@.subrange(0, es@.len() as int) =~= es@);
    }
    while i < es.len()
        invariant
            arena_wf(nodes@),
            bound < nodes@.len(),
            i <= es@.len(),
            forall|k: int| 0 <= k < es@.len() ==> crate::mle_ast::edge_ok(#[trigger] es@[k], bound as int),
            old(out)@ + args_text(nodes@, es@, bound as int) == out@ + args_text(nodes@, es@.subrange(i as int, es@.len() as int), bound as int),
        decreases es@.len() - i,
    {
        let ghost rest = es@.subrange(i as int, es@.len() as int);
        proof {
            assert(rest.drop_first() =~= es@.subrange(i + 1, es@.len() as int));
            assert(rest[0] == es@[i as int]);
        }
        push_str(out, ", ");
        edge_to_gnark(nodes, out, es[i], bound);
        i += 1;
    }
    proof {
        assert(es@.subrange(i as int, es@.len() as int) =~= Seq::<Edge>::empty());
    }
}

/// Appends `api.Op(l, r)`.
fn binary_to_gnark(nodes: &Vec<Node>, out: &mut String, op: &str, l: Edge, r: Edge, bound: usize)
    requires
        arena_wf(nodes@),
        bound < nodes@.len(),
        crate::mle_ast::edge_ok(l, bound as int),
        crate::mle_ast::edge_ok(r, bound as int),
    ensures
        final(out)@ == old(out)@ + op@ + edge_text(nodes@, l, bound as int) + ", "@ + edge_text(nodes@, r, bound as int) + ")"@,
    decreases bound, 1nat,
{
    push_str(out, op);
    edge_to_gnark(nodes, out, l, bound);
    push_str(out, ", ");
    edge_to_gnark(nodes, out, r, bound);
    push_str(out, ")");
}

/// Appends `f(x)`.
fn unary_to_gnark(nodes: &Vec<Node>, out: &mut String, f: &str, e: Edge, bound: usize)
    requires
        arena_wf(nodes@),
        bound < nodes@.len(),
        crate::mle_ast::edge_ok(e, bound as int),
    ensures
        final(out)@ == old(out)@ + f@ + edge_text(nodes@, e, bound as int) + ")"@,
    decreases bound, 1nat,
{
    push_str(out, f);
    edge_to_gnark(nodes, out, e, bound);
    push_str(out, ")");
}

/// Appends the gnark text of the expression rooted at `id`.
fn emit_node(nodes: &Vec<Node>, out: &mut String, id: usize)
    requires
        arena_wf(nodes@),
        id < nodes@.len(),
    ensures
        final(out)@ == old(out)@ + node_text(nodes@, id as int),
    decreases id, 2nat,
{
    let node = &nodes[id];
    proof {
        assert(crate::mle_ast::node_ok(nodes@[id as int], id as int));
    }
    match node {
        Node::Atom(atom) => atom_to_gnark(out, *atom),
        Node::Add(l, r) => {
            assert(node_edges(*node)[0] == *l && node_edges(*node)[1] == *r);
            binary_to_gnark(nodes, out, "api.Add(", *l, *r, id)
        },
        Node::Mul(l, r) => {
            assert(node_edges(*node)[0] == *l && node_edges(*node)[1] == *r);
            binary_to_gnark(nodes, out, "api.Mul(", *l, *r, id)
        },
        Node::Sub(l, r) => {
            assert(node_edges(*node)[0] == *l && node_edges(*node)[1] == *r);
            binary_to_gnark(nodes, out, "api.Sub(", *l, *r, id)
        },
        Node::Div(l, r) => {
            assert(node_edges(*node)[0] == *l && node_edges(*node)[1] == *r);
            binary_to_gnark(nodes, out, "api.Div(", *l, *r, id)
        },
        Node::Neg(e) => {
            assert(node_edges(*node)[0] == *e);
            unary_to_gnark(nodes, out, "api.Neg(", *e, id)
        },
        Node::Inv(e) => {
            assert(node_edges(*node)[0] == *e);
            unary_to_gnark(nodes, out, "api.Inverse(", *e, id)
        },
        Node::ByteReverse(e) => {
            assert(node_edges(*node)[0] == *e);
            unary_to_gnark(nodes, out, "poseidon.ByteReverse(api, ", *e, id)
        },
        Node::Truncate128Reverse(e) => {
            assert(node_edges(*node)[0] == *e);
            unary_to_gnark(nodes, out, "poseidon.Truncate128Reverse(api, ", *e, id)
        },
        Node::Truncate128(e) => {
            assert(node_edges(*node)[0] == *e);
            unary_to_gnark(nodes, out, "poseidon.Truncate128(api, ", *e, id)
        },
        Node::AppendU64Transform(e) => {
            assert(node_edges(*node)[0] == *e);
            unary_to_gnark(nodes, out, "poseidon.AppendU64Transform(api, ", *e, id)
        },
        Node::TranscriptHash(h, s, r) => {
            let data = hash_data_edges(h);
            assert(node_edges(*node) == seq![*s, *r] + data@);
            assert(node_edges(*node)[0] == *s && node_edges(*node)[1] == *r);
            assert forall|k: int| 0 <= k < data@.len() implies crate::mle_ast::edge_ok(#[trigger] data@[k], id as int) by {
                assert(node_edges(*node)[k + 2] == data@[k]);
            }
            match h {
                TranscriptHashData::Poseidon(_) => push_str(out, "poseidon.Hash(api, "),
                TranscriptHashData::Blake2b(_) => push_str(out, "blake2b.Hash(api, "),
                TranscriptHashData::Keccak(_) => push_str(out, "keccak.Keccak256(api, "),
            }
            edge_to_gnark(nodes, out, *s, id);
            push_str(out, ", ");
            edge_to_gnark(nodes, out, *r, id);
            args_to_gnark(nodes, out, &data, id);
            push_str(out, ")");
        },
    }
    assert(final(out)@ =~= old(out)@ + node_text(nodes@, id as int));
}

/// The data edges of a hash, as a vector.
pub fn hash_data_edges(h: &TranscriptHashData) -> (r: Vec<Edge>)
    ensures
        r@ == h.edges(),
{
    match h {
        TranscriptHashData::Poseidon(e) => {
            let r = vec![*e];
            assert(r@ =~= h.edges());
            r
        },
        TranscriptHashData::Blake2b(v) | TranscriptHashData::Keccak(v) => crate::mle_ast::copy_edges(v),
    }
}

/// Generates the gnark expression for the node `node_id`, inlining every
/// subexpression:
/// `Add(a, b)` becomes `api.Add(a, b)`, a Poseidon hash becomes
/// `poseidon.Hash(api, state, round, data)`, and so on.
pub fn generate_gnark_expr(arena: &Arena, node_id: usize) -> (r: String)
    requires
        arena_wf(arena@),
        node_id < arena@.len(),
    ensures
        r@ == node_text(arena@, node_id as int),
{
    let mut out = String::new();
    emit_node(arena.nodes(), &mut out, node_id);
    assert(out@ =~= node_text(arena@, node_id as int));
    out
}


proof fn lemma_args_vars_concat(nodes: Seq<Node>, a: Seq<Edge>, b: Seq<Edge>, bound: int)
    ensures
        args_vars(nodes, a + b, bound) == args_vars(nodes, a, bound).union(args_vars(nodes, b, bound)),
    decreases a.len(),
{
    if a.len() == 0 {
        assert(a + b =~= b);
        assert(args_vars(nodes, a, bound).union(args_vars(nodes, b, bound)) =~= args_vars(nodes, b, bound));
    } else {
        assert((a + b).drop_first() =~= a.drop_first() + b);
        assert((a + b)[0] == a[0]);
        lemma_args_vars_concat(nodes, a.drop_first(), b, bound);
        assert(args_vars(nodes, a + b, bound) =~= args_vars(nodes, a, bound).union(args_vars(nodes, b, bound)));
    }
}

proof fn lemma_args_vars_pair(nodes: Seq<Node>, a: Edge, b: Edge, bound: int)
    ensures
        args_vars(nodes, seq![a, b], bound) == edge_vars(nodes, a, bound).union(edge_vars(nodes, b, bound)),
        args_vars(nodes, seq![a], bound) == edge_vars(nodes, a, bound),
{
    assert(seq![a, b].drop_first() =~= seq![b]);
    assert(seq![b].drop_first() =~= Seq::<Edge>::empty());
    assert(seq![a].drop_first() =~= Seq::<Edge>::empty());
    assert(args_vars(nodes, Seq::<Edge>::empty(), bound) == Set::<u16>::empty());
    assert(seq![b][0] == b);
    assert(seq![a][0] == a);
    assert(seq![a, b][0] == a);
    assert(args_vars(nodes, seq![b], bound) =~= edge_vars(nodes, b, bound));
    assert(args_vars(nodes, seq![a], bound) =~= edge_vars(nodes, a, bound));
    assert(args_vars(nodes, seq![a, b], bound) =~= edge_vars(nodes, a, bound).union(edge_vars(nodes, b, bound)));
}

/// Appends the gnark text of an edge of node `bound`, recording its variables.
fn edge_to_gnark_with_vars(nodes: &Vec<Node>, out: &mut String, edge: Edge, bound: usize, vars: &mut Vec<u16>)
    requires
        arena_wf(nodes@),
        bound < nodes@.len(),
        crate::mle_ast::edge_ok(edge, bound as int),
        strictly_sorted(old(vars)@),
    ensures
        final(out)@ == old(out)@ + edge_text(nodes@, edge, bound as int),
        strictly_sorted(final(vars)@),
        final(vars)@.to_set() == old(vars)@.to_set().union(edge_vars(nodes@, edge, bound as int)),
    decreases bound, 0nat,
{
    match edge {
        Edge::Atom(atom) => atom_to_gnark_with_vars(out, atom, vars),
        Edge::NodeRef(node_id) => emit_node_with_vars(nodes, out, node_id, vars),
    }
}

/// Appends `api.Op(l, r)`, recording variables.
fn binary_to_gnark_with_vars(nodes: &Vec<Node>, out: &mut String, op: &str, l: Edge, r: Edge, bound: usize, vars: &mut Vec<u16>)
    requires
        arena_wf(nodes@),
        bound < nodes@.len(),
        crate::mle_ast::edge_ok(l, bound as int),
        crate::mle_ast::edge_ok(r, bound as int),
        strictly_sorted(old(vars)@),
    ensures
        final(out)@ == old(out)@ + op@ + edge_text(nodes@, l, bound as int) + ", "@ + edge_text(nodes@, r, bound as int) + ")"@,
        strictly_sorted(final(vars)@),
        final(vars)@.to_set() == old(vars)@.to_set().union(args_vars(nodes@, seq![l, r], bound as int)),
    decreases bound, 1nat,
{
    let ghost v0 = vars@.to_set();
    push_str(out, op);
    edge_to_gnark_with_vars(nodes, out, l, bound, vars);
    push_str(out, ", ");
    edge_to_gnark_with_vars(nodes, out, r, bound, vars);
    push_str(out, ")");
    proof {
        lemma_args_vars_pair(nodes@, l, r, bound as int);
        assert(vars@.to_set() =~= v0.union(args_vars(nodes@, seq![l, r], bound as int)));
    }
}

/// Appends `f(x)`, recording variables.
fn unary_to_gnark_with_vars(nodes: &Vec<Node>, out: &mut String, f: &str, e: Edge, bound: usize, vars: &mut Vec<u16>)
    requires
        arena_wf(nodes@),
        bound < nodes@.len(),
        crate::mle_ast::edge_ok(e, bound as int),
        strictly_sorted(old(vars)@),
    ensures
        final(out)@ == old(out)@ + f@ + edge_text(nodes@, e, bound as int) + ")"@,
        strictly_sorted(final(vars)@),
        final(vars)@.to_set() == old(vars)@.to_set().union(args_vars(nodes@, seq![e], bound as int)),
    decreases bound, 1nat,
{
    push_str(out, f);
    edge_to_gnark_with_vars(nodes, out, e, bound, vars);
    push_str(out, ")");
    proof {
        lemma_args_vars_pair(nodes@, e, e, bound as int);
    }
}

/// Appends `, e` for each edge, recording variables.
fn args_to_gnark_with_vars(nodes: &Vec<Node>, out: &mut String, es: &Vec<Edge>, bound: usize, vars: &mut Vec<u16>)
    requires
        arena_wf(nodes@),
        bound < nodes@.len(),
        forall|k: int| 0 <= k < es@.len() ==> crate::mle_ast::edge_ok(#[trigger] es@[k], bound as int),
        strictly_sorted(old(vars)@),
    ensures
        final(out)@ == old(out)@ + args_text(nodes@, es@, bound as int),
        strictly_sorted(final(vars)@),
        final(vars)@.to_set() == old(vars)@.to_set().union(args_vars(nodes@, es@, bound as int)),
    decreases bound, 1nat,
{
    let mut i: usize = 0;
    proof {
        assert(es@.subrange(0, es@.len() as int) =~= es@);
    }
    while i < es.len()
        invariant
            arena_wf(nodes@),
            bound < nodes@.len(),
            i <= es@.len(),
            forall|k: int| 0 <= k < es@.len() ==> crate::mle_ast::edge_ok(#[trigger] es@[k], bound as int),
            old(out)@ + args_text(nodes@, es@, bound as int) == out@ + args_text(nodes@, es@.subrange(i as int, es@.len() as int), bound as int),
            strictly_sorted(vars@),
            old(vars)@.to_set().union(args_vars(nodes@, es@, bound as int))
                == vars@.to_set().union(args_vars(nodes@, es@.subrange(i as int, es@.len() as int), bound as int)),
        decreases es@.len() - i,
    {
        let ghost rest = es@.subrange(i as int, es@.len() as int);
        let ghost vs = vars@.to_set();
        proof {
            assert(rest.drop_first() =~= es@.subrange(i + 1, es@.len() as int));
            assert(rest[0] == es@[i as int]);
        }
        push_str(out, ", ");
        edge_to_gnark_with_vars(nodes, out, es[i], bound, vars);
        i += 1;
        proof {
            assert(vs.union(args_vars(nodes@, rest, bound as int)) =~= vars@.to_set().union(args_vars(nodes@, es@.subrange(i as int, es@.len() as int), bound as int)));
        }
    }
    proof {
        assert(es@.subrange(i as int, es@.len() as int) =~= Seq::<Edge>::empty());
        assert(vars@.to_set().union(Set::<u16>::empty()) =~= vars@.to_set());
    }
}

/// Appends the gnark text of the expression rooted at `id`, recording the
/// input variables it uses.
fn emit_node_with_vars(nodes: &Vec<Node>, out: &mut String, id: usize, vars: &mut Vec<u16>)
    requires
        arena_wf(nodes@),
        id < nodes@.len(),
        strictly_sorted(old(vars)@),
    ensures
        final(out)@ == old(out)@ + node_text(nodes@, id as int),
        strictly_sorted(final(vars)@),
        final(vars)@.to_set() == old(vars)@.to_set().union(node_vars(nodes@, id as int)),
    decreases id, 2nat,
{
    let node = &nodes[id];
    let ghost n = nodes@[id as int];
    proof {
        assert(crate::mle_ast::node_ok(n, id as int));
    }
    match node {
        Node::Atom(atom) => {
            atom_to_gnark_with_vars(out, *atom, vars);
        },
        Node::TranscriptHash(h, s, r) => {
            let data = hash_data_edges(h);
            assert(node_edges(n) == seq![*s, *r] + data@);
            assert(node_edges(n)[0] == *s && node_edges(n)[1] == *r);
            assert forall|k: int| 0 <= k < data@.len() implies crate::mle_ast::edge_ok(#[trigger] data@[k], id as int) by {
                assert(node_edges(n)[k + 2] == data@[k]);
            }
            let ghost v0 = vars@.to_set();
            match h {
                TranscriptHashData::Poseidon(_) => push_str(out, "poseidon.Hash(api, "),
                TranscriptHashData::Blake2b(_) => push_str(out, "blake2b.Hash(api, "),
                TranscriptHashData::Keccak(_) => push_str(out, "keccak.Keccak256(api, "),
            }
            edge_to_gnark_with_vars(nodes, out, *s, id, vars);
            push_str(out, ", ");
            edge_to_gnark_with_vars(nodes, out, *r, id, vars);
            args_to_gnark_with_vars(nodes, out, &data, id, vars);
            push_str(out, ")");
            proof {
                lemma_args_vars_concat(nodes@, seq![*s, *r], data@, id as int);
                lemma_args_vars_pair(nodes@, *s, *r, id as int);
                assert(vars@.to_set() =~= v0.union(node_vars(nodes@, id as int)));
            }
        },
        Node::Add(l, r) => {
            assert(node_edges(n) == seq![*l, *r]);
            assert(node_edges(n)[0] == *l && node_edges(n)[1] == *r);
            binary_to_gnark_with_vars(nodes, out, "api.Add(", *l, *r, id, vars);
        },
        Node::Mul(l, r) => {
            assert(node_edges(n) == seq![*l, *r]);
            assert(node_edges(n)[0] == *l && node_edges(n)[1] == *r);
            binary_to_gnark_with_vars(nodes, out, "api.Mul(", *l, *r, id, vars);
        },
        Node::Sub(l, r) => {
            assert(node_edges(n) == seq![*l, *r]);
            assert(node_edges(n)[0] == *l && node_edges(n)[1] == *r);
            binary_to_gnark_with_vars(nodes, out, "api.Sub(", *l, *r, id, vars);
        },
        Node::Div(l, r) => {
            assert(node_edges(n) == seq![*l, *r]);
            assert(node_edges(n)[0] == *l && node_edges(n)[1] == *r);
            binary_to_gnark_with_vars(nodes, out, "api.Div(", *l, *r, id, vars);
        },
        Node::Neg(e) => {
            assert(node_edges(n) == seq![*e]);
            assert(node_edges(n)[0] == *e);
            unary_to_gnark_with_vars(nodes, out, "api.Neg(", *e, id, vars);
        },
        Node::Inv(e) => {
            assert(node_edges(n) == seq![*e]);
            assert(node_edges(n)[0] == *e);
            unary_to_gnark_with_vars(nodes, out, "api.Inverse(", *e, id, vars);
        },
        Node::ByteReverse(e) => {
            assert(node_edges(n) == seq![*e]);
            assert(node_edges(n)[0] == *e);
            unary_to_gnark_with_vars(nodes, out, "poseidon.ByteReverse(api, ", *e, id, vars);
        },
        Node::Truncate128Reverse(e) => {
            assert(node_edges(n) == seq![*e]);
            assert(node_edges(n)[0] == *e);
            unary_to_gnark_with_vars(nodes, out, "poseidon.Truncate128Reverse(api, ", *e, id, vars);
        },
        Node::Truncate128(e) => {
            assert(node_edges(n) == seq![*e]);
            assert(node_edges(n)[0] == *e);
            unary_to_gnark_with_vars(nodes, out, "poseidon.Truncate128(api, ", *e, id, vars);
        },
        Node::AppendU64Transform(e) => {
            assert(node_edges(n) == seq![*e]);
            assert(node_edges(n)[0] == *e);
            unary_to_gnark_with_vars(nodes, out, "poseidon.AppendU64Transform(api, ", *e, id, vars);
        },
    }
    assert(final(out)@ =~= old(out)@ + node_text(nodes@, id as int));
}

/// Generates the gnark expression for `node_id` (as `generate_gnark_expr`)
/// and adds the input variables it uses to `vars`.
pub fn generate_gnark_expr_with_vars(arena: &Arena, node_id: usize, vars: &mut Vec<u16>) -> (r: String)
    requires
        arena_wf(arena@),
        node_id < arena@.len(),
        strictly_sorted(old(vars)@),
    ensures
        r@ == node_text(arena@, node_id as int),
        strictly_sorted(final(vars)@),
        final(vars)@.to_set() == old(vars)@.to_set().union(node_vars(arena@, node_id as int)),
{
    let mut out = String::new();
    emit_node_with_vars(arena.nodes(), &mut out, node_id, vars);
    assert(out@ =~= node_text(arena@, node_id as int));
    out
}


/// Struct fields `X_i` for the given variables, one per line.
pub open spec fn var_fields(vars: Seq<u16>) -> Seq<char>
    decreases vars.len(),
{
    if vars.len() == 0 {
        seq![]
    } else {
        "\tX_"@ + dec(vars[0] as nat) + " frontend.Variable `gnark:\",public\"`\n"@ + var_fields(vars.drop_first())
    }
}

/// Package, import, and the opening of the circuit struct with its input fields.
pub open spec fn circuit_head(name: Seq<char>, vars: Seq<u16>) -> Seq<char> {
    "package jolt_verifier\n\n"@ + "import \"github.com/consensys/gnark/frontend\"\n\n"@ + "type "@ + name + " struct {\n"@
        + var_fields(vars)
}

/// A circuit asserting that an expression equals the public `Output`.
pub open spec fn circuit_text(name: Seq<char>, vars: Seq<u16>, expr: Seq<char>) -> Seq<char> {
    circuit_head(name, vars) + "\tOutput frontend.Variable `gnark:\",public\"`\n"@ + "}\n\n"@
        + "func (circuit *"@ + name + ") Define(api frontend.API) error {\n"@ + "\tresult := "@ + expr + "\n"@
        + "\tapi.AssertIsEqual(result, circuit.Output)\n"@ + "\treturn nil\n"@ + "}\n"@
}

/// Appends the struct field lines for the variables.
pub(crate) fn push_var_fields(out: &mut String, vars: &Vec<u16>)
    ensures
        final(out)@ == old(out)@ + var_fields(vars@),
{
    let mut i: usize = 0;
    proof {
        assert(vars@.subrange(0, vars@.len() as int) =~= vars@);
    }
    while i < vars.len()
        invariant
            i <= vars@.len(),
            old(out)@ + var_fields(vars@) == out@ + var_fields(vars@.subrange(i as int, vars@.len() as int)),
        decreases vars@.len() - i,
    {
        let ghost rest = vars@.subrange(i as int, vars@.len() as int);
        proof {
            assert(rest.drop_first() =~= vars@.subrange(i + 1, vars@.len() as int));
        }
        push_str(out, "\tX_");
        push_dec(out, vars[i] as u64);
        push_str(out, " frontend.Variable `gnark:\",public\"`\n");
        i += 1;
    }
    proof {
        assert(vars@.subrange(i as int, vars@.len() as int) =~= Seq::<u16>::empty());
    }
}

/// Generates a complete Go file with a circuit struct holding every input
/// variable the expression uses (in increasing order) and an `Output`, and a
/// `Define` method asserting that the expression equals `Output`.
pub fn generate_circuit(arena: &Arena, root_node_id: usize, circuit_name: &str) -> (r: String)
    requires
        arena_wf(arena@),
        root_node_id < arena@.len(),
    ensures
        r@ == circuit_text(circuit_name@, sorted_elems(node_vars(arena@, root_node_id as int)), node_text(arena@, root_node_id as int)),
{
    let mut vars: Vec<u16> = Vec::new();
    proof {
        assert(vars@.to_set() =~= Set::<u16>::empty());
    }
    let expr = generate_gnark_expr_with_vars(arena, root_node_id, &mut vars);
    proof {
        assert(vars@.to_set() =~= node_vars(arena@, root_node_id as int));
        lemma_sorted_elems(vars@);
    }
    let mut output = String::new();
    push_str(&mut output, "package jolt_verifier\n\n");
    push_str(&mut output, "import \"github.com/consensys/gnark/frontend\"\n\n");
    push_str(&mut output, "type ");
    push_str(&mut output, circuit_name);
    push_str(&mut output, " struct {\n");
    push_var_fields(&mut output, &vars);
    push_str(&mut output, "\tOutput frontend.Variable `gnark:\",public\"`\n");
    push_str(&mut output, "}\n\n");
    push_str(&mut output, "func (circuit *");
    push_str(&mut output, circuit_name);
    push_str(&mut output, ") Define(api frontend.API) error {\n");
    push_str(&mut output, "\tresult := ");
    push_str(&mut output, expr.as_str());
    push_str(&mut output, "\n");
    push_str(&mut output, "\tapi.AssertIsEqual(result, circuit.Output)\n");
    push_str(&mut output, "\treturn nil\n");
    push_str(&mut output, "}\n");
    assert(output@ =~= circuit_text(circuit_name@, sorted_elems(node_vars(arena@, root_node_id as int)), node_text(arena@, root_node_id as int)));
    output
}

/// The symbolic outcome of stage-1 verification: the final claim, the power
/// sum check (must be 0) and one consistency check per sumcheck round (each
/// must be 0).
pub struct Stage1VerificationResult {
    pub final_claim: MleAst,
    pub power_sum_check: MleAst,
    pub sumcheck_consistency_checks: Vec<MleAst>,
}

/// Input variables of several expressions.
pub open spec fn roots_vars(nodes: Seq<Node>, roots: Seq<MleAst>) -> Set<u16>
    decreases roots.len(),
{
    if roots.len() == 0 {
        Set::empty()
    } else {
        node_vars(nodes, roots[0].root as int).union(roots_vars(nodes, roots.drop_first()))
    }
}

/// The block asserting that consistency check `i` (with text `e`) is zero.
pub open spec fn consistency_block(i: nat, e: Seq<char>) -> Seq<char> {
    "\t// Sumcheck round "@ + dec(i) + ": poly(0) + poly(1) - claim == 0\n"@ + "\tconsistencyCheck"@ + dec(i) + " := "@ + e + "\n"@
        + "\tapi.AssertIsEqual(consistencyCheck"@ + dec(i) + ", 0)\n\n"@
}

/// The blocks for consistency checks `start..`, whose texts are `es`.
pub open spec fn consistency_blocks(es: Seq<Seq<char>>, start: nat) -> Seq<char>
    decreases es.len(),
{
    if es.len() == 0 {
        seq![]
    } else {
        consistency_block(start, es[0]) + consistency_blocks(es.drop_first(), start + 1)
    }
}

/// The stage-1 circuit: asserts the power sum check and every consistency
/// check are zero and that the final claim equals `ExpectedFinalClaim`.
pub open spec fn stage1_text(name: Seq<char>, vars: Seq<u16>, final_claim: Seq<char>, power_sum: Seq<char>, checks: Seq<Seq<char>>) -> Seq<char> {
    circuit_head(name, vars) + "\tExpectedFinalClaim frontend.Variable `gnark:\",public\"`\n"@ + "}\n\n"@
        + "func (circuit *"@ + name + ") Define(api frontend.API) error {\n"@
        + "\t// Power sum check: sum over symmetric domain must equal 0\n"@
        + "\tpowerSumCheck := "@ + power_sum + "\n"@ + "\tapi.AssertIsEqual(powerSumCheck, 0)\n\n"@
        + consistency_blocks(checks, 0)
        + "\t// Final claim must match expected\n"@ + "\tfinalClaim := "@ + final_claim + "\n"@
        + "\tapi.AssertIsEqual(finalClaim, circuit.ExpectedFinalClaim)\n\n"@ + "\treturn nil\n"@ + "}\n"@
}

/// The block asserting that consistency check `i` (with text `e`) is zero.
fn consistency_block_string(i: usize, e: &str) -> (r: String)
    ensures
        r@ == consistency_block(i as nat, e@),
{
    let mut s = String::new();
    push_str(&mut s, "\t// Sumcheck round ");
    assert(s@ =~= "\t// Sumcheck round "@);
    push_dec(&mut s, i as u64);
    push_str(&mut s, ": poly(0) + poly(1) - claim == 0\n");
    push_str(&mut s, "\tconsistencyCheck");
    push_dec(&mut s, i as u64);
    push_str(&mut s, " := ");
    push_str(&mut s, e);
    push_str(&mut s, "\n");
    push_str(&mut s, "\tapi.AssertIsEqual(consistencyCheck");
    push_dec(&mut s, i as u64);
    push_str(&mut s, ", 0)\n\n");
    s
}

/// Generates the stage-1 Go circuit: every input variable that any of the
/// expressions uses (in increasing order), then the assertions of
/// `stage1_text`.
pub fn generate_stage1_circuit(arena: &Arena, result: &Stage1VerificationResult, circuit_name: &str) -> (r: String)
    requires
        arena_wf(arena@),
        result.final_claim.root < arena@.len(),
        result.power_sum_check.root < arena@.len(),
        forall|k: int| 0 <= k < result.sumcheck_consistency_checks@.len()
            ==> (#[trigger] result.sumcheck_consistency_checks@[k]).root < arena@.len(),
    ensures
        r@ == stage1_text(
            circuit_name@,
            sorted_elems(node_vars(arena@, result.final_claim.root as int)
                .union(node_vars(arena@, result.power_sum_check.root as int))
                .union(roots_vars(arena@, result.sumcheck_consistency_checks@))),
            node_text(arena@, result.final_claim.root as int),
            node_text(arena@, result.power_sum_check.root as int),
            result.sumcheck_consistency_checks@.map_values(|h: MleAst| node_text(arena@, h.root as int)),
        ),
{
    let checks = &result.sumcheck_consistency_checks;
    let mut vars: Vec<u16> = Vec::new();
    proof {
        assert(vars@.to_set() =~= Set::<u16>::empty());
    }
    let final_claim_expr = generate_gnark_expr_with_vars(arena, result.final_claim.root, &mut vars);
    let power_sum_expr = generate_gnark_expr_with_vars(arena, result.power_sum_check.root, &mut vars);
    let ghost base = node_vars(arena@, result.final_claim.root as int).union(node_vars(arena@, result.power_sum_check.root as int));
    proof {
        assert(vars@.to_set() =~= base);
        assert(checks@.subrange(0, checks@.len() as int) =~= checks@);
    }
    let mut consistency_exprs: Vec<String> = Vec::new();
    let mut i: usize = 0;
    while i < checks.len()
        invariant
            arena_wf(arena@),
            forall|k: int| 0 <= k < checks@.len() ==> (#[trigger] checks@[k]).root < arena@.len(),
            i <= checks@.len(),
            strictly_sorted(vars@),
            base.union(roots_vars(arena@, checks@)) == vars@.to_set().union(roots_vars(arena@, checks@.subrange(i as int, checks@.len() as int))),
            consistency_exprs@.len() == i,
            forall|k: int| 0 <= k < i ==> (#[trigger] consistency_exprs@[k])@ == node_text(arena@, checks@[k].root as int),
        decreases checks@.len() - i,
    {
        let ghost rest = checks@.subrange(i as int, checks@.len() as int);
        let ghost v0 = vars@.to_set();
        proof {
            assert(rest.drop_first() =~= checks@.subrange(i + 1, checks@.len() as int));
            assert(rest[0] == checks@[i as int]);
        }
        let e = generate_gnark_expr_with_vars(arena, checks[i].root, &mut vars);
        consistency_exprs.push(e);
        i += 1;
        proof {
            assert(v0.union(roots_vars(arena@, rest)) =~= vars@.to_set().union(roots_vars(arena@, checks@.subrange(i as int, checks@.len() as int))));
        }
    }
    proof {
        assert(checks@.subrange(i as int, checks@.len() as int) =~= Seq::<MleAst>::empty());
        assert(vars@.to_set().union(Set::<u16>::empty()) =~= vars@.to_set());
        lemma_sorted_elems(vars@);
    }
    let ghost texts = checks@.map_values(|h: MleAst| node_text(arena@, h.root as int));
    let mut output = String::new();
    push_str(&mut output, "package jolt_verifier\n\n");
    push_str(&mut output, "import \"github.com/consensys/gnark/frontend\"\n\n");
    push_str(&mut output, "type ");
    push_str(&mut output, circuit_name);
    push_str(&mut output, " struct {\n");
    push_var_fields(&mut output, &vars);
    push_str(&mut output, "\tExpectedFinalClaim frontend.Variable `gnark:\",public\"`\n");
    push_str(&mut output, "}\n\n");
    push_str(&mut output, "func (circuit *");
    push_str(&mut output, circuit_name);
    push_str(&mut output, ") Define(api frontend.API) error {\n");
    push_str(&mut output, "\t// Power sum check: sum over symmetric domain must equal 0\n");
    push_str(&mut output, "\tpowerSumCheck := ");
    push_str(&mut output, power_sum_expr.as_str());
    push_str(&mut output, "\n");
    push_str(&mut output, "\tapi.AssertIsEqual(powerSumCheck, 0)\n\n");
    let ghost mid = output@;
    let mut j: usize = 0;
    proof {
        assert(texts.subrange(0, texts.len() as int) =~= texts);
    }
    while j < consistency_exprs.len()
        invariant
            j <= consistency_exprs@.len(),
            consistency_exprs@.len() == checks@.len(),
            texts.len() == checks@.len(),
            forall|k: int| 0 <= k < consistency_exprs@.len() ==> (#[trigger] consistency_exprs@[k])@ == texts[k],
            mid + consistency_blocks(texts, 0) == output@ + consistency_blocks(texts.subrange(j as int, texts.len() as int), j as nat),
        decreases consistency_exprs@.len() - j,
    {
        let ghost rest = texts.subrange(j as int, texts.len() as int);
        proof {
            assert(rest.drop_first() =~= texts.subrange(j + 1, texts.len() as int));
            assert(rest[0] == texts[j as int]);
        }
        let ghost o0 = output@;
        let blk = consistency_block_string(j, consistency_exprs[j].as_str());
        push_str(&mut output, blk.as_str());
        proof {
            vstd::seq_lib::lemma_concat_associative(o0, blk@, consistency_blocks(rest.drop_first(), (j + 1) as nat));
        }
        j += 1;
    }
    proof {
        assert(texts.subrange(j as int, texts.len() as int) =~= Seq::<Seq<char>>::empty());
    }
    push_str(&mut output, "\t// Final claim must match expected\n");
    push_str(&mut output, "\tfinalClaim := ");
    push_str(&mut output, final_claim_expr.as_str());
    push_str(&mut output, "\n");
    push_str(&mut output, "\tapi.AssertIsEqual(finalClaim, circuit.ExpectedFinalClaim)\n\n");
    push_str(&mut output, "\treturn nil\n");
    push_str(&mut output, "}\n");
    assert(output@ =~= stage1_text(circuit_name@, vars@, final_claim_expr@, power_sum_expr@, texts));
    output
}

// ---------------------------------------------------------------------------
// Laws
// ---------------------------------------------------------------------------

/// Growing the arena never changes the code generated for a node already in
/// it: nodes only refer to earlier nodes, and appending leaves those alone.
pub proof fn law_node_text_stable(s: Seq<Node>, t: Seq<Node>, id: int)
    requires
        0 <= id < s.len(),
    ensures
        node_text(s + t, id) == node_text(s, id),
    decreases id, 2nat, 0nat,
{
    assert((s + t)[id] == s[id]);
    match s[id] {
        Node::Atom(_) => {},
        Node::Add(l, r) | Node::Mul(l, r) | Node::Sub(l, r) | Node::Div(l, r) => {
            lemma_edge_text_stable(s, t, l, id);
            lemma_edge_text_stable(s, t, r, id);
        },
        Node::Neg(e) | Node::Inv(e) | Node::ByteReverse(e) | Node::Truncate128Reverse(e) | Node::Truncate128(e)
        | Node::AppendU64Transform(e) => {
            lemma_edge_text_stable(s, t, e, id);
        },
        Node::TranscriptHash(h, st, r) => {
            lemma_edge_text_stable(s, t, st, id);
            lemma_edge_text_stable(s, t, r, id);
            lemma_args_text_stable(s, t, h.edges(), id);
        },
    }
}

proof fn lemma_edge_text_stable(s: Seq<Node>, t: Seq<Node>, e: Edge, bound: int)
    requires
        0 <= bound <= s.len(),
    ensures
        edge_text(s + t, e, bound) == edge_text(s, e, bound),
    decreases bound, 0nat, 0nat,
{
    if let Edge::NodeRef(j) = e {
        if 0 <= j < bound {
            law_node_text_stable(s, t, j as int);
        }
    }
}

proof fn lemma_args_text_stable(s: Seq<Node>, t: Seq<Node>, es: Seq<Edge>, bound: int)
    requires
        0 <= bound <= s.len(),
    ensures
        args_text(s + t, es, bound) == args_text(s, es, bound),
    decreases bound, 1nat, es.len(),
{
    if es.len() > 0 {
        lemma_edge_text_stable(s, t, es[0], bound);
        lemma_args_text_stable(s, t, es.drop_first(), bound);
    }
}

/// Growing the arena never changes the input variables of a node already in it.
pub proof fn law_node_vars_stable(s: Seq<Node>, t: Seq<Node>, id: int)
    requires
        0 <= id < s.len(),
    ensures
        node_vars(s + t, id) == node_vars(s, id),
    decreases id, 2nat, 0nat,
{
    assert((s + t)[id] == s[id]);
    if !(s[id] is Atom) {
        lemma_args_vars_stable(s, t, node_edges(s[id]), id);
    }
}

proof fn lemma_edge_vars_stable(s: Seq<Node>, t: Seq<Node>, e: Edge, bound: int)
    requires
        0 <= bound <= s.len(),
    ensures
        edge_vars(s + t, e, bound) == edge_vars(s, e, bound),
    decreases bound, 0nat, 0nat,
{
    if let Edge::NodeRef(j) = e {
        if 0 <= j < bound {
            law_node_vars_stable(s, t, j as int);
        }
    }
}

proof fn lemma_args_vars_stable(s: Seq<Node>, t: Seq<Node>, es: Seq<Edge>, bound: int)
    requires
        0 <= bound <= s.len(),
    ensures
        args_vars(s + t, es, bound) == args_vars(s, es, bound),
    decreases bound, 1nat, es.len(),
{
    if es.len() > 0 {
        lemma_edge_vars_stable(s, t, es[0], bound);
        lemma_args_vars_stable(s, t, es.drop_first(), bound);
    }
}


/// The inputs a generated circuit declares (`generate_circuit`,
/// `generate_simple_circuit`) are those its expression reads, each once, in
/// increasing order.
pub proof fn law_circuit_inputs_sorted(nodes: Seq<Node>, id: int)
    ensures
        strictly_sorted(sorted_elems(node_vars(nodes, id))),
        sorted_elems(node_vars(nodes, id)).to_set() == node_vars(nodes, id),
        sorted_elems(node_vars(nodes, id)).no_duplicates(),
{
    lemma_sorted_elems_exist(node_vars(nodes, id));
    let q = sorted_elems(node_vars(nodes, id));
    assert forall|i: int, j: int| 0 <= i < q.len() && 0 <= j < q.len() && i != j implies q[i] != q[j] by {
        if i < j {
            assert(q[i] < q[j]);
        } else {
            assert(q[j] < q[i]);
        }
    }
}


/// The Go expression `node_text` stands for at node `id`: every operand
/// inlined, a quotient written `api.Div`.
pub open spec fn inline_go(nodes: Seq<Node>, id: int) -> GoExpr
    decreases id, 1nat,
{
    if id < 0 || id >= nodes.len() {
        GoExpr::Const([0u64, 0u64, 0u64, 0u64])
    } else {
        match nodes[id] {
            Node::Atom(a) => atom_go(a),
            Node::Add(l, r) => GoExpr::Call2(GoFn::Add, Box::new(inline_edge_go(nodes, l, id)), Box::new(inline_edge_go(nodes, r, id))),
            Node::Sub(l, r) => GoExpr::Call2(GoFn::Sub, Box::new(inline_edge_go(nodes, l, id)), Box::new(inline_edge_go(nodes, r, id))),
            Node::Mul(l, r) => GoExpr::Call2(GoFn::Mul, Box::new(inline_edge_go(nodes, l, id)), Box::new(inline_edge_go(nodes, r, id))),
            Node::Div(l, r) => GoExpr::Call2(GoFn::Div, Box::new(inline_edge_go(nodes, l, id)), Box::new(inline_edge_go(nodes, r, id))),
            Node::Neg(e) => GoExpr::Call1(GoFn::Neg, Box::new(inline_edge_go(nodes, e, id))),
            Node::Inv(e) => GoExpr::Call1(GoFn::Inverse, Box::new(inline_edge_go(nodes, e, id))),
            _ => GoExpr::Const([0u64, 0u64, 0u64, 0u64]),
        }
    }
}

/// The Go expression of an operand of node `bound`.
pub open spec fn inline_edge_go(nodes: Seq<Node>, e: Edge, bound: int) -> GoExpr
    decreases bound, 0nat,
{
    match e {
        Edge::Atom(a) => atom_go(a),
        Edge::NodeRef(j) => if 0 <= j < bound { inline_go(nodes, j as int) } else { GoExpr::Const([0u64, 0u64, 0u64, 0u64]) },
    }
}

/// The generated gnark text means what the node computes: for field
/// arithmetic, `generate_gnark_expr`'s text is the writing of a Go
/// expression whose value under gnark's `api` operations is the node's
/// value under every assignment of the inputs (and that has none exactly
/// when the node has none, as for a quotient by zero). So each operand
/// stands where its operation reads it: the numerator of `api.Div` first.
pub proof fn law_node_text_denotes_value(nodes: Seq<Node>, w: Map<u16, [u64; 4]>, id: int)
    requires
        arith_from(nodes, id),
    ensures
        render(inline_go(nodes, id), false, Map::empty()) == node_text(nodes, id),
        go_eval(inline_go(nodes, id), w) == node_eval(nodes, w, id),
    decreases id, 1nat,
{
    lemma_call_openings();
    match nodes[id] {
        Node::Atom(a) => {},
        Node::Add(l, r) | Node::Sub(l, r) | Node::Mul(l, r) | Node::Div(l, r) => {
            lemma_edge_text_denotes_value(nodes, w, l, id);
            lemma_edge_text_denotes_value(nodes, w, r, id);
            let g = inline_go(nodes, id);
            let (f, p) = match nodes[id] {
                Node::Add(_, _) => (GoFn::Add, "api.Add("@),
                Node::Sub(_, _) => (GoFn::Sub, "api.Sub("@),
                Node::Mul(_, _) => (GoFn::Mul, "api.Mul("@),
                _ => (GoFn::Div, "api.Div("@),
            };
            let a = render(inline_edge_go(nodes, l, id), false, Map::empty());
            let b = render(inline_edge_go(nodes, r, id), false, Map::empty());
            assert(render(g, false, Map::empty()) == fn_name(f) + "("@ + a + ", "@ + b + ")"@);
            assert(fn_name(f) + "("@ + a + ", "@ + b + ")"@ =~= p + a + ", "@ + b + ")"@);
        },
        Node::Neg(e) | Node::Inv(e) => {
            lemma_edge_text_denotes_value(nodes, w, e, id);
            let g = inline_go(nodes, id);
            let (f, p) = match nodes[id] {
                Node::Neg(_) => (GoFn::Neg, "api.Neg("@),
                _ => (GoFn::Inverse, "api.Inverse("@),
            };
            let a = render(inline_edge_go(nodes, e, id), false, Map::empty());
            assert(render(g, false, Map::empty()) == fn_name(f) + "("@ + a + ")"@);
            assert(fn_name(f) + "("@ + a + ")"@ =~= p + a + ")"@);
        },
        _ => {},
    }
}

proof fn lemma_edge_text_denotes_value(nodes: Seq<Node>, w: Map<u16, [u64; 4]>, e: Edge, bound: int)
    requires
        arith_edge(nodes, e, bound),
    ensures
        render(inline_edge_go(nodes, e, bound), false, Map::empty()) == edge_text(nodes, e, bound),
        go_eval(inline_edge_go(nodes, e, bound), w) == edge_eval(nodes, w, e, bound),
    decreases bound, 0nat,
{
    match e {
        Edge::Atom(a) => {},
        Edge::NodeRef(j) => {
            law_node_text_denotes_value(nodes, w, j as int);
        },
    }
}


/// The stage-1 circuit checks its result against the public input: it
/// declares `ExpectedFinalClaim` as a public field, binds `finalClaim` to
/// the final claim's expression, and its last statement before returning
/// asserts `finalClaim == circuit.ExpectedFinalClaim`.
pub proof fn law_stage1_checks_expected_claim(name: Seq<char>, vars: Seq<u16>, final_claim: Seq<char>,
    power_sum: Seq<char>, checks: Seq<Seq<char>>)
    ensures
        ({
            let t = stage1_text(name, vars, final_claim, power_sum, checks);
            let tail = "\tapi.AssertIsEqual(finalClaim, circuit.ExpectedFinalClaim)\n\n\treturn nil\n}\n"@;
            &&& t.len() >= tail.len()
            &&& t.subrange(t.len() - tail.len(), t.len() as int) == tail
            &&& has_sub(t, "\tfinalClaim := "@ + final_claim + "\n"@)
            &&& has_sub(t, "ExpectedFinalClaim frontend.Variable `gnark:\",public\"`"@)
        }),
{
    let t = stage1_text(name, vars, final_claim, power_sum, checks);
    let tail = "\tapi.AssertIsEqual(finalClaim, circuit.ExpectedFinalClaim)\n\n\treturn nil\n}\n"@;
    let a1 = "\tapi.AssertIsEqual(finalClaim, circuit.ExpectedFinalClaim)\n\n"@;
    let a2 = "\treturn nil\n"@;
    let a3 = "}\n"@;
    reveal_strlit("\tapi.AssertIsEqual(finalClaim, circuit.ExpectedFinalClaim)\n\n\treturn nil\n}\n");
    reveal_strlit("\tapi.AssertIsEqual(finalClaim, circuit.ExpectedFinalClaim)\n\n");
    reveal_strlit("\treturn nil\n");
    reveal_strlit("}\n");
    assert(tail =~= a1 + a2 + a3);
    let head = circuit_head(name, vars) + "\tExpectedFinalClaim frontend.Variable `gnark:\",public\"`\n"@ + "}\n\n"@
        + "func (circuit *"@ + name + ") Define(api frontend.API) error {\n"@
        + "\t// Power sum check: sum over symmetric domain must equal 0\n"@
        + "\tpowerSumCheck := "@ + power_sum + "\n"@ + "\tapi.AssertIsEqual(powerSumCheck, 0)\n\n"@
        + consistency_blocks(checks, 0)
        + "\t// Final claim must match expected\n"@;
    let fc = "\tfinalClaim := "@ + final_claim + "\n"@;
    assert(t == head + fc + a1 + a2 + a3);
    assert(t =~= (head + fc) + tail);
    assert(t.subrange(t.len() - tail.len(), t.len() as int) =~= tail);
    assert(occurs_at(t, fc, head.len() as int)) by {
        assert(t.subrange(head.len() as int, (head.len() + fc.len()) as int) =~= fc);
    }
    let decl = "ExpectedFinalClaim frontend.Variable `gnark:\",public\"`"@;
    let dl = "\tExpectedFinalClaim frontend.Variable `gnark:\",public\"`\n"@;
    reveal_strlit("ExpectedFinalClaim frontend.Variable `gnark:\",public\"`");
    reveal_strlit("\tExpectedFinalClaim frontend.Variable `gnark:\",public\"`\n");
    let h0 = circuit_head(name, vars);
    assert(occurs_at(t, decl, (h0.len() + 1) as int)) by {
        assert(t.subrange(h0.len() as int, (h0.len() + dl.len()) as int) =~= dl);
        assert(dl.subrange(1, (1 + decl.len()) as int) =~= decl);
        assert(t.subrange((h0.len() + 1) as int, (h0.len() + 1 + decl.len()) as int) =~= decl);
    }
}

} // verus!
