//! Constant subexpressions: which nodes hold no variable, and their values
//! in the BN254 scalar field.

use vstd::prelude::*;
use crate::mle_ast::{node_edge_vec, node_edges, Atom, Edge, Node};
use crate::scalar::{add_mod_spec, limbs_val, modulus, mul_mod_spec, neg_mod_spec, scalar_add_mod, scalar_mul_mod,
    scalar_neg_mod, scalar_sub_mod, sub_mod_spec};
use crate::ast_evaluator::{canonical, field_inv, fr_inverse, lemma_field_inv};

verus! {

/// The expression rooted at node `id` contains no variable.
pub open spec fn node_const(nodes: Seq<Node>, id: int) -> bool
    decreases id, 1nat, 0nat,
{
    0 <= id < nodes.len() && match nodes[id] {
        Node::Atom(a) => a is Scalar,
        _ => edges_const(nodes, node_edges(nodes[id]), id),
    }
}

/// An operand of node `bound` contains no variable.
pub open spec fn edge_const(nodes: Seq<Node>, e: Edge, bound: int) -> bool
    decreases bound, 0nat, 1nat,
{
    match e {
        Edge::Atom(a) => a is Scalar,
        Edge::NodeRef(j) => (j as int) < bound && node_const(nodes, j as int),
    }
}

/// The operands of node `bound` contain no variable.
pub open spec fn edges_const(nodes: Seq<Node>, es: Seq<Edge>, bound: int) -> bool
    decreases bound, 0nat, 2nat + es.len(),
{
    es.len() == 0 || (edge_const(nodes, es[0], bound) && edges_const(nodes, es.drop_first(), bound))
}

/// Whether the expression rooted at a node contains no variable
/// (`is_node_constant_in`).
pub fn is_node_constant_in(nodes: &[Node], node_id: usize) -> (r: bool)
    requires
        node_id < nodes@.len(),
    ensures
        r == node_const(nodes@, node_id as int),
    decreases node_id, 1nat,
{
    match &nodes[node_id] {
        Node::Atom(Atom::Scalar(_)) => true,
        Node::Atom(_) => false,
        _ => {
            let es = node_edge_vec(&nodes[node_id]);
            let mut k: usize = 0;
            assert(es@.subrange(0, es@.len() as int) =~= es@);
            while k < es.len()
                invariant
                    k <= es@.len(),
                    node_id < nodes@.len(),
                    es@ == node_edges(nodes@[node_id as int]),
                    edges_const(nodes@, es@, node_id as int) == edges_const(nodes@, es@.subrange(k as int, es@.len() as int), node_id as int),
                decreases es@.len() - k,
            {
                let rest = Ghost(es@.subrange(k as int, es@.len() as int));
                assert(rest@.drop_first() =~= es@.subrange(k + 1, es@.len() as int));
                if !is_edge_constant_in(nodes, es[k], node_id) {
                    return false;
                }
                k += 1;
            }
            true
        },
    }
}

/// Whether an operand of node `bound` contains no variable (`is_edge_constant_in`).
pub fn is_edge_constant_in(nodes: &[Node], edge: Edge, bound: usize) -> (r: bool)
    requires
        bound < nodes@.len(),
    ensures
        r == edge_const(nodes@, edge, bound as int),
    decreases bound, 0nat,
{
    match edge {
        Edge::Atom(Atom::Scalar(_)) => true,
        Edge::Atom(_) => false,
        Edge::NodeRef(j) => {
            if j < bound {
                is_node_constant_in(nodes, j)
            } else {
                false
            }
        },
    }
}

/// The expression rooted at node `id` is built from constants by field
/// addition, subtraction, multiplication, negation, inversion and division
/// only, so that it can be evaluated.
pub open spec fn node_evaluable(nodes: Seq<Node>, id: int) -> bool
    decreases id, 1nat,
{
    0 <= id < nodes.len() && match nodes[id] {
        Node::Atom(a) => a is Scalar,
        Node::Add(a, b) | Node::Sub(a, b) | Node::Mul(a, b) | Node::Div(a, b) =>
            edge_evaluable(nodes, a, id) && edge_evaluable(nodes, b, id),
        Node::Neg(a) | Node::Inv(a) => edge_evaluable(nodes, a, id),
        _ => false,
    }
}

/// An operand of node `bound` can be evaluated.
pub open spec fn edge_evaluable(nodes: Seq<Node>, e: Edge, bound: int) -> bool
    decreases bound, 0nat,
{
    match e {
        Edge::Atom(a) => a is Scalar,
        Edge::NodeRef(j) => (j as int) < bound && node_evaluable(nodes, j as int),
    }
}

/// The inverse of a value in the field (0 for a value that is 0 modulo `p`,
/// which has none).
pub open spec fn inv_value(v: nat) -> nat {
    if v % modulus() == 0 { 0 } else { field_inv(v % modulus()) }
}

/// The field value of an evaluable expression (an atom's constant is taken
/// as written; every operation reduces modulo the prime).
pub open spec fn node_value(nodes: Seq<Node>, id: int) -> nat
    decreases id, 1nat,
{
    if 0 <= id < nodes.len() {
        match nodes[id] {
            Node::Atom(Atom::Scalar(s)) => limbs_val(s),
            Node::Add(a, b) => add_mod_spec(edge_value(nodes, a, id), edge_value(nodes, b, id)),
            Node::Sub(a, b) => sub_mod_spec(edge_value(nodes, a, id), edge_value(nodes, b, id)),
            Node::Mul(a, b) => mul_mod_spec(edge_value(nodes, a, id), edge_value(nodes, b, id)),
            Node::Neg(a) => neg_mod_spec(edge_value(nodes, a, id)),
            Node::Inv(a) => inv_value(edge_value(nodes, a, id)),
            Node::Div(a, b) => mul_mod_spec(edge_value(nodes, a, id), inv_value(edge_value(nodes, b, id))),
            _ => 0,
        }
    } else {
        0
    }
}

/// The field value of an operand of node `bound`.
pub open spec fn edge_value(nodes: Seq<Node>, e: Edge, bound: int) -> nat
    decreases bound, 0nat,
{
    match e {
        Edge::Atom(Atom::Scalar(s)) => limbs_val(s),
        Edge::Atom(_) => 0,
        Edge::NodeRef(j) => if (j as int) < bound { node_value(nodes, j as int) } else { 0 },
    }
}

/// Evaluating the expression rooted at node `id` inverts zero somewhere:
/// an inversion of, or a division by, a value that is 0 modulo `p`.
pub open spec fn node_inverts_zero(nodes: Seq<Node>, id: int) -> bool
    decreases id, 1nat,
{
    0 <= id < nodes.len() && match nodes[id] {
        Node::Add(a, b) | Node::Sub(a, b) | Node::Mul(a, b) =>
            edge_inverts_zero(nodes, a, id) || edge_inverts_zero(nodes, b, id),
        Node::Neg(a) => edge_inverts_zero(nodes, a, id),
        Node::Inv(a) => edge_inverts_zero(nodes, a, id) || edge_value(nodes, a, id) % modulus() == 0,
        Node::Div(a, b) => edge_inverts_zero(nodes, a, id) || edge_inverts_zero(nodes, b, id)
            || edge_value(nodes, b, id) % modulus() == 0,
        _ => false,
    }
}

/// Evaluating an operand of node `bound` inverts zero somewhere.
pub open spec fn edge_inverts_zero(nodes: Seq<Node>, e: Edge, bound: int) -> bool
    decreases bound, 0nat,
{
    match e {
        Edge::Atom(_) => false,
        Edge::NodeRef(j) => (j as int) < bound && node_inverts_zero(nodes, j as int),
    }
}

/// The value of `x` reduced, and whether it is zero.
fn reduced(x: [u64; 4]) -> (r: ([u64; 4], bool))
    ensures
        canonical(r.0),
        limbs_val(r.0) == limbs_val(x) % modulus(),
        r.1 == (limbs_val(x) % modulus() == 0),
{
    let y = scalar_add_mod(x, [0u64, 0u64, 0u64, 0u64]);
    assert(limbs_val([0u64, 0u64, 0u64, 0u64]) == 0);
    let z = y[0] == 0 && y[1] == 0 && y[2] == 0 && y[3] == 0;
    (y, z)
}

/// The inverse of a value that is not 0 modulo `p`.
fn invert(x: [u64; 4]) -> (r: Option<[u64; 4]>)
    ensures
        r is None <==> limbs_val(x) % modulus() == 0,
        r matches Some(v) ==> limbs_val(v) == inv_value(limbs_val(x)),
{
    let (y, z) = reduced(x);
    if z {
        return None;
    }
    match fr_inverse(y) {
        Some(v) => {
            proof {
                lemma_field_inv(limbs_val(y), limbs_val(v));
            }
            Some(v)
        },
        None => None,
    }
}

/// Evaluates a constant expression (`evaluate_constant_node_in`): an atom
/// gives its constant as written, an operation its reduced field value;
/// `None` when the evaluation inverts zero.
pub fn evaluate_constant_node_in(nodes: &[Node], node_id: usize) -> (r: Option<[u64; 4]>)
    requires
        node_evaluable(nodes@, node_id as int),
    ensures
        r is None <==> node_inverts_zero(nodes@, node_id as int),
        r matches Some(v) ==> limbs_val(v) == node_value(nodes@, node_id as int),
        nodes@[node_id as int] matches Node::Atom(Atom::Scalar(s)) ==> r == Some(s),
    decreases node_id, 1nat,
{
    match &nodes[node_id] {
        Node::Atom(Atom::Scalar(s)) => Some(*s),
        Node::Add(a, b) | Node::Sub(a, b) | Node::Mul(a, b) | Node::Div(a, b) => {
            let x = evaluate_constant_edge_in(nodes, *a, node_id);
            let y = evaluate_constant_edge_in(nodes, *b, node_id);
            match (x, y) {
                (Some(x), Some(y)) => match &nodes[node_id] {
                    Node::Add(_, _) => Some(scalar_add_mod(x, y)),
                    Node::Sub(_, _) => Some(scalar_sub_mod(x, y)),
                    Node::Mul(_, _) => Some(scalar_mul_mod(x, y)),
                    _ => match invert(y) {
                        Some(iy) => Some(scalar_mul_mod(x, iy)),
                        None => None,
                    },
                },
                _ => None,
            }
        },
        Node::Neg(a) => match evaluate_constant_edge_in(nodes, *a, node_id) {
            Some(x) => Some(scalar_neg_mod(x)),
            None => None,
        },
        Node::Inv(a) => match evaluate_constant_edge_in(nodes, *a, node_id) {
            Some(x) => invert(x),
            None => None,
        },
        _ => None,
    }
}

/// Evaluates a constant operand of node `bound` (`evaluate_constant_edge_in`).
pub fn evaluate_constant_edge_in(nodes: &[Node], edge: Edge, bound: usize) -> (r: Option<[u64; 4]>)
    requires
        edge_evaluable(nodes@, edge, bound as int),
    ensures
        r is None <==> edge_inverts_zero(nodes@, edge, bound as int),
        r matches Some(v) ==> limbs_val(v) == edge_value(nodes@, edge, bound as int),
    decreases bound, 0nat,
{
    match edge {
        Edge::Atom(Atom::Scalar(s)) => Some(s),
        Edge::Atom(_) => None,
        Edge::NodeRef(j) => evaluate_constant_node_in(nodes, j),
    }
}

} // verus!
