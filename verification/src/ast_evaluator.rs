//! Concrete evaluation of arena nodes over the BN254 scalar field.
//!
//! Field elements are held as their canonical value in four little-endian
//! 64-bit limbs. The field arithmetic is that of `ark_bn254::Fr`, and the
//! transcript hash is the circom-compatible width-4 Poseidon of
//! `light_poseidon`; evaluation walks the nodes that the constraints reach,
//! in increasing order, so that every operand is known before its node.

use vstd::prelude::*;
use std::collections::HashMap;
use ark_bn254::Fr;
use ark_ff::{BigInt, Field, PrimeField};
use light_poseidon::{Poseidon, PoseidonHasher};
use vstd::arithmetic::div_mod::{lemma_fundamental_div_mod_converse, lemma_mul_mod_noop_left, lemma_mul_mod_noop_right, lemma_small_mod};
use vstd::arithmetic::mul::lemma_mul_is_associative;
use crate::bundle::{flagged, is_operand, lemma_reached_operand, mark_reachable, no_flags, reached, Assertion, Constraint};
use crate::bytes::{le_nat, limbs_le_bytes, u64_from_le, u64_le_bytes};
use crate::mle_ast::{arena_wf, edge_ok, node_edges, node_ok, Atom, Edge, MleAst, Node, TranscriptHashData};
use crate::scalar::{limbs_val, modulus, add_mod_spec, sub_mod_spec, mul_mod_spec, neg_mod_spec};
use crate::text::{copy_string, dec, scalar_decimal};

verus! {

// ---------------------------------------------------------------------------
// Field elements
// ---------------------------------------------------------------------------

/// Limbs holding a reduced field element.
pub open spec fn canonical(l: [u64; 4]) -> bool {
    limbs_val(l) < modulus()
}

/// The field element that limbs stand for (their value reduced).
pub open spec fn fr_of(l: [u64; 4]) -> nat {
    limbs_val(l) % modulus()
}

/// The inverse of `v` in the field: the `x < p` with `v * x = 1 (mod p)`.
pub open spec fn is_inverse(v: nat, x: nat) -> bool {
    x < modulus() && (v * x) % modulus() == 1
}

/// The inverse of a nonzero field element (reduced, so that it is a field
/// element whatever `v` is).
pub open spec fn field_inv(v: nat) -> nat {
    (choose|x: nat| is_inverse(v, x)) % modulus()
}

/// The circom-compatible width-4 Poseidon hash of three field elements.
pub uninterp spec fn poseidon3(a: nat, b: nat, c: nat) -> nat;

/// Sum in `ark_bn254::Fr` (its `Add` impl): the value is `(a + b) mod p`.
#[verifier::external_body]
pub(crate) fn fr_add(a: [u64; 4], b: [u64; 4]) -> (r: [u64; 4])
    requires
        canonical(a),
        canonical(b),
    ensures
        canonical(r),
        limbs_val(r) == add_mod_spec(limbs_val(a), limbs_val(b)),
{
    (Fr::from_bigint(BigInt::new(a)).unwrap() + Fr::from_bigint(BigInt::new(b)).unwrap()).into_bigint().0
}

/// Difference in `ark_bn254::Fr` (its `Sub` impl): the value is `(a - b) mod p`.
#[verifier::external_body]
pub(crate) fn fr_sub(a: [u64; 4], b: [u64; 4]) -> (r: [u64; 4])
    requires
        canonical(a),
        canonical(b),
    ensures
        canonical(r),
        limbs_val(r) == sub_mod_spec(limbs_val(a), limbs_val(b)),
{
    (Fr::from_bigint(BigInt::new(a)).unwrap() - Fr::from_bigint(BigInt::new(b)).unwrap()).into_bigint().0
}

/// Product in `ark_bn254::Fr` (its `Mul` impl): the value is `(a * b) mod p`.
#[verifier::external_body]
pub(crate) fn fr_mul(a: [u64; 4], b: [u64; 4]) -> (r: [u64; 4])
    requires
        canonical(a),
        canonical(b),
    ensures
        canonical(r),
        limbs_val(r) == mul_mod_spec(limbs_val(a), limbs_val(b)),
{
    (Fr::from_bigint(BigInt::new(a)).unwrap() * Fr::from_bigint(BigInt::new(b)).unwrap()).into_bigint().0
}

/// Negation in `ark_bn254::Fr` (its `Neg` impl): the value is `-a mod p`.
#[verifier::external_body]
pub(crate) fn fr_neg(a: [u64; 4]) -> (r: [u64; 4])
    requires
        canonical(a),
    ensures
        canonical(r),
        limbs_val(r) == neg_mod_spec(limbs_val(a)),
{
    (-Fr::from_bigint(BigInt::new(a)).unwrap()).into_bigint().0
}

/// `Field::inverse` of `ark_bn254::Fr`: `None` for zero, otherwise the
/// element whose product with `a` is one.
#[verifier::external_body]
pub(crate) fn fr_inverse(a: [u64; 4]) -> (r: Option<[u64; 4]>)
    requires
        canonical(a),
    ensures
        r is None <==> limbs_val(a) == 0,
        r matches Some(x) ==> canonical(x) && is_inverse(limbs_val(a), limbs_val(x)),
{
    Fr::from_bigint(BigInt::new(a)).unwrap().inverse().map(|x| x.into_bigint().0)
}

/// `PrimeField::from_le_bytes_mod_order` of `ark_bn254::Fr`: the bytes read
/// as a little-endian number, reduced modulo `p`.
#[verifier::external_body]
pub(crate) fn fr_from_le_bytes_mod_order(bytes: &[u8]) -> (r: [u64; 4])
    ensures
        canonical(r),
        limbs_val(r) == le_nat(bytes@) % modulus(),
{
    Fr::from_le_bytes_mod_order(bytes).into_bigint().0
}

/// `PoseidonHasher::hash` of `light_poseidon::Poseidon::<Fr>::new_circom(3)`
/// on the three elements, named by `poseidon3`; the result is a field element.
#[verifier::external_body]
pub(crate) fn poseidon_hash3(a: [u64; 4], b: [u64; 4], c: [u64; 4]) -> (r: [u64; 4])
    requires
        canonical(a),
        canonical(b),
        canonical(c),
    ensures
        canonical(r),
        limbs_val(r) == poseidon3(limbs_val(a), limbs_val(b), limbs_val(c)),
{
    let inputs = [
        Fr::from_bigint(BigInt::new(a)).unwrap(),
        Fr::from_bigint(BigInt::new(b)).unwrap(),
        Fr::from_bigint(BigInt::new(c)).unwrap(),
    ];
    Poseidon::<Fr>::new_circom(3).unwrap().hash(&inputs).unwrap().into_bigint().0
}

/// Inverses are unique.
pub proof fn lemma_inverse_unique(v: nat, x: nat, y: nat)
    requires
        is_inverse(v, x),
        is_inverse(v, y),
    ensures
        x == y,
{
    let m = modulus() as int;
    lemma_mul_mod_noop_right(x as int, (v * y) as int, m);
    lemma_mul_is_associative(x as int, v as int, y as int);
    lemma_mul_mod_noop_left((x * v) as int, y as int, m);
    assert((x * v) % modulus() == 1) by {
        assert(x * v == v * x) by (nonlinear_arith);
    }
    lemma_small_mod(x, modulus());
    lemma_small_mod(y, modulus());
}

/// What an inverse found for `v` is: `field_inv(v)`.
/// The inverse `field_inv` names is the one `is_inverse` describes.
pub proof fn lemma_field_inv(v: nat, x: nat)
    requires
        is_inverse(v, x),
    ensures
        field_inv(v) == x,
{
    let y = choose|y: nat| is_inverse(v, y);
    assert(is_inverse(v, y));
    lemma_inverse_unique(v, x, y);
    lemma_small_mod(y, modulus());
}

// ---------------------------------------------------------------------------
// Byte-level transforms
// ---------------------------------------------------------------------------

/// The `n` lowest bytes of `v`, least significant first.
pub open spec fn le_repr(v: nat, n: nat) -> Seq<u8>
    decreases n,
{
    if n == 0 {
        seq![]
    } else {
        seq![(v % 256) as u8] + le_repr(v / 256, (n - 1) as nat)
    }
}

/// A byte string is the little-endian representation of its own value.
pub proof fn lemma_le_repr(b: Seq<u8>)
    ensures
        b == le_repr(le_nat(b), b.len()),
    decreases b.len(),
{
    if b.len() > 0 {
        let rest = b.drop_first();
        lemma_le_repr(rest);
        lemma_fundamental_div_mod_converse(le_nat(b) as int, 256, le_nat(rest) as int, b[0] as int);
        assert(b =~= seq![b[0]] + rest);
    }
}

/// 2^128.
pub open spec fn pow2_128() -> nat {
    0x1_0000_0000_0000_0000_0000_0000_0000_0000nat
}

/// 2^192.
pub open spec fn pow2_192() -> nat {
    0x1_0000_0000_0000_0000_0000_0000_0000_0000_0000_0000_0000_0000nat
}

/// `ByteReverse`: the 32 little-endian bytes of the value, reversed, read
/// back modulo `p`.
pub open spec fn byte_reverse_value(v: nat) -> nat {
    le_nat(le_repr(v, 32).reverse()) % modulus()
}

/// `Truncate128`: the 16 low bytes of the value, reversed, read back.
pub open spec fn truncate128_value(v: nat) -> nat {
    le_nat(le_repr(v, 32).subrange(0, 16).reverse()) % modulus()
}

/// `Truncate128Reverse`: `Truncate128` shifted up by 128 bits.
pub open spec fn truncate128_reverse_value(v: nat) -> nat {
    mul_mod_spec(truncate128_value(v), pow2_128())
}

/// `AppendU64Transform`: the low 64-bit word with its bytes swapped,
/// shifted up by 192 bits.
pub open spec fn append_u64_value(v: nat) -> nat {
    mul_mod_spec(le_nat(le_repr(v % 0x1_0000_0000_0000_0000nat, 8).reverse()), pow2_192())
}

// ---------------------------------------------------------------------------
// Values of nodes
// ---------------------------------------------------------------------------

/// Both values, combined by `f`, if both exist.
pub open spec fn lift2(x: Option<nat>, y: Option<nat>, f: spec_fn(nat, nat) -> nat) -> Option<nat> {
    match (x, y) {
        (Some(a), Some(b)) => Some(f(a, b)),
        _ => None,
    }
}

/// The value mapped by `f`, if it exists.
pub open spec fn lift1(x: Option<nat>, f: spec_fn(nat) -> nat) -> Option<nat> {
    match x {
        Some(a) => Some(f(a)),
        None => None,
    }
}

/// The value of an atom: a constant reduced modulo `p`, or the witness of
/// an input variable; a let-bound variable, or an input without a witness,
/// has none.
pub open spec fn atom_eval(a: Atom, w: Map<u16, [u64; 4]>) -> Option<nat> {
    match a {
        Atom::Scalar(l) => Some(fr_of(l)),
        Atom::Var(i) => if w.contains_key(i) { Some(fr_of(w[i])) } else { None },
        Atom::NamedVar(_) => None,
    }
}

/// The value of an operand of node `bound`.
pub open spec fn edge_eval(nodes: Seq<Node>, w: Map<u16, [u64; 4]>, e: Edge, bound: int) -> Option<nat> {
    edge_eval_in(nodes, w, e, bound, true)
}

/// The value of node `id` over the field, if evaluation succeeds: it fails
/// on a missing value, on inverting zero, and on a hash other than Poseidon.
pub open spec fn node_eval(nodes: Seq<Node>, w: Map<u16, [u64; 4]>, id: int) -> Option<nat> {
    node_eval_in(nodes, w, id, true)
}

/// The value of an operand of node `bound`; byte transforms are evaluated
/// only when `bytes` holds.
pub open spec fn edge_eval_in(nodes: Seq<Node>, w: Map<u16, [u64; 4]>, e: Edge, bound: int, bytes: bool) -> Option<nat>
    decreases bound, 0nat,
{
    match e {
        Edge::Atom(a) => atom_eval(a, w),
        Edge::NodeRef(j) => if 0 <= j < bound { node_eval_in(nodes, w, j as int, bytes) } else { None },
    }
}

/// The value of node `id`; byte transforms are evaluated only when `bytes`
/// holds, and fail otherwise.
pub open spec fn node_eval_in(nodes: Seq<Node>, w: Map<u16, [u64; 4]>, id: int, bytes: bool) -> Option<nat>
    decreases id, 1nat,
{
    if id < 0 || id >= nodes.len() {
        None
    } else {
        match nodes[id] {
            Node::Atom(a) => atom_eval(a, w),
            Node::Add(x, y) => lift2(edge_eval_in(nodes, w, x, id, bytes), edge_eval_in(nodes, w, y, id, bytes), |a: nat, b: nat| add_mod_spec(a, b)),
            Node::Sub(x, y) => lift2(edge_eval_in(nodes, w, x, id, bytes), edge_eval_in(nodes, w, y, id, bytes), |a: nat, b: nat| sub_mod_spec(a, b)),
            Node::Mul(x, y) => lift2(edge_eval_in(nodes, w, x, id, bytes), edge_eval_in(nodes, w, y, id, bytes), |a: nat, b: nat| mul_mod_spec(a, b)),
            Node::Div(x, y) => match (edge_eval_in(nodes, w, x, id, bytes), edge_eval_in(nodes, w, y, id, bytes)) {
                (Some(a), Some(b)) => if b == 0 { None } else { Some(mul_mod_spec(a, field_inv(b))) },
                _ => None,
            },
            Node::Neg(x) => lift1(edge_eval_in(nodes, w, x, id, bytes), |a: nat| neg_mod_spec(a)),
            Node::Inv(x) => match edge_eval_in(nodes, w, x, id, bytes) {
                Some(a) => if a == 0 { None } else { Some(field_inv(a)) },
                None => None,
            },
            Node::TranscriptHash(h, st, rd) => match h {
                TranscriptHashData::Poseidon(d) => match (edge_eval_in(nodes, w, st, id, bytes), edge_eval_in(nodes, w, rd, id, bytes), edge_eval_in(nodes, w, d, id, bytes)) {
                    (Some(a), Some(b), Some(c)) => Some(poseidon3(a, b, c) % modulus()),
                    _ => None,
                },
                _ => None,
            },
            Node::ByteReverse(x) => if !bytes { None } else { lift1(edge_eval_in(nodes, w, x, id, bytes), |a: nat| byte_reverse_value(a)) },
            Node::Truncate128Reverse(x) => if !bytes { None } else { lift1(edge_eval_in(nodes, w, x, id, bytes), |a: nat| truncate128_reverse_value(a)) },
            Node::Truncate128(x) => if !bytes { None } else { lift1(edge_eval_in(nodes, w, x, id, bytes), |a: nat| truncate128_value(a)) },
            Node::AppendU64Transform(x) => if !bytes { None } else { lift1(edge_eval_in(nodes, w, x, id, bytes), |a: nat| append_u64_value(a)) },
        }
    }
}

/// A computed value matches a specified one: both missing, or a field
/// element holding the value.
pub open spec fn matches_value(r: Option<[u64; 4]>, v: Option<nat>) -> bool {
    match (r, v) {
        (Some(l), Some(x)) => canonical(l) && limbs_val(l) == x,
        (None, None) => true,
        _ => false,
    }
}

// ---------------------------------------------------------------------------
// Evaluation
// ---------------------------------------------------------------------------

/// A constant as a field element (`scalar_to_fr`): its value reduced modulo `p`.
pub fn scalar_to_fr(l: [u64; 4]) -> (r: [u64; 4])
    ensures
        canonical(r),
        limbs_val(r) == fr_of(l),
{
    let bytes = limbs_le_bytes(l);
    fr_from_le_bytes_mod_order(bytes.as_slice())
}

fn atom_value(a: &Atom, w: &HashMap<u16, [u64; 4]>) -> (r: Option<[u64; 4]>)
    ensures
        matches_value(r, atom_eval(*a, w@)),
{
    match a {
        Atom::Scalar(l) => Some(scalar_to_fr(*l)),
        Atom::Var(i) => match w.get(i) {
            Some(l) => Some(scalar_to_fr(*l)),
            None => None,
        },
        Atom::NamedVar(_) => None,
    }
}

/// The 32 little-endian bytes of a field element.
fn fr_bytes(a: [u64; 4]) -> (r: Vec<u8>)
    ensures
        r@ == le_repr(limbs_val(a), 32),
        r@.len() == 32,
{
    let b = limbs_le_bytes(a);
    proof {
        lemma_le_repr(b@);
    }
    b
}

/// The bytes `b[from..to]` in reverse order.
fn reversed(b: &Vec<u8>, from: usize, to: usize) -> (r: Vec<u8>)
    requires
        from <= to <= b@.len(),
    ensures
        r@ == b@.subrange(from as int, to as int).reverse(),
{
    let mut r: Vec<u8> = Vec::new();
    let mut i: usize = to;
    while i > from
        invariant
            from <= i <= to,
            to <= b@.len(),
            r@ == b@.subrange(i as int, to as int).reverse(),
        decreases i - from,
    {
        i -= 1;
        r.push(b[i]);
        assert(r@ =~= b@.subrange(i as int, to as int).reverse());
    }
    r
}

fn byte_reverse_exec(a: [u64; 4]) -> (r: [u64; 4])
    requires
        canonical(a),
    ensures
        canonical(r),
        limbs_val(r) == byte_reverse_value(limbs_val(a)),
{
    let b = fr_bytes(a);
    let rev = reversed(&b, 0, 32);
    assert(b@.subrange(0, 32) =~= b@);
    fr_from_le_bytes_mod_order(rev.as_slice())
}

fn truncate128_exec(a: [u64; 4]) -> (r: [u64; 4])
    requires
        canonical(a),
    ensures
        canonical(r),
        limbs_val(r) == truncate128_value(limbs_val(a)),
{
    let b = fr_bytes(a);
    let rev = reversed(&b, 0, 16);
    fr_from_le_bytes_mod_order(rev.as_slice())
}

fn append_u64_exec(a: [u64; 4]) -> (r: [u64; 4])
    requires
        canonical(a),
    ensures
        canonical(r),
        limbs_val(r) == append_u64_value(limbs_val(a)),
{
    let x = a[0];
    proof {
        let q = a[1] as nat + a[2] as nat * 0x1_0000_0000_0000_0000nat
            + a[3] as nat * 0x1_0000_0000_0000_0000_0000_0000_0000_0000nat;
        assert(limbs_val(a) == q * 0x1_0000_0000_0000_0000nat + a[0] as nat) by (nonlinear_arith)
            requires
                q == a[1] as nat + a[2] as nat * 0x1_0000_0000_0000_0000nat
                    + a[3] as nat * 0x1_0000_0000_0000_0000_0000_0000_0000_0000nat,
        ;
        lemma_fundamental_div_mod_converse(limbs_val(a) as int, 0x1_0000_0000_0000_0000int, q as int, a[0] as int);
    }
    let b = u64_le_bytes(x);
    proof {
        lemma_le_repr(b@);
    }
    let rev = reversed(&b, 0, 8);
    assert(b@.subrange(0, 8) =~= b@);
    let swapped = u64_from_le(rev.as_slice(), 0);
    assert(rev@.subrange(0, 8) =~= rev@);
    fr_mul([swapped, 0, 0, 0], [0, 0, 0, 1])
}

} // verus!

verus! {

/// An operand of a node of a well-formed arena refers to an earlier node.
proof fn lemma_operand(nodes: Seq<Node>, id: int, k: int)
    requires
        0 <= id < nodes.len(),
        node_ok(nodes[id], id),
        0 <= k < node_edges(nodes[id]).len(),
    ensures
        node_edges(nodes[id])[k] matches Edge::NodeRef(c) ==> (c as int) < id && is_operand(nodes, id, c as int),
{
    assert(edge_ok(node_edges(nodes[id])[k], id));
}

fn edge_value(nodes: &[Node], w: &HashMap<u16, [u64; 4]>, e: &Edge, id: usize, vals: &Vec<Option<[u64; 4]>>, bytes: bool)
    -> (r: Option<[u64; 4]>)
    requires
        id <= vals@.len(),
        e matches Edge::NodeRef(c) ==> c < id && matches_value(vals@[c as int], node_eval_in(nodes@, w@, c as int, bytes)),
    ensures
        matches_value(r, edge_eval_in(nodes@, w@, *e, id as int, bytes)),
{
    match e {
        Edge::Atom(a) => atom_value(a, w),
        Edge::NodeRef(c) => vals[*c],
    }
}

/// The value of node `id`, from the values of its operand nodes.
#[verifier::rlimit(40)]
fn combine_node(nodes: &[Node], w: &HashMap<u16, [u64; 4]>, id: usize, vals: &Vec<Option<[u64; 4]>>, bytes: bool)
    -> (r: Option<[u64; 4]>)
    requires
        id < nodes@.len(),
        id <= vals@.len(),
        node_ok(nodes@[id as int], id as int),
        forall|c: int| 0 <= c < id && #[trigger] is_operand(nodes@, id as int, c)
            ==> matches_value(vals@[c], node_eval_in(nodes@, w@, c, bytes)),
    ensures
        matches_value(r, node_eval_in(nodes@, w@, id as int, bytes)),
{
    let ghost n = nodes@[id as int];
    proof {
        assert forall|k: int| 0 <= k < node_edges(n).len() implies
            (#[trigger] node_edges(n)[k] matches Edge::NodeRef(c) ==> c < id && matches_value(vals@[c as int], node_eval_in(nodes@, w@, c as int, bytes))) by {
            lemma_operand(nodes@, id as int, k);
        }
    }
    match &nodes[id] {
        Node::Atom(a) => atom_value(a, w),
        Node::Add(x, y) | Node::Sub(x, y) | Node::Mul(x, y) | Node::Div(x, y) => {
            assert(node_edges(n)[0] == *x && node_edges(n)[1] == *y);
            let a = edge_value(nodes, w, x, id, vals, bytes);
            let b = edge_value(nodes, w, y, id, vals, bytes);
            match (a, b) {
                (Some(u), Some(v)) => match &nodes[id] {
                    Node::Add(_, _) => Some(fr_add(u, v)),
                    Node::Sub(_, _) => Some(fr_sub(u, v)),
                    Node::Mul(_, _) => Some(fr_mul(u, v)),
                    _ => match fr_inverse(v) {
                        Some(inv) => {
                            proof {
                                lemma_field_inv(limbs_val(v), limbs_val(inv));
                            }
                            Some(fr_mul(u, inv))
                        },
                        None => None,
                    },
                },
                _ => None,
            }
        },
        Node::TranscriptHash(h, st, rd) => {
            assert(node_edges(n)[0] == *st && node_edges(n)[1] == *rd);
            let a = edge_value(nodes, w, st, id, vals, bytes);
            let b = edge_value(nodes, w, rd, id, vals, bytes);
            match h {
                TranscriptHashData::Poseidon(d) => {
                    assert(node_edges(n)[2] == *d);
                    let c = edge_value(nodes, w, d, id, vals, bytes);
                    match (a, b, c) {
                        (Some(x), Some(y), Some(z)) => {
                            let h = poseidon_hash3(x, y, z);
                            proof {
                                lemma_small_mod(limbs_val(h), modulus());
                            }
                            Some(h)
                        },
                        _ => None,
                    }
                },
                _ => None,
            }
        },
        Node::Neg(x) | Node::Inv(x) | Node::ByteReverse(x) | Node::Truncate128Reverse(x) | Node::Truncate128(x)
        | Node::AppendU64Transform(x) => {
            assert(node_edges(n)[0] == *x);
            let a = edge_value(nodes, w, x, id, vals, bytes);
            match a {
                Some(u) => match &nodes[id] {
                    Node::Neg(_) => Some(fr_neg(u)),
                    Node::Inv(_) => match fr_inverse(u) {
                        Some(inv) => {
                            proof {
                                lemma_field_inv(limbs_val(u), limbs_val(inv));
                            }
                            Some(inv)
                        },
                        None => None,
                    },
                    _ => if !bytes {
                        None
                    } else {
                        match &nodes[id] {
                            Node::ByteReverse(_) => Some(byte_reverse_exec(u)),
                            Node::Truncate128Reverse(_) => Some(fr_mul(truncate128_exec(u), [0, 0, 1, 0])),
                            Node::Truncate128(_) => Some(truncate128_exec(u)),
                            _ => Some(append_u64_exec(u)),
                        }
                    },
                },
                None => None,
            }
        },
    }
}

/// The values of the nodes flagged live, in one sweep up the arena; live
/// nodes are those the roots reach, so every operand of a live node is live
/// and already evaluated.
fn eval_live(nodes: &[Node], w: &HashMap<u16, [u64; 4]>, live: &Vec<bool>, bytes: bool, Ghost(roots): Ghost<Seq<usize>>)
    -> (vals: Vec<Option<[u64; 4]>>)
    requires
        arena_wf(nodes@),
        live@.len() == nodes@.len(),
        forall|j: int| 0 <= j < nodes@.len() ==> live@[j] == reached(nodes@, Set::empty(), roots, j),
    ensures
        vals@.len() == nodes@.len(),
        forall|j: int| 0 <= j < nodes@.len() && live@[j] ==> matches_value(#[trigger] vals@[j], node_eval_in(nodes@, w@, j, bytes)),
{
    let n = nodes.len();
    let mut vals: Vec<Option<[u64; 4]>> = Vec::new();
    let mut j: usize = 0;
    while j < n
        invariant
            j <= n,
            n == nodes@.len(),
            arena_wf(nodes@),
            live@.len() == n,
            forall|i: int| 0 <= i < n ==> live@[i] == reached(nodes@, Set::empty(), roots, i),
            vals@.len() == j,
            forall|i: int| 0 <= i < j && live@[i] ==> matches_value(#[trigger] vals@[i], node_eval_in(nodes@, w@, i, bytes)),
        decreases n - j,
    {
        if live[j] {
            proof {
                assert(node_ok(nodes@[j as int], j as int));
                assert forall|c: int| 0 <= c < j && #[trigger] is_operand(nodes@, j as int, c)
                    implies matches_value(vals@[c], node_eval_in(nodes@, w@, c, bytes)) by {
                    lemma_reached_operand(nodes@, Set::empty(), roots, j as int, c);
                }
            }
            let v = combine_node(nodes, w, j, &vals, bytes);
            vals.push(v);
        } else {
            vals.push(None);
        }
        j += 1;
    }
    vals
}

// ---------------------------------------------------------------------------
// Assertions
// ---------------------------------------------------------------------------

/// The two sides of one assertion, evaluated.
pub struct AssertionValue {
    pub name: String,
    pub lhs: [u64; 4],
    pub rhs: [u64; 4],
}

/// The sides of a constraint's assertion: for a root `Sub(l, r)` the values
/// of `l` and `r`, otherwise the root's value and zero; none when a value
/// fails.
pub open spec fn assertion_sides(nodes: Seq<Node>, w: Map<u16, [u64; 4]>, c: Constraint) -> Option<(nat, nat)> {
    root_sides(nodes, w, c.root)
}

/// The sides of an assertion about node `root`.
pub open spec fn root_sides(nodes: Seq<Node>, w: Map<u16, [u64; 4]>, root: usize) -> Option<(nat, nat)> {
    match nodes[root as int] {
        Node::Sub(l, r) => match (edge_eval(nodes, w, l, root as int), edge_eval(nodes, w, r, root as int)) {
            (Some(a), Some(b)) => Some((a, b)),
            _ => None,
        },
        _ => match node_eval(nodes, w, root as int) {
            Some(v) => Some((v, 0nat)),
            None => None,
        },
    }
}

/// Computed sides match the specified ones.
pub open spec fn sides_match(r: Option<([u64; 4], [u64; 4])>, s: Option<(nat, nat)>) -> bool {
    match (r, s) {
        (Some((x, y)), Some((a, b))) => canonical(x) && canonical(y) && limbs_val(x) == a && limbs_val(y) == b,
        (None, None) => true,
        _ => false,
    }
}

/// The sides of an assertion about a reached node, from the values of the
/// live nodes.
fn sides_of(nodes: &[Node], witness: &HashMap<u16, [u64; 4]>, root: usize, vals: &Vec<Option<[u64; 4]>>,
    Ghost(roots): Ghost<Seq<usize>>) -> (r: Option<([u64; 4], [u64; 4])>)
    requires
        arena_wf(nodes@),
        root < nodes@.len(),
        vals@.len() == nodes@.len(),
        reached(nodes@, Set::empty(), roots, root as int),
        forall|j: int| 0 <= j < nodes@.len() && reached(nodes@, Set::empty(), roots, j)
            ==> matches_value(#[trigger] vals@[j], node_eval(nodes@, witness@, j)),
    ensures
        sides_match(r, root_sides(nodes@, witness@, root)),
{
    proof {
        assert(node_ok(nodes@[root as int], root as int));
    }
    match &nodes[root] {
        Node::Sub(l, r) => {
            proof {
                let n = nodes@[root as int];
                assert(node_edges(n)[0] == *l && node_edges(n)[1] == *r);
                lemma_operand(nodes@, root as int, 0);
                lemma_operand(nodes@, root as int, 1);
                if let Edge::NodeRef(a) = *l {
                    lemma_reached_operand(nodes@, Set::empty(), roots, root as int, a as int);
                }
                if let Edge::NodeRef(b) = *r {
                    lemma_reached_operand(nodes@, Set::empty(), roots, root as int, b as int);
                }
            }
            let a = edge_value(nodes, witness, l, root, vals, true);
            let b = edge_value(nodes, witness, r, root, vals, true);
            match (a, b) {
                (Some(x), Some(y)) => Some((x, y)),
                _ => None,
            }
        },
        _ => match vals[root] {
            Some(x) => Some((x, [0u64, 0u64, 0u64, 0u64])),
            None => None,
        },
    }
}

/// Every constraint asserts equality with zero and both its sides evaluate.
pub open spec fn assertions_evaluable(nodes: Seq<Node>, w: Map<u16, [u64; 4]>, cs: Seq<Constraint>) -> bool {
    forall|k: int| 0 <= k < cs.len() ==> (#[trigger] cs[k]).assertion is EqualZero && assertion_sides(nodes, w, cs[k]) is Some
}

/// Both sides of every constraint, or `None` where one cannot be evaluated.
fn assertion_values(nodes: &[Node], constraints: &[Constraint], witness: &HashMap<u16, [u64; 4]>)
    -> (r: Option<Vec<AssertionValue>>)
    requires
        arena_wf(nodes@),
        forall|k: int| 0 <= k < constraints@.len() ==> (#[trigger] constraints@[k]).root < nodes@.len(),
    ensures
        r is Some <==> assertions_evaluable(nodes@, witness@, constraints@),
        r matches Some(v) ==> v@.len() == constraints@.len() && forall|k: int| 0 <= k < v@.len() ==> {
            &&& (#[trigger] v@[k]).name@ == constraints@[k].name@
            &&& canonical(v@[k].lhs)
            &&& canonical(v@[k].rhs)
            &&& assertion_sides(nodes@, witness@, constraints@[k]) == Some((limbs_val(v@[k].lhs), limbs_val(v@[k].rhs)))
        },
{
    let m = constraints.len();
    let mut roots: Vec<usize> = Vec::new();
    let mut k: usize = 0;
    while k < m
        invariant
            k <= m,
            m == constraints@.len(),
            roots@.len() == k,
            forall|i: int| 0 <= i < k ==> roots@[i] == constraints@[i].root,
        decreases m - k,
    {
        roots.push(constraints[k].root);
        k += 1;
    }
    let stop = no_flags(nodes.len());
    assert(flagged(stop@) =~= Set::<usize>::empty());
    let live = mark_reachable(nodes, &stop, roots.as_slice());
    let vals = eval_live(nodes, witness, &live, true, Ghost(roots@));
    let mut out: Vec<AssertionValue> = Vec::new();
    let mut i: usize = 0;
    while i < m
        invariant
            i <= m,
            m == constraints@.len(),
            roots@.len() == m,
            forall|t: int| 0 <= t < m ==> roots@[t] == constraints@[t].root,
            forall|t: int| 0 <= t < m ==> (#[trigger] constraints@[t]).root < nodes@.len(),
            arena_wf(nodes@),
            live@.len() == nodes@.len(),
            vals@.len() == nodes@.len(),
            forall|j: int| 0 <= j < nodes@.len() ==> live@[j] == reached(nodes@, Set::empty(), roots@, j),
            forall|j: int| 0 <= j < nodes@.len() && live@[j] ==> matches_value(#[trigger] vals@[j], node_eval(nodes@, witness@, j)),
            out@.len() == i,
            forall|t: int| 0 <= t < i ==> (#[trigger] constraints@[t]).assertion is EqualZero
                && assertion_sides(nodes@, witness@, constraints@[t]) is Some,
            forall|t: int| 0 <= t < i ==> {
                &&& (#[trigger] out@[t]).name@ == constraints@[t].name@
                &&& canonical(out@[t].lhs)
                &&& canonical(out@[t].rhs)
                &&& assertion_sides(nodes@, witness@, constraints@[t]) == Some((limbs_val(out@[t].lhs), limbs_val(out@[t].rhs)))
            },
        decreases m - i,
    {
        let c = &constraints[i];
        match &c.assertion {
            Assertion::EqualZero => {},
            _ => {
                assert(!assertions_evaluable(nodes@, witness@, constraints@));
                return None;
            },
        }
        let root = c.root;
        proof {
            assert(roots@[i as int] == root);
            assert(reached(nodes@, Set::empty(), roots@, root as int)) by {
                assert(crate::bundle::reaches(nodes@, Set::empty(), roots@[i as int] as int, root as int));
            }
        }
        let sides = sides_of(nodes, witness, root, &vals, Ghost(roots@));
        match sides {
            Some((x, y)) => {
                let name = copy_string(&c.name);
                out.push(AssertionValue { name, lhs: x, rhs: y });
            },
            None => {
                assert(!assertions_evaluable(nodes@, witness@, constraints@)) by {
                    assert(assertion_sides(nodes@, witness@, constraints@[i as int]) is None);
                }
                return None;
            },
        }
        i += 1;
    }
    Some(out)
}

/// The decimal text of a field element (`fr_to_decimal`).
pub fn fr_to_decimal(f: [u64; 4]) -> (r: String)
    ensures
        r@ == dec(limbs_val(f)),
{
    scalar_decimal(f)
}

} // verus!

verus! {

// ---------------------------------------------------------------------------
// Evaluating one expression
// ---------------------------------------------------------------------------

/// The witness of a list of variable values: variable `i` has `vals[i]`.
pub open spec fn var_map(vals: Seq<[u64; 4]>) -> Map<u16, [u64; 4]> {
    Map::new(|i: u16| (i as int) < vals.len(), |i: u16| vals[i as int])
}

fn witness_of(vals: &[[u64; 4]]) -> (w: HashMap<u16, [u64; 4]>)
    ensures
        w@ == var_map(vals@),
{
    let mut w: HashMap<u16, [u64; 4]> = HashMap::new();
    let n: usize = if vals.len() < 0x1_0000 { vals.len() } else { 0x1_0000 };
    let mut i: usize = 0;
    while i < n
        invariant
            i <= n,
            n <= 0x1_0000,
            n == vals@.len() || (n == 0x1_0000 && vals@.len() >= 0x1_0000),
            w@ == Map::new(|k: u16| (k as int) < i && (k as int) < vals@.len(), |k: u16| vals@[k as int]),
        decreases n - i,
    {
        let ghost w0 = w@;
        w.insert(i as u16, vals[i]);
        i += 1;
        assert(w@ =~= Map::new(|k: u16| (k as int) < i && (k as int) < vals@.len(), |k: u16| vals@[k as int]));
    }
    assert(w@ =~= var_map(vals@));
    w
}

/// The value of one expression, or `None` where it cannot be evaluated.
fn concrete_value(nodes: &[Node], ast: MleAst, var_values: &[[u64; 4]]) -> (r: Option<[u64; 4]>)
    requires
        arena_wf(nodes@),
        ast.root < nodes@.len(),
    ensures
        matches_value(r, node_eval_in(nodes@, var_map(var_values@), ast.root as int, false)),
{
    let w = witness_of(var_values);
    let roots: Vec<usize> = vec![ast.root];
    let stop = no_flags(nodes.len());
    assert(flagged(stop@) =~= Set::<usize>::empty());
    let live = mark_reachable(nodes, &stop, roots.as_slice());
    proof {
        assert(crate::bundle::reaches(nodes@, Set::empty(), roots@[0] as int, ast.root as int));
        assert(reached(nodes@, Set::empty(), roots@, ast.root as int));
    }
    let vals = eval_live(nodes, &w, &live, false, Ghost(roots@));
    vals[ast.root]
}

} // verus!

verus! {

/// Evaluates both sides of every constraint (`evaluate_assertions`): each
/// constraint asserts equality with zero; a root `Sub(l, r)` gives the
/// values of `l` and `r`, any other root its value and zero. Every value
/// must evaluate (no missing witness, let-bound variable, inverted zero or
/// hash other than Poseidon).
pub fn evaluate_assertions(nodes: &[Node], constraints: &[Constraint], witness: &HashMap<u16, [u64; 4]>)
    -> (r: Vec<AssertionValue>)
    requires
        arena_wf(nodes@),
        forall|k: int| 0 <= k < constraints@.len() ==> (#[trigger] constraints@[k]).root < nodes@.len(),
        assertions_evaluable(nodes@, witness@, constraints@),
    ensures
        r@.len() == constraints@.len(),
        forall|k: int| 0 <= k < r@.len() ==> {
            &&& (#[trigger] r@[k]).name@ == constraints@[k].name@
            &&& canonical(r@[k].lhs)
            &&& canonical(r@[k].rhs)
            &&& assertion_sides(nodes@, witness@, constraints@[k]) == Some((limbs_val(r@[k].lhs), limbs_val(r@[k].rhs)))
        },
{
    match assertion_values(nodes, constraints, witness) {
        Some(v) => v,
        None => Vec::new(),
    }
}

/// `evaluate_assertions` where every constraint can be evaluated, `None`
/// otherwise: where some constraint asserts something other than equality
/// with zero or some value fails to evaluate.
pub fn try_evaluate_assertions(nodes: &[Node], constraints: &[Constraint], witness: &HashMap<u16, [u64; 4]>)
    -> (r: Option<Vec<AssertionValue>>)
    requires
        arena_wf(nodes@),
        forall|k: int| 0 <= k < constraints@.len() ==> (#[trigger] constraints@[k]).root < nodes@.len(),
    ensures
        r is Some <==> assertions_evaluable(nodes@, witness@, constraints@),
        r matches Some(v) ==> v@.len() == constraints@.len() && forall|k: int| 0 <= k < v@.len() ==> {
            &&& (#[trigger] v@[k]).name@ == constraints@[k].name@
            &&& canonical(v@[k].lhs)
            &&& canonical(v@[k].rhs)
            &&& assertion_sides(nodes@, witness@, constraints@[k]) == Some((limbs_val(v@[k].lhs), limbs_val(v@[k].rhs)))
        },
{
    match assertion_values(nodes, constraints, witness) {
        Some(_) => Some(evaluate_assertions(nodes, constraints, witness)),
        None => None,
    }
}

/// Evaluates one expression with variable `i` standing for `var_values[i]`
/// (`evaluate_concrete`); the expression must evaluate (byte transforms and
/// hashes other than Poseidon are not evaluated here).
pub fn evaluate_concrete(nodes: &[Node], ast: MleAst, var_values: &[[u64; 4]]) -> (r: [u64; 4])
    requires
        arena_wf(nodes@),
        ast.root < nodes@.len(),
        node_eval_in(nodes@, var_map(var_values@), ast.root as int, false) is Some,
    ensures
        canonical(r),
        Some(limbs_val(r)) == node_eval_in(nodes@, var_map(var_values@), ast.root as int, false),
{
    match concrete_value(nodes, ast, var_values) {
        Some(v) => v,
        None => [0u64, 0u64, 0u64, 0u64],
    }
}

/// `evaluate_concrete` where the expression evaluates, `None` otherwise.
pub fn try_evaluate_concrete(nodes: &[Node], ast: MleAst, var_values: &[[u64; 4]]) -> (r: Option<[u64; 4]>)
    requires
        arena_wf(nodes@),
        ast.root < nodes@.len(),
    ensures
        matches_value(r, node_eval_in(nodes@, var_map(var_values@), ast.root as int, false)),
{
    match concrete_value(nodes, ast, var_values) {
        Some(_) => Some(evaluate_concrete(nodes, ast, var_values)),
        None => None,
    }
}

} // verus!

verus! {

// ---------------------------------------------------------------------------
// Laws
// ---------------------------------------------------------------------------

proof fn lemma_folded_ops(a: nat, b: nat)
    ensures
        add_mod_spec(a % modulus(), b % modulus()) == add_mod_spec(a, b),
        sub_mod_spec(a % modulus(), b % modulus()) == sub_mod_spec(a, b),
        mul_mod_spec(a % modulus(), b % modulus()) == mul_mod_spec(a, b),
        neg_mod_spec(a % modulus()) == neg_mod_spec(a),
        add_mod_spec(a, b) < modulus(),
        sub_mod_spec(a, b) < modulus(),
        mul_mod_spec(a, b) < modulus(),
        neg_mod_spec(a) < modulus(),
{
    let m = modulus() as int;
    vstd::arithmetic::div_mod::lemma_add_mod_noop(a as int, b as int, m);
    vstd::arithmetic::div_mod::lemma_sub_mod_noop(a as int, b as int, m);
    vstd::arithmetic::div_mod::lemma_mul_mod_noop(a as int, b as int, m);
    vstd::arithmetic::div_mod::lemma_sub_mod_noop(0, a as int, m);
    vstd::arithmetic::div_mod::lemma_mod_bound(a as int + b as int, m);
    vstd::arithmetic::div_mod::lemma_mod_bound(a as int - b as int, m);
    vstd::arithmetic::div_mod::lemma_mod_bound(a as int * b as int, m);
    vstd::arithmetic::div_mod::lemma_mod_bound(0 - a as int, m);
    lemma_small_mod(0, modulus());
}

/// A constant expression that the code generator folds (built from
/// constants by addition, subtraction, multiplication, negation, inversion
/// and division) takes its folded value, reduced, under every witness, and
/// fails to evaluate exactly where folding inverts zero: static evaluation
/// and concrete evaluation agree.
pub proof fn law_constant_folding_agrees(nodes: Seq<Node>, w: Map<u16, [u64; 4]>, id: int)
    requires
        crate::constants::node_evaluable(nodes, id),
    ensures
        node_eval(nodes, w, id) == (if crate::constants::node_inverts_zero(nodes, id) {
            None
        } else {
            Some(crate::constants::node_value(nodes, id) % modulus())
        }),
    decreases id, 1nat,
{
    match nodes[id] {
        Node::Atom(_) => {},
        Node::Add(a, b) | Node::Sub(a, b) | Node::Mul(a, b) | Node::Div(a, b) => {
            lemma_edge_folding_agrees(nodes, w, a, id);
            lemma_edge_folding_agrees(nodes, w, b, id);
            let x = crate::constants::edge_value(nodes, a, id);
            let y = crate::constants::edge_value(nodes, b, id);
            lemma_folded_ops(x, y);
            let iy = crate::constants::inv_value(y);
            lemma_folded_ops(x, iy);
            if y % modulus() != 0 {
                assert(iy == field_inv(y % modulus()));
                lemma_small_mod(iy, modulus());
            }
            lemma_small_mod(crate::constants::node_value(nodes, id), modulus());
        },
        Node::Neg(a) | Node::Inv(a) => {
            lemma_edge_folding_agrees(nodes, w, a, id);
            let x = crate::constants::edge_value(nodes, a, id);
            lemma_folded_ops(x, 0);
            if x % modulus() != 0 {
                lemma_small_mod(field_inv(x % modulus()), modulus());
            }
            lemma_small_mod(crate::constants::node_value(nodes, id), modulus());
        },
        _ => {},
    }
}

proof fn lemma_edge_folding_agrees(nodes: Seq<Node>, w: Map<u16, [u64; 4]>, e: Edge, bound: int)
    requires
        crate::constants::edge_evaluable(nodes, e, bound),
    ensures
        edge_eval(nodes, w, e, bound) == (if crate::constants::edge_inverts_zero(nodes, e, bound) {
            None
        } else {
            Some(crate::constants::edge_value(nodes, e, bound) % modulus())
        }),
    decreases bound, 0nat,
{
    if let Edge::NodeRef(j) = e {
        law_constant_folding_agrees(nodes, w, j as int);
    }
}

/// The two sides an assertion reports differ by the value of its root:
/// `lhs - rhs` is the root's value (for a root `Sub(l, r)`, `lhs` is the
/// value of `l` and `rhs` that of `r`; for any other root the sides are its
/// value and zero). So the assertion holds exactly when the sides agree,
/// and swapping them would negate the difference.
pub proof fn law_sides_differ_by_root(nodes: Seq<Node>, w: Map<u16, [u64; 4]>, root: usize)
    requires
        (root as int) < nodes.len(),
        root_sides(nodes, w, root) is Some,
    ensures
        ({
            let (a, b) = root_sides(nodes, w, root).unwrap();
            node_eval(nodes, w, root as int) == Some(sub_mod_spec(a, b))
        }),
{
    let (a, b) = root_sides(nodes, w, root).unwrap();
    match nodes[root as int] {
        Node::Sub(l, r) => {},
        _ => {
            lemma_node_value_reduced(nodes, w, root as int);
            lemma_small_mod(a, modulus());
        },
    }
}

/// An assertion about `Sub(l, r)` holds — the root evaluates to zero —
/// exactly when its two sides are equal.
pub proof fn law_sub_root_zero_iff_sides_equal(nodes: Seq<Node>, w: Map<u16, [u64; 4]>, root: usize)
    requires
        (root as int) < nodes.len(),
        nodes[root as int] is Sub,
        root_sides(nodes, w, root) is Some,
    ensures
        ({
            let (a, b) = root_sides(nodes, w, root).unwrap();
            (node_eval(nodes, w, root as int) == Some(0nat)) <==> a == b
        }),
{
    let (a, b) = root_sides(nodes, w, root).unwrap();
    let m = modulus() as int;
    if let Node::Sub(l, r) = nodes[root as int] {
        assert(edge_eval(nodes, w, l, root as int) == Some(a));
        assert(edge_eval(nodes, w, r, root as int) == Some(b));
        lemma_edge_value_reduced(nodes, w, l, root as int);
        lemma_edge_value_reduced(nodes, w, r, root as int);
        if a == b {
            assert(a as int - b as int == 0);
            lemma_small_mod(0, modulus());
        } else {
            if (a as int - b as int) % m == 0 {
                vstd::arithmetic::div_mod::lemma_fundamental_div_mod(a as int - b as int, m);
                let q = (a as int - b as int) / m;
                assert(a as int - b as int == m * q);
                assert(false) by (nonlinear_arith)
                    requires
                        a as int - b as int == m * q,
                        0 <= a < m,
                        0 <= b < m,
                        a != b,
                ;
            }
        }
    }
}

/// Values of atoms are reduced.
proof fn lemma_edge_value_reduced(nodes: Seq<Node>, w: Map<u16, [u64; 4]>, e: Edge, bound: int)
    ensures
        edge_eval(nodes, w, e, bound) matches Some(v) ==> v < modulus(),
    decreases bound, 0nat,
{
    match e {
        Edge::Atom(_) => {},
        Edge::NodeRef(j) => {
            if 0 <= j < bound {
                lemma_node_value_reduced(nodes, w, j as int);
            }
        },
    }
}

/// Values of nodes are reduced.
pub proof fn lemma_node_value_reduced(nodes: Seq<Node>, w: Map<u16, [u64; 4]>, id: int)
    ensures
        node_eval(nodes, w, id) matches Some(v) ==> v < modulus(),
    decreases id, 1nat,
{
    if 0 <= id < nodes.len() {
        match nodes[id] {
            Node::Add(a, b) | Node::Sub(a, b) | Node::Mul(a, b) => {
                if let (Some(x), Some(y)) = (edge_eval(nodes, w, a, id), edge_eval(nodes, w, b, id)) {
                    lemma_folded_ops(x, y);
                }
            },
            Node::Neg(a) => {
                if let Some(x) = edge_eval(nodes, w, a, id) {
                    lemma_folded_ops(x, 0);
                }
            },
            Node::Div(a, b) => {
                if let (Some(x), Some(y)) = (edge_eval(nodes, w, a, id), edge_eval(nodes, w, b, id)) {
                    lemma_folded_ops(x, field_inv(y));
                }
            },
            Node::Atom(_) | Node::Inv(_) | Node::TranscriptHash(_, _, _) | Node::ByteReverse(_) | Node::Truncate128(_) => {},
            Node::Truncate128Reverse(a) => {
                if let Some(x) = edge_eval(nodes, w, a, id) {
                    lemma_folded_ops(truncate128_value(x), pow2_128());
                }
            },
            Node::AppendU64Transform(a) => {
                if let Some(x) = edge_eval(nodes, w, a, id) {
                    lemma_folded_ops(le_nat(le_repr(x % 0x1_0000_0000_0000_0000nat, 8).reverse()), pow2_192());
                }
            },
        }
    }
}

} // verus!
