use std::collections::HashMap;

use jolt_transpiler::ast_evaluator::{
    evaluate_assertions, fr_to_decimal, scalar_to_fr, try_evaluate_assertions, try_evaluate_concrete,
};
use jolt_transpiler::bundle::{Assertion, Constraint};
use jolt_transpiler::mle_ast::{Atom, Edge, MleAst, Node, TranscriptHashData};

fn k(v: u64) -> Atom {
    Atom::Scalar([v, 0, 0, 0])
}

fn eval_one(nodes: &[Node]) -> Option<String> {
    try_evaluate_concrete(nodes, MleAst { root: nodes.len() - 1 }, &[]).map(fr_to_decimal)
}

fn eq_zero(name: &str, root: usize) -> Constraint {
    Constraint { name: name.to_string(), root, assertion: Assertion::EqualZero }
}

#[test]
fn test_scalar_to_fr_zero() {
    assert_eq!(scalar_to_fr([0, 0, 0, 0]), [0, 0, 0, 0]);
}

#[test]
fn test_scalar_to_fr_one() {
    assert_eq!(scalar_to_fr([1, 0, 0, 0]), [1, 0, 0, 0]);
}

#[test]
fn test_scalar_to_fr_42() {
    assert_eq!(scalar_to_fr([42, 0, 0, 0]), [42, 0, 0, 0]);
}

#[test]
fn constants_above_the_modulus_are_reduced() {
    // p + 5, as little-endian limbs.
    let p_plus_5 = [0x43e1f593f0000006u64, 0x2833e84879b97091, 0xb85045b68181585d, 0x30644e72e131a029];
    assert_eq!(scalar_to_fr(p_plus_5), [5, 0, 0, 0]);
}

#[test]
fn test_light_poseidon_output_pinned() {
    let zero = Node::TranscriptHash(TranscriptHashData::Poseidon(Edge::Atom(k(0))), Edge::Atom(k(0)), Edge::Atom(k(0)));
    assert_eq!(
        eval_one(&[zero]).unwrap(),
        "5317387130258456662214331362918410991734007599705406860481038345552731150762"
    );
    let one_two_three =
        Node::TranscriptHash(TranscriptHashData::Poseidon(Edge::Atom(k(3))), Edge::Atom(k(1)), Edge::Atom(k(2)));
    assert_eq!(
        eval_one(&[one_two_three]).unwrap(),
        "6542985608222806190361240322586112750744169038454362455181422643027100751666"
    );
}

#[test]
fn field_operations_reduce_modulo_p() {
    assert_eq!(eval_one(&[Node::Sub(Edge::Atom(k(3)), Edge::Atom(k(10)))]).unwrap(),
        "21888242871839275222246405745257275088548364400416034343698204186575808495610");
    assert_eq!(eval_one(&[Node::Inv(Edge::Atom(k(2)))]).unwrap(),
        "10944121435919637611123202872628637544274182200208017171849102093287904247809");
    assert_eq!(eval_one(&[Node::Div(Edge::Atom(k(3)), Edge::Atom(k(5)))]).unwrap(),
        "4377648574367855044449281149051455017709672880083206868739640837315161699124");
    assert_eq!(eval_one(&[Node::Mul(Edge::Atom(k(6)), Edge::Atom(k(7)))]).unwrap(), "42");
    assert_eq!(eval_one(&[Node::Neg(Edge::Atom(k(0)))]).unwrap(), "0");
    assert_eq!(eval_one(&[Node::Inv(Edge::Atom(k(0)))]), None);
    assert_eq!(eval_one(&[Node::Div(Edge::Atom(k(1)), Edge::Atom(k(0)))]), None);
}

#[test]
fn evaluation_fails_without_values() {
    assert_eq!(eval_one(&[Node::Atom(Atom::NamedVar(0))]), None);
    assert_eq!(eval_one(&[Node::Atom(Atom::Var(0))]), None);
    let blake = Node::TranscriptHash(TranscriptHashData::Blake2b(vec![]), Edge::Atom(k(0)), Edge::Atom(k(0)));
    assert_eq!(eval_one(&[blake]), None);
    assert_eq!(eval_one(&[Node::ByteReverse(Edge::Atom(k(1)))]), None);
}

#[test]
fn variables_take_their_values() {
    let nodes = vec![Node::Atom(Atom::Var(1)), Node::Add(Edge::NodeRef(0), Edge::Atom(Atom::Var(0)))];
    let r = try_evaluate_concrete(&nodes, MleAst { root: 1 }, &[[10, 0, 0, 0], [32, 0, 0, 0]]);
    assert_eq!(r, Some([42, 0, 0, 0]));
}

#[test]
fn byte_transforms_in_assertions() {
    let nodes = vec![
        Node::ByteReverse(Edge::Atom(k(1))),
        Node::Truncate128(Edge::Atom(k(1))),
        Node::Truncate128Reverse(Edge::Atom(k(1))),
        Node::AppendU64Transform(Edge::Atom(k(0x0102))),
    ];
    let cs = vec![eq_zero("a", 0), eq_zero("b", 1), eq_zero("c", 2), eq_zero("d", 3)];
    let r = evaluate_assertions(&nodes, &cs, &HashMap::new());
    let lhs: Vec<String> = r.iter().map(|v| fr_to_decimal(v.lhs)).collect();
    assert_eq!(lhs[0], "452312848583266388373324160190187140051835877600158453279131187530910662656");
    assert_eq!(lhs[1], "1329227995784915872903807060280344576");
    assert_eq!(lhs[2], "452312848583266388373324160190187140051835877600158453279131187530910662656");
    assert_eq!(lhs[3], "906392544231311161076231617881117198619499239097192525516383981263113945088");
    assert!(r.iter().all(|v| v.rhs == [0, 0, 0, 0]));
    assert_eq!(r[2].name, "c");
}

#[test]
fn subtraction_roots_give_both_sides() {
    let nodes = vec![
        Node::Mul(Edge::Atom(Atom::Var(0)), Edge::Atom(k(3))),
        Node::Sub(Edge::NodeRef(0), Edge::Atom(Atom::Var(1))),
    ];
    let mut w = HashMap::new();
    w.insert(0u16, [5u64, 0, 0, 0]);
    w.insert(1u16, [15u64, 0, 0, 0]);
    let r = evaluate_assertions(&nodes, &[eq_zero("check", 1)], &w);
    assert_eq!((r[0].lhs, r[0].rhs), ([15, 0, 0, 0], [15, 0, 0, 0]));
    w.remove(&1u16);
    assert!(try_evaluate_assertions(&nodes, &[eq_zero("check", 1)], &w).is_none());
}

#[test]
fn only_equality_with_zero_is_evaluated() {
    let nodes = vec![Node::Atom(Atom::Scalar([0, 0, 0, 0]))];
    let public = Constraint { name: "test".into(), root: 0, assertion: Assertion::EqualPublicInput { name: "x".into() } };
    assert!(try_evaluate_assertions(&nodes, &[public], &HashMap::new()).is_none());
    let node = Constraint { name: "test".into(), root: 0, assertion: Assertion::EqualNode(0) };
    assert!(try_evaluate_assertions(&nodes, &[node], &HashMap::new()).is_none());
}

#[test]
fn test_iterative_eval_survives_deep_chain() {
    const DEPTH: usize = 100_000;
    let mut nodes: Vec<Node> = Vec::with_capacity(DEPTH + 1);
    nodes.push(Node::Atom(Atom::Scalar([1, 0, 0, 0])));
    for _ in 0..DEPTH {
        let prev = nodes.len() - 1;
        nodes.push(Node::Add(Edge::NodeRef(prev), Edge::Atom(Atom::Scalar([1, 0, 0, 0]))));
    }
    let constraints = vec![eq_zero("deep_chain", nodes.len() - 1)];
    let witness = HashMap::new();
    let result = evaluate_assertions(&nodes, &constraints, &witness);
    assert_eq!(result.len(), 1);
    assert_eq!(result[0].lhs, [(DEPTH + 1) as u64, 0, 0, 0]);
    assert_eq!(result[0].rhs, [0, 0, 0, 0]);
}
