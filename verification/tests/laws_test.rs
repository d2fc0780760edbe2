use std::collections::HashMap;

use jolt_transpiler::ast_evaluator::{evaluate_assertions, evaluate_concrete, try_evaluate_concrete};
use jolt_transpiler::bundle::{AstBundle, Assertion, Constraint};
use jolt_transpiler::codegen::generate_gnark_expr;
use jolt_transpiler::constants::evaluate_constant_node_in;
use jolt_transpiler::fragments::ExprFragment;
use jolt_transpiler::gnark_codegen::GnarkCodeGen;
use jolt_transpiler::mle_ast::{Arena, Atom, Edge, MleAst, Node};
use jolt_transpiler::size_class::find_class;

#[test]
fn growing_the_arena_keeps_generated_code() {
    let mut arena = Arena::new();
    let x = MleAst::from_var(&mut arena, 0);
    let y = MleAst::from_var(&mut arena, 1);
    let s = MleAst::add(&mut arena, x, y);
    let before = generate_gnark_expr(&arena, s.root());
    let t = MleAst::mul(&mut arena, s, s);
    let _ = MleAst::poseidon(&mut arena, t, s, x);
    assert_eq!(generate_gnark_expr(&arena, s.root()), before);
    assert_eq!(before, "api.Add(circuit.X_0, circuit.X_1)");
}

#[test]
fn larger_proofs_never_get_smaller_classes() {
    let small = find_class(14, 8192, 8192).unwrap();
    let large = find_class(15, 8192, 8192).unwrap();
    assert_eq!((small.name, large.name), ("S", "M"));
    assert!(small.max_log_t <= large.max_log_t);
    assert!(find_class(25, 1, 1).is_none());
    assert_eq!(find_class(1, 65536, 1).unwrap().name, "XL");
}

#[test]
fn nodes_are_hoisted_once() {
    let mut bundle = AstBundle::new();
    bundle.nodes = vec![
        Node::Add(Edge::Atom(Atom::Var(0)), Edge::Atom(Atom::Var(1))),
        Node::Mul(Edge::NodeRef(0), Edge::Atom(Atom::Var(2))),
        Node::Add(Edge::NodeRef(1), Edge::NodeRef(1)),
        Node::Sub(Edge::NodeRef(0), Edge::NodeRef(2)),
        Node::Sub(Edge::NodeRef(0), Edge::Atom(Atom::Var(3))),
    ];
    bundle.add_constraint_eq_zero("first", 3);
    bundle.add_constraint_eq_zero("second", 4);
    bundle.run_global_cse();
    bundle.run_cse();
    assert_eq!(bundle.global_cse.bindings, vec![0]);
    assert_eq!(bundle.get_cse_bindings(0).unwrap(), &vec![1]);
    assert!(bundle.get_cse_bindings(1).unwrap().is_empty());
}

#[test]
fn folded_constants_agree_with_evaluation() {
    let nodes = vec![
        Node::Atom(Atom::Scalar([7, 0, 0, 0])),
        Node::Sub(Edge::Atom(Atom::Scalar([2, 0, 0, 0])), Edge::NodeRef(0)),
        Node::Mul(Edge::NodeRef(1), Edge::NodeRef(1)),
        Node::Neg(Edge::NodeRef(2)),
        Node::Inv(Edge::NodeRef(3)),
        Node::Div(Edge::NodeRef(0), Edge::NodeRef(4)),
        Node::Sub(Edge::NodeRef(0), Edge::NodeRef(0)),
        Node::Inv(Edge::NodeRef(6)),
        Node::Div(Edge::NodeRef(0), Edge::NodeRef(6)),
    ];
    for id in 0..nodes.len() {
        let folded = evaluate_constant_node_in(&nodes, id);
        assert_eq!(try_evaluate_concrete(&nodes, MleAst { root: id }, &[]), folded);
    }
    assert!(evaluate_constant_node_in(&nodes, 4).is_some());
    assert_eq!(evaluate_constant_node_in(&nodes, 7), None);
    assert_eq!(evaluate_constant_node_in(&nodes, 8), None);
    // 7 / (1 / -25) = -175
    let neg175 = evaluate_constant_node_in(&nodes, 5).unwrap();
    let v175 = evaluate_concrete(&nodes, MleAst { root: 5 }, &[]);
    assert_eq!(neg175, v175);
}

#[test]
fn subtraction_assertions_hold_exactly_when_the_sides_agree() {
    let nodes = vec![
        Node::Sub(Edge::Atom(Atom::Var(0)), Edge::Atom(Atom::Var(1))),
    ];
    let c = Constraint { name: "eq".to_string(), root: 0, assertion: Assertion::EqualZero };
    let mut w = HashMap::new();
    w.insert(0u16, [9u64, 0, 0, 0]);
    w.insert(1u16, [9u64, 0, 0, 0]);
    let sides = evaluate_assertions(&nodes, std::slice::from_ref(&c), &w);
    assert_eq!(sides[0].lhs, sides[0].rhs);
    let vals = [[9u64, 0, 0, 0], [9u64, 0, 0, 0]];
    assert_eq!(try_evaluate_concrete(&nodes, MleAst { root: 0 }, &vals), Some([0, 0, 0, 0]));
    let vals = [[9u64, 0, 0, 0], [8u64, 0, 0, 0]];
    assert_ne!(try_evaluate_concrete(&nodes, MleAst { root: 0 }, &vals), Some([0, 0, 0, 0]));
}

fn expand_text(e: &[ExprFragment], bindings: &[(usize, Vec<ExprFragment>)]) -> String {
    let mut out = String::new();
    for f in e {
        match f {
            ExprFragment::Lit(s) => out.push_str(s),
            ExprFragment::GcseRef(k) => out.push_str(&expand_text(&bindings[*k].1, bindings)),
            ExprFragment::CseRef(k) => out.push_str(&format!("cse_{}", k)),
        }
    }
    out
}

#[test]
fn hoisting_preserves_the_expanded_expression() {
    let nodes = vec![
        Node::Atom(Atom::Var(0)),
        Node::Atom(Atom::Var(1)),
        Node::Mul(Edge::NodeRef(0), Edge::NodeRef(1)),
        Node::Add(Edge::NodeRef(2), Edge::NodeRef(2)),
        Node::Sub(Edge::NodeRef(3), Edge::NodeRef(2)),
    ];
    let names: HashMap<u16, String> = HashMap::new();

    let mut hoisting = GnarkCodeGen::new_global(&nodes, &names, &[2, 3]);
    let hoisted = hoisting.generate_expr(4);
    let bindings = hoisting.take_bindings();
    assert_eq!(bindings.len(), 2);

    let mut plain = GnarkCodeGen::new_global(&nodes, &names, &[]);
    let unhoisted = plain.generate_expr(4);
    assert!(plain.take_bindings().is_empty());

    let expected = "api.Sub(api.Add(api.Mul(circuit.X_0, circuit.X_1), api.Mul(circuit.X_0, circuit.X_1)), \
                    api.Mul(circuit.X_0, circuit.X_1))";
    assert_eq!(expand_text(&unhoisted, &[]), expected);
    assert_eq!(expand_text(&hoisted, &bindings), expected);
    assert_eq!(hoisted.iter().filter(|f| matches!(f, ExprFragment::GcseRef(_))).count(), 2);
}
