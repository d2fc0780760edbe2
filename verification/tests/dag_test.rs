use std::collections::HashMap;

use jolt_transpiler::codegen::generate_gnark_expr;
use jolt_transpiler::dag::{
    collect_vars, count_all_refs, export_ast_to_dot, export_ast_to_dot_with_sharing, generate_simple_circuit,
    get_edge_children, get_poseidon_children, get_single_edge_child, quadratic,
};
use jolt_transpiler::mle_ast::{Arena, Atom, Edge, MleAst};

fn quadratic_arena() -> (Arena, MleAst) {
    let mut arena = Arena::new();
    let a = MleAst::from_var(&mut arena, 0);
    let b = MleAst::from_var(&mut arena, 1);
    let c = MleAst::from_var(&mut arena, 2);
    let x = MleAst::from_var(&mut arena, 3);
    let r = quadratic(&mut arena, a, b, c, x);
    (arena, r)
}

fn dag_arena() -> (Arena, MleAst) {
    let mut arena = Arena::new();
    let a = MleAst::from_var(&mut arena, 0);
    let b = MleAst::from_var(&mut arena, 1);
    let sum = MleAst::add(&mut arena, a, b);
    let sq = MleAst::mul(&mut arena, sum, sum);
    let r = MleAst::add(&mut arena, sq, sum);
    (arena, r)
}

#[test]
fn quadratic_expression_matches_the_expected_gnark() {
    let (arena, r) = quadratic_arena();
    assert_eq!(
        generate_gnark_expr(&arena, r.root()),
        "api.Add(api.Add(circuit.X_0, api.Mul(circuit.X_1, circuit.X_3)), api.Mul(circuit.X_2, api.Mul(circuit.X_3, circuit.X_3)))"
    );
}

#[test]
fn poseidon_chain_expression_matches_the_expected_gnark() {
    let mut arena = Arena::new();
    let vs: Vec<MleAst> = (0..5).map(|i| MleAst::from_var(&mut arena, i)).collect();
    let inner = MleAst::poseidon(&mut arena, vs[0], vs[1], vs[2]);
    let r = MleAst::poseidon(&mut arena, inner, vs[3], vs[4]);
    let expr = generate_gnark_expr(&arena, r.root());
    assert_eq!(
        expr,
        "poseidon.Hash(api, poseidon.Hash(api, circuit.X_0, circuit.X_1, circuit.X_2), circuit.X_3, circuit.X_4)"
    );
    let go = generate_simple_circuit(arena.nodes(), r.root(), "PoseidonChainCircuit", "", &expr);
    assert!(go.contains("\t\"github.com/vocdoni/gnark-prover-tinygo/std/hash/poseidon\"\n"));
    assert!(go.contains("\tX_4 frontend.Variable `gnark:\",public\"`\n"));
}

#[test]
fn simple_circuit_of_the_quadratic() {
    let (arena, r) = quadratic_arena();
    let expr = generate_gnark_expr(&arena, r.root());
    let go = generate_simple_circuit(arena.nodes(), r.root(), "QuadraticCircuit", "", &expr);
    let expected = format!(
        "package jolt_verifier\n\nimport (\n\t\"github.com/consensys/gnark/frontend\"\n)\n\n\
type QuadraticCircuit struct {{\n\
\tX_0 frontend.Variable `gnark:\",public\"`\n\
\tX_1 frontend.Variable `gnark:\",public\"`\n\
\tX_2 frontend.Variable `gnark:\",public\"`\n\
\tX_3 frontend.Variable `gnark:\",public\"`\n\
\tExpectedResult frontend.Variable `gnark:\",public\"`\n}}\n\n\
func (circuit *QuadraticCircuit) Define(api frontend.API) error {{\n\
\tresult := {}\n\
\tapi.AssertIsEqual(result, circuit.ExpectedResult)\n\n\
\treturn nil\n}}\n",
        expr
    );
    assert_eq!(go, expected);
}

#[test]
fn simple_circuit_lists_binding_lines() {
    let (arena, r) = dag_arena();
    let go = generate_simple_circuit(arena.nodes(), r.root(), "DAGDemoCircuit", "t0 := a\r\nt1 := b\n", "t1");
    assert!(go.contains(
        "func (circuit *DAGDemoCircuit) Define(api frontend.API) error {\n\t// Memoized subexpressions\n\tt0 := a\n\tt1 := b\n\n\tresult := t1\n"
    ));
    assert!(!go.contains("poseidon"));
    let with_hash = generate_simple_circuit(arena.nodes(), r.root(), "C", "h := poseidon.Hash(api, x, y, z)", "h");
    assert!(with_hash.contains("\t// Memoized subexpressions\n\th := poseidon.Hash(api, x, y, z)\n\n"));
    assert!(with_hash.contains("std/hash/poseidon\"\n)\n\n"));
}

#[test]
fn collect_vars_gives_increasing_distinct_indices() {
    let mut arena = Arena::new();
    let x3 = MleAst::from_var(&mut arena, 3);
    let x1 = MleAst::from_var(&mut arena, 1);
    let s = MleAst::add(&mut arena, x3, x1);
    let t = MleAst::mul(&mut arena, s, x3);
    let mut vars = Vec::new();
    collect_vars(arena.nodes(), t.root(), &mut vars);
    assert_eq!(vars, vec![1, 3]);
}

#[test]
fn shared_node_is_counted_per_reference() {
    let (arena, r) = dag_arena();
    let mut counts = HashMap::new();
    count_all_refs(arena.nodes(), r.root(), &mut counts);
    assert_eq!(counts.len(), 3);
    assert_eq!(counts[&4], 1);
    assert_eq!(counts[&3], 1);
    assert_eq!(counts[&2], 3);
}

#[test]
fn dot_of_the_quadratic() {
    let (arena, r) = quadratic_arena();
    let dot = export_ast_to_dot(arena.nodes(), r.root(), "quadratic");
    let expected = [
        "digraph quadratic {\n  rankdir=TB;\n  node [shape=box, fontname=\"monospace\"];\n\n",
        "  n8 [label=\"[8] Add\" style=filled fillcolor=\"lightyellow\"];\n  n8 -> n7;\n  n8 -> n6;\n",
        "  n6 [label=\"[6] Mul\" style=filled fillcolor=\"lightgreen\"];\n  n6 -> n5;\n",
        "  n5 [label=\"[5] Mul\" style=filled fillcolor=\"lightgreen\"];\n",
        "  n7 [label=\"[7] Add\" style=filled fillcolor=\"lightyellow\"];\n  n7 -> n4;\n",
        "  n4 [label=\"[4] Mul\" style=filled fillcolor=\"lightgreen\"];\n}\n",
    ]
    .concat();
    assert_eq!(dot, expected);
}

#[test]
fn dot_with_sharing_marks_the_shared_sum() {
    let (arena, r) = dag_arena();
    let dot = export_ast_to_dot_with_sharing(arena.nodes(), r.root(), "dag_demo");
    let expected = [
        "digraph dag_demo {\n  rankdir=TB;\n  node [shape=box, fontname=\"monospace\"];\n\n",
        "  n4 [label=\"[4] Add\" style=filled fillcolor=\"lightyellow\" color=\"lightyellow\" penwidth=1];\n",
        "  n4 -> n3;\n  n4 -> n2 [color=red penwidth=2];\n",
        "  n2 [label=\"[2] Add\\n(refs: 3)\" style=filled fillcolor=\"lightyellow\" color=\"red\" penwidth=3];\n",
        "  n3 [label=\"[3] Mul\" style=filled fillcolor=\"lightgreen\" color=\"lightgreen\" penwidth=1];\n",
        "  n3 -> n2 [color=red penwidth=2];\n  n3 -> n2 [color=red penwidth=2];\n}\n",
    ]
    .concat();
    assert_eq!(dot, expected);
}

#[test]
fn dot_labels_of_leaves() {
    let mut arena = Arena::new();
    let k = MleAst::from_u64(&mut arena, 1234);
    let dot = export_ast_to_dot(arena.nodes(), k.root(), "leaf");
    assert!(dot.contains("  n0 [label=\"[0] 1234\" style=filled fillcolor=\"lightgray\"];\n"));
    let v = MleAst::from_var(&mut arena, 7);
    let dot = export_ast_to_dot(arena.nodes(), v.root(), "leaf");
    assert!(dot.contains("  n1 [label=\"[1] X_7\" style=filled fillcolor=\"lightblue\"];\n"));
}

#[test]
fn children_lists_keep_node_references_only() {
    let a = Edge::NodeRef(4);
    let b = Edge::Atom(Atom::Var(1));
    let c = Edge::NodeRef(2);
    assert_eq!(get_edge_children(&a, &c), vec![4, 2]);
    assert_eq!(get_edge_children(&b, &c), vec![2]);
    assert_eq!(get_single_edge_child(&b), Vec::<usize>::new());
    assert_eq!(get_single_edge_child(&a), vec![4]);
    assert_eq!(get_poseidon_children(&a, &b, &c), vec![4, 2]);
}
