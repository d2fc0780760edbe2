use jolt_transpiler::bundle::{Assertion, AstBundle, Constraint, ConstraintCse, GlobalCse, TargetField, WitnessType};
use jolt_transpiler::circuit::{
    bundle_is_ready, generate_circuit_from_bundle, generate_circuit_from_bundle_with_stats, node_requires_poseidon_import,
    non_native_inputs,
};
use jolt_transpiler::fragments::{render_expr, ExprFragment};
use jolt_transpiler::gnark_codegen::format_scalar_for_gnark;
use jolt_transpiler::mle_ast::{Atom, Edge, Node, TranscriptHashData};
use jolt_transpiler::names::sanitize_go_name;

#[test]
fn test_global_poseidon_cse_adds_import() {
    let hash = Node::TranscriptHash(
        TranscriptHashData::Poseidon(Edge::Atom(Atom::Var(2))),
        Edge::Atom(Atom::Var(0)),
        Edge::Atom(Atom::Var(1)),
    );
    let assertion_0 = Node::Sub(Edge::NodeRef(0), Edge::Atom(Atom::Var(3)));
    let assertion_1 = Node::Sub(Edge::NodeRef(0), Edge::Atom(Atom::Var(4)));

    let mut bundle = AstBundle::new();
    bundle.nodes = vec![hash, assertion_0, assertion_1];
    bundle.global_cse = GlobalCse { bindings: vec![0] };
    bundle.constraint_cse = vec![ConstraintCse::default(), ConstraintCse::default()];
    for (idx, name) in ["state", "rounds", "data", "expected_0", "expected_1"].iter().enumerate() {
        bundle.add_input(idx as u16, *name, WitnessType::ProofData);
    }
    bundle.constraints = vec![
        Constraint { name: "assertion_0".to_string(), root: 1, assertion: Assertion::EqualZero },
        Constraint { name: "assertion_1".to_string(), root: 2, assertion: Assertion::EqualZero },
    ];

    let (code, stats) = generate_circuit_from_bundle_with_stats(&bundle, "TestCircuit", false);

    assert!(stats.uses_poseidon);
    assert!(code.contains("\"jolt_verifier/poseidon\""));
    assert!(code.contains("poseidon.Hash(api,"));
}

#[test]
fn test_sanitize_go_name_underscore_preservation() {
    assert_eq!(sanitize_go_name("stage1_sumcheck_r0"), "Stage1_Sumcheck_R0");
    assert_eq!(sanitize_go_name("my_var_name"), "My_Var_Name");
    assert_eq!(sanitize_go_name("a_b_c"), "A_B_C");
}

#[test]
fn test_sanitize_go_name_bracket_replacement() {
    assert_eq!(sanitize_go_name("compressed_polys[0]"), "Compressed_Polys_0");
    assert_eq!(sanitize_go_name("point(x,y)"), "Point_X_Y");
    assert_eq!(sanitize_go_name("foo-bar"), "Foo_Bar");
}

#[test]
fn test_sanitize_go_name_preserves_case_after_first() {
    assert_eq!(sanitize_go_name("myVar"), "MyVar");
    assert_eq!(sanitize_go_name("myVarName"), "MyVarName");
    assert_eq!(sanitize_go_name("XMLParser"), "XMLParser");
}

#[test]
fn test_sanitize_go_name_empty_segments_filtered() {
    assert_eq!(sanitize_go_name("a__b"), "A_B");
    assert_eq!(sanitize_go_name("foo___bar"), "Foo_Bar");
    assert_eq!(sanitize_go_name("_leading"), "Leading");
    assert_eq!(sanitize_go_name("trailing_"), "Trailing");
}

#[test]
fn test_sanitize_go_name_numeric_suffixes() {
    assert_eq!(sanitize_go_name("r0"), "R0");
    assert_eq!(sanitize_go_name("stage1"), "Stage1");
    assert_eq!(sanitize_go_name("var_123"), "Var_123");
    assert_eq!(sanitize_go_name("123abc"), "123abc");
}

#[test]
fn test_sanitize_go_name_verifier_vars() {
    assert_eq!(sanitize_go_name("stage5_sumcheck_r84_1"), "Stage5_Sumcheck_R84_1");
    assert_eq!(sanitize_go_name("opening_proof_vector_matrix_product[0]"), "Opening_Proof_Vector_Matrix_Product_0");
    assert_eq!(sanitize_go_name("bytecode_v_init_final"), "Bytecode_V_Init_Final");
}

fn build_bundle_all_poseidon_hoisted() -> AstBundle {
    let mut bundle = AstBundle::new();
    bundle.add_input(0, "state", WitnessType::ProofData);
    bundle.add_input(1, "rounds", WitnessType::ProofData);
    bundle.add_input(2, "data", WitnessType::ProofData);

    bundle.nodes.push(Node::TranscriptHash(
        TranscriptHashData::Poseidon(Edge::Atom(Atom::Var(2))),
        Edge::Atom(Atom::Var(0)),
        Edge::Atom(Atom::Var(1)),
    ));

    // Two constraints share the hash node so it gets globally hoisted.
    bundle.add_constraint_eq_zero("a0", 0);
    bundle.add_constraint_eq_zero("a1", 0);

    bundle.run_global_cse();
    bundle.run_cse();
    bundle
}

#[test]
fn test_poseidon_import_emitted_when_all_hoisted() {
    let bundle = build_bundle_all_poseidon_hoisted();
    assert_eq!(bundle.global_cse.bindings.len(), 1);

    let code = generate_circuit_from_bundle(&bundle, "TestCircuit");
    assert!(code.contains("\"jolt_verifier/poseidon\""));
    assert!(code.contains("poseidon.Hash"));
}

#[test]
fn test_global_cse_bindings_deterministic() {
    let reference = build_bundle_all_poseidon_hoisted().global_cse.bindings;
    for _ in 0..30 {
        let run = build_bundle_all_poseidon_hoisted().global_cse.bindings;
        assert_eq!(run, reference);
    }
}

#[test]
fn test_constant_failure_skips_function_emission() {
    let mut bundle = AstBundle::new();
    // Constant scalar 5 as root: asserts (5 == 0), which is false.
    bundle.nodes.push(Node::Atom(Atom::Scalar([5, 0, 0, 0])));
    bundle.add_constraint_eq_zero("will_fail", 0);

    bundle.run_global_cse();
    bundle.run_cse();

    let (code, stats) = generate_circuit_from_bundle_with_stats(&bundle, "TestCircuit", false);
    assert_eq!(stats.constant_failed, 1);
    assert!(!code.contains("verifyConstraint0"));

    let (crossval_code, _) = generate_circuit_from_bundle_with_stats(&bundle, "TestCircuit", true);
    assert!(crossval_code.contains("verifyConstraint0"));
}

#[test]
fn test_render_expr_named_vs_slice() {
    let expr = vec![
        ExprFragment::Lit("api.Mul(".to_string()),
        ExprFragment::CseRef(5),
        ExprFragment::Lit(", ".to_string()),
        ExprFragment::CseRef(12),
        ExprFragment::Lit(")".to_string()),
    ];
    assert_eq!(render_expr(&expr, Some(3), false), "api.Mul(cse_3_5, cse_3_12)");
    assert_eq!(render_expr(&expr, None, true), "api.Mul(cse[5], cse[12])");
}

#[test]
fn test_render_expr_gcse_ref_is_context_free() {
    let expr = vec![
        ExprFragment::Lit("api.Add(".to_string()),
        ExprFragment::GcseRef(7),
        ExprFragment::Lit(", ".to_string()),
        ExprFragment::CseRef(2),
        ExprFragment::Lit(")".to_string()),
    ];
    assert_eq!(render_expr(&expr, Some(0), false), "api.Add(gcse[7], cse_0_2)");
    assert_eq!(render_expr(&expr, None, true), "api.Add(gcse[7], cse[2])");
}

#[test]
fn non_native_field_inputs_are_counted_and_named() {
    let mut bundle = AstBundle::new();
    bundle.add_input_with_field(0, "fr_var", WitnessType::ProofData, TargetField::Fr);
    bundle.add_input_with_field(1, "my_non_native_test_variable", WitnessType::ProofData, TargetField::Fq);
    let (count, first) = non_native_inputs(&bundle.inputs);
    assert_eq!(count, 1);
    assert_eq!(first, vec!["my_non_native_test_variable".to_string()]);
}

#[test]
fn static_failure_is_recorded_with_its_name() {
    let mut bundle = AstBundle::new();
    bundle.nodes.push(Node::Atom(Atom::Scalar([2, 0, 0, 0])));
    bundle.nodes.push(Node::Atom(Atom::Scalar([3, 0, 0, 0])));
    bundle.nodes.push(Node::Add(Edge::NodeRef(0), Edge::NodeRef(1)));
    bundle.add_constraint_eq_zero("five", 2);
    bundle.run_global_cse();
    bundle.run_cse();
    assert!(bundle_is_ready(&bundle));
    let (_, stats) = generate_circuit_from_bundle_with_stats(&bundle, "C", false);
    assert_eq!(stats.constant_failed, 1);
    assert_eq!(stats.failed_names, vec!["five".to_string()]);
}

#[test]
fn statically_zero_constraint_is_skipped() {
    let mut bundle = AstBundle::new();
    bundle.nodes.push(Node::Atom(Atom::Scalar([7, 0, 0, 0])));
    bundle.nodes.push(Node::Sub(Edge::NodeRef(0), Edge::Atom(Atom::Scalar([7, 0, 0, 0]))));
    bundle.add_constraint_eq_zero("zero", 1);
    bundle.run_global_cse();
    bundle.run_cse();
    let (code, stats) = generate_circuit_from_bundle_with_stats(&bundle, "C", false);
    assert_eq!(stats.total_constraints, 1);
    assert_eq!(stats.constant_skipped, 1);
    assert_eq!(stats.constant_failed, 0);
    assert!(code.contains("// zero = 0 (statically verified, skipped)\n\n"));
    assert!(!code.contains("verifyConstraint0"));
    assert!(code.ends_with("func (circuit *C) Define(api frontend.API) error {\n\treturn nil\n}\n"));
}

#[test]
fn shared_subexpression_is_bound_once_per_constraint() {
    // x0 * x1 is used twice inside one constraint.
    let mut bundle = AstBundle::new();
    bundle.add_input(0, "alpha", WitnessType::ProofData);
    bundle.add_input(1, "beta", WitnessType::PublicStatement);
    bundle.nodes.push(Node::Mul(Edge::Atom(Atom::Var(0)), Edge::Atom(Atom::Var(1))));
    bundle.nodes.push(Node::Add(Edge::NodeRef(0), Edge::NodeRef(0)));
    bundle.add_constraint_eq_public("sum", 1, "expected");
    bundle.run_global_cse();
    bundle.run_cse();
    assert_eq!(bundle.constraint_cse[0].bindings, vec![0]);
    let (code, _) = generate_circuit_from_bundle_with_stats(&bundle, "Circ", false);
    assert!(code.contains("\tcse_0_0 := api.Mul(circuit.Alpha, circuit.Beta)\n"));
    assert!(code.contains("\tSum := api.Add(cse_0_0, cse_0_0)\n"));
    assert!(code.contains("\tapi.AssertIsEqual(Sum, circuit.Expected)\n"));
    // Fields are sorted by name: Alpha, Beta, Expected.
    assert!(code.contains(
        "type Circ struct {\n\tAlpha frontend.Variable `gnark:\",public\"`\n\tBeta frontend.Variable `gnark:\",public\"`\n\tExpected frontend.Variable `gnark:\",public\"`\n}\n"
    ));
    assert!(code.contains("\tcircuit.verifyConstraint0(api)\n"));
    assert!(!code.contains("poseidon"));
}

#[test]
fn crossval_mode_prints_both_sides_of_a_subtraction() {
    let mut bundle = AstBundle::new();
    bundle.add_input(0, "x", WitnessType::ProofData);
    bundle.nodes.push(Node::Mul(Edge::Atom(Atom::Var(0)), Edge::Atom(Atom::Var(0))));
    bundle.nodes.push(Node::Sub(Edge::NodeRef(0), Edge::Atom(Atom::Scalar([4, 0, 0, 0]))));
    bundle.add_constraint_eq_zero("square_is_four", 1);
    bundle.run_global_cse();
    bundle.run_cse();
    let (code, _) = generate_circuit_from_bundle_with_stats(&bundle, "Cv", true);
    assert!(code.starts_with("package crossval\n\n"));
    assert!(code.contains("\tSquare_Is_Four := api.Sub(api.Mul(circuit.X, circuit.X), 4)\n"));
    assert!(code.contains("\tcrossval_lhs_0 := api.Mul(circuit.X, circuit.X)\n"));
    assert!(code.contains("\tcrossval_rhs_0 := 4\n"));
    assert!(code.contains("\tapi.Println(\"a0_lhs\", crossval_lhs_0)\n"));
}

#[test]
fn large_constants_use_the_big_int_helper() {
    assert_eq!(format_scalar_for_gnark([42, 0, 0, 0]), "42");
    assert_eq!(format_scalar_for_gnark([i64::MAX as u64, 0, 0, 0]), "9223372036854775807");
    assert_eq!(format_scalar_for_gnark([1u64 << 63, 0, 0, 0]), "bigInt(\"9223372036854775808\")");
    assert_eq!(format_scalar_for_gnark([0, 1, 0, 0]), "bigInt(\"18446744073709551616\")");
}

#[test]
fn poseidon_import_follows_reachable_helpers() {
    let nodes = vec![
        Node::Atom(Atom::Var(0)),
        Node::Truncate128(Edge::NodeRef(0)),
        Node::Add(Edge::NodeRef(1), Edge::Atom(Atom::Var(1))),
        Node::Add(Edge::NodeRef(0), Edge::Atom(Atom::Var(1))),
    ];
    assert!(node_requires_poseidon_import(&nodes, 2));
    assert!(!node_requires_poseidon_import(&nodes, 3));
}

#[test]
fn bundles_with_unsupported_hashes_are_not_ready() {
    let mut bundle = AstBundle::new();
    bundle.nodes.push(Node::TranscriptHash(
        TranscriptHashData::Blake2b(vec![Edge::Atom(Atom::Var(2))]),
        Edge::Atom(Atom::Var(0)),
        Edge::Atom(Atom::Var(1)),
    ));
    bundle.add_constraint_eq_zero("h", 0);
    bundle.run_global_cse();
    bundle.run_cse();
    assert!(!bundle_is_ready(&bundle));
    let mut ok = AstBundle::new();
    ok.nodes.push(Node::Atom(Atom::Var(0)));
    ok.add_constraint_eq_zero("v", 0);
    assert!(!bundle_is_ready(&ok));
    ok.run_cse();
    assert!(bundle_is_ready(&ok));
}

#[test]
fn bundle_queries_report_cse_and_fields() {
    let mut bundle = AstBundle::new();
    bundle.nodes = vec![Node::Atom(Atom::Var(0)), Node::Add(Edge::NodeRef(0), Edge::Atom(Atom::Var(1)))];
    bundle.add_input_with_field(0, "a", WitnessType::ProofData, TargetField::Fr);
    bundle.add_input(1, "b", WitnessType::ProofData);
    assert!(bundle.has_inputs_for_field(TargetField::Fr));
    assert!(!bundle.has_inputs_for_field(TargetField::Fq));
    bundle.add_constraint_eq_zero("c", 1);
    assert!(!bundle.has_cse());
    bundle.run_global_cse();
    bundle.run_cse();
    assert!(bundle.has_cse());
    assert!(bundle.get_cse_bindings(0).unwrap().is_empty());
    assert!(bundle.get_cse_bindings(1).is_none());
}

#[test]
fn constant_inverse_constraints_are_decided_statically() {
    let mut b = AstBundle::new();
    b.nodes = vec![
        Node::Atom(Atom::Scalar([2, 0, 0, 0])),
        Node::Inv(Edge::NodeRef(0)),
        Node::Atom(Atom::Scalar([0, 0, 0, 0])),
        Node::Div(Edge::NodeRef(0), Edge::NodeRef(2)),
        Node::Mul(Edge::NodeRef(1), Edge::NodeRef(0)),
        Node::Sub(Edge::NodeRef(4), Edge::Atom(Atom::Scalar([1, 0, 0, 0]))),
    ];
    b.add_constraint_eq_zero("inv", 1);
    b.add_constraint_eq_zero("div_by_zero", 3);
    b.add_constraint_eq_zero("inverse_law", 5);
    b.run_global_cse();
    b.run_cse();
    assert!(bundle_is_ready(&b));
    let (code, stats) = generate_circuit_from_bundle_with_stats(&b, "TestCircuit", false);
    assert_eq!(stats.total_constraints, 3);
    assert_eq!(stats.constant_skipped, 1);
    assert_eq!(stats.constant_failed, 2);
    assert_eq!(stats.failed_names, vec!["inv".to_string(), "div_by_zero".to_string()]);
    assert!(code.contains("inverse_law = 0 (statically verified, skipped)"));
}

#[test]
fn sanitizing_twice_changes_nothing() {
    for name in ["stage1_sumcheck_r0", "point(x,y)", "_leading", "XMLParser", "a__b", "123abc", "opening_proof[0]"] {
        let once = sanitize_go_name(name);
        assert!(once.chars().all(|c| c.is_ascii_alphanumeric() || c == '_'));
        assert_eq!(sanitize_go_name(&once), once);
    }
}

#[test]
fn separately_built_bundles_give_the_same_circuit() {
    let a = build_bundle_all_poseidon_hoisted();
    let b = build_bundle_all_poseidon_hoisted();
    assert_eq!(a.global_cse.bindings, b.global_cse.bindings);
    assert_eq!(
        generate_circuit_from_bundle_with_stats(&a, "TestCircuit", false).0,
        generate_circuit_from_bundle_with_stats(&b, "TestCircuit", false).0
    );
}

#[test]
fn sanitized_names_have_clean_separators() {
    for name in ["__a__b__", "x-y.z", "stage1_sumcheck_r0", "_", "aBc_dEf"] {
        let r = sanitize_go_name(name);
        assert!(!r.starts_with('_') && !r.ends_with('_') && !r.contains("__"));
        for piece in r.split('_').filter(|p| !p.is_empty()) {
            assert!(!piece.chars().next().unwrap().is_ascii_lowercase());
        }
        let letters: String = name.chars().filter(|c| c.is_ascii_alphanumeric()).collect();
        let kept: String = r.chars().filter(|c| *c != '_').collect();
        assert_eq!(kept.to_lowercase(), letters.to_lowercase());
    }
}
