use jolt_transpiler::codegen::{generate_circuit, generate_gnark_expr, generate_gnark_expr_with_vars, generate_stage1_circuit,
    Stage1VerificationResult};
use jolt_transpiler::mle_ast::{Arena, MleAst};

#[test]
fn test_atom_to_gnark_scalar() {
    let mut arena = Arena::new();
    let ast = MleAst::from_i128(&mut arena, 42);
    let gnark = generate_gnark_expr(&arena, ast.root());
    assert_eq!(gnark, "42");
}

#[test]
fn test_simple_add() {
    let mut arena = Arena::new();
    let a = MleAst::from_i128(&mut arena, 3);
    let b = MleAst::from_i128(&mut arena, 5);
    let result = MleAst::add(&mut arena, a, b);

    let gnark = generate_gnark_expr(&arena, result.root());

    println!("Generated Gnark code: {}", gnark);
    assert!(gnark.contains("api.Add"));
    assert!(gnark.contains("3"));
    assert!(gnark.contains("5"));
}

#[test]
fn test_multiply() {
    let mut arena = Arena::new();
    let a = MleAst::from_i128(&mut arena, 7);
    let b = MleAst::from_i128(&mut arena, 11);
    let result = MleAst::mul(&mut arena, a, b);

    let gnark = generate_gnark_expr(&arena, result.root());

    println!("Generated Gnark code: {}", gnark);
    assert!(gnark.contains("api.Mul"));
    assert!(gnark.contains("7"));
    assert!(gnark.contains("11"));
}

#[test]
fn test_complex_expression() {
    // (a + b) * c
    let mut arena = Arena::new();
    let a = MleAst::from_i128(&mut arena, 2);
    let b = MleAst::from_i128(&mut arena, 3);
    let c = MleAst::from_i128(&mut arena, 4);

    let sum = MleAst::add(&mut arena, a, b);
    let result = MleAst::mul(&mut arena, sum, c);

    let gnark = generate_gnark_expr(&arena, result.root());

    println!("Generated Gnark code: {}", gnark);
    assert!(gnark.contains("api.Mul"));
    assert!(gnark.contains("api.Add"));
    assert!(gnark.contains("2"));
    assert!(gnark.contains("3"));
    assert!(gnark.contains("4"));
}

#[test]
fn test_generate_full_circuit() {
    let mut arena = Arena::new();
    let a = MleAst::from_i128(&mut arena, 10);
    let b = MleAst::from_i128(&mut arena, 20);
    let result = MleAst::add(&mut arena, a, b);

    let circuit = generate_circuit(&arena, result.root(), "TestCircuit");

    println!("Generated circuit:\n{}", circuit);

    assert!(circuit.contains("package jolt_verifier"));
    assert!(circuit.contains("import \"github.com/consensys/gnark/frontend\""));
    assert!(circuit.contains("type TestCircuit struct"));
    assert!(circuit.contains("func (circuit *TestCircuit) Define(api frontend.API) error"));
    assert!(circuit.contains("api.Add"));
    assert!(circuit.contains("api.AssertIsEqual"));
}

/// The stage 1 result over input variables: the final claim
/// `(r0 + tau0) * tau1`, the power-sum check `c0 + c1 + c2 - 0`, and one
/// consistency check per round `p0 + p1 - claim`.
fn stage1_result(arena: &mut Arena) -> Stage1VerificationResult {
    let mut var_idx: u16 = 0;
    let mut next_var = |arena: &mut Arena| {
        let idx = var_idx;
        var_idx += 1;
        MleAst::from_var(arena, idx)
    };
    let tau: Vec<MleAst> = (0..2).map(|_| next_var(arena)).collect();
    let r0 = next_var(arena);
    let _challenges: Vec<MleAst> = (0..2).map(|_| next_var(arena)).collect();
    let coeffs: Vec<MleAst> = (0..3).map(|_| next_var(arena)).collect();
    let rounds: Vec<Vec<MleAst>> = (0..2).map(|_| (0..2).map(|_| next_var(arena)).collect()).collect();

    let t = MleAst::add(arena, r0, tau[0]);
    let final_claim = MleAst::mul(arena, t, tau[1]);
    let s01 = MleAst::add(arena, coeffs[0], coeffs[1]);
    let s = MleAst::add(arena, s01, coeffs[2]);
    let zero = MleAst::from_i128(arena, 0);
    let power_sum_check = MleAst::sub(arena, s, zero);
    let mut checks = Vec::new();
    let mut claim = final_claim;
    for round in &rounds {
        let sum = MleAst::add(arena, round[0], round[1]);
        checks.push(MleAst::sub(arena, sum, claim));
        claim = round[1];
    }
    Stage1VerificationResult { final_claim, power_sum_check, sumcheck_consistency_checks: checks }
}

#[test]
fn test_stage1_verifier_transpilation() {
    let mut arena = Arena::new();
    let result = stage1_result(&mut arena);

    let final_claim_expr = generate_gnark_expr(&arena, result.final_claim.root());
    println!("Final claim: {}", final_claim_expr);
    let power_sum_expr = generate_gnark_expr(&arena, result.power_sum_check.root());
    println!("Power sum check (must == 0): {}", power_sum_expr);
    for (i, check) in result.sumcheck_consistency_checks.iter().enumerate() {
        let check_expr = generate_gnark_expr(&arena, check.root());
        println!("Sumcheck round {} consistency (must == 0): {}", i, check_expr);
    }

    assert!(final_claim_expr.contains("circuit.X_"), "Should contain circuit variables");
    assert!(power_sum_expr.contains("circuit.X_"), "Power sum should use variables");
}

#[test]
fn test_generate_stage1_circuit() {
    let mut arena = Arena::new();
    let result = stage1_result(&mut arena);

    let circuit = generate_stage1_circuit(&arena, &result, "Stage1Circuit");

    println!("=== Generated Gnark Circuit ===\n{}", circuit);

    assert!(circuit.contains("package jolt_verifier"));
    assert!(circuit.contains("type Stage1Circuit struct"));
    assert!(circuit.contains("func (circuit *Stage1Circuit) Define"));
    assert!(circuit.contains("api.AssertIsEqual"), "Should have constraint assertions");
}

#[test]
fn inline_expression_has_exact_text() {
    let mut arena = Arena::new();
    let a = MleAst::from_var(&mut arena, 0);
    let b = MleAst::from_i128(&mut arena, 5);
    let s = MleAst::sub(&mut arena, a, b);
    let m = MleAst::mul(&mut arena, s, s);
    assert_eq!(
        generate_gnark_expr(&arena, m.root()),
        "api.Mul(api.Sub(circuit.X_0, 5), api.Sub(circuit.X_0, 5))"
    );
}

#[test]
fn negative_constant_is_the_field_negation() {
    let mut arena = Arena::new();
    let a = MleAst::from_i128(&mut arena, -1);
    assert_eq!(
        generate_gnark_expr(&arena, a.root()),
        "21888242871839275222246405745257275088548364400416034343698204186575808495616"
    );
}

#[test]
fn variables_are_collected_sorted_and_once() {
    let mut arena = Arena::new();
    let x3 = MleAst::from_var(&mut arena, 3);
    let x1 = MleAst::from_var(&mut arena, 1);
    let s = MleAst::add(&mut arena, x3, x1);
    let t = MleAst::mul(&mut arena, s, x3);
    let mut vars = Vec::new();
    let text = generate_gnark_expr_with_vars(&arena, t.root(), &mut vars);
    assert_eq!(vars, vec![1, 3]);
    assert_eq!(text, generate_gnark_expr(&arena, t.root()));
    let circuit = generate_circuit(&arena, t.root(), "C");
    assert!(circuit.contains("\tX_1 frontend.Variable `gnark:\",public\"`\n\tX_3 frontend.Variable"));
}

#[test]
fn test_rust_to_ast_to_gnark() {
    // (a + b) * c - a, concretely and symbolically.
    let a_val: i128 = 3;
    let b_val: i128 = 5;
    let c_val: i128 = 7;

    let concrete_result = (ark_bn254::Fr::from(a_val as u64) + ark_bn254::Fr::from(b_val as u64))
        * ark_bn254::Fr::from(c_val as u64)
        - ark_bn254::Fr::from(a_val as u64);
    assert_eq!(concrete_result, ark_bn254::Fr::from(53u64));

    let mut arena = Arena::new();
    let a_ast = MleAst::from_i128(&mut arena, a_val);
    let b_ast = MleAst::from_i128(&mut arena, b_val);
    let c_ast = MleAst::from_i128(&mut arena, c_val);
    let sum = MleAst::add(&mut arena, a_ast, b_ast);
    let prod = MleAst::mul(&mut arena, sum, c_ast);
    let ast_result = MleAst::sub(&mut arena, prod, a_ast);

    let gnark_expr = generate_gnark_expr(&arena, ast_result.root());
    assert!(gnark_expr.contains("api.Sub"), "Should have Sub for final subtraction");
    assert!(gnark_expr.contains("api.Mul"), "Should have Mul for multiplication");
    assert!(gnark_expr.contains("api.Add"), "Should have Add for addition");
    assert!(gnark_expr.contains("3"), "Should contain constant 3");
    assert!(gnark_expr.contains("5"), "Should contain constant 5");
    assert!(gnark_expr.contains("7"), "Should contain constant 7");
}
