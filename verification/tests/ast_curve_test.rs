use jolt_transpiler::ast_curve::{
    reset_g1_from_counter, take_g1_from_witnesses, AstCurve, AstGTElement, AstGroupElement, G1Op, G1Recorder, G1_OP_NONE,
    NO_CHUNKS,
};
use jolt_transpiler::curve::{Bn254Curve, GrumpkinCurve};
use jolt_transpiler::mle_ast::MleAst;

#[test]
fn constructors_set_the_indices() {
    let full = AstGroupElement::new_full(3, 9);
    assert_eq!((full.chunk_store_idx, full.g1_op_id()), (3, 9));
    let chunks_only = AstGroupElement::new(5);
    assert_eq!((chunks_only.chunk_store_idx, chunks_only.g1_op_id()), (5, G1_OP_NONE));
    let op_only = AstGroupElement::from_g1_op(7);
    assert_eq!((op_only.chunk_store_idx, op_only.g1_op_id()), (NO_CHUNKS, 7));
    let d = AstGroupElement::default();
    assert!(d.is_zero());
    assert!(!op_only.is_zero());
}

#[test]
fn operations_are_recorded_in_order() {
    let mut rec = G1Recorder::new();
    let z = AstGroupElement::zero(&mut rec);
    let g = AstGroupElement::from_generator(&mut rec, None);
    let s = z.add(g, &mut rec);
    let d = s.double(&mut rec);
    let n = d.neg(&mut rec);
    let m = n.scalar_mul(&MleAst { root: 12 }, &mut rec);
    let mut acc = m;
    acc.sub_assign(g, &mut rec);
    assert_eq!((z.g1_op_id(), g.g1_op_id(), s.g1_op_id(), d.g1_op_id()), (0, 1, 2, 3));
    assert_eq!((n.g1_op_id(), m.g1_op_id(), acc.g1_op_id()), (4, 5, 6));
    assert_eq!(acc.chunk_store_idx, NO_CHUNKS);
    assert!(matches!(rec.ops[0], G1Op::Zero));
    assert!(matches!(&rec.ops[1], G1Op::Var(name) if name == "PedersenGen_0"));
    assert!(matches!(rec.ops[2], G1Op::Add(0, 1)));
    assert!(matches!(rec.ops[3], G1Op::Double(2)));
    assert!(matches!(rec.ops[4], G1Op::Neg(3)));
    assert!(matches!(rec.ops[5], G1Op::ScalarMul(4, 12)));
    assert!(matches!(rec.ops[6], G1Op::Sub(5, 1)));
}

#[test]
fn msm_records_bases_and_scalar_nodes() {
    let mut rec = G1Recorder::new();
    let a = AstGroupElement::from_generator(&mut rec, None);
    let b = AstGroupElement::from_generator(&mut rec, None);
    let r = AstCurve::g1_msm(&[a, b], &[MleAst { root: 4 }, MleAst { root: 9 }], &mut rec);
    assert_eq!(r.g1_op_id(), 2);
    match &rec.ops[2] {
        G1Op::MSM(bases, scalars) => {
            assert_eq!(bases, &vec![0, 1]);
            assert_eq!(scalars, &vec![4, 9]);
        },
        other => panic!("unexpected {:?}", other),
    }
}

#[test]
fn generators_are_named_and_witnessed() {
    let mut rec = G1Recorder::new();
    AstGroupElement::from_generator(&mut rec, Some(("11".to_string(), "22".to_string())));
    AstGroupElement::from_generator(&mut rec, None);
    AstGroupElement::from_generator(&mut rec, Some(("33".to_string(), "44".to_string())));
    assert!(matches!(&rec.ops[2], G1Op::Var(name) if name == "PedersenGen_2"));
    let w = take_g1_from_witnesses(&mut rec);
    assert_eq!(
        w,
        vec![
            ("PedersenGen_0".to_string(), "11".to_string(), "22".to_string()),
            ("PedersenGen_2".to_string(), "33".to_string(), "44".to_string()),
        ]
    );
    assert!(take_g1_from_witnesses(&mut rec).is_empty());
    reset_g1_from_counter(&mut rec);
    AstGroupElement::from_generator(&mut rec, None);
    assert!(matches!(&rec.ops[3], G1Op::Var(name) if name == "PedersenGen_0"));
}

#[test]
fn equality_registers_constraints_only_in_constraint_mode() {
    let mut rec = G1Recorder::new();
    let a = AstGroupElement::from_g1_op(1);
    let b = AstGroupElement::from_g1_op(2);
    assert!(!a.equals(&b, &mut rec));
    assert!(a.equals(&a, &mut rec));
    assert!(rec.constraints.is_empty());
    rec.constraint_mode = true;
    assert!(a.equals(&b, &mut rec));
    assert!(b.equals(&a, &mut rec));
    assert_eq!(rec.constraints.len(), 2);
    assert_eq!(rec.constraints[0].name, "g1_eq_0");
    assert_eq!((rec.constraints[0].lhs, rec.constraints[0].rhs), (1, 2));
    assert_eq!(rec.constraints[1].name, "g1_eq_1");
    let none = AstGroupElement::new(4);
    assert!(!none.equals(&a, &mut rec));
    assert_eq!(rec.constraints.len(), 2);
}

#[test]
fn serialization_hands_over_stored_chunks() {
    let mut rec = G1Recorder::new();
    rec.chunk_store.push(vec![MleAst { root: 3 }, MleAst { root: 5 }]);
    let e = AstGroupElement::new(0);
    e.serialize(&mut rec);
    assert_eq!(rec.pending_chunks, Some(vec![MleAst { root: 3 }, MleAst { root: 5 }]));
    rec.pending_chunks = None;
    AstGroupElement::from_g1_op(0).serialize(&mut rec);
    assert_eq!(rec.pending_chunks, None);
}

#[test]
fn curve_markers_exist() {
    assert_eq!(AstGTElement::default(), AstGTElement);
    assert_eq!(Bn254Curve::default(), Bn254Curve);
    assert_eq!(GrumpkinCurve::default(), GrumpkinCurve);
    let _ = AstCurve::default();
}

#[test]
fn add_assign_records_and_drops_chunks() {
    let mut rec = G1Recorder::new();
    let g = AstGroupElement::from_generator(&mut rec, None);
    let mut acc = AstGroupElement::new_full(4, 0);
    acc.add_assign(g, &mut rec);
    assert_eq!((acc.chunk_store_idx, acc.g1_op_id()), (NO_CHUNKS, 1));
    assert!(matches!(rec.ops[1], G1Op::Add(0, 0)));
}

#[test]
fn generators_are_renumbered_after_reset_and_take() {
    let mut rec = G1Recorder::new();
    AstGroupElement::from_generator(&mut rec, Some(("1".to_string(), "2".to_string())));
    take_g1_from_witnesses(&mut rec);
    reset_g1_from_counter(&mut rec);
    for k in 0..3 {
        AstGroupElement::from_generator(&mut rec, Some((format!("x{}", k), format!("y{}", k))));
    }
    let w = take_g1_from_witnesses(&mut rec);
    assert_eq!(w.len(), 3);
    for (k, e) in w.iter().enumerate() {
        assert_eq!(e.0, format!("PedersenGen_{}", k));
        assert_eq!(e.1, format!("x{}", k));
        assert_eq!(e.2, format!("y{}", k));
    }
}

#[test]
fn reset_renames_from_zero_whatever_the_witnesses_hold() {
    let mut rec = G1Recorder::new();
    AstGroupElement::from_generator(&mut rec, Some(("1".to_string(), "2".to_string())));
    AstGroupElement::from_generator(&mut rec, None);
    reset_g1_from_counter(&mut rec);
    reset_g1_from_counter(&mut rec);
    AstGroupElement::from_generator(&mut rec, None);
    AstGroupElement::from_generator(&mut rec, None);
    assert!(matches!(&rec.ops[2], G1Op::Var(name) if name == "PedersenGen_0"));
    assert!(matches!(&rec.ops[3], G1Op::Var(name) if name == "PedersenGen_1"));
    assert_eq!(take_g1_from_witnesses(&mut rec).len(), 1);
    assert!(take_g1_from_witnesses(&mut rec).is_empty());
}
