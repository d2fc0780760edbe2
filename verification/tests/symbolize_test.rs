use jolt_transpiler::assertion_debug::{export_json_text, log_assertion_eq, reset, AssertionLog};
use jolt_transpiler::mle_ast::{Atom, Edge, MleAst, Node};
use jolt_transpiler::symbolize::{
    bytecode_fixup_layout, eval_words, fixup_bytecode_witnesses, fixup_updates, try_fixup_bytecode_witnesses, le_words, pad_to, preamble_chunks, BytecodeFixupIndices, BytecodeSymbolizationData,
};

#[test]
fn io_is_padded_and_cut_to_its_capacity() {
    assert_eq!(pad_to(&[1, 2, 3], 5), vec![1, 2, 3, 0, 0]);
    assert_eq!(pad_to(&[1, 2, 3], 2), vec![1, 2]);
    assert_eq!(pad_to(&[], 0), Vec::<u8>::new());
}

#[test]
fn preamble_chunks_are_zero_extended() {
    let data: Vec<u8> = (1..=40).collect();
    let chunks = preamble_chunks(&data);
    assert_eq!(chunks.len(), 2);
    assert_eq!(chunks[0], (1..=32).collect::<Vec<u8>>());
    let mut second: Vec<u8> = (33..=40).collect();
    second.resize(32, 0);
    assert_eq!(chunks[1], second);
    assert!(preamble_chunks(&[]).is_empty());
    assert_eq!(preamble_chunks(&[0u8; 64]).len(), 2);
}

#[test]
fn eval_words_read_whole_little_endian_words() {
    let data = [1u8, 0, 0, 0, 0, 0, 0, 0, 0x34, 0x12];
    assert_eq!(eval_words(&data, 20), vec![1, 0x1234]);
    assert_eq!(eval_words(&data, 7), Vec::<u64>::new());
    assert_eq!(le_words(&[0xff; 8], 1), vec![u64::MAX]);
}

fn sample_data() -> BytecodeSymbolizationData {
    BytecodeSymbolizationData {
        bytecode_words: vec![MleAst { root: 0 }],
        register_indices: vec![(Some(1), None, Some(2)), (None, Some(0), None)],
        lookup_table_indices: vec![Some(1), None],
        fixup_indices: vec![
            BytecodeFixupIndices { eq_r4_var_indices: [10, 11, 12], eq_r5_rd_var_index: 13, lookup_contribution_var_index: 14 },
            BytecodeFixupIndices { eq_r4_var_indices: [20, 21, 22], eq_r5_rd_var_index: 23, lookup_contribution_var_index: 24 },
        ],
    }
}

#[test]
fn fixups_pick_table_entries_by_register() {
    let eq4 = [100u64, 101, 102];
    let eq5 = [200u64, 201];
    let gammas = [300u64, 301, 302, 303];
    let updates = fixup_updates(&sample_data(), &eq4, &eq5, &gammas, 0);
    assert_eq!(
        updates,
        vec![(10, 101), (11, 0), (12, 102), (13, 201), (14, 303), (20, 0), (21, 100), (22, 0), (23, 0), (24, 0)]
    );
}

#[test]
fn assertion_log_indexes_and_renders_entries() {
    let mut log = AssertionLog::new();
    assert_eq!(log_assertion_eq(&mut log, &[5], &[1, 1]), 0);
    assert_eq!(log_assertion_eq(&mut log, &[], &[0xff, 0xff, 0xff, 0xff, 0xff, 0xff, 0xff, 0xff, 1]), 1);
    assert_eq!(log.assertions[0], (0, "5".to_string(), "257".to_string()));
    assert_eq!(log.assertions[1], (1, "0".to_string(), "36893488147419103231".to_string()));
    let json = export_json_text(&log);
    assert_eq!(
        json,
        "{\n  \"source\": \"rust_verify_real\",\n  \"assertions\": [\n    {\"index\": 0, \"lhs\": \"5\", \"rhs\": \"257\"},\n    {\"index\": 1, \"lhs\": \"0\", \"rhs\": \"36893488147419103231\"}\n  ],\n  \"count\": 2\n}"
    );
    reset(&mut log);
    assert_eq!(log.counter, 0);
    assert!(log.assertions.is_empty());
    assert_eq!(
        export_json_text(&log),
        "{\n  \"source\": \"rust_verify_real\",\n  \"assertions\": [\n\n  ],\n  \"count\": 0\n}"
    );
}

#[test]
fn fixup_evaluates_the_captured_tables() {
    let c = |v: u64| Node::Atom(Atom::Scalar([v, 0, 0, 0]));
    let nodes = vec![
        c(100), c(101), c(102), c(200), c(201), c(300), c(301), c(302),
        Node::Add(Edge::Atom(Atom::Var(0)), Edge::Atom(Atom::Scalar([3, 0, 0, 0]))),
    ];
    let h = |r: usize| MleAst { root: r };
    let eq4 = [h(0), h(1), h(2)];
    let eq5 = [h(3), h(4)];
    let gammas = [h(5), h(6), h(7), h(8)];
    let updates = fixup_bytecode_witnesses(&nodes, &sample_data(), &eq4, &eq5, &gammas, &[[300, 0, 0, 0]]);
    let values: Vec<(u32, u64)> = updates.iter().map(|(v, l)| (*v, l[0])).collect();
    assert_eq!(
        values,
        vec![(10, 101), (11, 0), (12, 102), (13, 201), (14, 303), (20, 0), (21, 100), (22, 0), (23, 0), (24, 0)]
    );
    assert!(try_fixup_bytecode_witnesses(&nodes, &sample_data(), &eq4, &eq5, &gammas, &[]).is_none());
}

#[test]
fn log_indices_restart_after_reset() {
    let mut log = AssertionLog::new();
    log_assertion_eq(&mut log, &[1], &[1]);
    log_assertion_eq(&mut log, &[2], &[2]);
    reset(&mut log);
    assert_eq!(log_assertion_eq(&mut log, &[3], &[4]), 0);
    assert_eq!(log_assertion_eq(&mut log, &[5], &[6]), 1);
    assert_eq!(log.assertions.iter().map(|e| e.0).collect::<Vec<_>>(), vec![0, 1]);
    assert_eq!(log.counter, 2);
}

#[test]
fn bytecode_fixup_indices_follow_the_allocation_order() {
    // 2 words, then per instruction: addr, imm, 3 circuit flags, 2 instruction
    // flags, not_intl, rd/rs1/rs2 eq4, rd eq5, lut (13 variables).
    let v = bytecode_fixup_layout(10, 2, 2, 3, 2).unwrap();
    assert_eq!(v.len(), 2);
    assert_eq!(v[0].eq_r4_var_indices, [20, 21, 22]);
    assert_eq!(v[0].eq_r5_rd_var_index, 23);
    assert_eq!(v[0].lookup_contribution_var_index, 24);
    assert_eq!(v[1].eq_r4_var_indices, [33, 34, 35]);
    assert_eq!(v[1].lookup_contribution_var_index, 37);
    assert!(bytecode_fixup_layout(u32::MAX, 0, 1, 0, 0).is_none());
    assert!(bytecode_fixup_layout(u32::MAX, 1, 0, 0, 0).is_some());
}
