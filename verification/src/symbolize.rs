//! Layout of the symbolic IO and bytecode inputs: padding IO to its maximal
//! size, cutting it into transcript chunks and evaluation words, and the
//! witness fixups of the challenge-dependent bytecode fields.

use vstd::prelude::*;
use crate::bytes::{le_nat, u64_from_le};
use crate::ast_evaluator::{canonical, try_evaluate_concrete, node_eval_in, var_map};
use crate::mle_ast::{arena_wf, MleAst, Node};
use crate::scalar::limbs_val;

verus! {

/// Which variables of one instruction hold challenge-dependent values that
/// are fixed up after symbolic verification.
#[derive(Clone, Copy, Debug)]
pub struct BytecodeFixupIndices {
    /// `[rd, rs1, rs2]` entries of the stage-4 register equality table.
    pub eq_r4_var_indices: [u32; 3],
    /// `rd` entry of the stage-5 register equality table.
    pub eq_r5_rd_var_index: u32,
    /// The stage-5 lookup contribution.
    pub lookup_contribution_var_index: u32,
}

/// What bytecode symbolization hands on for the witness fixup.
pub struct BytecodeSymbolizationData {
    /// Symbolic bytecode words of the initial RAM.
    pub bytecode_words: Vec<MleAst>,
    /// Register operands `(rd, rs1, rs2)` of each instruction.
    pub register_indices: Vec<(Option<u8>, Option<u8>, Option<u8>)>,
    /// Lookup table of each instruction, if it has one.
    pub lookup_table_indices: Vec<Option<usize>>,
    /// The variables to fix up, per instruction.
    pub fixup_indices: Vec<BytecodeFixupIndices>,
}

// ---------------------------------------------------------------------------
// IO layout
// ---------------------------------------------------------------------------

/// `data` cut or zero-extended to exactly `max` bytes (`Vec::resize`).
pub open spec fn padded(data: Seq<u8>, max: nat) -> Seq<u8> {
    Seq::new(max, |i: int| if i < data.len() { data[i] } else { 0u8 })
}

/// Pads or cuts `data` to `max` bytes.
pub fn pad_to(data: &[u8], max: usize) -> (r: Vec<u8>)
    ensures
        r@ == padded(data@, max as nat),
{
    let mut r: Vec<u8> = Vec::new();
    let mut i: usize = 0;
    while i < max
        invariant
            i <= max,
            r@ == padded(data@, max as nat).subrange(0, i as int),
        decreases max - i,
    {
        if i < data.len() {
            r.push(data[i]);
        } else {
            r.push(0u8);
        }
        i += 1;
        assert(r@ =~= padded(data@, max as nat).subrange(0, i as int));
    }
    assert(padded(data@, max as nat).subrange(0, max as int) =~= padded(data@, max as nat));
    r
}

/// The `k`-th 32-byte chunk of `data`, zero-extended when it is the short last one.
pub open spec fn chunk32(data: Seq<u8>, k: int) -> Seq<u8> {
    Seq::new(32, |j: int| if 32 * k + j < data.len() { data[32 * k + j] } else { 0u8 })
}

/// The number of 32-byte chunks `data` is cut into (the last may be short).
pub open spec fn num_chunks32(len: nat) -> nat {
    (len + 31) / 32
}

/// Cuts `data` into 32-byte chunks, zero-extending the last one: the byte
/// strings that the transcript absorbs as field elements.
pub fn preamble_chunks(data: &[u8]) -> (r: Vec<Vec<u8>>)
    ensures
        r@.len() == num_chunks32(data@.len()),
        forall|k: int| 0 <= k < r@.len() ==> (#[trigger] r@[k])@ == chunk32(data@, k),
{
    let n = data.len();
    let count = n / 32 + if n % 32 == 0 { 0 } else { 1 };
    let mut r: Vec<Vec<u8>> = Vec::new();
    let mut k: usize = 0;
    while k < count
        invariant
            n == data@.len(),
            count == num_chunks32(n as nat),
            k <= count,
            r@.len() == k,
            forall|m: int| 0 <= m < k ==> (#[trigger] r@[m])@ == chunk32(data@, m),
        decreases count - k,
    {
        let mut buf: Vec<u8> = Vec::new();
        let mut j: usize = 0;
        assert(32 * k < n);
        while j < 32
            invariant
                n == data@.len(),
                k < count,
                count == num_chunks32(n as nat),
                j <= 32,
                buf@ == chunk32(data@, k as int).subrange(0, j as int),
            decreases 32 - j,
        {
            let at = 32 * k + j;
            if at < n {
                buf.push(data[at]);
            } else {
                buf.push(0u8);
            }
            j += 1;
            assert(buf@ =~= chunk32(data@, k as int).subrange(0, j as int));
        }
        assert(buf@ =~= chunk32(data@, k as int));
        r.push(buf);
        k += 1;
    }
    r
}

/// The `i`-th eight-byte little-endian word of `data`.
pub open spec fn word_at(data: Seq<u8>, i: int) -> nat {
    le_nat(data.subrange(8 * i, 8 * i + 8))
}

/// The first `count` little-endian `u64` words of `data`.
pub fn le_words(data: &[u8], count: usize) -> (r: Vec<u64>)
    requires
        8 * count <= data@.len(),
    ensures
        r@.len() == count,
        forall|i: int| 0 <= i < count ==> #[trigger] r@[i] as nat == word_at(data@, i),
{
    let n = data.len();
    let mut r: Vec<u64> = Vec::new();
    let mut i: usize = 0;
    while i < count
        invariant
            i <= count,
            n == data@.len(),
            8 * count <= n,
            r@.len() == i,
            forall|m: int| 0 <= m < i ==> #[trigger] r@[m] as nat == word_at(data@, m),
        decreases count - i,
    {
        let w = u64_from_le(data, 8 * i);
        r.push(w);
        i += 1;
    }
    r
}

/// The evaluation words of an IO region of capacity `max`: the whole
/// eight-byte words of the region padded to `max`.
pub fn eval_words(data: &[u8], max: usize) -> (r: Vec<u64>)
    ensures
        r@.len() == max / 8,
        forall|i: int| 0 <= i < max / 8 ==> #[trigger] r@[i] as nat == word_at(padded(data@, max as nat), i),
{
    let p = pad_to(data, max);
    le_words(p.as_slice(), max / 8)
}

// ---------------------------------------------------------------------------
// Witness fixup of challenge-dependent bytecode fields
// ---------------------------------------------------------------------------

/// An entry of an equality table chosen by an optional register, `zero`
/// when there is no register.
pub open spec fn pick<T>(r: Option<u8>, table: Seq<T>, zero: T) -> T {
    match r {
        Some(i) => table[i as int],
        None => zero,
    }
}

/// The lookup contribution of an instruction: the gamma at `2 + table`, or
/// `zero` without a lookup table.
pub open spec fn lookup_value<T>(t: Option<usize>, gammas: Seq<T>, zero: T) -> T {
    match t {
        Some(i) => gammas[2 + i],
        None => zero,
    }
}

/// The five witness updates of instruction `k`: `(variable, value)`.
pub open spec fn fixups_of<T>(
    data: &BytecodeSymbolizationData, k: int, eq4: Seq<T>, eq5: Seq<T>, gammas: Seq<T>, zero: T,
) -> Seq<(u32, T)> {
    let fx = data.fixup_indices@[k];
    let (rd, rs1, rs2) = data.register_indices@[k];
    seq![
        (fx.eq_r4_var_indices[0], pick(rd, eq4, zero)),
        (fx.eq_r4_var_indices[1], pick(rs1, eq4, zero)),
        (fx.eq_r4_var_indices[2], pick(rs2, eq4, zero)),
        (fx.eq_r5_rd_var_index, pick(rd, eq5, zero)),
        (fx.lookup_contribution_var_index, lookup_value(data.lookup_table_indices@[k], gammas, zero)),
    ]
}

/// The updates of the first `n` instructions, in order.
pub open spec fn fixups_upto<T>(
    data: &BytecodeSymbolizationData, n: nat, eq4: Seq<T>, eq5: Seq<T>, gammas: Seq<T>, zero: T,
) -> Seq<(u32, T)>
    decreases n,
{
    if n == 0 {
        seq![]
    } else {
        fixups_upto(data, (n - 1) as nat, eq4, eq5, gammas, zero) + fixups_of(data, n - 1, eq4, eq5, gammas, zero)
    }
}

/// Every table lookup the fixup makes is in range.
pub open spec fn fixup_in_range<T>(data: &BytecodeSymbolizationData, eq4: Seq<T>, eq5: Seq<T>, gammas: Seq<T>) -> bool {
    &&& data.register_indices@.len() >= data.fixup_indices@.len()
    &&& data.lookup_table_indices@.len() >= data.fixup_indices@.len()
    &&& forall|k: int| 0 <= k < data.fixup_indices@.len() ==> {
        let (rd, rs1, rs2) = #[trigger] data.register_indices@[k];
        &&& (rd matches Some(i) ==> i < eq4.len() && i < eq5.len())
        &&& (rs1 matches Some(i) ==> i < eq4.len())
        &&& (rs2 matches Some(i) ==> i < eq4.len())
        &&& (data.lookup_table_indices@[k] matches Some(t) ==> 2 + t < gammas.len())
    }
}

fn pick_exec<T: Copy>(r: Option<u8>, table: &[T], zero: T) -> (v: T)
    requires
        r matches Some(i) ==> i < table@.len(),
    ensures
        v == pick(r, table@, zero),
{
    match r {
        Some(i) => table[i as usize],
        None => zero,
    }
}

/// The witness updates for the challenge-dependent fields of every
/// instruction, given the evaluated register equality tables and stage-5
/// gammas: per instruction, the stage-4 entries of `rd`, `rs1` and `rs2`,
/// the stage-5 entry of `rd`, and the lookup contribution (`fixup_bytecode_witnesses`).
pub fn fixup_updates<T: Copy>(
    data: &BytecodeSymbolizationData, eq4: &[T], eq5: &[T], gammas: &[T], zero: T,
) -> (r: Vec<(u32, T)>)
    requires
        fixup_in_range(data, eq4@, eq5@, gammas@),
    ensures
        r@ == fixups_upto(data, data.fixup_indices@.len(), eq4@, eq5@, gammas@, zero),
{
    let mut r: Vec<(u32, T)> = Vec::new();
    let mut k: usize = 0;
    while k < data.fixup_indices.len()
        invariant
            k <= data.fixup_indices@.len(),
            fixup_in_range(data, eq4@, eq5@, gammas@),
            r@ == fixups_upto(data, k as nat, eq4@, eq5@, gammas@, zero),
        decreases data.fixup_indices@.len() - k,
    {
        let fx = data.fixup_indices[k];
        let regs = data.register_indices[k];
        let table = data.lookup_table_indices[k];
        assert(regs == data.register_indices@[k as int]);
        let (rd, rs1, rs2) = regs;
        let glen = gammas.len();
        let lut = match table {
            Some(t) => gammas[2 + t],
            None => zero,
        };
        let ghost before = r@;
        r.push((fx.eq_r4_var_indices[0], pick_exec(rd, eq4, zero)));
        r.push((fx.eq_r4_var_indices[1], pick_exec(rs1, eq4, zero)));
        r.push((fx.eq_r4_var_indices[2], pick_exec(rs2, eq4, zero)));
        r.push((fx.eq_r5_rd_var_index, pick_exec(rd, eq5, zero)));
        r.push((fx.lookup_contribution_var_index, lut));
        assert(r@ =~= before + fixups_of(data, k as int, eq4@, eq5@, gammas@, zero));
        k += 1;
    }
    r
}

} // verus!

verus! {

/// `vals` holds, in order, the values of the expressions `asts` with
/// variable `i` standing for `var_values[i]`.
pub open spec fn tables_eval(nodes: Seq<Node>, var_values: Seq<[u64; 4]>, asts: Seq<MleAst>, vals: Seq<[u64; 4]>) -> bool {
    &&& vals.len() == asts.len()
    &&& forall|k: int| 0 <= k < asts.len() ==> canonical(#[trigger] vals[k])
        && node_eval_in(nodes, var_map(var_values), asts[k].root as int, false) == Some(limbs_val(vals[k]))
}

/// Every expression of `asts` evaluates.
pub open spec fn all_evaluate(nodes: Seq<Node>, var_values: Seq<[u64; 4]>, asts: Seq<MleAst>) -> bool {
    forall|k: int| 0 <= k < asts.len() ==> node_eval_in(nodes, var_map(var_values), (#[trigger] asts[k]).root as int, false) is Some
}

/// Evaluates each expression in turn; `None` as soon as one fails.
fn eval_table(nodes: &[Node], asts: &[MleAst], var_values: &[[u64; 4]]) -> (r: Option<Vec<[u64; 4]>>)
    requires
        arena_wf(nodes@),
        forall|k: int| 0 <= k < asts@.len() ==> (#[trigger] asts@[k]).root < nodes@.len(),
    ensures
        r is Some <==> all_evaluate(nodes@, var_values@, asts@),
        r matches Some(v) ==> tables_eval(nodes@, var_values@, asts@, v@),
{
    let mut out: Vec<[u64; 4]> = Vec::new();
    let mut i: usize = 0;
    while i < asts.len()
        invariant
            i <= asts@.len(),
            arena_wf(nodes@),
            forall|k: int| 0 <= k < asts@.len() ==> (#[trigger] asts@[k]).root < nodes@.len(),
            tables_eval(nodes@, var_values@, asts@.subrange(0, i as int), out@),
        decreases asts@.len() - i,
    {
        match try_evaluate_concrete(nodes, asts[i], var_values) {
            Some(v) => {
                out.push(v);
                i += 1;
                assert(asts@.subrange(0, i as int).drop_last() =~= asts@.subrange(0, i - 1));
            },
            None => {
                assert(!all_evaluate(nodes@, var_values@, asts@)) by {
                    assert(node_eval_in(nodes@, var_map(var_values@), asts@[i as int].root as int, false) is None);
                }
                return None;
            },
        }
    }
    assert(asts@.subrange(0, i as int) =~= asts@);
    assert forall|k: int| 0 <= k < asts@.len() implies
        node_eval_in(nodes@, var_map(var_values@), (#[trigger] asts@[k]).root as int, false) is Some by {
        assert(canonical(out@[k]));
    }
    Some(out)
}

/// The witness updates, or `None` where a captured value cannot be evaluated.
fn fixup_values(
    nodes: &[Node],
    data: &BytecodeSymbolizationData,
    eq_r4: &[MleAst],
    eq_r5: &[MleAst],
    gammas: &[MleAst],
    var_values: &[[u64; 4]],
) -> (r: Option<Vec<(u32, [u64; 4])>>)
    requires
        arena_wf(nodes@),
        forall|k: int| 0 <= k < eq_r4@.len() ==> (#[trigger] eq_r4@[k]).root < nodes@.len(),
        forall|k: int| 0 <= k < eq_r5@.len() ==> (#[trigger] eq_r5@[k]).root < nodes@.len(),
        forall|k: int| 0 <= k < gammas@.len() ==> (#[trigger] gammas@[k]).root < nodes@.len(),
        fixup_in_range(data, eq_r4@, eq_r5@, gammas@),
    ensures
        r is Some <==> all_evaluate(nodes@, var_values@, eq_r4@) && all_evaluate(nodes@, var_values@, eq_r5@)
            && all_evaluate(nodes@, var_values@, gammas@),
        r matches Some(u) ==> exists|t4: Seq<[u64; 4]>, t5: Seq<[u64; 4]>, tg: Seq<[u64; 4]>|
            tables_eval(nodes@, var_values@, eq_r4@, t4) && tables_eval(nodes@, var_values@, eq_r5@, t5)
            && tables_eval(nodes@, var_values@, gammas@, tg)
            && u@ == fixups_upto(data, data.fixup_indices@.len(), t4, t5, tg, [0u64, 0u64, 0u64, 0u64]),
{
    let t4 = match eval_table(nodes, eq_r4, var_values) {
        Some(t) => t,
        None => return None,
    };
    let t5 = match eval_table(nodes, eq_r5, var_values) {
        Some(t) => t,
        None => return None,
    };
    let tg = match eval_table(nodes, gammas, var_values) {
        Some(t) => t,
        None => return None,
    };
    proof {
        assert(fixup_in_range(data, t4@, t5@, tg@)) by {
            assert forall|k: int| 0 <= k < data.fixup_indices@.len() implies {
                let (rd, rs1, rs2) = #[trigger] data.register_indices@[k];
                &&& (rd matches Some(i) ==> i < t4@.len() && i < t5@.len())
                &&& (rs1 matches Some(i) ==> i < t4@.len())
                &&& (rs2 matches Some(i) ==> i < t4@.len())
                &&& (data.lookup_table_indices@[k] matches Some(t) ==> 2 + t < tg@.len())
            } by {
                let (rd, rs1, rs2) = data.register_indices@[k];
            }
        }
    }
    let u = fixup_updates(data, t4.as_slice(), t5.as_slice(), tg.as_slice(), [0u64, 0u64, 0u64, 0u64]);
    Some(u)
}


/// The witness updates for the challenge-dependent bytecode fields, after
/// evaluating the captured register equality tables and stage-5 gammas
/// with the given variable values (`fixup_bytecode_witnesses`): each update
/// is a variable index and the value it is to be given. Every captured
/// value must evaluate.
pub fn fixup_bytecode_witnesses(
    nodes: &[Node],
    data: &BytecodeSymbolizationData,
    eq_r4: &[MleAst],
    eq_r5: &[MleAst],
    gammas: &[MleAst],
    var_values: &[[u64; 4]],
) -> (r: Vec<(u32, [u64; 4])>)
    requires
        arena_wf(nodes@),
        forall|k: int| 0 <= k < eq_r4@.len() ==> (#[trigger] eq_r4@[k]).root < nodes@.len(),
        forall|k: int| 0 <= k < eq_r5@.len() ==> (#[trigger] eq_r5@[k]).root < nodes@.len(),
        forall|k: int| 0 <= k < gammas@.len() ==> (#[trigger] gammas@[k]).root < nodes@.len(),
        fixup_in_range(data, eq_r4@, eq_r5@, gammas@),
        all_evaluate(nodes@, var_values@, eq_r4@),
        all_evaluate(nodes@, var_values@, eq_r5@),
        all_evaluate(nodes@, var_values@, gammas@),
    ensures
        exists|t4: Seq<[u64; 4]>, t5: Seq<[u64; 4]>, tg: Seq<[u64; 4]>|
            tables_eval(nodes@, var_values@, eq_r4@, t4) && tables_eval(nodes@, var_values@, eq_r5@, t5)
            && tables_eval(nodes@, var_values@, gammas@, tg)
            && r@ == fixups_upto(data, data.fixup_indices@.len(), t4, t5, tg, [0u64, 0u64, 0u64, 0u64]),
{
    match fixup_values(nodes, data, eq_r4, eq_r5, gammas, var_values) {
        Some(u) => u,
        None => Vec::new(),
    }
}

/// `fixup_bytecode_witnesses` where every captured value evaluates, `None`
/// otherwise.
pub fn try_fixup_bytecode_witnesses(
    nodes: &[Node],
    data: &BytecodeSymbolizationData,
    eq_r4: &[MleAst],
    eq_r5: &[MleAst],
    gammas: &[MleAst],
    var_values: &[[u64; 4]],
) -> (r: Option<Vec<(u32, [u64; 4])>>)
    requires
        arena_wf(nodes@),
        forall|k: int| 0 <= k < eq_r4@.len() ==> (#[trigger] eq_r4@[k]).root < nodes@.len(),
        forall|k: int| 0 <= k < eq_r5@.len() ==> (#[trigger] eq_r5@[k]).root < nodes@.len(),
        forall|k: int| 0 <= k < gammas@.len() ==> (#[trigger] gammas@[k]).root < nodes@.len(),
        fixup_in_range(data, eq_r4@, eq_r5@, gammas@),
    ensures
        r is Some <==> all_evaluate(nodes@, var_values@, eq_r4@) && all_evaluate(nodes@, var_values@, eq_r5@)
            && all_evaluate(nodes@, var_values@, gammas@),
        r matches Some(u) ==> exists|t4: Seq<[u64; 4]>, t5: Seq<[u64; 4]>, tg: Seq<[u64; 4]>|
            tables_eval(nodes@, var_values@, eq_r4@, t4) && tables_eval(nodes@, var_values@, eq_r5@, t5)
            && tables_eval(nodes@, var_values@, gammas@, tg)
            && u@ == fixups_upto(data, data.fixup_indices@.len(), t4, t5, tg, [0u64, 0u64, 0u64, 0u64]),
{
    match fixup_values(nodes, data, eq_r4, eq_r5, gammas, var_values) {
        Some(_) => Some(fixup_bytecode_witnesses(nodes, data, eq_r4, eq_r5, gammas, var_values)),
        None => None,
    }
}

/// The number of variables bytecode symbolization allocates per
/// instruction: address, immediate, the circuit and instruction flags, the
/// not-interleaved flag, three stage-4 register equalities, the stage-5
/// `rd` equality and the lookup contribution.
pub open spec fn vars_per_instruction(num_circuit_flags: nat, num_instruction_flags: nat) -> nat {
    num_circuit_flags + num_instruction_flags + 8
}

/// The fixup variables of instruction `k` when symbolization starts
/// allocating at variable `first` with `num_words` bytecode words first
/// (`bc_word_i`), then per instruction `bc_k_addr`, `bc_k_imm`, `bc_k_cf*`,
/// `bc_k_if*`, `bc_k_not_intl`, `bc_k_{rd,rs1,rs2}_eq4`, `bc_k_rd_eq5`,
/// `bc_k_lut`, one index each in that order.
pub open spec fn fixup_layout(first: nat, num_words: nat, num_circuit_flags: nat, num_instruction_flags: nat, k: nat)
    -> (nat, nat, nat)
{
    let base = first + num_words + k * vars_per_instruction(num_circuit_flags, num_instruction_flags);
    let eq4 = base + 3 + num_circuit_flags + num_instruction_flags;
    (eq4, eq4 + 3, eq4 + 4)
}

/// The fixup indices of each instruction, in the order bytecode
/// symbolization allocates its variables (`symbolize_bytecode`), or `None`
/// when an index would not fit in `u32`.
pub fn bytecode_fixup_layout(
    first: u32,
    num_words: usize,
    num_instructions: usize,
    num_circuit_flags: usize,
    num_instruction_flags: usize,
) -> (r: Option<Vec<BytecodeFixupIndices>>)
    ensures
        r is Some <==> first + num_words + num_instructions * vars_per_instruction(num_circuit_flags as nat,
            num_instruction_flags as nat) <= u32::MAX + 1,
        r matches Some(v) ==> v@.len() == num_instructions && forall|k: int| 0 <= k < num_instructions ==> {
            let (eq4, eq5, lut) = #[trigger] fixup_layout(first as nat, num_words as nat, num_circuit_flags as nat,
                num_instruction_flags as nat, k as nat);
            &&& v@[k].eq_r4_var_indices[0] == eq4
            &&& v@[k].eq_r4_var_indices[1] == eq4 + 1
            &&& v@[k].eq_r4_var_indices[2] == eq4 + 2
            &&& v@[k].eq_r5_rd_var_index == eq5
            &&& v@[k].lookup_contribution_var_index == lut
        },
{
    let ghost per = vars_per_instruction(num_circuit_flags as nat, num_instruction_flags as nat);
    let limit: u128 = 0x1_0000_0000;
    if num_words as u128 > limit {
        return None;
    }
    let used: u128 = first as u128 + num_words as u128;
    if num_instructions == 0 {
        assert(num_instructions * per == 0) by (nonlinear_arith)
            requires num_instructions == 0;
        if used > limit {
            return None;
        }
        return Some(Vec::new());
    }
    if num_circuit_flags as u128 > limit || num_instruction_flags as u128 > limit || num_instructions as u128 > limit {
        proof {
            assert(num_instructions * per >= per) by (nonlinear_arith)
                requires num_instructions >= 1;
            assert(num_instructions * per >= num_instructions) by (nonlinear_arith)
                requires per >= 1;
        }
        return None;
    }
    let per_x: u128 = num_circuit_flags as u128 + num_instruction_flags as u128 + 8;
    assert(per_x == per);
    assert(num_instructions * per <= 0x1_0000_0000 * (3 * 0x1_0000_0000 + 8)) by (nonlinear_arith)
        requires num_instructions <= 0x1_0000_0000, per <= 3 * 0x1_0000_0000 + 8;
    let total: u128 = used + num_instructions as u128 * per_x;
    if total > limit {
        return None;
    }
    let mut v: Vec<BytecodeFixupIndices> = Vec::new();
    let mut k: usize = 0;
    while k < num_instructions
        invariant
            k <= num_instructions,
            per_x == per,
            per == vars_per_instruction(num_circuit_flags as nat, num_instruction_flags as nat),
            used == first + num_words,
            used + num_instructions * per <= 0x1_0000_0000,
            v@.len() == k,
            forall|j: int| 0 <= j < k ==> {
                let (eq4, eq5, lut) = #[trigger] fixup_layout(first as nat, num_words as nat, num_circuit_flags as nat,
                    num_instruction_flags as nat, j as nat);
                &&& v@[j].eq_r4_var_indices[0] == eq4
                &&& v@[j].eq_r4_var_indices[1] == eq4 + 1
                &&& v@[j].eq_r4_var_indices[2] == eq4 + 2
                &&& v@[j].eq_r5_rd_var_index == eq5
                &&& v@[j].lookup_contribution_var_index == lut
            },
        decreases num_instructions - k,
    {
        assert(k * per + per <= num_instructions * per) by (nonlinear_arith)
            requires k < num_instructions;
        let base: u128 = used + k as u128 * per_x;
        let eq4: u128 = base + 3 + num_circuit_flags as u128 + num_instruction_flags as u128;
        let f = BytecodeFixupIndices {
            eq_r4_var_indices: [eq4 as u32, (eq4 + 1) as u32, (eq4 + 2) as u32],
            eq_r5_rd_var_index: (eq4 + 3) as u32,
            lookup_contribution_var_index: (eq4 + 4) as u32,
        };
        v.push(f);
        k += 1;
    }
    Some(v)
}

} // verus!
