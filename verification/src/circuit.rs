//! A complete gnark circuit from a constraint bundle: imports, the circuit
//! struct, the globally hoisted block, one verification function per
//! constraint, and `Define`.

use vstd::prelude::*;
use std::collections::HashMap;
use crate::bundle::{
    constraint_in, constraint_roots, flagged, mark_reachable, reached, AstBundle, Assertion, Constraint, Input,
    TargetField,
};
use crate::fields::{entries_map, keys_sorted, lemma_entries_unique, put_field, put_field_if_absent};
use crate::fragments::{expr_text, frags, render_expr, ExprFragment, Frag};
use crate::gnark_codegen::{
    cse_free, edge_frags, gen_node, global_count_ok, global_refs, hash_free, hoisted_done, lemma_gen_node_count,
    lemma_gen_node_cse_free, lemma_gen_node_done, lit, state_cse_free, uses_poseidon_helper, GenCfg, GenState,
    GnarkCodeGen,
};
use crate::mle_ast::{arena_wf, edge_ok, node_edges, node_ok, Edge, Node};
use crate::constants::{node_const, node_evaluable, node_inverts_zero, node_value};
use crate::scalar::limbs_val;
use crate::names::{sanitize_go_name, sanitize_spec};
use crate::text::{dec, push_dec, push_str, string_chars, text_of};

verus! {

// ---------------------------------------------------------------------------
// Poseidon helpers below a node
// ---------------------------------------------------------------------------

/// Some node reachable from `root` is rendered with a `poseidon` helper.
pub open spec fn requires_poseidon(nodes: Seq<Node>, root: usize) -> bool {
    exists|j: int| 0 <= j < nodes.len() && reached(nodes, Set::empty(), seq![root], j)
        && #[trigger] uses_poseidon_helper(nodes[j])
}

/// Whether the code of node `root` needs the `poseidon` package
/// (`node_requires_poseidon_import`).
pub fn node_requires_poseidon_import(nodes: &[Node], root: usize) -> (r: bool)
    requires
        root < nodes@.len(),
    ensures
        r == requires_poseidon(nodes@, root),
{
    let n = nodes.len();
    let mut stop: Vec<bool> = Vec::new();
    let mut t: usize = 0;
    while t < n
        invariant
            t <= n,
            stop@.len() == t,
            forall|j: int| 0 <= j < t ==> !stop@[j],
        decreases n - t,
    {
        stop.push(false);
        t += 1;
    }
    assert(flagged(stop@) =~= Set::<usize>::empty());
    let mut roots: Vec<usize> = Vec::new();
    roots.push(root);
    assert(roots@ =~= seq![root]);
    let mark = mark_reachable(nodes, &stop, roots.as_slice());
    let mut j: usize = 0;
    while j < n
        invariant
            j <= n,
            n == nodes@.len(),
            mark@.len() == n,
            roots@ == seq![root],
            forall|q: int| 0 <= q < n ==> mark@[q] == reached(nodes@, Set::empty(), seq![root], q),
            forall|q: int| 0 <= q < j ==> !(reached(nodes@, Set::empty(), seq![root], q) && #[trigger] uses_poseidon_helper(nodes@[q])),
        decreases n - j,
    {
        if mark[j] {
            let helper = match &nodes[j] {
                Node::ByteReverse(_) | Node::Truncate128Reverse(_) | Node::Truncate128(_)
                | Node::AppendU64Transform(_) => true,
                Node::TranscriptHash(h, _, _) => match h {
                    crate::mle_ast::TranscriptHashData::Poseidon(_) => true,
                    _ => false,
                },
                _ => false,
            };
            if helper {
                assert(uses_poseidon_helper(nodes@[j as int]));
                return true;
            }
        }
        j += 1;
    }
    false
}

// ---------------------------------------------------------------------------
// Input names and struct fields
// ---------------------------------------------------------------------------

/// The input names by variable index (a later input with the same index wins).
pub open spec fn input_names(inputs: Seq<Input>) -> Map<u16, Seq<char>>
    decreases inputs.len(),
{
    if inputs.len() == 0 {
        Map::empty()
    } else {
        input_names(inputs.drop_last()).insert(inputs.last().index, inputs.last().name@)
    }
}

/// Builds the variable-name lookup of a bundle's inputs.
pub fn build_var_names(inputs: &Vec<Input>) -> (r: HashMap<u16, String>)
    ensures
        r@.map_values(|s: String| s@) == input_names(inputs@),
{
    let mut m: HashMap<u16, String> = HashMap::new();
    let mut i: usize = 0;
    assert(m@.map_values(|s: String| s@) =~= input_names(inputs@.subrange(0, 0)));
    while i < inputs.len()
        invariant
            i <= inputs@.len(),
            m@.map_values(|s: String| s@) == input_names(inputs@.subrange(0, i as int)),
        decreases inputs@.len() - i,
    {
        let ghost m0 = m@;
        let name = crate::text::copy_string(&inputs[i].name);
        m.insert(inputs[i].index, name);
        proof {
            assert(inputs@.subrange(0, i + 1).drop_last() =~= inputs@.subrange(0, i as int));
            assert(m@.map_values(|s: String| s@) =~= input_names(inputs@.subrange(0, i + 1)));
        }
        i += 1;
    }
    assert(inputs@.subrange(0, inputs@.len() as int) =~= inputs@);
    m
}

/// Struct fields from the inputs: each input's sanitized name with its field
/// (a later input with the same sanitized name wins).
pub open spec fn input_fields(inputs: Seq<Input>) -> Map<Seq<char>, TargetField>
    decreases inputs.len(),
{
    if inputs.len() == 0 {
        Map::empty()
    } else {
        input_fields(inputs.drop_last()).insert(sanitize_spec(inputs.last().name@), inputs.last().target_field)
    }
}

/// Adds the public inputs that constraints compare against, in the native
/// field, where no input of that name exists.
pub open spec fn public_fields(m: Map<Seq<char>, TargetField>, cs: Seq<Constraint>) -> Map<Seq<char>, TargetField>
    decreases cs.len(),
{
    if cs.len() == 0 {
        m
    } else {
        let m1 = public_fields(m, cs.drop_last());
        match cs.last().assertion {
            Assertion::EqualPublicInput { name } => if m1.contains_key(sanitize_spec(name@)) {
                m1
            } else {
                m1.insert(sanitize_spec(name@), TargetField::Fr)
            },
            _ => m1,
        }
    }
}

/// The circuit struct's fields.
pub open spec fn struct_fields(b: &AstBundle) -> Map<Seq<char>, TargetField> {
    public_fields(input_fields(b.inputs@), b.constraints@)
}

/// A sorted field list that stands for the struct's fields.
pub open spec fn fields_ok(q: Seq<(Vec<char>, TargetField)>, b: &AstBundle) -> bool {
    keys_sorted(q) && entries_map(q) == struct_fields(b)
}

/// Collects the struct fields in increasing name order.
fn collect_fields(b: &AstBundle) -> (r: Vec<(Vec<char>, TargetField)>)
    ensures
        fields_ok(r@, b),
{
    let mut v: Vec<(Vec<char>, TargetField)> = Vec::new();
    assert(entries_map(v@) =~= input_fields(b.inputs@.subrange(0, 0)));
    let mut i: usize = 0;
    while i < b.inputs.len()
        invariant
            i <= b.inputs@.len(),
            keys_sorted(v@),
            entries_map(v@) == input_fields(b.inputs@.subrange(0, i as int)),
        decreases b.inputs@.len() - i,
    {
        let sn = sanitize_go_name(b.inputs[i].name.as_str());
        let key = string_chars(sn.as_str());
        put_field(&mut v, key, b.inputs[i].target_field);
        proof {
            assert(b.inputs@.subrange(0, i + 1).drop_last() =~= b.inputs@.subrange(0, i as int));
        }
        i += 1;
    }
    assert(b.inputs@.subrange(0, b.inputs@.len() as int) =~= b.inputs@);
    let ghost m0 = input_fields(b.inputs@);
    assert(public_fields(m0, b.constraints@.subrange(0, 0)) == m0);
    let mut c: usize = 0;
    while c < b.constraints.len()
        invariant
            c <= b.constraints@.len(),
            keys_sorted(v@),
            m0 == input_fields(b.inputs@),
            entries_map(v@) == public_fields(m0, b.constraints@.subrange(0, c as int)),
        decreases b.constraints@.len() - c,
    {
        proof {
            assert(b.constraints@.subrange(0, c + 1).drop_last() =~= b.constraints@.subrange(0, c as int));
        }
        match &b.constraints[c].assertion {
            Assertion::EqualPublicInput { name } => {
                let sn = sanitize_go_name(name.as_str());
                let key = string_chars(sn.as_str());
                put_field_if_absent(&mut v, key, TargetField::Fr);
            },
            _ => {},
        }
        c += 1;
    }
    assert(b.constraints@.subrange(0, b.constraints@.len() as int) =~= b.constraints@);
    v
}

/// The Go type of a struct field.
pub open spec fn go_type(f: TargetField) -> Seq<char> {
    match f {
        TargetField::Fr => "frontend.Variable"@,
        TargetField::Fq => "emulated.Element[emulated.BN254Fp]"@,
    }
}

/// One public field line per entry.
pub open spec fn fields_text(q: Seq<(Vec<char>, TargetField)>) -> Seq<char>
    decreases q.len(),
{
    if q.len() == 0 {
        seq![]
    } else {
        fields_text(q.drop_last()) + "\t"@ + q.last().0@ + " "@ + go_type(q.last().1) + " `gnark:\",public\"`\n"@
    }
}

/// Appends characters.
fn push_chars(out: &mut String, cs: &Vec<char>)
    ensures
        final(out)@ == old(out)@ + cs@,
{
    let mut i: usize = 0;
    while i < cs.len()
        invariant
            i <= cs@.len(),
            out@ == old(out)@ + cs@.subrange(0, i as int),
        decreases cs@.len() - i,
    {
        crate::text::push_char(out, cs[i]);
        i += 1;
        assert(out@ =~= old(out)@ + cs@.subrange(0, i as int));
    }
    assert(cs@.subrange(0, cs@.len() as int) =~= cs@);
}

// ---------------------------------------------------------------------------
// The globally hoisted block
// ---------------------------------------------------------------------------

/// Most binding lines in one generated Go function; longer blocks are split.
pub open spec fn max_binding_lines() -> nat {
    2000
}

/// Number of parts a block of `n` binding lines is split into.
pub open spec fn num_parts(n: nat) -> nat {
    ((n + 1999) / 2000) as nat
}

/// The bindings of part `p`.
pub open spec fn part_of<T>(bs: Seq<T>, p: nat) -> Seq<T> {
    let start = p * 2000;
    let end: int = if (p + 1) * 2000 < bs.len() { ((p + 1) * 2000) as int } else { bs.len() as int };
    bs.subrange(start as int, end as int)
}

/// The empty generator state.
pub open spec fn empty_state() -> GenState {
    GenState { generated: Map::empty(), bindings: seq![], counter: 0, poseidon: false }
}

/// Generation of each of the given nodes in turn.
pub open spec fn gen_all(cfg: GenCfg, st: GenState, ids: Seq<usize>) -> GenState
    decreases ids.len(),
{
    if ids.len() == 0 {
        st
    } else {
        gen_node(cfg, gen_all(cfg, st, ids.drop_last()), ids.last() as int)
    }
}

/// What the generator of the global block reads.
pub open spec fn global_cfg(b: &AstBundle) -> GenCfg {
    GenCfg {
        nodes: b.nodes@,
        hoist: b.global_cse.bindings@.to_set(),
        names: input_names(b.inputs@),
        global: true,
    }
}

/// The global block's generator after generating every globally hoisted node.
pub open spec fn global_state(b: &AstBundle) -> GenState {
    gen_all(global_cfg(b), empty_state(), b.global_cse.bindings@)
}

/// `gcse[k] = <expr>` lines.
pub open spec fn gcse_lines(bs: Seq<(usize, Seq<Frag>)>) -> Seq<char>
    decreases bs.len(),
{
    if bs.len() == 0 {
        seq![]
    } else {
        gcse_lines(bs.drop_last()) + "\tgcse["@ + dec(bs.last().0 as nat) + "] = "@
            + expr_text(bs.last().1, None, false) + "\n"@
    }
}

/// The functions holding the parts of a split global block.
pub open spec fn global_parts_text(name: Seq<char>, bs: Seq<(usize, Seq<Frag>)>, np: nat) -> Seq<char>
    decreases np,
{
    if np == 0 {
        seq![]
    } else {
        global_parts_text(name, bs, (np - 1) as nat) + "func (circuit *"@ + name + ") computeGlobalCsePart"@
            + dec((np - 1) as nat) + "(api frontend.API, gcse []frontend.Variable) {\n"@
            + gcse_lines(part_of(bs, (np - 1) as nat)) + "}\n\n"@
    }
}

/// The calls of the part functions.
pub open spec fn global_calls_text(np: nat) -> Seq<char>
    decreases np,
{
    if np == 0 {
        seq![]
    } else {
        global_calls_text((np - 1) as nat) + "\tcircuit.computeGlobalCsePart"@ + dec((np - 1) as nat) + "(api, gcse)\n"@
    }
}

/// The Go code of the global block over bindings `bs` (`num_global` slots).
pub open spec fn global_text(name: Seq<char>, num_global: nat, bs: Seq<(usize, Seq<Frag>)>) -> Seq<char> {
    let head = "// computeGlobalCse computes "@ + dec(num_global) + " nodes shared across multiple constraints.\n"@
        + "func (circuit *"@ + name + ") computeGlobalCse(api frontend.API) []frontend.Variable {\n"@
        + "\tgcse := make([]frontend.Variable, "@ + dec(num_global) + ")\n"@;
    if bs.len() > max_binding_lines() {
        global_parts_text(name, bs, num_parts(bs.len())) + head + global_calls_text(num_parts(bs.len()))
            + "\treturn gcse\n"@ + "}\n\n"@
    } else {
        head + gcse_lines(bs) + "\treturn gcse\n"@ + "}\n\n"@
    }
}

/// The globally hoisted nodes are distinct arena nodes, none an atom, and
/// none reaching a hash without code generation.
pub open spec fn global_bindings_ok(b: &AstBundle) -> bool {
    &&& b.global_cse.bindings@.no_duplicates()
    &&& forall|k: int| 0 <= k < b.global_cse.bindings@.len() ==> {
        let g = #[trigger] b.global_cse.bindings@[k];
        &&& (g as int) < b.nodes@.len()
        &&& !(b.nodes@[g as int] is Atom)
        &&& hash_free(b.nodes@, g as int)
    }
}

/// Appends `gcse[k] = <expr>` lines.
fn push_gcse_lines(out: &mut String, bs: &[(usize, Vec<ExprFragment>)], Ghost(sb): Ghost<Seq<(usize, Seq<Frag>)>>)
    requires
        sb == bs@.map_values(|b: (usize, Vec<ExprFragment>)| (b.0, frags(b.1@))),
        forall|k: int| 0 <= k < sb.len() ==> cse_free(#[trigger] sb[k].1),
    ensures
        final(out)@ == old(out)@ + gcse_lines(sb),
{
    let mut i: usize = 0;
    assert(sb.subrange(0, 0) =~= Seq::<(usize, Seq<Frag>)>::empty());
    assert(out@ =~= old(out)@ + gcse_lines(sb.subrange(0, 0)));
    while i < bs.len()
        invariant
            i <= bs@.len(),
            sb == bs@.map_values(|b: (usize, Vec<ExprFragment>)| (b.0, frags(b.1@))),
            forall|k: int| 0 <= k < sb.len() ==> cse_free(#[trigger] sb[k].1),
            out@ == old(out)@ + gcse_lines(sb.subrange(0, i as int)),
        decreases bs@.len() - i,
    {
        push_str(out, "\tgcse[");
        push_dec(out, bs[i].0 as u64);
        push_str(out, "] = ");
        proof {
            assert(sb[i as int] == (bs@[i as int].0, frags(bs@[i as int].1@)));
            assert(cse_free(sb[i as int].1));
            assert(!crate::fragments::has_cse_ref(frags(bs@[i as int].1@)));
        }
        let rendered = render_expr(&bs[i].1, None, false);
        push_str(out, rendered.as_str());
        push_str(out, "\n");
        proof {
            assert(sb.subrange(0, i + 1).drop_last() =~= sb.subrange(0, i as int));
            assert(out@ =~= old(out)@ + gcse_lines(sb.subrange(0, i + 1)));
        }
        i += 1;
    }
    assert(sb.subrange(0, sb.len() as int) =~= sb);
}

proof fn lemma_part_maps<T, U>(bs: Seq<T>, f: spec_fn(T) -> U, start: int, end: int)
    requires
        0 <= start <= end <= bs.len(),
    ensures
        bs.subrange(start, end).map_values(f) == bs.map_values(f).subrange(start, end),
{
    assert(bs.subrange(start, end).map_values(f) =~= bs.map_values(f).subrange(start, end));
}

/// Appends the part functions of a split global block.
fn push_global_parts(out: &mut String, bs: &Vec<(usize, Vec<ExprFragment>)>, np: usize, circuit_name: &str,
    Ghost(sb): Ghost<Seq<(usize, Seq<Frag>)>>)
    requires
        old(out)@.len() == 0,
        np == (bs@.len() - 1) / 2000 + 1,
        bs@.len() > 2000,
        np as nat == num_parts(sb.len()),
        bs@.len() == sb.len(),
        sb == bs@.map_values(|b: (usize, Vec<ExprFragment>)| (b.0, frags(b.1@))),
        forall|k: int| 0 <= k < sb.len() ==> cse_free(#[trigger] sb[k].1),
    ensures
        final(out)@ == global_parts_text(circuit_name@, sb, np as nat),
{
        let mut p: usize = 0;
        assert(out@ =~= global_parts_text(circuit_name@, sb, 0));
        while p < np
            invariant
                p <= np,
                np == (bs@.len() - 1) / 2000 + 1,
                bs@.len() > 2000,
                np as nat == num_parts(sb.len()),
                bs@.len() == sb.len(),
                sb == bs@.map_values(|b: (usize, Vec<ExprFragment>)| (b.0, frags(b.1@))),
                forall|k: int| 0 <= k < sb.len() ==> cse_free(#[trigger] sb[k].1),
                out@ == global_parts_text(circuit_name@, sb, p as nat),
            decreases np - p,
        {
            let blen = bs.len();
            assert(p * 2000 < bs@.len()) by (nonlinear_arith)
                requires
                    p < np,
                    np == (bs@.len() - 1) / 2000 + 1,
                    bs@.len() > 2000;
            let start = p * 2000;
            let end = if bs.len() - start > 2000 { start + 2000 } else { bs.len() };
            push_str(out, "func (circuit *");
            push_str(out, circuit_name);
            push_str(out, ") computeGlobalCsePart");
            push_dec(out, p as u64);
            push_str(out, "(api frontend.API, gcse []frontend.Variable) {\n");
            let part = vstd::slice::slice_subrange(bs.as_slice(), start, end);
            proof {
                lemma_part_maps(bs@, |b: (usize, Vec<ExprFragment>)| (b.0, frags(b.1@)), start as int, end as int);
                assert(part_of(sb, p as nat) == sb.subrange(start as int, end as int));
            }
            push_gcse_lines(out, part, Ghost(part_of(sb, p as nat)));
            push_str(out, "}\n\n");
            p += 1;
        }
}

/// Builds the Go code of the globally hoisted block (`computeGlobalCse`,
/// split into part functions past the line limit) and reports whether it
/// uses a `poseidon` helper.
pub fn render_global_cse_functions(b: &AstBundle, var_names: &HashMap<u16, String>, circuit_name: &str) -> (r: (String, bool))
    requires
        global_bindings_ok(b),
        var_names@.map_values(|s: String| s@) == input_names(b.inputs@),
    ensures
        r.0@ == global_text(circuit_name@, b.global_cse.bindings@.len(), global_state(b).bindings),
        r.1 == global_state(b).poseidon,
{
    let gb = &b.global_cse.bindings;
    let num_global = gb.len();
    let mut g = GnarkCodeGen::new_global(b.nodes.as_slice(), var_names, gb.as_slice());
    let ghost cfg = g.cfg();
    assert(cfg == global_cfg(b));
    assert(gb@.subrange(0, 0) =~= Seq::<usize>::empty());
    let mut i: usize = 0;
    proof {
        assert(state_cse_free(g.state()));
        assert(hoisted_done(cfg, g.state().generated) =~= Set::<usize>::empty());
    }
    while i < gb.len()
        invariant
            i <= gb@.len(),
            gb@ == b.global_cse.bindings@,
            global_bindings_ok(b),
            cfg == global_cfg(b),
            g.cfg() == cfg,
            g.wf(),
            g.state() == gen_all(cfg, empty_state(), gb@.subrange(0, i as int)),
            state_cse_free(g.state()),
            global_count_ok(cfg, g.state()),
            forall|k: int| 0 <= k < i ==> g.state().generated.contains_key(#[trigger] gb@[k]),
        decreases gb@.len() - i,
    {
        let id = gb[i];
        let ghost st0 = g.state();
        proof {
            assert((id as int) < b.nodes@.len() && hash_free(b.nodes@, id as int));
            vstd::seq_lib::seq_to_set_is_finite(gb@);
        }
        g.generate_expr(id);
        proof {
            lemma_gen_node_cse_free(cfg, st0, id as int);
            lemma_gen_node_count(cfg, st0, id as int);
            lemma_gen_node_done(cfg, st0, id as int);
            assert(gb@.subrange(0, i + 1).drop_last() =~= gb@.subrange(0, i as int));
            assert forall|k: int| 0 <= k < i + 1 implies g.state().generated.contains_key(#[trigger] gb@[k]) by {
                if k < i {
                    assert(st0.generated.contains_key(gb@[k]));
                }
            }
        }
        i += 1;
    }
    proof {
        assert(gb@.subrange(0, gb@.len() as int) =~= gb@);
        assert(hoisted_done(cfg, g.state().generated) =~= gb@.to_set());
        gb@.unique_seq_to_set();
        assert(g.state().counter == num_global);
    }
    let uses_poseidon = g.uses_poseidon();
    let ghost st = g.state();
    let bs = g.take_bindings();
    let ghost sb = st.bindings;
    assert(forall|k: int| 0 <= k < sb.len() ==> cse_free(#[trigger] sb[k].1));
    let mut out = String::new();
    if bs.len() > 2000 {
        let np = (bs.len() - 1) / 2000 + 1;
        assert(np as nat == num_parts(sb.len())) by (nonlinear_arith)
            requires
                np == (bs@.len() - 1) / 2000 + 1,
                bs@.len() == sb.len(),
                bs@.len() > 2000;
        push_global_parts(&mut out, &bs, np, circuit_name, Ghost(sb));
        push_str(&mut out, "// computeGlobalCse computes ");
        push_dec(&mut out, num_global as u64);
        push_str(&mut out, " nodes shared across multiple constraints.\n");
        push_str(&mut out, "func (circuit *");
        push_str(&mut out, circuit_name);
        push_str(&mut out, ") computeGlobalCse(api frontend.API) []frontend.Variable {\n");
        push_str(&mut out, "\tgcse := make([]frontend.Variable, ");
        push_dec(&mut out, num_global as u64);
        push_str(&mut out, ")\n");
        let ghost before_calls = out@;
        let mut q: usize = 0;
        assert(global_calls_text(0) =~= Seq::<char>::empty());
        while q < np
            invariant
                q <= np,
                out@ == before_calls + global_calls_text(q as nat),
            decreases np - q,
        {
            push_str(&mut out, "\tcircuit.computeGlobalCsePart");
            push_dec(&mut out, q as u64);
            push_str(&mut out, "(api, gcse)\n");
            q += 1;
        }
        push_str(&mut out, "\treturn gcse\n");
        push_str(&mut out, "}\n\n");
    } else {
        push_str(&mut out, "// computeGlobalCse computes ");
        push_dec(&mut out, num_global as u64);
        push_str(&mut out, " nodes shared across multiple constraints.\n");
        push_str(&mut out, "func (circuit *");
        push_str(&mut out, circuit_name);
        push_str(&mut out, ") computeGlobalCse(api frontend.API) []frontend.Variable {\n");
        push_str(&mut out, "\tgcse := make([]frontend.Variable, ");
        push_dec(&mut out, num_global as u64);
        push_str(&mut out, ")\n");
        push_gcse_lines(&mut out, bs.as_slice(), Ghost(sb));
        push_str(&mut out, "\treturn gcse\n");
        push_str(&mut out, "}\n\n");
    }
    assert(out@ =~= global_text(circuit_name@, num_global as nat, sb));
    (out, uses_poseidon)
}

// ---------------------------------------------------------------------------
// Per-constraint expressions
// ---------------------------------------------------------------------------

/// A constraint the generator can handle: the nodes it names exist, none of
/// them reaches a hash without code generation, and a constant root can be
/// evaluated.
pub open spec fn constraint_ready(nodes: Seq<Node>, c: Constraint) -> bool {
    &&& constraint_in(c, nodes.len())
    &&& forall|r: int| 0 <= r < constraint_roots(c).len() ==> hash_free(nodes, #[trigger] constraint_roots(c)[r] as int)
    &&& node_const(nodes, c.root as int) ==> node_evaluable(nodes, c.root as int)
}

/// A bundle the circuit generator handles without failing: a well-formed
/// arena, per-constraint hoisting chosen for every constraint, sound global
/// hoisting choices, and ready constraints.
pub open spec fn bundle_ready(b: &AstBundle) -> bool {
    &&& arena_wf(b.nodes@)
    &&& b.constraint_cse@.len() == b.constraints@.len()
    &&& global_bindings_ok(b)
    &&& forall|c: int| 0 <= c < b.constraints@.len() ==> constraint_ready(b.nodes@, #[trigger] b.constraints@[c])
}

/// What the generator of constraint `idx` reads.
pub open spec fn constraint_cfg(b: &AstBundle, idx: int) -> GenCfg {
    GenCfg {
        nodes: b.nodes@,
        hoist: b.constraint_cse@[idx].bindings@.to_set(),
        names: input_names(b.inputs@),
        global: false,
    }
}

/// A constraint generator's starting state: the globally hoisted nodes are
/// referred to as `gcse[i]`.
pub open spec fn constraint_start(b: &AstBundle) -> GenState {
    GenState { generated: global_refs(b.global_cse.bindings@), bindings: seq![], counter: 0, poseidon: false }
}

/// The expressions of one constraint.
pub struct PcSpec {
    pub expr: Seq<Frag>,
    pub lhs: Option<Seq<Frag>>,
    pub rhs: Option<Seq<Frag>>,
    pub other: Option<Seq<Frag>>,
    pub st: GenState,
}

/// Generation below an operand.
pub open spec fn edge_gen(cfg: GenCfg, st: GenState, e: Edge) -> GenState {
    match e {
        Edge::NodeRef(j) => gen_node(cfg, st, j as int),
        Edge::Atom(_) => st,
    }
}

/// `api.Sub(l, r)`.
pub open spec fn sub_frags(l: Seq<Frag>, r: Seq<Frag>) -> Seq<Frag> {
    seq![lit("api.Sub("@)] + l + seq![lit(", "@)] + r + seq![lit(")"@)]
}

/// The root expression of a constraint. In cross-validation mode a
/// subtraction root is built from its two sides, which are kept too.
pub open spec fn process_main(cfg: GenCfg, st0: GenState, root: usize, crossval: bool) -> PcSpec {
    if crossval && cfg.nodes[root as int] is Sub {
        let l = cfg.nodes[root as int]->Sub_0;
        let r = cfg.nodes[root as int]->Sub_1;
        let s2 = edge_gen(cfg, edge_gen(cfg, st0, l), r);
        let le = edge_frags(cfg, s2.generated, l);
        let re = edge_frags(cfg, s2.generated, r);
        let full = sub_frags(le, re);
        PcSpec { expr: full, lhs: Some(le), rhs: Some(re), other: None, st: GenState { generated: s2.generated.insert(root, full), ..s2 } }
    } else {
        let s = gen_node(cfg, st0, root as int);
        PcSpec { expr: edge_frags(cfg, s.generated, Edge::NodeRef(root)), lhs: None, rhs: None, other: None, st: s }
    }
}

/// The expressions of constraint `idx`: the root, and for an equality with
/// another node that node's expression.
pub open spec fn process_spec(b: &AstBundle, idx: int, crossval: bool) -> PcSpec {
    let cfg = constraint_cfg(b, idx);
    let c = b.constraints@[idx];
    let m = process_main(cfg, constraint_start(b), c.root, crossval);
    match c.assertion {
        Assertion::EqualNode(o) => {
            let s = gen_node(cfg, m.st, o as int);
            PcSpec { other: Some(edge_frags(cfg, s.generated, Edge::NodeRef(o))), st: s, ..m }
        },
        _ => m,
    }
}

/// The assertion of a processed constraint.
enum ConstraintAssertion {
    EqualZero,
    EqualPublicInput { name: String },
    EqualNode { other_expr: Vec<ExprFragment> },
}

/// One constraint, ready for emission.
struct ProcessedConstraint {
    name: String,
    expr: Vec<ExprFragment>,
    bindings: Vec<(usize, Vec<ExprFragment>)>,
    assertion: ConstraintAssertion,
    is_const: bool,
    const_val: Option<[u64; 4]>,
    crossval_lhs: Option<Vec<ExprFragment>>,
    crossval_rhs: Option<Vec<ExprFragment>>,
    uses_poseidon: bool,
}

/// The fragments of an optional expression.
pub open spec fn opt_frags(e: Option<Vec<ExprFragment>>) -> Option<Seq<Frag>> {
    match e {
        Some(v) => Some(frags(v@)),
        None => None,
    }
}

/// The bindings' fragments.
pub open spec fn bind_frags(bs: Seq<(usize, Vec<ExprFragment>)>) -> Seq<(usize, Seq<Frag>)> {
    bs.map_values(|b: (usize, Vec<ExprFragment>)| (b.0, frags(b.1@)))
}

/// A processed constraint agrees with the specification of constraint `idx`.
spec fn pc_matches(pc: ProcessedConstraint, b: &AstBundle, idx: int, crossval: bool) -> bool {
    let c = b.constraints@[idx];
    let ps = process_spec(b, idx, crossval);
    &&& pc.name@ == c.name@
    &&& frags(pc.expr@) == ps.expr
    &&& bind_frags(pc.bindings@) == ps.st.bindings
    &&& opt_frags(pc.crossval_lhs) == ps.lhs
    &&& opt_frags(pc.crossval_rhs) == ps.rhs
    &&& pc.uses_poseidon == ps.st.poseidon
    &&& pc.is_const == node_const(b.nodes@, c.root as int)
    &&& (pc.is_const ==> (pc.const_val is None <==> node_inverts_zero(b.nodes@, c.root as int)))
    &&& (pc.is_const && pc.const_val is Some ==> limbs_val(pc.const_val->0) == node_value(b.nodes@, c.root as int))
    &&& match c.assertion {
        Assertion::EqualZero => pc.assertion is EqualZero,
        Assertion::EqualPublicInput { name } => pc.assertion matches ConstraintAssertion::EqualPublicInput { name: n } && n@ == name@,
        Assertion::EqualNode(_) => pc.assertion matches ConstraintAssertion::EqualNode { other_expr: o } && Some(frags(o@)) == ps.other,
    }
}

proof fn lemma_hash_free_sub(nodes: Seq<Node>, root: int)
    requires
        arena_wf(nodes),
        0 <= root < nodes.len(),
        hash_free(nodes, root),
        nodes[root] is Sub,
    ensures
        nodes[root]->Sub_0 matches Edge::NodeRef(j) ==> hash_free(nodes, j as int),
        nodes[root]->Sub_1 matches Edge::NodeRef(j) ==> hash_free(nodes, j as int),
{
    let es = node_edges(nodes[root]);
    assert(node_ok(nodes[root], root));
    assert(edge_ok(es[0], root));
    assert(edge_ok(es[1], root));
    assert(es.drop_first()[0] == es[1]);
    assert(crate::gnark_codegen::edges_hash_free(nodes, es, root));
    assert(crate::gnark_codegen::edges_hash_free(nodes, es.drop_first(), root));
}

/// Generates the expressions of constraint `idx`.
fn process_constraint(b: &AstBundle, var_names: &HashMap<u16, String>, idx: usize, crossval: bool) -> (pc: ProcessedConstraint)
    requires
        bundle_ready(b),
        idx < b.constraints@.len(),
        var_names@.map_values(|s: String| s@) == input_names(b.inputs@),
    ensures
        pc_matches(pc, b, idx as int, crossval),
{
    let c = &b.constraints[idx];
    proof {
        assert(constraint_ready(b.nodes@, b.constraints@[idx as int]));
        assert(constraint_roots(*c)[0] == c.root);
    }
    let cse: &[usize] = match b.get_cse_bindings(idx) {
        Some(v) => v.as_slice(),
        None => &[],
    };
    let mut cg = GnarkCodeGen::new(b.nodes.as_slice(), var_names, idx, cse, b.global_cse.bindings.as_slice());
    let ghost cfg = cg.cfg();
    assert(cfg == constraint_cfg(b, idx as int));
    let root = c.root;
    let ghost st0 = cg.state();
    let mut sub_sides: Option<(Edge, Edge)> = None;
    if crossval {
        match &b.nodes[root] {
            Node::Sub(l, r) => {
                sub_sides = Some((*l, *r));
            },
            _ => {},
        }
    }
    let (expr, lhs, rhs) = match sub_sides {
        Some((l, r)) => {
            proof {
                lemma_hash_free_sub(b.nodes@, root as int);
            }
            match l {
                Edge::NodeRef(id) => {
                    proof {
                        assert(node_ok(b.nodes@[root as int], root as int));
                        assert(edge_ok(node_edges(b.nodes@[root as int])[0], root as int));
                    }
                    cg.generate_expr(id);
                },
                Edge::Atom(_) => {},
            }
            match r {
                Edge::NodeRef(id) => {
                    proof {
                        assert(node_ok(b.nodes@[root as int], root as int));
                        assert(edge_ok(node_edges(b.nodes@[root as int])[1], root as int));
                    }
                    cg.generate_expr(id);
                },
                Edge::Atom(_) => {},
            }
            let lhs_expr = cg.edge_to_gnark_iterative(l);
            let rhs_expr = cg.edge_to_gnark_iterative(r);
            let mut full: Vec<ExprFragment> = Vec::new();
            crate::gnark_codegen::push_lit(&mut full, "api.Sub(");
            crate::fragments::extend_frags(&mut full, &lhs_expr);
            crate::gnark_codegen::push_lit(&mut full, ", ");
            crate::fragments::extend_frags(&mut full, &rhs_expr);
            crate::gnark_codegen::push_lit(&mut full, ")");
            assert(frags(full@) =~= sub_frags(frags(lhs_expr@), frags(rhs_expr@)));
            let stored = crate::fragments::copy_expr(&full);
            cg.insert_generated(root, stored);
            (full, Some(lhs_expr), Some(rhs_expr))
        },
        None => {
            let e = cg.generate_expr(root);
            (e, None, None)
        },
    };
    assert(frags(expr@) == process_main(cfg, st0, root, crossval).expr);
    assert(cg.state() == process_main(cfg, st0, root, crossval).st);
    let assertion = match &c.assertion {
        Assertion::EqualZero => ConstraintAssertion::EqualZero,
        Assertion::EqualPublicInput { name } => ConstraintAssertion::EqualPublicInput { name: crate::text::copy_string(name) },
        Assertion::EqualNode(o) => {
            proof {
                assert(constraint_roots(*c)[1] == *o);
            }
            let other_expr = cg.generate_expr(*o);
            ConstraintAssertion::EqualNode { other_expr }
        },
    };
    let is_const = crate::constants::is_node_constant_in(b.nodes.as_slice(), root);
    let const_val = if is_const {
        crate::constants::evaluate_constant_node_in(b.nodes.as_slice(), root)
    } else {
        None
    };
    let uses_poseidon = cg.uses_poseidon();
    let bindings = cg.take_bindings();
    ProcessedConstraint {
        name: crate::text::copy_string(&c.name),
        expr,
        bindings,
        assertion,
        is_const,
        const_val,
        crossval_lhs: lhs,
        crossval_rhs: rhs,
        uses_poseidon,
    }
}

// ---------------------------------------------------------------------------
// Per-constraint functions
// ---------------------------------------------------------------------------

/// The constraint compares a constant with zero, which is decided here.
pub open spec fn is_static(b: &AstBundle, idx: int) -> bool {
    node_const(b.nodes@, b.constraints@[idx].root as int) && b.constraints@[idx].assertion is EqualZero
}

/// The constant root of a static constraint is zero (an evaluation that
/// inverts zero counts as a failure).
pub open spec fn static_zero(b: &AstBundle, idx: int) -> bool {
    !node_inverts_zero(b.nodes@, b.constraints@[idx].root as int) && node_value(b.nodes@, b.constraints@[idx].root as int) == 0
}

/// Whether constraint `idx` gets a verification function.
pub open spec fn emitted(b: &AstBundle, idx: int, crossval: bool) -> bool {
    !is_static(b, idx) || crossval
}

/// `verifyConstraintK`.
pub open spec fn func_name(idx: nat) -> Seq<char> {
    "verifyConstraint"@ + dec(idx)
}

/// The extra parameter passing the global block.
pub open spec fn gcse_param(has_global: bool) -> Seq<char> {
    if has_global { ", gcse []frontend.Variable"@ } else { seq![] }
}

/// The extra argument passing the global block.
pub open spec fn gcse_arg(has_global: bool) -> Seq<char> {
    if has_global { ", gcse"@ } else { seq![] }
}

/// `cse_K_N := <expr>` lines.
pub open spec fn named_lines(idx: usize, bs: Seq<(usize, Seq<Frag>)>) -> Seq<char>
    decreases bs.len(),
{
    if bs.len() == 0 {
        seq![]
    } else {
        named_lines(idx, bs.drop_last()) + "\tcse_"@ + dec(idx as nat) + "_"@ + dec(bs.last().0 as nat) + " := "@
            + expr_text(bs.last().1, Some(idx), false) + "\n"@
    }
}

/// `cse[N] = <expr>` lines.
pub open spec fn slice_lines(idx: usize, bs: Seq<(usize, Seq<Frag>)>) -> Seq<char>
    decreases bs.len(),
{
    if bs.len() == 0 {
        seq![]
    } else {
        slice_lines(idx, bs.drop_last()) + "\tcse["@ + dec(bs.last().0 as nat) + "] = "@
            + expr_text(bs.last().1, Some(idx), true) + "\n"@
    }
}

/// The part functions of a constraint whose bindings are split.
pub open spec fn binding_parts_text(name: Seq<char>, idx: usize, bs: Seq<(usize, Seq<Frag>)>, gp: Seq<char>, np: nat) -> Seq<char>
    decreases np,
{
    if np == 0 {
        seq![]
    } else {
        binding_parts_text(name, idx, bs, gp, (np - 1) as nat) + binding_part_text(name, idx, part_of(bs, (np - 1) as nat), gp, (np - 1) as nat)
    }
}

/// Binding part function `p` of a split constraint over bindings `sp`.
pub open spec fn binding_part_text(name: Seq<char>, idx: usize, sp: Seq<(usize, Seq<Frag>)>, gp: Seq<char>, p: nat) -> Seq<char> {
    "func (circuit *"@ + name + ") "@ + func_name(idx as nat) + "Bindings"@ + dec(p) + "(api frontend.API, cse []frontend.Variable"@
        + gp + ") {\n"@ + part_comment(idx, p) + slice_lines(idx, sp) + "}\n\n"@
}

/// The comment opening the first binding part.
pub open spec fn part_comment(idx: usize, p: nat) -> Seq<char> {
    if p == 0 { "\t// CSE bindings for constraint "@ + dec(idx as nat) + "\n"@ } else { seq![] }
}

/// The calls of a constraint's binding parts.
pub open spec fn binding_calls_text(idx: usize, ga: Seq<char>, np: nat) -> Seq<char>
    decreases np,
{
    if np == 0 {
        seq![]
    } else {
        binding_calls_text(idx, ga, (np - 1) as nat) + "\tcircuit."@ + func_name(idx as nat) + "Bindings"@
            + dec((np - 1) as nat) + "(api, cse"@ + ga + ")\n"@
    }
}

/// The cross-validation print lines.
pub open spec fn crossval_lines(idx: usize, ps: PcSpec, var: Seq<char>, slice: bool, crossval: bool) -> Seq<char> {
    if !crossval {
        seq![]
    } else if ps.lhs is Some && ps.rhs is Some {
        "\tcrossval_lhs_"@ + dec(idx as nat) + " := "@ + expr_text(ps.lhs->0, Some(idx), slice) + "\n"@
            + "\tcrossval_rhs_"@ + dec(idx as nat) + " := "@ + expr_text(ps.rhs->0, Some(idx), slice) + "\n"@
            + "\tapi.Println(\"a"@ + dec(idx as nat) + "_lhs\", crossval_lhs_"@ + dec(idx as nat) + ")\n"@
            + "\tapi.Println(\"a"@ + dec(idx as nat) + "_rhs\", crossval_rhs_"@ + dec(idx as nat) + ")\n"@
    } else {
        "\tapi.Println(\"a"@ + dec(idx as nat) + "_total\", "@ + var + ")\n"@
    }
}

/// The assertion line of a constraint.
pub open spec fn assert_line(idx: usize, c: Constraint, ps: PcSpec, var: Seq<char>, slice: bool) -> Seq<char> {
    match c.assertion {
        Assertion::EqualZero => "\tapi.AssertIsEqual("@ + var + ", 0)\n"@,
        Assertion::EqualPublicInput { name } => "\tapi.AssertIsEqual("@ + var + ", circuit."@ + sanitize_spec(name@) + ")\n"@,
        Assertion::EqualNode(_) => "\tapi.AssertIsEqual("@ + var + ", "@ + expr_text(ps.other->0, Some(idx), slice) + ")\n"@,
    }
}

/// The header of a constraint's verification function.
pub open spec fn decl_text(name: Seq<char>, idx: usize, cname: Seq<char>, has_global: bool) -> Seq<char> {
    "// "@ + func_name(idx as nat) + " verifies: "@ + cname + "\n"@ + "func (circuit *"@ + name + ") "@ + func_name(idx as nat)
        + "(api frontend.API"@ + gcse_param(has_global) + ") {\n"@
}

/// The bindings and the root line of a constraint's verification function
/// whose bindings are split into parts.
pub open spec fn split_body_text(name: Seq<char>, idx: usize, cname: Seq<char>, ps: PcSpec, has_global: bool) -> Seq<char> {
    let bs = ps.st.bindings;
    binding_parts_text(name, idx, bs, gcse_param(has_global), num_parts(bs.len())) + decl_text(name, idx, cname, has_global)
        + "\tcse := make([]frontend.Variable, "@ + dec(bs.len()) + ")\n"@
        + binding_calls_text(idx, gcse_arg(has_global), num_parts(bs.len()))
        + "\t"@ + sanitize_spec(cname) + " := "@ + expr_text(ps.expr, Some(idx), true) + "\n"@
}

/// The bindings and the root line of a constraint's verification function.
pub open spec fn plain_body_text(name: Seq<char>, idx: usize, cname: Seq<char>, ps: PcSpec, has_global: bool) -> Seq<char> {
    decl_text(name, idx, cname, has_global) + cse_block(idx, ps.st.bindings)
        + "\t"@ + sanitize_spec(cname) + " := "@ + expr_text(ps.expr, Some(idx), false) + "\n"@
}

/// The named bindings of an unsplit constraint function, if any.
pub open spec fn cse_block(idx: usize, bs: Seq<(usize, Seq<Frag>)>) -> Seq<char> {
    if bs.len() > 0 { "\t// CSE bindings for constraint "@ + dec(idx as nat) + "\n"@ + named_lines(idx, bs) } else { seq![] }
}

/// The verification function of constraint `idx` (split into binding parts
/// past the line limit, where references become slice indexes).
pub open spec fn function_text(name: Seq<char>, idx: usize, c: Constraint, ps: PcSpec, has_global: bool, crossval: bool) -> Seq<char> {
    let slice = ps.st.bindings.len() > max_binding_lines();
    let var = sanitize_spec(c.name@);
    body_text(name, idx, c.name@, ps, has_global) + crossval_lines(idx, ps, var, slice, crossval)
        + assert_line(idx, c, ps, var, slice) + "}\n\n"@
}

/// The bindings and root line of a constraint's verification function.
pub open spec fn body_text(name: Seq<char>, idx: usize, cname: Seq<char>, ps: PcSpec, has_global: bool) -> Seq<char> {
    if ps.st.bindings.len() > max_binding_lines() {
        split_body_text(name, idx, cname, ps, has_global)
    } else {
        plain_body_text(name, idx, cname, ps, has_global)
    }
}

/// The Go code of constraint `idx`: a note for a statically decided
/// constraint, and its verification function where one is emitted.
pub open spec fn section_text(b: &AstBundle, name: Seq<char>, idx: int, crossval: bool, has_global: bool) -> Seq<char> {
    let c = b.constraints@[idx];
    if emitted(b, idx, crossval) {
        static_note(b, idx) + function_text(name, idx as usize, c, process_spec(b, idx, crossval), has_global, crossval)
    } else {
        static_note(b, idx)
    }
}

/// The comment on a statically decided constraint.
pub open spec fn static_note(b: &AstBundle, idx: int) -> Seq<char> {
    if is_static(b, idx) {
        if static_zero(b, idx) {
            "// "@ + b.constraints@[idx].name@ + " = 0 (statically verified, skipped)\n\n"@
        } else {
            "// "@ + b.constraints@[idx].name@ + " STATIC FAILURE: constant != 0\n"@
        }
    } else {
        seq![]
    }
}

/// The code of the first `n` constraints.
pub open spec fn sections_text(b: &AstBundle, name: Seq<char>, crossval: bool, has_global: bool, n: nat) -> Seq<char>
    decreases n,
{
    if n == 0 {
        seq![]
    } else {
        sections_text(b, name, crossval, has_global, (n - 1) as nat) + section_text(b, name, n - 1, crossval, has_global)
    }
}

/// The calls in `Define` of the first `n` constraints' functions.
pub open spec fn define_calls(b: &AstBundle, crossval: bool, has_global: bool, n: nat) -> Seq<char>
    decreases n,
{
    if n == 0 {
        seq![]
    } else {
        define_calls(b, crossval, has_global, (n - 1) as nat) + if emitted(b, n - 1, crossval) {
            "\tcircuit."@ + func_name((n - 1) as nat) + if has_global { "(api, gcse)\n"@ } else { "(api)\n"@ }
        } else {
            seq![]
        }
    }
}

/// The number of the first `n` constraints that are statically zero.
pub open spec fn skipped_count(b: &AstBundle, n: nat) -> nat
    decreases n,
{
    if n == 0 {
        0
    } else {
        skipped_count(b, (n - 1) as nat) + if is_static(b, n - 1) && static_zero(b, n - 1) { 1nat } else { 0nat }
    }
}

/// The names of the first `n` constraints that are statically nonzero.
pub open spec fn failed_names(b: &AstBundle, n: nat) -> Seq<Seq<char>>
    decreases n,
{
    if n == 0 {
        seq![]
    } else {
        failed_names(b, (n - 1) as nat) + if is_static(b, n - 1) && !static_zero(b, n - 1) {
            seq![b.constraints@[n - 1].name@]
        } else {
            seq![]
        }
    }
}

/// Whether the circuit uses the `poseidon` package: some globally hoisted
/// node reaches a helper, or some constraint's or the global block's code
/// calls one.
pub open spec fn circuit_uses_poseidon(b: &AstBundle, crossval: bool) -> bool {
    ||| exists|k: int| 0 <= k < b.global_cse.bindings@.len() && requires_poseidon(b.nodes@, #[trigger] b.global_cse.bindings@[k])
    ||| exists|c: int| 0 <= c < b.constraints@.len() && (#[trigger] process_spec(b, c, crossval)).st.poseidon
    ||| (b.global_cse.bindings@.len() > 0 && global_state(b).poseidon)
}

/// The package clause, the imports and the `bigInt` helper.
pub open spec fn header_text(crossval: bool, poseidon: bool) -> Seq<char> {
    (if crossval { "package crossval\n\n"@ } else { "package jolt_verifier\n\n"@ }) + "import (\n"@ + "\t\"math/big\"\n"@
        + "\n"@ + "\t\"github.com/consensys/gnark/frontend\"\n"@
        + (if poseidon { "\t\"jolt_verifier/poseidon\"\n"@ } else { seq![] }) + ")\n\n"@
        + "// bigInt creates a *big.Int from a string, for constants too large for int64\n"@
        + "func bigInt(s string) *big.Int {\n"@ + "\tn, ok := new(big.Int).SetString(s, 10)\n"@ + "\tif !ok {\n"@
        + "\t\tpanic(\"invalid bigInt: \" + s)\n"@ + "\t}\n"@ + "\treturn n\n"@ + "}\n\n"@
}

/// The whole circuit file, with the struct fields listed as `fields`.
pub open spec fn circuit_text(b: &AstBundle, circuit_name: Seq<char>, crossval: bool, fields: Seq<(Vec<char>, TargetField)>) -> Seq<char> {
    let name = sanitize_spec(circuit_name);
    let has_global = b.global_cse.bindings@.len() > 0;
    let n = b.constraints@.len();
    header_text(crossval, circuit_uses_poseidon(b, crossval)) + "type "@ + name + " struct {\n"@ + fields_text(fields) + "}\n\n"@
        + (if has_global { global_text(name, b.global_cse.bindings@.len(), global_state(b).bindings) } else { seq![] })
        + sections_text(b, name, crossval, has_global, n)
        + "func (circuit *"@ + name + ") Define(api frontend.API) error {\n"@
        + (if has_global { "\tgcse := circuit.computeGlobalCse(api)\n"@ } else { seq![] })
        + define_calls(b, crossval, has_global, n) + "\treturn nil\n"@ + "}\n"@
}

proof fn lemma_fields_text_same(a: Seq<(Vec<char>, TargetField)>, b: Seq<(Vec<char>, TargetField)>)
    requires
        a.len() == b.len(),
        forall|i: int| 0 <= i < a.len() ==> (#[trigger] a[i]).0@ == b[i].0@ && a[i].1 == b[i].1,
    ensures
        fields_text(a) == fields_text(b),
    decreases a.len(),
{
    if a.len() > 0 {
        assert forall|i: int| 0 <= i < a.drop_last().len() implies (#[trigger] a.drop_last()[i]).0@ == b.drop_last()[i].0@
            && a.drop_last()[i].1 == b.drop_last()[i].1 by {
            assert(a.drop_last()[i] == a[i] && b.drop_last()[i] == b[i]);
        }
        lemma_fields_text_same(a.drop_last(), b.drop_last());
        assert(a.last() == a[a.len() - 1]);
    }
}

/// The circuit text is determined by the bundle, the circuit name and the
/// mode: every sorted field list that stands for the struct's fields gives
/// the same text.
pub proof fn law_circuit_text_determined(b: &AstBundle, circuit_name: Seq<char>, crossval: bool,
    q1: Seq<(Vec<char>, TargetField)>, q2: Seq<(Vec<char>, TargetField)>)
    requires
        fields_ok(q1, b),
        fields_ok(q2, b),
    ensures
        circuit_text(b, circuit_name, crossval, q1) == circuit_text(b, circuit_name, crossval, q2),
{
    lemma_entries_unique(q1, q2);
    lemma_fields_text_same(q1, q2);
}

/// Appends `verifyConstraintK`.
fn push_func_name(out: &mut String, idx: usize)
    ensures
        final(out)@ == old(out)@ + func_name(idx as nat),
{
    push_str(out, "verifyConstraint");
    push_dec(out, idx as u64);
    assert(final(out)@ =~= old(out)@ + func_name(idx as nat));
}

/// The extra parameter passing the global block.
fn gcse_param_string(has_global: bool) -> (r: String)
    ensures
        r@ == gcse_param(has_global),
{
    if has_global {
        text_of(", gcse []frontend.Variable")
    } else {
        String::new()
    }
}

/// The extra argument passing the global block.
fn gcse_arg_string(has_global: bool) -> (r: String)
    ensures
        r@ == gcse_arg(has_global),
{
    if has_global {
        text_of(", gcse")
    } else {
        String::new()
    }
}

/// `cse_K_N := <expr>` lines.
fn named_lines_string(idx: usize, bs: &[(usize, Vec<ExprFragment>)], Ghost(sb): Ghost<Seq<(usize, Seq<Frag>)>>) -> (r: String)
    requires
        sb == bind_frags(bs@),
    ensures
        r@ == named_lines(idx, sb),
{
    let mut s = String::new();
    let mut i: usize = 0;
    while i < bs.len()
        invariant
            i <= bs@.len(),
            sb == bind_frags(bs@),
            s@ == named_lines(idx, sb.subrange(0, i as int)),
        decreases bs@.len() - i,
    {
        let rendered = render_expr(&bs[i].1, Some(idx), false);
        push_str(&mut s, "\tcse_");
        push_dec(&mut s, idx as u64);
        push_str(&mut s, "_");
        push_dec(&mut s, bs[i].0 as u64);
        push_str(&mut s, " := ");
        push_str(&mut s, rendered.as_str());
        push_str(&mut s, "\n");
        proof {
            assert(sb[i as int] == (bs@[i as int].0, frags(bs@[i as int].1@)));
            assert(sb.subrange(0, i + 1).drop_last() =~= sb.subrange(0, i as int));
        }
        i += 1;
    }
    assert(sb.subrange(0, sb.len() as int) =~= sb);
    s
}

/// `cse[N] = <expr>` lines.
fn slice_lines_string(idx: usize, bs: &[(usize, Vec<ExprFragment>)], Ghost(sb): Ghost<Seq<(usize, Seq<Frag>)>>) -> (r: String)
    requires
        sb == bind_frags(bs@),
    ensures
        r@ == slice_lines(idx, sb),
{
    let mut s = String::new();
    let mut i: usize = 0;
    while i < bs.len()
        invariant
            i <= bs@.len(),
            sb == bind_frags(bs@),
            s@ == slice_lines(idx, sb.subrange(0, i as int)),
        decreases bs@.len() - i,
    {
        let rendered = render_expr(&bs[i].1, Some(idx), true);
        push_str(&mut s, "\tcse[");
        push_dec(&mut s, bs[i].0 as u64);
        push_str(&mut s, "] = ");
        push_str(&mut s, rendered.as_str());
        push_str(&mut s, "\n");
        proof {
            assert(sb[i as int] == (bs@[i as int].0, frags(bs@[i as int].1@)));
            assert(sb.subrange(0, i + 1).drop_last() =~= sb.subrange(0, i as int));
        }
        i += 1;
    }
    assert(sb.subrange(0, sb.len() as int) =~= sb);
    s
}

/// The comment opening the first binding part.
fn part_comment_string(idx: usize, p: usize) -> (r: String)
    ensures
        r@ == part_comment(idx, p as nat),
{
    if p == 0 {
        let mut s = text_of("\t// CSE bindings for constraint ");
        push_dec(&mut s, idx as u64);
        push_str(&mut s, "\n");
        s
    } else {
        String::new()
    }
}

proof fn lemma_bind_frags_part(bs: Seq<(usize, Vec<ExprFragment>)>, start: int, end: int)
    requires
        0 <= start <= end <= bs.len(),
    ensures
        bind_frags(bs.subrange(start, end)) == bind_frags(bs).subrange(start, end),
{
    assert(bind_frags(bs.subrange(start, end)) =~= bind_frags(bs).subrange(start, end));
}

/// One binding part function of a split constraint.
fn binding_part_string(name: &str, idx: usize, part: &[(usize, Vec<ExprFragment>)], p: usize, has_global: bool,
    Ghost(sp): Ghost<Seq<(usize, Seq<Frag>)>>) -> (r: String)
    requires
        sp == bind_frags(part@),
    ensures
        r@ == binding_part_text(name@, idx, sp, gcse_param(has_global), p as nat),
{
    let gp = gcse_param_string(has_global);
    let pcm = part_comment_string(idx, p);
    let lines = slice_lines_string(idx, part, Ghost(sp));
    let mut s = text_of("func (circuit *");
    push_str(&mut s, name);
    push_str(&mut s, ") ");
    push_func_name(&mut s, idx);
    push_str(&mut s, "Bindings");
    push_dec(&mut s, p as u64);
    push_str(&mut s, "(api frontend.API, cse []frontend.Variable");
    push_str(&mut s, gp.as_str());
    push_str(&mut s, ") {\n");
    push_str(&mut s, pcm.as_str());
    push_str(&mut s, lines.as_str());
    push_str(&mut s, "}\n\n");
    s
}

/// The binding part functions of a split constraint.
fn binding_parts_string(name: &str, idx: usize, bs: &Vec<(usize, Vec<ExprFragment>)>, np: usize, has_global: bool,
    Ghost(sb): Ghost<Seq<(usize, Seq<Frag>)>>) -> (r: String)
    requires
        np == (bs@.len() - 1) / 2000 + 1,
        bs@.len() > 2000,
        sb == bind_frags(bs@),
    ensures
        r@ == binding_parts_text(name@, idx, sb, gcse_param(has_global), np as nat),
{
    let mut s = String::new();
    let mut p: usize = 0;
    while p < np
        invariant
            p <= np,
            np == (bs@.len() - 1) / 2000 + 1,
            bs@.len() > 2000,
            sb == bind_frags(bs@),
            s@ == binding_parts_text(name@, idx, sb, gcse_param(has_global), p as nat),
        decreases np - p,
    {
        let blen = bs.len();
        assert(p * 2000 < bs@.len()) by (nonlinear_arith)
            requires
                p < np,
                np == (bs@.len() - 1) / 2000 + 1,
                bs@.len() > 2000;
        let start = p * 2000;
        let end = if bs.len() - start > 2000 { start + 2000 } else { bs.len() };
        let part = vstd::slice::slice_subrange(bs.as_slice(), start, end);
        proof {
            lemma_bind_frags_part(bs@, start as int, end as int);
            assert(part_of(sb, p as nat) == sb.subrange(start as int, end as int));
        }
        let t = binding_part_string(name, idx, part, p, has_global, Ghost(part_of(sb, p as nat)));
        push_str(&mut s, t.as_str());
        p += 1;
    }
    s
}

/// The calls of a constraint's binding parts.
fn binding_calls_string(idx: usize, np: usize, has_global: bool) -> (r: String)
    ensures
        r@ == binding_calls_text(idx, gcse_arg(has_global), np as nat),
{
    let ga = gcse_arg_string(has_global);
    let mut s = String::new();
    let mut q: usize = 0;
    while q < np
        invariant
            q <= np,
            ga@ == gcse_arg(has_global),
            s@ == binding_calls_text(idx, gcse_arg(has_global), q as nat),
        decreases np - q,
    {
        push_str(&mut s, "\tcircuit.");
        push_func_name(&mut s, idx);
        push_str(&mut s, "Bindings");
        push_dec(&mut s, q as u64);
        push_str(&mut s, "(api, cse");
        push_str(&mut s, ga.as_str());
        push_str(&mut s, ")\n");
        q += 1;
    }
    s
}

/// The header of a constraint's verification function.
fn decl_string(name: &str, idx: usize, cname: &str, has_global: bool) -> (r: String)
    ensures
        r@ == decl_text(name@, idx, cname@, has_global),
{
    let gp = gcse_param_string(has_global);
    let mut s = text_of("// ");
    push_func_name(&mut s, idx);
    push_str(&mut s, " verifies: ");
    push_str(&mut s, cname);
    push_str(&mut s, "\n");
    push_str(&mut s, "func (circuit *");
    push_str(&mut s, name);
    push_str(&mut s, ") ");
    push_func_name(&mut s, idx);
    push_str(&mut s, "(api frontend.API");
    push_str(&mut s, gp.as_str());
    push_str(&mut s, ") {\n");
    s
}

/// The named bindings of an unsplit constraint function, if any.
fn cse_block_string(idx: usize, bs: &Vec<(usize, Vec<ExprFragment>)>, Ghost(sb): Ghost<Seq<(usize, Seq<Frag>)>>) -> (r: String)
    requires
        sb == bind_frags(bs@),
    ensures
        r@ == cse_block(idx, sb),
{
    if bs.len() > 0 {
        let lines = named_lines_string(idx, bs.as_slice(), Ghost(sb));
        let mut s = text_of("\t// CSE bindings for constraint ");
        push_dec(&mut s, idx as u64);
        push_str(&mut s, "\n");
        push_str(&mut s, lines.as_str());
        s
    } else {
        String::new()
    }
}

/// The bindings and root line of a constraint's verification function.
fn body_string(name: &str, idx: usize, pc: &ProcessedConstraint, has_global: bool, var: &str, Ghost(ps): Ghost<PcSpec>) -> (r: String)
    requires
        var@ == sanitize_spec(pc.name@),
        frags(pc.expr@) == ps.expr,
        bind_frags(pc.bindings@) == ps.st.bindings,
    ensures
        r@ == body_text(name@, idx, pc.name@, ps, has_global),
{
    let ghost sb = ps.st.bindings;
    let nb = pc.bindings.len();
    let decl = decl_string(name, idx, pc.name.as_str(), has_global);
    if nb > 2000 {
        let np = (nb - 1) / 2000 + 1;
        assert(np as nat == num_parts(sb.len())) by (nonlinear_arith)
            requires
                np == (nb - 1) / 2000 + 1,
                nb == sb.len(),
                nb > 2000;
        let parts = binding_parts_string(name, idx, &pc.bindings, np, has_global, Ghost(sb));
        let calls = binding_calls_string(idx, np, has_global);
        let root = render_expr(&pc.expr, Some(idx), true);
        let mut s = parts;
        push_str(&mut s, decl.as_str());
        push_str(&mut s, "\tcse := make([]frontend.Variable, ");
        push_dec(&mut s, nb as u64);
        push_str(&mut s, ")\n");
        push_str(&mut s, calls.as_str());
        push_str(&mut s, "\t");
        push_str(&mut s, var);
        push_str(&mut s, " := ");
        push_str(&mut s, root.as_str());
        push_str(&mut s, "\n");
        s
    } else {
        let block = cse_block_string(idx, &pc.bindings, Ghost(sb));
        let root = render_expr(&pc.expr, Some(idx), false);
        let mut s = decl;
        push_str(&mut s, block.as_str());
        push_str(&mut s, "\t");
        push_str(&mut s, var);
        push_str(&mut s, " := ");
        push_str(&mut s, root.as_str());
        push_str(&mut s, "\n");
        s
    }
}

/// The cross-validation print lines.
fn crossval_string(idx: usize, pc: &ProcessedConstraint, var: &str, slice: bool, crossval: bool, Ghost(ps): Ghost<PcSpec>) -> (r: String)
    requires
        opt_frags(pc.crossval_lhs) == ps.lhs,
        opt_frags(pc.crossval_rhs) == ps.rhs,
    ensures
        r@ == crossval_lines(idx, ps, var@, slice, crossval),
{
    if !crossval {
        return String::new();
    }
    if pc.crossval_lhs.is_some() && pc.crossval_rhs.is_some() {
        let lhs = pc.crossval_lhs.as_ref().unwrap();
        let rhs = pc.crossval_rhs.as_ref().unwrap();
        let l = render_expr(lhs, Some(idx), slice);
        let r = render_expr(rhs, Some(idx), slice);
        let mut s = text_of("\tcrossval_lhs_");
        push_dec(&mut s, idx as u64);
        push_str(&mut s, " := ");
        push_str(&mut s, l.as_str());
        push_str(&mut s, "\n");
        push_str(&mut s, "\tcrossval_rhs_");
        push_dec(&mut s, idx as u64);
        push_str(&mut s, " := ");
        push_str(&mut s, r.as_str());
        push_str(&mut s, "\n");
        push_str(&mut s, "\tapi.Println(\"a");
        push_dec(&mut s, idx as u64);
        push_str(&mut s, "_lhs\", crossval_lhs_");
        push_dec(&mut s, idx as u64);
        push_str(&mut s, ")\n");
        push_str(&mut s, "\tapi.Println(\"a");
        push_dec(&mut s, idx as u64);
        push_str(&mut s, "_rhs\", crossval_rhs_");
        push_dec(&mut s, idx as u64);
        push_str(&mut s, ")\n");
        s
    } else {
        let mut s = text_of("\tapi.Println(\"a");
        push_dec(&mut s, idx as u64);
        push_str(&mut s, "_total\", ");
        push_str(&mut s, var);
        push_str(&mut s, ")\n");
        s
    }
}

/// The assertion line.
fn assert_string(idx: usize, pc: &ProcessedConstraint, var: &str, slice: bool, Ghost(c): Ghost<Constraint>, Ghost(ps): Ghost<PcSpec>) -> (r: String)
    requires
        match c.assertion {
            Assertion::EqualZero => pc.assertion is EqualZero,
            Assertion::EqualPublicInput { name } => pc.assertion matches ConstraintAssertion::EqualPublicInput { name: n } && n@ == name@,
            Assertion::EqualNode(_) => pc.assertion matches ConstraintAssertion::EqualNode { other_expr: o } && Some(frags(o@)) == ps.other,
        },
    ensures
        r@ == assert_line(idx, c, ps, var@, slice),
{
    let mut s = text_of("\tapi.AssertIsEqual(");
    push_str(&mut s, var);
    match &pc.assertion {
        ConstraintAssertion::EqualZero => {
            push_str(&mut s, ", 0)\n");
        },
        ConstraintAssertion::EqualPublicInput { name } => {
            let sn = sanitize_go_name(name.as_str());
            push_str(&mut s, ", circuit.");
            push_str(&mut s, sn.as_str());
            push_str(&mut s, ")\n");
        },
        ConstraintAssertion::EqualNode { other_expr } => {
            let r = render_expr(other_expr, Some(idx), slice);
            push_str(&mut s, ", ");
            push_str(&mut s, r.as_str());
            push_str(&mut s, ")\n");
        },
    }
    s
}

/// The verification function of a processed constraint.
fn function_string(name: &str, idx: usize, pc: &ProcessedConstraint, has_global: bool, crossval: bool,
    Ghost(c): Ghost<Constraint>, Ghost(ps): Ghost<PcSpec>) -> (r: String)
    requires
        pc.name@ == c.name@,
        frags(pc.expr@) == ps.expr,
        bind_frags(pc.bindings@) == ps.st.bindings,
        opt_frags(pc.crossval_lhs) == ps.lhs,
        opt_frags(pc.crossval_rhs) == ps.rhs,
        match c.assertion {
            Assertion::EqualZero => pc.assertion is EqualZero,
            Assertion::EqualPublicInput { name } => pc.assertion matches ConstraintAssertion::EqualPublicInput { name: n } && n@ == name@,
            Assertion::EqualNode(_) => pc.assertion matches ConstraintAssertion::EqualNode { other_expr: o } && Some(frags(o@)) == ps.other,
        },
    ensures
        r@ == function_text(name@, idx, c, ps, has_global, crossval),
{
    let nb = pc.bindings.len();
    let var = sanitize_go_name(pc.name.as_str());
    let slice = nb > 2000;
    assert(nb == ps.st.bindings.len());
    let body = body_string(name, idx, pc, has_global, var.as_str(), Ghost(ps));
    let cv = crossval_string(idx, pc, var.as_str(), slice, crossval, Ghost(ps));
    let al = assert_string(idx, pc, var.as_str(), slice, Ghost(c), Ghost(ps));
    let mut s = body;
    push_str(&mut s, cv.as_str());
    push_str(&mut s, al.as_str());
    push_str(&mut s, "}\n\n");
    s
}

proof fn lemma_limbs_zero(l: [u64; 4])
    ensures
        (limbs_val(l) == 0) == (l[0] == 0 && l[1] == 0 && l[2] == 0 && l[3] == 0),
{
}

/// The code of constraint `idx`, whether its function is emitted, and
/// whether it was statically decided to be zero or nonzero.
fn section_string(name: &str, idx: usize, pc: &ProcessedConstraint, has_global: bool, crossval: bool,
    Ghost(b): Ghost<&AstBundle>) -> (r: (String, bool, bool, bool))
    requires
        idx < b.constraints@.len(),
        pc_matches(*pc, b, idx as int, crossval),
    ensures
        r.0@ == section_text(b, name@, idx as int, crossval, has_global),
        r.1 == emitted(b, idx as int, crossval),
        r.2 == (is_static(b, idx as int) && static_zero(b, idx as int)),
        r.3 == (is_static(b, idx as int) && !static_zero(b, idx as int)),
{
    let ghost c = b.constraints@[idx as int];
    let ghost ps = process_spec(b, idx as int, crossval);
    let statik = pc.is_const && match pc.assertion {
        ConstraintAssertion::EqualZero => true,
        _ => false,
    };
    assert(statik == is_static(b, idx as int));
    let mut zero = false;
    let mut failed = false;
    let mut s = String::new();
    if statik {
        let (val, ok) = match pc.const_val {
            Some(v) => (v, true),
            None => ([1u64, 0u64, 0u64, 0u64], false),
        };
        proof {
            lemma_limbs_zero(val);
        }
        if ok && val[0] == 0 && val[1] == 0 && val[2] == 0 && val[3] == 0 {
            s = text_of("// ");
            push_str(&mut s, pc.name.as_str());
            push_str(&mut s, " = 0 (statically verified, skipped)\n\n");
            zero = true;
        } else {
            s = text_of("// ");
            push_str(&mut s, pc.name.as_str());
            push_str(&mut s, " STATIC FAILURE: constant != 0\n");
            failed = true;
        }
    }
    assert(s@ == static_note(b, idx as int));
    let emit = !statik || crossval;
    if emit {
        let f = function_string(name, idx, pc, has_global, crossval, Ghost(c), Ghost(ps));
        push_str(&mut s, f.as_str());
    }
    (s, emit, zero, failed)
}

// ---------------------------------------------------------------------------
// The circuit file
// ---------------------------------------------------------------------------

/// Statistics about constraints decided statically.
pub struct ConstantAssertionStats {
    /// Number of constraints processed.
    pub total_constraints: usize,
    /// Constant constraints that equal zero (skipped).
    pub constant_skipped: usize,
    /// Constant constraints that do not equal zero.
    pub constant_failed: usize,
    /// Names of the constraints that failed statically.
    pub failed_names: Vec<String>,
    /// Whether the circuit uses the `poseidon` package.
    pub uses_poseidon: bool,
}

/// The struct field lines.
fn fields_string(q: &Vec<(Vec<char>, TargetField)>) -> (r: String)
    ensures
        r@ == fields_text(q@),
{
    let mut s = String::new();
    let mut i: usize = 0;
    while i < q.len()
        invariant
            i <= q@.len(),
            s@ == fields_text(q@.subrange(0, i as int)),
        decreases q@.len() - i,
    {
        push_str(&mut s, "\t");
        push_chars(&mut s, &q[i].0);
        push_str(&mut s, " ");
        match q[i].1 {
            TargetField::Fr => push_str(&mut s, "frontend.Variable"),
            TargetField::Fq => push_str(&mut s, "emulated.Element[emulated.BN254Fp]"),
        }
        push_str(&mut s, " `gnark:\",public\"`\n");
        proof {
            assert(q@.subrange(0, i + 1).drop_last() =~= q@.subrange(0, i as int));
        }
        i += 1;
    }
    assert(q@.subrange(0, q@.len() as int) =~= q@);
    s
}

/// The package clause, imports and `bigInt` helper.
fn header_string(crossval: bool, poseidon: bool) -> (r: String)
    ensures
        r@ == header_text(crossval, poseidon),
{
    let mut s = if crossval { text_of("package crossval\n\n") } else { text_of("package jolt_verifier\n\n") };
    push_str(&mut s, "import (\n");
    push_str(&mut s, "\t\"math/big\"\n");
    push_str(&mut s, "\n");
    push_str(&mut s, "\t\"github.com/consensys/gnark/frontend\"\n");
    let imp = if poseidon { text_of("\t\"jolt_verifier/poseidon\"\n") } else { String::new() };
    push_str(&mut s, imp.as_str());
    push_str(&mut s, ")\n\n");
    push_str(&mut s, "// bigInt creates a *big.Int from a string, for constants too large for int64\n");
    push_str(&mut s, "func bigInt(s string) *big.Int {\n");
    push_str(&mut s, "\tn, ok := new(big.Int).SetString(s, 10)\n");
    push_str(&mut s, "\tif !ok {\n");
    push_str(&mut s, "\t\tpanic(\"invalid bigInt: \" + s)\n");
    push_str(&mut s, "\t}\n");
    push_str(&mut s, "\treturn n\n");
    push_str(&mut s, "}\n\n");
    s
}

/// A define-call line for constraint `idx`, if its function is emitted.
fn define_call_string(idx: usize, emit: bool, has_global: bool) -> (r: String)
    ensures
        r@ == if emit {
            "\tcircuit."@ + func_name(idx as nat) + if has_global { "(api, gcse)\n"@ } else { "(api)\n"@ }
        } else {
            seq![]
        },
{
    if emit {
        let mut s = text_of("\tcircuit.");
        push_func_name(&mut s, idx);
        let tail = if has_global { text_of("(api, gcse)\n") } else { text_of("(api)\n") };
        push_str(&mut s, tail.as_str());
        s
    } else {
        String::new()
    }
}

/// The code of every constraint, the define calls, and the static counts.
fn emit_sections(name: &str, processed: &Vec<ProcessedConstraint>, has_global: bool, crossval: bool, Ghost(b): Ghost<&AstBundle>)
    -> (r: (String, String, usize, usize, Vec<String>))
    requires
        processed@.len() == b.constraints@.len(),
        forall|j: int| 0 <= j < processed@.len() ==> pc_matches(#[trigger] processed@[j], b, j, crossval),
    ensures
        r.0@ == sections_text(b, name@, crossval, has_global, processed@.len() as nat),
        r.1@ == define_calls(b, crossval, has_global, processed@.len() as nat),
        r.2 == skipped_count(b, processed@.len() as nat),
        r.3 == failed_names(b, processed@.len() as nat).len(),
        r.4@.map_values(|s: String| s@) == failed_names(b, processed@.len() as nat),
{
    let n = processed.len();
    let mut sections = String::new();
    let mut calls = String::new();
    let mut skipped: usize = 0;
    let mut failed: usize = 0;
    let mut failed_list: Vec<String> = Vec::new();
    let mut i: usize = 0;
    assert(failed_list@.map_values(|s: String| s@) =~= failed_names(b, 0));
    while i < n
        invariant
            i <= n,
            n == b.constraints@.len(),
            processed@.len() == n,
            forall|j: int| 0 <= j < n ==> pc_matches(#[trigger] processed@[j], b, j, crossval),
            sections@ == sections_text(b, name@, crossval, has_global, i as nat),
            calls@ == define_calls(b, crossval, has_global, i as nat),
            skipped == skipped_count(b, i as nat),
            skipped <= i,
            failed == failed_names(b, i as nat).len(),
            failed <= i,
            failed_list@.map_values(|s: String| s@) == failed_names(b, i as nat),
        decreases n - i,
    {
        let (sec, emit, zero, fail) = section_string(name, i, &processed[i], has_global, crossval, Ghost(b));
        push_str(&mut sections, sec.as_str());
        let dc = define_call_string(i, emit, has_global);
        push_str(&mut calls, dc.as_str());
        if zero {
            skipped = skipped + 1;
        }
        if fail {
            failed = failed + 1;
            let ghost fl0 = failed_list@;
            failed_list.push(crate::text::copy_string(&processed[i].name));
            proof {
                assert(processed@[i as int].name@ == b.constraints@[i as int].name@);
                assert(failed_list@.map_values(|s: String| s@) =~= fl0.map_values(|s: String| s@).push(b.constraints@[i as int].name@));
            }
        }
        proof {
            assert(failed_list@.map_values(|s: String| s@) =~= failed_names(b, (i + 1) as nat));
        }
        i += 1;
    }
    (sections, calls, skipped, failed, failed_list)
}

/// Generates the complete Go circuit file of a bundle and the statistics of
/// the constraints decided statically (`generate_circuit_from_bundle_with_stats`).
///
/// A constraint whose root is a constant compared with zero is decided here:
/// equal to zero it is skipped, otherwise it is recorded as failed; in
/// cross-validation mode both keep their verification function.
pub fn generate_circuit_from_bundle_with_stats(bundle: &AstBundle, circuit_name: &str, crossval: bool)
    -> (r: (String, ConstantAssertionStats))
    requires
        bundle_ready(bundle),
    ensures
        exists|q: Seq<(Vec<char>, TargetField)>| fields_ok(q, bundle) && r.0@ == circuit_text(bundle, circuit_name@, crossval, q),
        r.1.total_constraints == bundle.constraints@.len(),
        r.1.constant_skipped == skipped_count(bundle, bundle.constraints@.len()),
        r.1.constant_failed == failed_names(bundle, bundle.constraints@.len()).len(),
        r.1.failed_names@.map_values(|s: String| s@) == failed_names(bundle, bundle.constraints@.len()),
        r.1.uses_poseidon == circuit_uses_poseidon(bundle, crossval),
{
    let b = bundle;
    let name = sanitize_go_name(circuit_name);
    let var_names = build_var_names(&b.inputs);
    let gb = &b.global_cse.bindings;
    let mut uses_poseidon = false;
    let mut k: usize = 0;
    while k < gb.len()
        invariant
            k <= gb@.len(),
            gb@ == b.global_cse.bindings@,
            bundle_ready(b),
            uses_poseidon == exists|j: int| 0 <= j < k && requires_poseidon(b.nodes@, #[trigger] gb@[j]),
        decreases gb@.len() - k,
    {
        proof {
            assert((gb@[k as int] as int) < b.nodes@.len());
        }
        if node_requires_poseidon_import(b.nodes.as_slice(), gb[k]) {
            uses_poseidon = true;
        }
        k += 1;
    }
    let ghost g_uses = uses_poseidon;
    let n = b.constraints.len();
    let mut processed: Vec<ProcessedConstraint> = Vec::new();
    let mut c_uses = false;
    let mut idx: usize = 0;
    while idx < n
        invariant
            idx <= n,
            n == b.constraints@.len(),
            bundle_ready(b),
            var_names@.map_values(|s: String| s@) == input_names(b.inputs@),
            processed@.len() == idx,
            forall|j: int| 0 <= j < idx ==> pc_matches(#[trigger] processed@[j], b, j, crossval),
            c_uses == exists|j: int| 0 <= j < idx && (#[trigger] process_spec(b, j, crossval)).st.poseidon,
        decreases n - idx,
    {
        let pc = process_constraint(b, &var_names, idx, crossval);
        if pc.uses_poseidon {
            c_uses = true;
        }
        processed.push(pc);
        proof {
            assert(processed@[idx as int] == pc);
        }
        idx += 1;
    }
    let has_global = gb.len() > 0;
    let mut global_code = String::new();
    let mut gl_uses = false;
    if has_global {
        let (code, gp) = render_global_cse_functions(b, &var_names, name.as_str());
        global_code = code;
        gl_uses = gp;
    }
    let uses = uses_poseidon || c_uses || gl_uses;
    let fields = collect_fields(b);
    let (sections, calls, skipped, failed, failed_list) = emit_sections(name.as_str(), &processed, has_global, crossval, Ghost(b));
    let mut out = header_string(crossval, uses);
    push_str(&mut out, "type ");
    push_str(&mut out, name.as_str());
    push_str(&mut out, " struct {\n");
    let fl = fields_string(&fields);
    push_str(&mut out, fl.as_str());
    push_str(&mut out, "}\n\n");
    push_str(&mut out, global_code.as_str());
    push_str(&mut out, sections.as_str());
    push_str(&mut out, "func (circuit *");
    push_str(&mut out, name.as_str());
    push_str(&mut out, ") Define(api frontend.API) error {\n");
    let gline = if has_global { text_of("\tgcse := circuit.computeGlobalCse(api)\n") } else { String::new() };
    push_str(&mut out, gline.as_str());
    push_str(&mut out, calls.as_str());
    push_str(&mut out, "\treturn nil\n");
    push_str(&mut out, "}\n");
    proof {
        assert(uses == circuit_uses_poseidon(b, crossval));
        assert(out@ == circuit_text(b, circuit_name@, crossval, fields@));
    }
    let stats = ConstantAssertionStats {
        total_constraints: n,
        constant_skipped: skipped,
        constant_failed: failed,
        failed_names: failed_list,
        uses_poseidon: uses,
    };
    (out, stats)
}

/// The names of the inputs over a non-native field, in order.
pub open spec fn non_native_names(inputs: Seq<Input>) -> Seq<Seq<char>>
    decreases inputs.len(),
{
    if inputs.len() == 0 {
        seq![]
    } else {
        non_native_names(inputs.drop_last()) + if inputs.last().target_field is Fq {
            seq![inputs.last().name@]
        } else {
            seq![]
        }
    }
}

/// How many inputs live in a non-native field, and the names of the first
/// ten of them, in order.
pub fn non_native_inputs(inputs: &Vec<Input>) -> (r: (usize, Vec<String>))
    ensures
        r.0 == non_native_names(inputs@).len(),
        r.1@.map_values(|s: String| s@) == non_native_names(inputs@).take(
            if non_native_names(inputs@).len() < 10 { non_native_names(inputs@).len() as int } else { 10 }),
{
    let mut count: usize = 0;
    let mut first: Vec<String> = Vec::new();
    let mut i: usize = 0;
    assert(first@.map_values(|s: String| s@) =~= non_native_names(inputs@.subrange(0, 0)).take(0));
    while i < inputs.len()
        invariant
            i <= inputs@.len(),
            count == non_native_names(inputs@.subrange(0, i as int)).len(),
            count <= i,
            first@.map_values(|s: String| s@) == non_native_names(inputs@.subrange(0, i as int)).take(
                if count < 10 { count as int } else { 10 }),
        decreases inputs@.len() - i,
    {
        let ghost pre = non_native_names(inputs@.subrange(0, i as int));
        proof {
            assert(inputs@.subrange(0, i + 1).drop_last() =~= inputs@.subrange(0, i as int));
        }
        if inputs[i].target_field.is_non_native() {
            if count < 10 {
                let ghost f0 = first@;
                first.push(crate::text::copy_string(&inputs[i].name));
                proof {
                    let post = non_native_names(inputs@.subrange(0, i + 1));
                    assert(post == pre.push(inputs@[i as int].name@));
                    assert(f0.map_values(|s: String| s@) == pre.take(count as int));
                    assert(first@ == f0.push(first@.last()));
                    assert(first@.last()@ == inputs@[i as int].name@);
                    assert(first@.map_values(|s: String| s@) =~= f0.map_values(|s: String| s@).push(inputs@[i as int].name@));
                    assert(pre.take(count as int) =~= pre);
                    assert(post.take(count + 1) =~= post);
                }
            } else {
                proof {
                    let post = non_native_names(inputs@.subrange(0, i + 1));
                    assert(post.take(10) =~= pre.take(10));
                }
            }
            count = count + 1;
        } else {
            proof {
                assert(non_native_names(inputs@.subrange(0, i + 1)) =~= pre);
            }
        }
        i += 1;
    }
    assert(inputs@.subrange(0, inputs@.len() as int) =~= inputs@);
    (count, first)
}

/// Generates the complete Go circuit file of a bundle
/// (`generate_circuit_from_bundle`): the text of
/// `generate_circuit_from_bundle_with_stats` without cross-validation, for
/// a bundle with no input in a non-native field (which has no code
/// generation) and no constant constraint that is statically nonzero.
/// `non_native_inputs` and the statistics of
/// `generate_circuit_from_bundle_with_stats` tell a caller whether a bundle
/// qualifies.
pub fn generate_circuit_from_bundle(bundle: &AstBundle, circuit_name: &str) -> (r: String)
    requires
        bundle_ready(bundle),
        non_native_names(bundle.inputs@).len() == 0,
        failed_names(bundle, bundle.constraints@.len()).len() == 0,
    ensures
        exists|q: Seq<(Vec<char>, TargetField)>| fields_ok(q, bundle) && r@ == circuit_text(bundle, circuit_name@, false, q),
{
    let (code, _stats) = generate_circuit_from_bundle_with_stats(bundle, circuit_name, false);
    code
}

// ---------------------------------------------------------------------------
// Checking that a bundle can be generated
// ---------------------------------------------------------------------------

proof fn lemma_edges_hash_free(nodes: Seq<Node>, es: Seq<Edge>, bound: int)
    ensures
        crate::gnark_codegen::edges_hash_free(nodes, es, bound) <==> forall|k: int| 0 <= k < es.len() && #[trigger] es[k] is NodeRef
            && (es[k]->NodeRef_0 as int) < bound ==> hash_free(nodes, es[k]->NodeRef_0 as int),
    decreases es.len(),
{
    if es.len() > 0 {
        lemma_edges_hash_free(nodes, es.drop_first(), bound);
        assert forall|k: int| 1 <= k < es.len() implies es[k] == es.drop_first()[k - 1] by {}
        if forall|k: int| 0 <= k < es.len() && #[trigger] es[k] is NodeRef
            && (es[k]->NodeRef_0 as int) < bound ==> hash_free(nodes, es[k]->NodeRef_0 as int) {
            assert forall|k: int| 0 <= k < es.drop_first().len() && #[trigger] es.drop_first()[k] is NodeRef
                && (es.drop_first()[k]->NodeRef_0 as int) < bound implies hash_free(nodes, es.drop_first()[k]->NodeRef_0 as int) by {
                assert(es[k + 1] == es.drop_first()[k]);
            }
        }
    }
}

/// Flags the nodes from which no hash without code generation is reachable.
fn hash_free_flags(nodes: &[Node]) -> (r: Vec<bool>)
    ensures
        r@.len() == nodes@.len(),
        forall|q: int| 0 <= q < nodes@.len() ==> r@[q] == hash_free(nodes@, q),
{
    let n = nodes.len();
    let mut hf: Vec<bool> = Vec::new();
    let mut i: usize = 0;
    while i < n
        invariant
            i <= n,
            n == nodes@.len(),
            hf@.len() == i,
            forall|q: int| 0 <= q < i ==> hf@[q] == hash_free(nodes@, q),
        decreases n - i,
    {
        let unsupported = match &nodes[i] {
            Node::TranscriptHash(h, _, _) => match h {
                crate::mle_ast::TranscriptHashData::Poseidon(_) => false,
                _ => true,
            },
            _ => false,
        };
        let es = crate::mle_ast::node_edge_vec(&nodes[i]);
        let mut ok = !unsupported;
        let mut k: usize = 0;
        while k < es.len()
            invariant
                k <= es@.len(),
                i < n,
                n == nodes@.len(),
                hf@.len() == i,
                forall|q: int| 0 <= q < i ==> hf@[q] == hash_free(nodes@, q),
                es@ == node_edges(nodes@[i as int]),
                ok == (!crate::gnark_codegen::unsupported_hash(nodes@[i as int]) && forall|t: int| 0 <= t < k && #[trigger] es@[t] is NodeRef
                    && (es@[t]->NodeRef_0 as int) < i ==> hash_free(nodes@, es@[t]->NodeRef_0 as int)),
            decreases es@.len() - k,
        {
            match es[k] {
                Edge::NodeRef(j) => {
                    if j < i {
                        if !hf[j] {
                            ok = false;
                        }
                    }
                },
                Edge::Atom(_) => {},
            }
            k += 1;
        }
        proof {
            lemma_edges_hash_free(nodes@, es@, i as int);
        }
        hf.push(ok);
        i += 1;
    }
    hf
}

/// Whether a node's expression can be evaluated (`node_evaluable`).
fn is_evaluable(nodes: &[Node], id: usize) -> (r: bool)
    requires
        id < nodes@.len(),
    ensures
        r == node_evaluable(nodes@, id as int),
    decreases id, 1nat,
{
    match &nodes[id] {
        Node::Atom(a) => match a {
            crate::mle_ast::Atom::Scalar(_) => true,
            _ => false,
        },
        Node::Add(a, c) | Node::Sub(a, c) | Node::Mul(a, c) | Node::Div(a, c) =>
            edge_evaluable_exec(nodes, *a, id) && edge_evaluable_exec(nodes, *c, id),
        Node::Neg(a) | Node::Inv(a) => edge_evaluable_exec(nodes, *a, id),
        _ => false,
    }
}

/// Whether an operand of node `bound` can be evaluated.
fn edge_evaluable_exec(nodes: &[Node], e: Edge, bound: usize) -> (r: bool)
    requires
        bound < nodes@.len(),
    ensures
        r == crate::constants::edge_evaluable(nodes@, e, bound as int),
    decreases bound, 0nat,
{
    match e {
        Edge::Atom(a) => match a {
            crate::mle_ast::Atom::Scalar(_) => true,
            _ => false,
        },
        Edge::NodeRef(j) => j < bound && is_evaluable(nodes, j),
    }
}

/// Whether the circuit generator handles a bundle without failing
/// (`bundle_ready`).
pub fn bundle_is_ready(b: &AstBundle) -> (r: bool)
    ensures
        r == bundle_ready(b),
{
    let n = b.nodes.len();
    if !crate::mle_ast::is_well_formed(&b.nodes) {
        return false;
    }
    if b.constraint_cse.len() != b.constraints.len() {
        return false;
    }
    let hf = hash_free_flags(b.nodes.as_slice());
    let gb = &b.global_cse.bindings;
    let mut seen: Vec<bool> = Vec::new();
    let mut t: usize = 0;
    while t < n
        invariant
            t <= n,
            seen@.len() == t,
            forall|q: int| 0 <= q < t ==> !seen@[q],
        decreases n - t,
    {
        seen.push(false);
        t += 1;
    }
    let mut k: usize = 0;
    while k < gb.len()
        invariant
            k <= gb@.len(),
            gb@ == b.global_cse.bindings@,
            n == b.nodes@.len(),
            seen@.len() == n,
            hf@.len() == n,
            forall|q: int| 0 <= q < n ==> hf@[q] == hash_free(b.nodes@, q),
            gb@.subrange(0, k as int).no_duplicates(),
            forall|q: int| 0 <= q < n ==> seen@[q] == gb@.subrange(0, k as int).contains(q as usize),
            forall|j: int| 0 <= j < k ==> {
                let g = #[trigger] gb@[j];
                &&& (g as int) < b.nodes@.len()
                &&& !(b.nodes@[g as int] is Atom)
                &&& hash_free(b.nodes@, g as int)
            },
        decreases gb@.len() - k,
    {
        let g = gb[k];
        if g >= n {
            proof {
                assert(!global_bindings_ok(b)) by {
                    if global_bindings_ok(b) {
                        assert((b.global_cse.bindings@[k as int] as int) < b.nodes@.len());
                    }
                }
            }
            return false;
        }
        let atom = match &b.nodes[g] {
            Node::Atom(_) => true,
            _ => false,
        };
        if atom || !hf[g] || seen[g] {
            proof {
                assert(!global_bindings_ok(b)) by {
                    if global_bindings_ok(b) {
                        assert(!(b.nodes@[b.global_cse.bindings@[k as int] as int] is Atom));
                        assert(hash_free(b.nodes@, b.global_cse.bindings@[k as int] as int));
                        if seen@[g as int] {
                            let j = choose|j: int| 0 <= j < k && gb@.subrange(0, k as int)[j] == g;
                            assert(gb@[j] == gb@[k as int]);
                        }
                    }
                }
            }
            return false;
        }
        let ghost s0 = seen@;
        seen.set(g, true);
        proof {
            let pre = gb@.subrange(0, k as int);
            let pre1 = gb@.subrange(0, k + 1);
            assert(pre1 =~= pre.push(g));
            assert forall|q: int| 0 <= q < n implies seen@[q] == pre1.contains(q as usize) by {
                if q == g as int {
                    assert(pre1[k as int] == g);
                } else {
                    if pre1.contains(q as usize) {
                        let j = choose|j: int| 0 <= j < pre1.len() && pre1[j] == q as usize;
                        assert(pre[j] == q as usize);
                    }
                    if pre.contains(q as usize) {
                        let j = choose|j: int| 0 <= j < pre.len() && pre[j] == q as usize;
                        assert(pre1[j] == q as usize);
                    }
                }
            }
            assert forall|x: int, y: int| 0 <= x < pre1.len() && 0 <= y < pre1.len() && x != y implies pre1[x] != pre1[y] by {
                if x < k && y < k {
                    assert(pre1[x] == pre[x] && pre1[y] == pre[y]);
                } else if x == k && y < k {
                    assert(pre.contains(pre1[y]));
                    assert(!s0[g as int]);
                } else if y == k && x < k {
                    assert(pre.contains(pre1[x]));
                    assert(!s0[g as int]);
                }
            }
        }
        k += 1;
    }
    proof {
        assert(gb@.subrange(0, gb@.len() as int) =~= gb@);
        assert(global_bindings_ok(b));
    }
    let mut c: usize = 0;
    while c < b.constraints.len()
        invariant
            c <= b.constraints@.len(),
            n == b.nodes@.len(),
            hf@.len() == n,
            forall|q: int| 0 <= q < n ==> hf@[q] == hash_free(b.nodes@, q),
            forall|j: int| 0 <= j < c ==> constraint_ready(b.nodes@, #[trigger] b.constraints@[j]),
        decreases b.constraints@.len() - c,
    {
        let con = &b.constraints[c];
        let roots = roots_of_constraint(con);
        let mut q: usize = 0;
        while q < roots.len()
            invariant
                q <= roots@.len(),
                c < b.constraints@.len(),
                *con == b.constraints@[c as int],
                roots@ == constraint_roots(*con),
                n == b.nodes@.len(),
                hf@.len() == n,
                forall|x: int| 0 <= x < n ==> hf@[x] == hash_free(b.nodes@, x),
                forall|r: int| 0 <= r < q ==> (#[trigger] roots@[r] as int) < n && hash_free(b.nodes@, roots@[r] as int),
            decreases roots@.len() - q,
        {
            let rt = roots[q];
            if rt >= n || !hf[rt] {
                proof {
                    assert(!constraint_ready(b.nodes@, b.constraints@[c as int])) by {
                        if constraint_ready(b.nodes@, b.constraints@[c as int]) {
                            assert((constraint_roots(b.constraints@[c as int])[q as int] as int) < n);
                            assert(hash_free(b.nodes@, constraint_roots(b.constraints@[c as int])[q as int] as int));
                        }
                    }
                    assert(!bundle_ready(b)) by {
                        if bundle_ready(b) {
                            assert(constraint_ready(b.nodes@, b.constraints@[c as int]));
                        }
                    }
                }
                return false;
            }
            q += 1;
        }
        let root = con.root;
        proof {
            assert(roots@[0] == root);
        }
        if crate::constants::is_node_constant_in(b.nodes.as_slice(), root) && !is_evaluable(b.nodes.as_slice(), root) {
            proof {
                assert(!constraint_ready(b.nodes@, b.constraints@[c as int]));
                assert(!bundle_ready(b)) by {
                    if bundle_ready(b) {
                        assert(constraint_ready(b.nodes@, b.constraints@[c as int]));
                    }
                }
            }
            return false;
        }
        proof {
            assert(constraint_in(*con, b.nodes@.len()));
        }
        c += 1;
    }
    true
}

/// The root list of a constraint.
fn roots_of_constraint(c: &Constraint) -> (r: Vec<usize>)
    ensures
        r@ == constraint_roots(*c),
{
    let mut r: Vec<usize> = Vec::new();
    r.push(c.root);
    match &c.assertion {
        Assertion::EqualNode(o) => {
            r.push(*o);
        },
        _ => {},
    }
    assert(r@ =~= constraint_roots(*c));
    r
}

} // verus!
