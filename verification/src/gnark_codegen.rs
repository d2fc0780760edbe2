//! Gnark code generation with hoisted common subexpressions.
//!
//! A `GnarkCodeGen` walks the expression DAG below a root in post-order
//! (children left to right before their parent) and builds the Go expression
//! of each node from those of its children. A node that is shared (its id is
//! in the hoisting set) or whose inline text grows too long is bound to a
//! numbered variable and referred to by that variable from then on.

use vstd::prelude::*;
use std::collections::HashMap;
use crate::fragments::{copy_expr, extend_frags, frags, ExprFragment, Frag};
use crate::mle_ast::{node_edge_vec, node_edges, Atom, Edge, Node, TranscriptHashData};
use crate::names::{sanitize_go_name, sanitize_spec};
use crate::scalar::limbs_val;
use crate::text::{dec, dec_string, push_dec, push_str, scalar_decimal};
use crate::ast_evaluator::{field_inv, node_eval};
use crate::go_semantics::{arith_edge, arith_from, atom_go, fn_name, go_eval, lemma_circuit_openings, render, GoExpr, GoFn};

verus! {

// ---------------------------------------------------------------------------
// Constants and atoms
// ---------------------------------------------------------------------------

/// Go text of a field constant: a plain literal when it fits in `int64`,
/// otherwise a call of the generated `bigInt` helper on its decimal text.
pub open spec fn scalar_text(v: [u64; 4]) -> Seq<char> {
    if v[1] == 0 && v[2] == 0 && v[3] == 0 && v[0] <= 0x7fff_ffff_ffff_ffffu64 {
        dec(v[0] as nat)
    } else {
        "bigInt(\""@ + dec(limbs_val(v)) + "\")"@
    }
}

/// Formats a field constant for gnark (`42`, or `bigInt("...")` past `int64`).
pub fn format_scalar_for_gnark(limbs: [u64; 4]) -> (r: String)
    ensures
        r@ == scalar_text(limbs),
{
    if limbs[1] == 0 && limbs[2] == 0 && limbs[3] == 0 && limbs[0] <= 0x7fff_ffff_ffff_ffffu64 {
        dec_string(limbs[0])
    } else {
        let mut s = String::new();
        push_str(&mut s, "bigInt(\"");
        let d = scalar_decimal(limbs);
        push_str(&mut s, d.as_str());
        push_str(&mut s, "\")");
        s
    }
}

/// Go text of an input variable: its sanitized name when it has one,
/// `circuit.X_i` otherwise.
pub open spec fn var_text(names: Map<u16, Seq<char>>, i: u16) -> Seq<char> {
    if names.contains_key(i) {
        "circuit."@ + sanitize_spec(names[i])
    } else {
        "circuit.X_"@ + dec(i as nat)
    }
}

/// A literal fragment.
pub open spec fn lit(s: Seq<char>) -> Frag {
    Frag::Lit(s)
}

/// The reference to hoisted variable `k` in the given context.
pub open spec fn ref_frag(global: bool, k: nat) -> Frag {
    if global {
        Frag::Gcse(k as usize)
    } else {
        Frag::Cse(k as usize)
    }
}

/// What the code generator reads besides its state: the nodes, the ids to
/// hoist, the input names and whether it emits the global block.
pub struct GenCfg {
    pub nodes: Seq<Node>,
    pub hoist: Set<usize>,
    pub names: Map<u16, Seq<char>>,
    pub global: bool,
}

/// What the code generator accumulates: the expression of each generated
/// node, the hoisted bindings in declaration order, the next variable
/// number, and whether a Poseidon helper was emitted.
pub struct GenState {
    pub generated: Map<usize, Seq<Frag>>,
    pub bindings: Seq<(usize, Seq<Frag>)>,
    pub counter: nat,
    pub poseidon: bool,
}

/// Fragments of an atom.
pub open spec fn atom_frags(cfg: GenCfg, a: Atom) -> Seq<Frag> {
    match a {
        Atom::Scalar(v) => seq![lit(scalar_text(v))],
        Atom::Var(i) => seq![lit(var_text(cfg.names, i))],
        Atom::NamedVar(i) => seq![ref_frag(cfg.global, i as nat)],
    }
}

/// Fragments by which an operand is referred to: its generated expression,
/// or the atom itself.
pub open spec fn edge_frags(cfg: GenCfg, generated: Map<usize, Seq<Frag>>, e: Edge) -> Seq<Frag> {
    match e {
        Edge::Atom(a) => atom_frags(cfg, a),
        Edge::NodeRef(j) => if generated.contains_key(j) {
            generated[j]
        } else if j < cfg.nodes.len() && cfg.nodes[j as int] is Atom {
            atom_frags(cfg, cfg.nodes[j as int]->Atom_0)
        } else {
            seq![]
        },
    }
}

/// `api.Op(a, b)`.
pub open spec fn bin_frags(op: Seq<char>, a: Seq<Frag>, b: Seq<Frag>) -> Seq<Frag> {
    seq![lit("api."@ + op + "("@)] + a + seq![lit(", "@)] + b + seq![lit(")"@)]
}

/// The opening of a call: `f(` for `api.` functions, `f(api, ` for helpers.
pub open spec fn call_prefix(f: Seq<char>) -> Seq<char> {
    if "api."@.is_prefix_of(f) {
        f + "("@
    } else {
        f + "(api, "@
    }
}

/// A one-argument call.
pub open spec fn un_frags(f: Seq<char>, a: Seq<Frag>) -> Seq<Frag> {
    seq![lit(call_prefix(f))] + a + seq![lit(")"@)]
}

/// Fragments of a (non-atom) node, its operands referred to as `generated` says.
pub open spec fn node_frags(cfg: GenCfg, g: Map<usize, Seq<Frag>>, n: Node) -> Seq<Frag> {
    match n {
        Node::Atom(_) => seq![],
        Node::Add(l, r) => bin_frags("Add"@, edge_frags(cfg, g, l), edge_frags(cfg, g, r)),
        Node::Mul(l, r) => bin_frags("Mul"@, edge_frags(cfg, g, l), edge_frags(cfg, g, r)),
        Node::Sub(l, r) => bin_frags("Sub"@, edge_frags(cfg, g, l), edge_frags(cfg, g, r)),
        Node::Inv(e) => un_frags("api.Inverse"@, edge_frags(cfg, g, e)),
        Node::ByteReverse(e) => un_frags("poseidon.ByteReverse"@, edge_frags(cfg, g, e)),
        Node::Truncate128Reverse(e) => un_frags("poseidon.Truncate128Reverse"@, edge_frags(cfg, g, e)),
        Node::Truncate128(e) => un_frags("poseidon.Truncate128"@, edge_frags(cfg, g, e)),
        Node::AppendU64Transform(e) => un_frags("poseidon.AppendU64Transform"@, edge_frags(cfg, g, e)),
        Node::Neg(e) => un_frags("api.Neg"@, edge_frags(cfg, g, e)),
        Node::Div(a, b) => seq![lit("api.Mul("@)] + edge_frags(cfg, g, a) + seq![lit(", api.Inverse("@)]
            + edge_frags(cfg, g, b) + seq![lit("))"@)],
        Node::TranscriptHash(h, s, r) => match h {
            TranscriptHashData::Poseidon(d) => seq![lit("poseidon.Hash(api, "@)] + edge_frags(cfg, g, s)
                + seq![lit(", "@)] + edge_frags(cfg, g, r) + seq![lit(", "@)] + edge_frags(cfg, g, d)
                + seq![lit(")"@)],
            _ => seq![],
        },
    }
}

/// Nodes whose Go text calls a helper of the `poseidon` package.
pub open spec fn uses_poseidon_helper(n: Node) -> bool {
    match n {
        Node::ByteReverse(_) | Node::Truncate128Reverse(_) | Node::Truncate128(_)
        | Node::AppendU64Transform(_) => true,
        Node::TranscriptHash(h, _, _) => h is Poseidon,
        _ => false,
    }
}

/// Hashes that have no Go code generation (Blake2b and Keccak transcripts).
pub open spec fn unsupported_hash(n: Node) -> bool {
    match n {
        Node::TranscriptHash(h, _, _) => !(h is Poseidon),
        _ => false,
    }
}

/// Size estimate of a fragment: the byte length of literal text, and ten
/// for a variable reference.
pub open spec fn frag_len(f: Frag) -> nat {
    match f {
        Frag::Lit(s) => (vstd::utf8::encode_utf8(s).len() as usize) as nat,
        _ => 10,
    }
}

/// Size estimate of an expression.
pub open spec fn frags_len(e: Seq<Frag>) -> nat
    decreases e.len(),
{
    if e.len() == 0 {
        0
    } else {
        frags_len(e.drop_last()) + frag_len(e.last())
    }
}

/// Longest inline expression (by size estimate) kept in a per-constraint
/// expression; longer ones are hoisted.
pub open spec fn max_inline_len() -> nat {
    1000
}

/// Whether node `id` with expression `e` is bound to a variable: shared
/// nodes always, and, outside the global block, expressions that are too long.
pub open spec fn should_hoist(cfg: GenCfg, id: usize, e: Seq<Frag>) -> bool {
    cfg.hoist.contains(id) || (!cfg.global && frags_len(e) > max_inline_len())
}

/// Generation of node `id` and everything below it that is not yet generated,
/// in post-order: the operands left to right, then the node itself. Atoms
/// are never stored.
pub open spec fn gen_node(cfg: GenCfg, st: GenState, id: int) -> GenState
    decreases id, 1nat, 0nat,
{
    if id < 0 || id >= cfg.nodes.len() || id > usize::MAX || st.generated.contains_key(id as usize) || cfg.nodes[id] is Atom {
        st
    } else {
        let st1 = gen_edges(cfg, st, node_edges(cfg.nodes[id]), id);
        let e = node_frags(cfg, st1.generated, cfg.nodes[id]);
        let p = st1.poseidon || uses_poseidon_helper(cfg.nodes[id]);
        if should_hoist(cfg, id as usize, e) {
            GenState {
                generated: st1.generated.insert(id as usize, seq![ref_frag(cfg.global, st1.counter)]),
                bindings: st1.bindings.push((st1.counter as usize, e)),
                counter: st1.counter + 1,
                poseidon: p,
            }
        } else {
            GenState {
                generated: st1.generated.insert(id as usize, e),
                bindings: st1.bindings,
                counter: st1.counter,
                poseidon: p,
            }
        }
    }
}

/// Generation below each operand in turn (operands of node `bound` refer to
/// nodes below it).
pub open spec fn gen_edges(cfg: GenCfg, st: GenState, es: Seq<Edge>, bound: int) -> GenState
    decreases bound, 0nat, es.len(),
{
    if es.len() == 0 {
        st
    } else {
        let st1 = match es[0] {
            Edge::NodeRef(j) => if (j as int) < bound {
                gen_node(cfg, st, j as int)
            } else {
                st
            },
            Edge::Atom(_) => st,
        };
        gen_edges(cfg, st1, es.drop_first(), bound)
    }
}

/// Ids below `len` that have an expression.
pub open spec fn done_ids(g: Map<usize, Seq<Frag>>, len: nat) -> Set<int> {
    Set::new(|i: int| 0 <= i < len && i <= usize::MAX && g.contains_key(i as usize))
}

proof fn lemma_done_finite(g: Map<usize, Seq<Frag>>, len: nat)
    ensures
        done_ids(g, len).finite(),
        done_ids(g, len).len() <= len,
{
    vstd::set_lib::lemma_int_range(0, len as int);
    vstd::set_lib::lemma_len_subset(done_ids(g, len), vstd::set_lib::set_int_range(0, len as int));
}

proof fn lemma_done_mono(g1: Map<usize, Seq<Frag>>, g2: Map<usize, Seq<Frag>>, len: nat)
    requires
        forall|k: usize| #[trigger] g1.contains_key(k) ==> g2.contains_key(k),
    ensures
        done_ids(g1, len).subset_of(done_ids(g2, len)),
        done_ids(g1, len).len() <= done_ids(g2, len).len(),
{
    lemma_done_finite(g2, len);
    vstd::set_lib::lemma_len_subset(done_ids(g1, len), done_ids(g2, len));
}

/// What one generation step keeps: existing expressions are kept, only keys
/// below `top` are added, and the variable counter grows by at most the
/// number of node ids that gained an expression.
pub open spec fn grows(cfg: GenCfg, st: GenState, f: GenState, top: int) -> bool {
    &&& st.generated.submap_of(f.generated)
    &&& (forall|k: usize| #[trigger] f.generated.contains_key(k) && !st.generated.contains_key(k) ==> (k as int) < top)
    &&& st.counter <= f.counter
    &&& f.counter - st.counter <= done_ids(f.generated, cfg.nodes.len()).len()
        - done_ids(st.generated, cfg.nodes.len()).len()
}

proof fn lemma_grows_trans(cfg: GenCfg, a: GenState, b: GenState, c: GenState, top: int)
    requires
        grows(cfg, a, b, top),
        grows(cfg, b, c, top),
    ensures
        grows(cfg, a, c, top),
{
    lemma_done_mono(a.generated, b.generated, cfg.nodes.len());
    lemma_done_mono(b.generated, c.generated, cfg.nodes.len());
    assert forall|k: usize| #[trigger] c.generated.contains_key(k) && !a.generated.contains_key(k) implies (k as int) < top by {
        if b.generated.contains_key(k) {
            assert(b.generated.contains_key(k) && !a.generated.contains_key(k));
        }
    }
    assert forall|k: usize| #[trigger] a.generated.contains_key(k) implies c.generated.contains_key(k)
        && c.generated[k] == a.generated[k] by {
        assert(b.generated.contains_key(k));
    }
}

/// Generation only adds expressions, never changes one, adds them only for
/// ids up to `id`, numbers at most as many variables as it adds expressions
/// for, and leaves node `id` generated (or an atom).
proof fn lemma_gen_node_grows(cfg: GenCfg, st: GenState, id: int)
    ensures
        grows(cfg, st, gen_node(cfg, st, id), id + 1),
        0 <= id < cfg.nodes.len() && id <= usize::MAX ==> gen_node(cfg, st, id).generated.contains_key(id as usize)
            || cfg.nodes[id] is Atom,
    decreases id, 1nat, 0nat,
{
    lemma_done_finite(st.generated, cfg.nodes.len());
    if id < 0 || id >= cfg.nodes.len() || id > usize::MAX || st.generated.contains_key(id as usize) || cfg.nodes[id] is Atom {
    } else {
        let st1 = gen_edges(cfg, st, node_edges(cfg.nodes[id]), id);
        lemma_gen_edges_grows(cfg, st, node_edges(cfg.nodes[id]), id);
        lemma_done_finite(st1.generated, cfg.nodes.len());
        let f = gen_node(cfg, st, id);
        assert(!st1.generated.contains_key(id as usize));
        assert(done_ids(f.generated, cfg.nodes.len()) =~= done_ids(st1.generated, cfg.nodes.len()).insert(id));
        lemma_done_mono(st.generated, st1.generated, cfg.nodes.len());
        assert(grows(cfg, st1, f, id + 1));
        lemma_grows_trans(cfg, st, st1, f, id + 1);
    }
}

proof fn lemma_gen_edges_grows(cfg: GenCfg, st: GenState, es: Seq<Edge>, bound: int)
    ensures
        grows(cfg, st, gen_edges(cfg, st, es, bound), bound),
        forall|k: int| 0 <= k < es.len() && #[trigger] es[k] is NodeRef && (es[k]->NodeRef_0 as int) < bound
            && es[k]->NodeRef_0 < cfg.nodes.len()
            ==> gen_edges(cfg, st, es, bound).generated.contains_key(es[k]->NodeRef_0)
                || cfg.nodes[es[k]->NodeRef_0 as int] is Atom,
    decreases bound, 0nat, es.len(),
{
    lemma_done_finite(st.generated, cfg.nodes.len());
    if es.len() == 0 {
    } else {
        let st1 = match es[0] {
            Edge::NodeRef(j) => if (j as int) < bound {
                gen_node(cfg, st, j as int)
            } else {
                st
            },
            Edge::Atom(_) => st,
        };
        match es[0] {
            Edge::NodeRef(j) => if (j as int) < bound {
                lemma_gen_node_grows(cfg, st, j as int);
            },
            Edge::Atom(_) => {},
        }
        assert(grows(cfg, st, st1, bound));
        lemma_gen_edges_grows(cfg, st1, es.drop_first(), bound);
        let f = gen_edges(cfg, st, es, bound);
        assert(f == gen_edges(cfg, st1, es.drop_first(), bound));
        lemma_grows_trans(cfg, st, st1, f, bound);
        assert forall|k: int| 0 <= k < es.len() && #[trigger] es[k] is NodeRef && (es[k]->NodeRef_0 as int) < bound
            && es[k]->NodeRef_0 < cfg.nodes.len()
            implies f.generated.contains_key(es[k]->NodeRef_0) || cfg.nodes[es[k]->NodeRef_0 as int] is Atom by {
            if k > 0 {
                assert(es.drop_first()[k - 1] == es[k]);
            } else {
                let j = es[0]->NodeRef_0;
                if st1.generated.contains_key(j) {
                    assert(f.generated.contains_key(j));
                }
            }
        }
    }
}

/// No node reachable from `id` is a hash without Go code generation.
pub open spec fn hash_free(nodes: Seq<Node>, id: int) -> bool
    decreases id, 1nat, 0nat,
{
    0 <= id < nodes.len() ==> !unsupported_hash(nodes[id]) && edges_hash_free(nodes, node_edges(nodes[id]), id)
}

/// No node reachable through the given operands of node `bound` is a hash
/// without Go code generation.
pub open spec fn edges_hash_free(nodes: Seq<Node>, es: Seq<Edge>, bound: int) -> bool
    decreases bound, 0nat, es.len(),
{
    es.len() == 0 || ((es[0] is NodeRef && (es[0]->NodeRef_0 as int) < bound ==> hash_free(nodes, es[0]->NodeRef_0 as int))
        && edges_hash_free(nodes, es.drop_first(), bound))
}

/// The expressions of the globally hoisted nodes: node `gb[i]` is `gcse[i]`
/// (the last position wins for a node listed twice).
pub open spec fn global_refs(gb: Seq<usize>) -> Map<usize, Seq<Frag>>
    decreases gb.len(),
{
    if gb.len() == 0 {
        Map::empty()
    } else {
        global_refs(gb.drop_last()).insert(gb.last(), seq![Frag::Gcse((gb.len() - 1) as usize)])
    }
}

/// Which variables a code generator binds: those of the global block
/// (`gcse[i]`) or those of one constraint (`cse_K_i`).
#[derive(Clone, Copy, Debug, PartialEq, Eq)]
pub enum CseContext {
    Global,
    Constraint(usize),
}

/// A memoizing code generator over a node arena (see the module docs).
pub struct GnarkCodeGen<'a> {
    nodes: &'a [Node],
    ref_counts: HashMap<usize, usize>,
    generated: HashMap<usize, Vec<ExprFragment>>,
    bindings: Vec<(usize, Vec<ExprFragment>)>,
    cse_counter: usize,
    var_names: &'a HashMap<u16, String>,
    cse_context: CseContext,
    uses_poseidon: bool,
}

/// Appends a literal fragment.
pub fn push_lit(v: &mut Vec<ExprFragment>, s: &str)
    ensures
        frags(final(v)@) == frags(old(v)@).push(lit(s@)),
{
    let mut t = String::new();
    push_str(&mut t, s);
    v.push(ExprFragment::Lit(t));
    assert(frags(final(v)@) =~= frags(old(v)@).push(lit(s@)));
}

/// Whether a function name starts with `api.`.
fn is_api_call(f: &str) -> (r: bool)
    ensures
        r == "api."@.is_prefix_of(f@),
{
    proof {
        reveal_strlit("api.");
    }
    let n = f.unicode_len();
    if n < 4 {
        return false;
    }
    let r = f.get_char(0) == 'a' && f.get_char(1) == 'p' && f.get_char(2) == 'i' && f.get_char(3) == '.';
    proof {
        if r {
            assert("api."@ =~= f@.subrange(0, 4));
        } else {
            if "api."@.is_prefix_of(f@) {
                assert(f@.subrange(0, 4)[0] == f@[0]);
                assert(f@.subrange(0, 4)[1] == f@[1]);
                assert(f@.subrange(0, 4)[2] == f@[2]);
                assert(f@.subrange(0, 4)[3] == f@[3]);
            }
        }
    }
    r
}

/// Size estimate of a fragment (`fragment_len_estimate`).
pub fn fragment_len_estimate(f: &ExprFragment) -> (r: usize)
    ensures
        r as nat == frag_len(f@),
{
    match f {
        ExprFragment::Lit(s) => s.as_str().len(),
        ExprFragment::CseRef(_) | ExprFragment::GcseRef(_) => 10,
    }
}

/// The size estimate of an expression, capped just above the inline limit.
fn capped_len(e: &Vec<ExprFragment>) -> (r: usize)
    ensures
        r as nat == if frags_len(frags(e@)) > max_inline_len() { max_inline_len() + 1 } else { frags_len(frags(e@)) },
{
    let mut acc: usize = 0;
    let mut i: usize = 0;
    while i < e.len()
        invariant
            i <= e@.len(),
            acc as nat == if frags_len(frags(e@.subrange(0, i as int))) > max_inline_len() {
                max_inline_len() + 1
            } else {
                frags_len(frags(e@.subrange(0, i as int)))
            },
        decreases e@.len() - i,
    {
        proof {
            assert(frags(e@.subrange(0, i + 1)).drop_last() =~= frags(e@.subrange(0, i as int)));
            assert(frags(e@.subrange(0, i + 1)).last() == e@[i as int]@);
        }
        let l = fragment_len_estimate(&e[i]);
        if acc <= 1000 {
            if l > 1001 - acc {
                acc = 1001;
            } else {
                acc = acc + l;
            }
        }
        i += 1;
    }
    assert(e@.subrange(0, e@.len() as int) =~= e@);
    acc
}

proof fn lemma_done_below(g: Map<usize, Seq<Frag>>, len: nat, id: int)
    requires
        0 <= id < len,
        id <= usize::MAX,
        !g.contains_key(id as usize),
    ensures
        done_ids(g, len).len() < len,
{
    vstd::set_lib::lemma_int_range(0, len as int);
    let r = vstd::set_lib::set_int_range(0, len as int).remove(id);
    vstd::set_lib::lemma_len_subset(done_ids(g, len), r);
}

impl<'a> GnarkCodeGen<'a> {
    /// What the generator reads.
    pub closed spec fn cfg(&self) -> GenCfg {
        GenCfg {
            nodes: self.nodes@,
            hoist: Set::new(|id: usize| self.ref_counts@.contains_key(id) && self.ref_counts@[id] > 1),
            names: self.var_names@.map_values(|s: String| s@),
            global: self.cse_context is Global,
        }
    }

    /// What the generator has accumulated.
    pub closed spec fn state(&self) -> GenState {
        GenState {
            generated: self.generated@.map_values(|v: Vec<ExprFragment>| frags(v@)),
            bindings: self.bindings@.map_values(|b: (usize, Vec<ExprFragment>)| (b.0, frags(b.1@))),
            counter: self.cse_counter as nat,
            poseidon: self.uses_poseidon,
        }
    }

    /// The variable context.
    pub closed spec fn context(&self) -> CseContext {
        self.cse_context
    }

    /// Well-formedness: no more variables were numbered than node ids were
    /// given an expression.
    pub closed spec fn wf(&self) -> bool {
        self.cse_counter as nat <= done_ids(self.state().generated, self.nodes@.len()).len()
    }

    /// A generator for constraint `constraint_idx`: the nodes in
    /// `cse_bindings` are hoisted to `cse_K_i`, and the globally hoisted
    /// nodes (`global_bindings[i]`) are referred to as `gcse[i]`.
    pub fn new(
        nodes: &'a [Node],
        var_names: &'a HashMap<u16, String>,
        constraint_idx: usize,
        cse_bindings: &[usize],
        global_bindings: &[usize],
    ) -> (r: Self)
        ensures
            r.cfg() == (GenCfg {
                nodes: nodes@,
                hoist: cse_bindings@.to_set(),
                names: var_names@.map_values(|s: String| s@),
                global: false,
            }),
            r.context() == CseContext::Constraint(constraint_idx),
            r.state() == (GenState { generated: global_refs(global_bindings@), bindings: seq![], counter: 0, poseidon: false }),
            r.wf(),
    {
        let ref_counts = hoist_counts(cse_bindings);
        let mut generated: HashMap<usize, Vec<ExprFragment>> = HashMap::new();
        let mut i: usize = 0;
        while i < global_bindings.len()
            invariant
                i <= global_bindings@.len(),
                generated@.map_values(|v: Vec<ExprFragment>| frags(v@)) == global_refs(global_bindings@.subrange(0, i as int)),
            decreases global_bindings@.len() - i,
        {
            let mut v: Vec<ExprFragment> = Vec::new();
            v.push(ExprFragment::GcseRef(i));
            generated.insert(global_bindings[i], v);
            proof {
                let pre = global_bindings@.subrange(0, i + 1);
                assert(pre.drop_last() =~= global_bindings@.subrange(0, i as int));
                assert(frags(v@) =~= seq![Frag::Gcse(i)]);
                assert(generated@.map_values(|v: Vec<ExprFragment>| frags(v@)) =~= global_refs(pre));
            }
            i += 1;
        }
        assert(global_bindings@.subrange(0, global_bindings@.len() as int) =~= global_bindings@);
        let r = GnarkCodeGen {
            nodes,
            ref_counts,
            generated,
            bindings: Vec::new(),
            cse_counter: 0,
            var_names,
            cse_context: CseContext::Constraint(constraint_idx),
            uses_poseidon: false,
        };
        assert(r.cfg().hoist =~= cse_bindings@.to_set());
        assert(r.state().bindings =~= seq![]);
        r
    }

    /// The generator of the global block: the nodes in `global_bindings` are
    /// hoisted to `gcse[i]`.
    pub fn new_global(nodes: &'a [Node], var_names: &'a HashMap<u16, String>, global_bindings: &[usize]) -> (r: Self)
        ensures
            r.cfg() == (GenCfg {
                nodes: nodes@,
                hoist: global_bindings@.to_set(),
                names: var_names@.map_values(|s: String| s@),
                global: true,
            }),
            r.context() == CseContext::Global,
            r.state() == (GenState { generated: Map::empty(), bindings: seq![], counter: 0, poseidon: false }),
            r.wf(),
    {
        let ref_counts = hoist_counts(global_bindings);
        let r = GnarkCodeGen {
            nodes,
            ref_counts,
            generated: HashMap::new(),
            bindings: Vec::new(),
            cse_counter: 0,
            var_names,
            cse_context: CseContext::Global,
            uses_poseidon: false,
        };
        assert(r.cfg().hoist =~= global_bindings@.to_set());
        assert(r.state().generated =~= Map::empty());
        assert(r.state().bindings =~= seq![]);
        r
    }

    /// Whether a `poseidon` helper was emitted.
    pub fn uses_poseidon(&self) -> (r: bool)
        ensures
            r == self.state().poseidon,
    {
        self.uses_poseidon
    }

    /// The number of the next hoisted variable.
    pub fn cse_counter(&self) -> (r: usize)
        ensures
            r == self.state().counter,
    {
        self.cse_counter
    }

    /// Hands out the hoisted bindings in declaration order and clears them.
    pub fn take_bindings(&mut self) -> (r: Vec<(usize, Vec<ExprFragment>)>)
        requires
            old(self).wf(),
        ensures
            r@.map_values(|b: (usize, Vec<ExprFragment>)| (b.0, frags(b.1@))) == old(self).state().bindings,
            final(self).state() == (GenState { bindings: seq![], ..old(self).state() }),
            final(self).cfg() == old(self).cfg(),
            final(self).context() == old(self).context(),
            final(self).wf(),
    {
        let mut r: Vec<(usize, Vec<ExprFragment>)> = Vec::new();
        std::mem::swap(&mut r, &mut self.bindings);
        assert(self.state().bindings =~= seq![]);
        r
    }

    /// Records an expression for a node.
    pub fn insert_generated(&mut self, id: usize, e: Vec<ExprFragment>)
        requires
            old(self).wf(),
        ensures
            final(self).state() == (GenState {
                generated: old(self).state().generated.insert(id, frags(e@)),
                ..old(self).state()
            }),
            final(self).cfg() == old(self).cfg(),
            final(self).context() == old(self).context(),
            final(self).wf(),
    {
        let ghost g0 = self.state().generated;
        self.generated.insert(id, e);
        assert(self.state().generated =~= g0.insert(id, frags(e@)));
        proof {
            lemma_done_mono(g0, self.state().generated, self.nodes@.len());
        }
    }

    /// Fragments of an atom.
    pub fn atom_to_gnark(&self, atom: Atom) -> (r: Vec<ExprFragment>)
        ensures
            frags(r@) == atom_frags(self.cfg(), atom),
    {
        let mut v: Vec<ExprFragment> = Vec::new();
        match atom {
            Atom::Scalar(value) => {
                v.push(ExprFragment::Lit(format_scalar_for_gnark(value)));
            },
            Atom::Var(index) => {
                let mut s = String::new();
                match self.var_names.get(&index) {
                    Some(name) => {
                        push_str(&mut s, "circuit.");
                        let sn = sanitize_go_name(name.as_str());
                        push_str(&mut s, sn.as_str());
                    },
                    None => {
                        push_str(&mut s, "circuit.X_");
                        push_dec(&mut s, index as u64);
                    },
                }
                v.push(ExprFragment::Lit(s));
            },
            Atom::NamedVar(index) => {
                match self.cse_context {
                    CseContext::Global => v.push(ExprFragment::GcseRef(index)),
                    CseContext::Constraint(_) => v.push(ExprFragment::CseRef(index)),
                }
            },
        }
        assert(frags(v@) =~= atom_frags(self.cfg(), atom));
        v
    }

    /// Fragments by which an operand is referred to: the expression already
    /// generated for its node, or the atom itself.
    pub fn edge_to_gnark_iterative(&self, edge: Edge) -> (r: Vec<ExprFragment>)
        ensures
            frags(r@) == edge_frags(self.cfg(), self.state().generated, edge),
    {
        match edge {
            Edge::Atom(a) => self.atom_to_gnark(a),
            Edge::NodeRef(j) => {
                match self.generated.get(&j) {
                    Some(v) => copy_expr(v),
                    None => {
                        if j < self.nodes.len() {
                            match &self.nodes[j] {
                                Node::Atom(a) => self.atom_to_gnark(*a),
                                _ => Vec::new(),
                            }
                        } else {
                            Vec::new()
                        }
                    },
                }
            },
        }
    }

    /// `api.Op(left, right)`.
    pub fn binary_op(&self, op: &str, left: Edge, right: Edge) -> (r: Vec<ExprFragment>)
        ensures
            frags(r@) == bin_frags(op@, edge_frags(self.cfg(), self.state().generated, left),
                edge_frags(self.cfg(), self.state().generated, right)),
    {
        let l = self.edge_to_gnark_iterative(left);
        let rr = self.edge_to_gnark_iterative(right);
        let mut head = String::new();
        push_str(&mut head, "api.");
        push_str(&mut head, op);
        push_str(&mut head, "(");
        let mut v: Vec<ExprFragment> = Vec::new();
        v.push(ExprFragment::Lit(head));
        extend_frags(&mut v, &l);
        push_lit(&mut v, ", ");
        extend_frags(&mut v, &rr);
        push_lit(&mut v, ")");
        assert(frags(v@) =~= bin_frags(op@, frags(l@), frags(rr@)));
        v
    }

    /// A one-argument call: `f(arg)` for `api.` functions, `f(api, arg)` otherwise.
    pub fn unary_op(&self, func: &str, arg: Edge) -> (r: Vec<ExprFragment>)
        ensures
            frags(r@) == un_frags(func@, edge_frags(self.cfg(), self.state().generated, arg)),
    {
        let a = self.edge_to_gnark_iterative(arg);
        let mut head = String::new();
        push_str(&mut head, func);
        if is_api_call(func) {
            push_str(&mut head, "(");
        } else {
            push_str(&mut head, "(api, ");
        }
        let mut v: Vec<ExprFragment> = Vec::new();
        v.push(ExprFragment::Lit(head));
        extend_frags(&mut v, &a);
        push_lit(&mut v, ")");
        assert(frags(v@) =~= un_frags(func@, frags(a@)));
        v
    }

    /// Fragments of a node, its operands referred to by what is generated.
    fn node_expr(&self, n: &Node) -> (r: Vec<ExprFragment>)
        ensures
            frags(r@) == node_frags(self.cfg(), self.state().generated, *n),
    {
        match n {
            Node::Atom(_) => Vec::new(),
            Node::Add(l, r) => self.binary_op("Add", *l, *r),
            Node::Mul(l, r) => self.binary_op("Mul", *l, *r),
            Node::Sub(l, r) => self.binary_op("Sub", *l, *r),
            Node::Inv(e) => self.unary_op("api.Inverse", *e),
            Node::ByteReverse(e) => self.unary_op("poseidon.ByteReverse", *e),
            Node::Truncate128Reverse(e) => self.unary_op("poseidon.Truncate128Reverse", *e),
            Node::Truncate128(e) => self.unary_op("poseidon.Truncate128", *e),
            Node::AppendU64Transform(e) => self.unary_op("poseidon.AppendU64Transform", *e),
            Node::Neg(e) => self.unary_op("api.Neg", *e),
            Node::Div(a, b) => {
                let x = self.edge_to_gnark_iterative(*a);
                let y = self.edge_to_gnark_iterative(*b);
                let mut v: Vec<ExprFragment> = Vec::new();
                push_lit(&mut v, "api.Mul(");
                extend_frags(&mut v, &x);
                push_lit(&mut v, ", api.Inverse(");
                extend_frags(&mut v, &y);
                push_lit(&mut v, "))");
                assert(frags(v@) =~= node_frags(self.cfg(), self.state().generated, *n));
                v
            },
            Node::TranscriptHash(h, s, r) => {
                match h {
                    TranscriptHashData::Poseidon(d) => {
                        let xs = self.edge_to_gnark_iterative(*s);
                        let xr = self.edge_to_gnark_iterative(*r);
                        let xd = self.edge_to_gnark_iterative(*d);
                        let mut v: Vec<ExprFragment> = Vec::new();
                        push_lit(&mut v, "poseidon.Hash(api, ");
                        extend_frags(&mut v, &xs);
                        push_lit(&mut v, ", ");
                        extend_frags(&mut v, &xr);
                        push_lit(&mut v, ", ");
                        extend_frags(&mut v, &xd);
                        push_lit(&mut v, ")");
                        assert(frags(v@) =~= node_frags(self.cfg(), self.state().generated, *n));
                        v
                    },
                    _ => Vec::new(),
                }
            },
        }
    }
}

/// The hoisting counts: every listed node counts as shared.
fn hoist_counts(ids: &[usize]) -> (r: HashMap<usize, usize>)
    ensures
        forall|id: usize| r@.contains_key(id) <==> ids@.contains(id),
        forall|id: usize| r@.contains_key(id) ==> r@[id] == 2,
{
    let mut m: HashMap<usize, usize> = HashMap::new();
    let mut i: usize = 0;
    while i < ids.len()
        invariant
            i <= ids@.len(),
            forall|k: int| 0 <= k < i ==> m@.contains_key(#[trigger] ids@[k]),
            forall|id: usize| m@.contains_key(id) ==> exists|k: int| 0 <= k < i && #[trigger] ids@[k] == id,
            forall|id: usize| m@.contains_key(id) ==> m@[id] == 2,
        decreases ids@.len() - i,
    {
        m.insert(ids[i], 2);
        proof {
            assert forall|id: usize| m@.contains_key(id) implies exists|k: int| 0 <= k < i + 1 && #[trigger] ids@[k] == id by {
                if id == ids@[i as int] {
                    assert(ids@[i as int] == id);
                }
            }
        }
        i += 1;
    }
    proof {
        assert forall|id: usize| m@.contains_key(id) <==> ids@.contains(id) by {
            if ids@.contains(id) {
                let k = choose|k: int| 0 <= k < ids@.len() && ids@[k] == id;
                assert(m@.contains_key(ids@[k]));
            }
        }
    }
    m
}

impl<'a> GnarkCodeGen<'a> {
    /// Generates node `id` and everything below it that is not yet generated.
    fn gen_node_exec(&mut self, id: usize)
        requires
            id < old(self).cfg().nodes.len(),
            old(self).wf(),
        ensures
            final(self).cfg() == old(self).cfg(),
            final(self).context() == old(self).context(),
            final(self).state() == gen_node(old(self).cfg(), old(self).state(), id as int),
            final(self).wf(),
        decreases id,
    {
        if self.generated.contains_key(&id) {
            return;
        }
        let nodes: &'a [Node] = self.nodes;
        match &nodes[id] {
            Node::Atom(_) => {
                return;
            },
            _ => {},
        }
        let ghost cfg = self.cfg();
        let ghost st0 = self.state();
        let es = node_edge_vec(&nodes[id]);
        let mut k: usize = 0;
        assert(es@.subrange(0, es@.len() as int) =~= es@);
        while k < es.len()
            invariant
                k <= es@.len(),
                es@ == node_edges(cfg.nodes[id as int]),
                nodes@ == cfg.nodes,
                id < cfg.nodes.len(),
                self.cfg() == cfg,
                self.context() == old(self).context(),
                self.wf(),
                gen_edges(cfg, self.state(), es@.subrange(k as int, es@.len() as int), id as int)
                    == gen_edges(cfg, st0, es@, id as int),
            decreases es@.len() - k,
        {
            let ghost cur = self.state();
            let ghost rest = es@.subrange(k as int, es@.len() as int);
            assert(rest.drop_first() =~= es@.subrange(k + 1, es@.len() as int));
            match es[k] {
                Edge::NodeRef(j) => {
                    if j < id {
                        self.gen_node_exec(j);
                    }
                },
                Edge::Atom(_) => {},
            }
            k += 1;
        }
        let ghost st1 = self.state();
        proof {
            assert(es@.subrange(es@.len() as int, es@.len() as int) =~= Seq::<Edge>::empty());
            assert(st0 == old(self).state());
            lemma_gen_edges_grows(cfg, st0, es@, id as int);
            assert(!st1.generated.contains_key(id));
            lemma_done_below(st1.generated, cfg.nodes.len(), id as int);
        }
        let expr = self.node_expr(&nodes[id]);
        let helper = match &nodes[id] {
            Node::ByteReverse(_) | Node::Truncate128Reverse(_) | Node::Truncate128(_) | Node::AppendU64Transform(_) => true,
            Node::TranscriptHash(TranscriptHashData::Poseidon(_), _, _) => true,
            _ => false,
        };
        if helper {
            self.uses_poseidon = true;
        }
        let inline_len = capped_len(&expr);
        let ref_count: usize = match self.ref_counts.get(&id) {
            Some(c) => *c,
            None => 1,
        };
        let is_global = match self.cse_context {
            CseContext::Global => true,
            CseContext::Constraint(_) => false,
        };
        let should = if is_global {
            ref_count > 1
        } else {
            ref_count > 1 || inline_len > 1000
        };
        assert(should == should_hoist(cfg, id, frags(expr@)));
        let ghost e = frags(expr@);
        let ghost g1 = self.state().generated;
        if should {
            let cse_idx = self.cse_counter;
            self.cse_counter = self.cse_counter + 1;
            let mut reference: Vec<ExprFragment> = Vec::new();
            match self.cse_context {
                CseContext::Global => reference.push(ExprFragment::GcseRef(cse_idx)),
                CseContext::Constraint(_) => reference.push(ExprFragment::CseRef(cse_idx)),
            }
            let ghost b0 = self.state().bindings;
            self.bindings.push((cse_idx, expr));
            self.generated.insert(id, reference);
            proof {
                assert(frags(reference@) =~= seq![ref_frag(cfg.global, cse_idx as nat)]);
                assert(self.state().generated =~= g1.insert(id, seq![ref_frag(cfg.global, cse_idx as nat)]));
                assert(self.state().bindings =~= b0.push((cse_idx, e)));
                assert(done_ids(self.state().generated, cfg.nodes.len()) =~= done_ids(g1, cfg.nodes.len()).insert(id as int));
                lemma_done_finite(g1, cfg.nodes.len());
            }
        } else {
            self.generated.insert(id, expr);
            proof {
                assert(self.state().generated =~= g1.insert(id, e));
                lemma_done_mono(g1, self.state().generated, cfg.nodes.len());
            }
        }
    }

    /// Generates the expression of node `root_node_id` in post-order, hoisting
    /// shared or overlong subexpressions, and returns the fragments by which
    /// the root is referred to.
    pub fn generate_expr(&mut self, root_node_id: usize) -> (r: Vec<ExprFragment>)
        requires
            root_node_id < old(self).cfg().nodes.len(),
            hash_free(old(self).cfg().nodes, root_node_id as int),
            old(self).wf(),
        ensures
            final(self).cfg() == old(self).cfg(),
            final(self).context() == old(self).context(),
            final(self).state() == gen_node(old(self).cfg(), old(self).state(), root_node_id as int),
            frags(r@) == edge_frags(final(self).cfg(), final(self).state().generated, Edge::NodeRef(root_node_id)),
            final(self).wf(),
    {
        self.gen_node_exec(root_node_id);
        self.edge_to_gnark_iterative(Edge::NodeRef(root_node_id))
    }
}

// ---------------------------------------------------------------------------
// Facts about generation in the global block
// ---------------------------------------------------------------------------

/// An expression without per-constraint references.
pub open spec fn cse_free(e: Seq<Frag>) -> bool {
    forall|k: int| 0 <= k < e.len() ==> !(#[trigger] e[k] is Cse)
}

/// Every expression and binding of a state is free of per-constraint references.
pub open spec fn state_cse_free(st: GenState) -> bool {
    &&& forall|i: usize| #[trigger] st.generated.contains_key(i) ==> cse_free(st.generated[i])
    &&& forall|k: int| 0 <= k < st.bindings.len() ==> cse_free(#[trigger] st.bindings[k].1)
}

proof fn lemma_cse_free_concat(a: Seq<Frag>, b: Seq<Frag>)
    requires
        cse_free(a),
        cse_free(b),
    ensures
        cse_free(a + b),
{
    assert forall|k: int| 0 <= k < (a + b).len() implies !(#[trigger] (a + b)[k] is Cse) by {
        if k < a.len() {
            assert((a + b)[k] == a[k]);
        } else {
            assert((a + b)[k] == b[k - a.len()]);
        }
    }
}

proof fn lemma_edge_cse_free(cfg: GenCfg, g: Map<usize, Seq<Frag>>, e: Edge)
    requires
        cfg.global,
        forall|i: usize| #[trigger] g.contains_key(i) ==> cse_free(g[i]),
    ensures
        cse_free(edge_frags(cfg, g, e)),
{
}

proof fn lemma_node_cse_free(cfg: GenCfg, g: Map<usize, Seq<Frag>>, n: Node)
    requires
        cfg.global,
        forall|i: usize| #[trigger] g.contains_key(i) ==> cse_free(g[i]),
    ensures
        cse_free(node_frags(cfg, g, n)),
{
    assert(forall|s: Seq<char>| cse_free(#[trigger] seq![lit(s)]));
    match n {
        Node::Atom(_) => {},
        Node::Add(a, b) | Node::Mul(a, b) | Node::Sub(a, b) => {
            lemma_edge_cse_free(cfg, g, a);
            lemma_edge_cse_free(cfg, g, b);
            let op = if n is Add { "Add"@ } else if n is Mul { "Mul"@ } else { "Sub"@ };
            lemma_cse_free_concat(seq![lit("api."@ + op + "("@)], edge_frags(cfg, g, a));
            lemma_cse_free_concat(seq![lit("api."@ + op + "("@)] + edge_frags(cfg, g, a), seq![lit(", "@)]);
            lemma_cse_free_concat(seq![lit("api."@ + op + "("@)] + edge_frags(cfg, g, a) + seq![lit(", "@)], edge_frags(cfg, g, b));
            lemma_cse_free_concat(seq![lit("api."@ + op + "("@)] + edge_frags(cfg, g, a) + seq![lit(", "@)] + edge_frags(cfg, g, b), seq![lit(")"@)]);
        },
        Node::Div(a, b) => {
            lemma_edge_cse_free(cfg, g, a);
            lemma_edge_cse_free(cfg, g, b);
            lemma_cse_free_concat(seq![lit("api.Mul("@)], edge_frags(cfg, g, a));
            lemma_cse_free_concat(seq![lit("api.Mul("@)] + edge_frags(cfg, g, a), seq![lit(", api.Inverse("@)]);
            lemma_cse_free_concat(seq![lit("api.Mul("@)] + edge_frags(cfg, g, a) + seq![lit(", api.Inverse("@)], edge_frags(cfg, g, b));
            lemma_cse_free_concat(seq![lit("api.Mul("@)] + edge_frags(cfg, g, a) + seq![lit(", api.Inverse("@)] + edge_frags(cfg, g, b), seq![lit("))"@)]);
        },
        Node::Neg(a) | Node::Inv(a) | Node::ByteReverse(a) | Node::Truncate128Reverse(a) | Node::Truncate128(a)
        | Node::AppendU64Transform(a) => {
            lemma_edge_cse_free(cfg, g, a);
            let f = match n {
                Node::Neg(_) => "api.Neg"@,
                Node::Inv(_) => "api.Inverse"@,
                Node::ByteReverse(_) => "poseidon.ByteReverse"@,
                Node::Truncate128Reverse(_) => "poseidon.Truncate128Reverse"@,
                Node::Truncate128(_) => "poseidon.Truncate128"@,
                _ => "poseidon.AppendU64Transform"@,
            };
            lemma_cse_free_concat(seq![lit(call_prefix(f))], edge_frags(cfg, g, a));
            lemma_cse_free_concat(seq![lit(call_prefix(f))] + edge_frags(cfg, g, a), seq![lit(")"@)]);
        },
        Node::TranscriptHash(h, s, r) => {
            match h {
                TranscriptHashData::Poseidon(d) => {
                    lemma_edge_cse_free(cfg, g, s);
                    lemma_edge_cse_free(cfg, g, r);
                    lemma_edge_cse_free(cfg, g, d);
                    let x0 = seq![lit("poseidon.Hash(api, "@)];
                    let x1 = x0 + edge_frags(cfg, g, s);
                    let x2 = x1 + seq![lit(", "@)];
                    let x3 = x2 + edge_frags(cfg, g, r);
                    let x4 = x3 + seq![lit(", "@)];
                    let x5 = x4 + edge_frags(cfg, g, d);
                    lemma_cse_free_concat(x0, edge_frags(cfg, g, s));
                    lemma_cse_free_concat(x1, seq![lit(", "@)]);
                    lemma_cse_free_concat(x2, edge_frags(cfg, g, r));
                    lemma_cse_free_concat(x3, seq![lit(", "@)]);
                    lemma_cse_free_concat(x4, edge_frags(cfg, g, d));
                    lemma_cse_free_concat(x5, seq![lit(")"@)]);
                },
                _ => {},
            }
        },
    }
}

/// Generation in the global block produces no per-constraint reference.
pub proof fn lemma_gen_node_cse_free(cfg: GenCfg, st: GenState, id: int)
    requires
        cfg.global,
        state_cse_free(st),
    ensures
        state_cse_free(gen_node(cfg, st, id)),
    decreases id, 1nat, 0nat,
{
    if id < 0 || id >= cfg.nodes.len() || id > usize::MAX || st.generated.contains_key(id as usize) || cfg.nodes[id] is Atom {
    } else {
        let st1 = gen_edges(cfg, st, node_edges(cfg.nodes[id]), id);
        lemma_gen_edges_cse_free(cfg, st, node_edges(cfg.nodes[id]), id);
        let e = node_frags(cfg, st1.generated, cfg.nodes[id]);
        lemma_node_cse_free(cfg, st1.generated, cfg.nodes[id]);
        let f = gen_node(cfg, st, id);
        assert(cse_free(seq![ref_frag(cfg.global, st1.counter)]));
        assert forall|k: int| 0 <= k < f.bindings.len() implies cse_free(#[trigger] f.bindings[k].1) by {
            if k < st1.bindings.len() {
                assert(f.bindings[k] == st1.bindings[k]);
            }
        }
    }
}

proof fn lemma_gen_edges_cse_free(cfg: GenCfg, st: GenState, es: Seq<Edge>, bound: int)
    requires
        cfg.global,
        state_cse_free(st),
    ensures
        state_cse_free(gen_edges(cfg, st, es, bound)),
    decreases bound, 0nat, es.len(),
{
    if es.len() > 0 {
        let st1 = match es[0] {
            Edge::NodeRef(j) => if (j as int) < bound {
                gen_node(cfg, st, j as int)
            } else {
                st
            },
            Edge::Atom(_) => st,
        };
        match es[0] {
            Edge::NodeRef(j) => if (j as int) < bound {
                lemma_gen_node_cse_free(cfg, st, j as int);
            },
            Edge::Atom(_) => {},
        }
        lemma_gen_edges_cse_free(cfg, st1, es.drop_first(), bound);
    }
}

/// The hoisted nodes that already have an expression.
pub open spec fn hoisted_done(cfg: GenCfg, g: Map<usize, Seq<Frag>>) -> Set<usize> {
    Set::new(|i: usize| cfg.hoist.contains(i) && g.contains_key(i))
}

/// In the global block the variable counter equals the number of hoisted
/// nodes that have an expression.
pub open spec fn global_count_ok(cfg: GenCfg, st: GenState) -> bool {
    st.counter == hoisted_done(cfg, st.generated).len()
}

proof fn lemma_hoisted_done_finite(cfg: GenCfg, g: Map<usize, Seq<Frag>>)
    requires
        cfg.hoist.finite(),
    ensures
        hoisted_done(cfg, g).finite(),
        hoisted_done(cfg, g).len() <= cfg.hoist.len(),
{
    vstd::set_lib::lemma_len_subset(hoisted_done(cfg, g), cfg.hoist);
}

/// Generation in the global block numbers exactly the hoisted nodes it
/// gives an expression.
pub proof fn lemma_gen_node_count(cfg: GenCfg, st: GenState, id: int)
    requires
        cfg.global,
        cfg.hoist.finite(),
        global_count_ok(cfg, st),
    ensures
        global_count_ok(cfg, gen_node(cfg, st, id)),
    decreases id, 1nat, 0nat,
{
    if id < 0 || id >= cfg.nodes.len() || id > usize::MAX || st.generated.contains_key(id as usize) || cfg.nodes[id] is Atom {
    } else {
        let st1 = gen_edges(cfg, st, node_edges(cfg.nodes[id]), id);
        lemma_gen_edges_count(cfg, st, node_edges(cfg.nodes[id]), id);
        lemma_gen_edges_grows(cfg, st, node_edges(cfg.nodes[id]), id);
        assert(!st1.generated.contains_key(id as usize));
        lemma_hoisted_done_finite(cfg, st1.generated);
        let f = gen_node(cfg, st, id);
        if cfg.hoist.contains(id as usize) {
            assert(hoisted_done(cfg, f.generated) =~= hoisted_done(cfg, st1.generated).insert(id as usize));
        } else {
            assert(hoisted_done(cfg, f.generated) =~= hoisted_done(cfg, st1.generated));
        }
    }
}

proof fn lemma_gen_edges_count(cfg: GenCfg, st: GenState, es: Seq<Edge>, bound: int)
    requires
        cfg.global,
        cfg.hoist.finite(),
        global_count_ok(cfg, st),
    ensures
        global_count_ok(cfg, gen_edges(cfg, st, es, bound)),
    decreases bound, 0nat, es.len(),
{
    if es.len() > 0 {
        let st1 = match es[0] {
            Edge::NodeRef(j) => if (j as int) < bound {
                gen_node(cfg, st, j as int)
            } else {
                st
            },
            Edge::Atom(_) => st,
        };
        match es[0] {
            Edge::NodeRef(j) => if (j as int) < bound {
                lemma_gen_node_count(cfg, st, j as int);
            },
            Edge::Atom(_) => {},
        }
        lemma_gen_edges_count(cfg, st1, es.drop_first(), bound);
    }
}

/// After generating node `id`, it has an expression unless it is an atom;
/// and expressions already present are kept.
pub proof fn lemma_gen_node_done(cfg: GenCfg, st: GenState, id: int)
    ensures
        st.generated.submap_of(gen_node(cfg, st, id).generated),
        0 <= id < cfg.nodes.len() && id <= usize::MAX ==> gen_node(cfg, st, id).generated.contains_key(id as usize)
            || cfg.nodes[id] is Atom,
{
    lemma_gen_node_grows(cfg, st, id);
}


// ---------------------------------------------------------------------------
// Hoisting keeps the meaning of every expression
// ---------------------------------------------------------------------------

/// The variable number of a fragment that refers to a variable of the
/// context (`gcse[k]` in the global block, `cse_K_k` in a constraint).
pub open spec fn ctx_ref(global: bool, f: Frag) -> Option<usize> {
    match f {
        Frag::Gcse(k) => if global { Some(k) } else { None },
        Frag::Cse(k) => if global { None } else { Some(k) },
        Frag::Lit(_) => None,
    }
}

/// An expression with each reference to a context variable below `n`
/// replaced, recursively, by the expression bound to it in `b`.
pub open spec fn expand(global: bool, e: Seq<Frag>, b: Seq<(usize, Seq<Frag>)>, n: nat) -> Seq<Frag>
    decreases n, e.len(),
{
    if e.len() == 0 {
        seq![]
    } else {
        let f = e.last();
        let last = match ctx_ref(global, f) {
            Some(k) => if (k as nat) < n && (k as int) < b.len() {
                expand(global, b[k as int].1, b, k as nat)
            } else {
                seq![f]
            },
            None => seq![f],
        };
        expand(global, e.drop_last(), b, n) + last
    }
}

/// The expansion of one fragment.
pub open spec fn expand_frag(global: bool, f: Frag, b: Seq<(usize, Seq<Frag>)>, n: nat) -> Seq<Frag> {
    match ctx_ref(global, f) {
        Some(k) => if (k as nat) < n && (k as int) < b.len() {
            expand(global, b[k as int].1, b, k as nat)
        } else {
            seq![f]
        },
        None => seq![f],
    }
}

/// Every context variable that `e` refers to is numbered below `n`.
pub open spec fn refs_below(global: bool, e: Seq<Frag>, n: nat) -> bool {
    forall|k: int| 0 <= k < e.len() && (#[trigger] ctx_ref(global, e[k])) is Some ==> (ctx_ref(global, e[k])->0 as nat) < n
}

/// Each binding refers only to variables bound before it.
pub open spec fn bindings_wf(global: bool, b: Seq<(usize, Seq<Frag>)>) -> bool {
    forall|k: int| 0 <= k < b.len() ==> refs_below(global, #[trigger] b[k].1, k as nat)
}

/// The same generator without hoisting: no shared ids and no length limit.
pub open spec fn unhoisted(cfg: GenCfg) -> GenCfg {
    GenCfg { nodes: cfg.nodes, hoist: Set::empty(), names: cfg.names, global: true }
}

/// An operand that is not a let-bound variable, directly or through the
/// atom node it refers to.
pub open spec fn edge_named_free(nodes: Seq<Node>, e: Edge) -> bool {
    match e {
        Edge::Atom(a) => !(a is NamedVar),
        Edge::NodeRef(j) => !(j < nodes.len() && nodes[j as int] matches Node::Atom(Atom::NamedVar(_))),
    }
}

/// No let-bound variable is an operand of node `id` or of any node below
/// it that generation reaches.
pub open spec fn named_free_from(nodes: Seq<Node>, id: int) -> bool
    decreases id, 1nat, 0nat,
{
    0 <= id < nodes.len() ==> edges_named_free(nodes, node_edges(nodes[id]), id)
}

/// The given operands of node `bound`, and what generation reaches through
/// them, hold no let-bound variable.
pub open spec fn edges_named_free(nodes: Seq<Node>, es: Seq<Edge>, bound: int) -> bool
    decreases bound, 0nat, es.len(),
{
    es.len() == 0 || (edge_named_free(nodes, es[0])
        && (es[0] is NodeRef && (es[0]->NodeRef_0 as int) < bound ==> named_free_from(nodes, es[0]->NodeRef_0 as int))
        && edges_named_free(nodes, es.drop_first(), bound))
}

proof fn lemma_edges_named_free_each(nodes: Seq<Node>, es: Seq<Edge>, bound: int)
    requires
        edges_named_free(nodes, es, bound),
    ensures
        forall|k: int| 0 <= k < es.len() ==> edge_named_free(nodes, #[trigger] es[k]),
    decreases es.len(),
{
    if es.len() > 0 {
        lemma_edges_named_free_each(nodes, es.drop_first(), bound);
        assert forall|k: int| 0 <= k < es.len() implies edge_named_free(nodes, #[trigger] es[k]) by {
            if k > 0 {
                assert(es[k] == es.drop_first()[k - 1]);
            }
        }
    }
}

/// `xh` (with hoisted references) expands to `xu` and refers only to bound variables.
pub open spec fn sim(global: bool, xh: Seq<Frag>, xu: Seq<Frag>, b: Seq<(usize, Seq<Frag>)>, c: nat) -> bool {
    expand(global, xh, b, c) == xu && refs_below(global, xh, c)
}

/// A hoisting generator's state `h` against an unhoisted one's `u`: the same
/// nodes have expressions, and each of `h` expands to that of `u`.
pub open spec fn gen_sim(cfg: GenCfg, h: GenState, u: GenState) -> bool {
    &&& forall|j: usize| #[trigger] h.generated.contains_key(j) <==> u.generated.contains_key(j)
    &&& forall|j: usize| #[trigger] h.generated.contains_key(j)
        ==> sim(cfg.global, h.generated[j], u.generated[j], h.bindings, h.counter)
    &&& h.bindings.len() == h.counter
    &&& (forall|k: int| 0 <= k < h.bindings.len() ==> (#[trigger] h.bindings[k]).0 == k)
    &&& bindings_wf(cfg.global, h.bindings)
    &&& h.counter <= done_ids(h.generated, cfg.nodes.len()).len()
}

proof fn lemma_expand_concat(global: bool, a: Seq<Frag>, c: Seq<Frag>, b: Seq<(usize, Seq<Frag>)>, n: nat)
    ensures
        expand(global, a + c, b, n) == expand(global, a, b, n) + expand(global, c, b, n),
    decreases c.len(),
{
    if c.len() == 0 {
        assert(a + c =~= a);
        assert(expand(global, a, b, n) + seq![] =~= expand(global, a, b, n));
    } else {
        assert((a + c).drop_last() =~= a + c.drop_last());
        assert((a + c).last() == c.last());
        lemma_expand_concat(global, a, c.drop_last(), b, n);
        assert(expand(global, a, b, n) + expand(global, c.drop_last(), b, n) + expand_frag(global, c.last(), b, n)
            =~= expand(global, a, b, n) + (expand(global, c.drop_last(), b, n) + expand_frag(global, c.last(), b, n)));
    }
}

proof fn lemma_refs_below_concat(global: bool, a: Seq<Frag>, c: Seq<Frag>, n: nat)
    requires
        refs_below(global, a, n),
        refs_below(global, c, n),
    ensures
        refs_below(global, a + c, n),
{
    assert forall|k: int| 0 <= k < (a + c).len() && (#[trigger] ctx_ref(global, (a + c)[k])) is Some
        implies (ctx_ref(global, (a + c)[k])->0 as nat) < n by {
        if k < a.len() {
            assert((a + c)[k] == a[k]);
        } else {
            assert((a + c)[k] == c[k - a.len()]);
        }
    }
}

proof fn lemma_sim_concat(global: bool, ah: Seq<Frag>, au: Seq<Frag>, ch: Seq<Frag>, cu: Seq<Frag>,
    b: Seq<(usize, Seq<Frag>)>, n: nat)
    requires
        sim(global, ah, au, b, n),
        sim(global, ch, cu, b, n),
    ensures
        sim(global, ah + ch, au + cu, b, n),
{
    lemma_expand_concat(global, ah, ch, b, n);
    lemma_refs_below_concat(global, ah, ch, n);
}

proof fn lemma_sim_lit(global: bool, s: Seq<char>, b: Seq<(usize, Seq<Frag>)>, n: nat)
    ensures
        sim(global, seq![lit(s)], seq![lit(s)], b, n),
{
    let e = seq![lit(s)];
    assert(e.drop_last() =~= Seq::<Frag>::empty());
    assert(expand(global, e.drop_last(), b, n) == Seq::<Frag>::empty());
    assert(Seq::<Frag>::empty() + seq![lit(s)] =~= e);
}

/// Expansion is unchanged by bindings added after the ones it reads.
proof fn lemma_expand_ext(global: bool, e: Seq<Frag>, b: Seq<(usize, Seq<Frag>)>, n: nat,
    b2: Seq<(usize, Seq<Frag>)>, n2: nat)
    requires
        refs_below(global, e, n),
        n <= b.len(),
        n <= n2,
        b.len() <= b2.len(),
        forall|k: int| 0 <= k < b.len() ==> #[trigger] b2[k] == b[k],
        bindings_wf(global, b),
    ensures
        expand(global, e, b, n) == expand(global, e, b2, n2),
    decreases n, e.len(),
{
    if e.len() > 0 {
        assert(refs_below(global, e.drop_last(), n)) by {
            assert forall|k: int| 0 <= k < e.drop_last().len() && (#[trigger] ctx_ref(global, e.drop_last()[k])) is Some
                implies (ctx_ref(global, e.drop_last()[k])->0 as nat) < n by {
                assert(e.drop_last()[k] == e[k]);
            }
        }
        lemma_expand_ext(global, e.drop_last(), b, n, b2, n2);
        let f = e.last();
        assert(ctx_ref(global, e[e.len() - 1]) == ctx_ref(global, f));
        match ctx_ref(global, f) {
            Some(k) => {
                assert(refs_below(global, b[k as int].1, k as nat));
                lemma_expand_ext(global, b[k as int].1, b, k as nat, b2, k as nat);
                assert(b2[k as int] == b[k as int]);
            },
            None => {},
        }
    }
}

/// An operand's fragments in a hoisting state expand to those in the
/// corresponding unhoisted state.
proof fn lemma_edge_sim(cfg: GenCfg, gh: Map<usize, Seq<Frag>>, gu: Map<usize, Seq<Frag>>,
    b: Seq<(usize, Seq<Frag>)>, c: nat, e: Edge)
    requires
        edge_named_free(cfg.nodes, e),
        forall|j: usize| #[trigger] gh.contains_key(j) <==> gu.contains_key(j),
        forall|j: usize| #[trigger] gh.contains_key(j) ==> sim(cfg.global, gh[j], gu[j], b, c),
    ensures
        sim(cfg.global, edge_frags(cfg, gh, e), edge_frags(unhoisted(cfg), gu, e), b, c),
{
    match e {
        Edge::Atom(a) => {
            match a {
                Atom::Scalar(v) => lemma_sim_lit(cfg.global, scalar_text(v), b, c),
                Atom::Var(i) => lemma_sim_lit(cfg.global, var_text(cfg.names, i), b, c),
                Atom::NamedVar(_) => {},
            }
        },
        Edge::NodeRef(j) => {
            if gh.contains_key(j) {
            } else if j < cfg.nodes.len() && cfg.nodes[j as int] is Atom {
                let i = j as int;
                assert(!(cfg.nodes[i] matches Node::Atom(Atom::NamedVar(_))));
                match cfg.nodes[i]->Atom_0 {
                    Atom::Scalar(v) => lemma_sim_lit(cfg.global, scalar_text(v), b, c),
                    Atom::Var(x) => lemma_sim_lit(cfg.global, var_text(cfg.names, x), b, c),
                    Atom::NamedVar(_) => {},
                }
            } else {
                assert(expand(cfg.global, Seq::<Frag>::empty(), b, c) =~= Seq::<Frag>::empty());
            }
        },
    }
}

/// A node's fragments in a hoisting state expand to those in the
/// corresponding unhoisted state.
proof fn lemma_node_sim(cfg: GenCfg, gh: Map<usize, Seq<Frag>>, gu: Map<usize, Seq<Frag>>,
    b: Seq<(usize, Seq<Frag>)>, c: nat, n: Node)
    requires
        forall|k: int| 0 <= k < node_edges(n).len() ==> edge_named_free(cfg.nodes, #[trigger] node_edges(n)[k]),
        forall|j: usize| #[trigger] gh.contains_key(j) <==> gu.contains_key(j),
        forall|j: usize| #[trigger] gh.contains_key(j) ==> sim(cfg.global, gh[j], gu[j], b, c),
    ensures
        sim(cfg.global, node_frags(cfg, gh, n), node_frags(unhoisted(cfg), gu, n), b, c),
{
    let gl = cfg.global;
    let cu = unhoisted(cfg);
    assert(forall|s: Seq<char>| sim(gl, #[trigger] seq![lit(s)], seq![lit(s)], b, c)) by {
        assert forall|s: Seq<char>| sim(gl, #[trigger] seq![lit(s)], seq![lit(s)], b, c) by {
            lemma_sim_lit(gl, s, b, c);
        }
    }
    match n {
        Node::Atom(_) => {
            assert(expand(cfg.global, Seq::<Frag>::empty(), b, c) =~= Seq::<Frag>::empty());
        },
        Node::Add(x, y) | Node::Mul(x, y) | Node::Sub(x, y) | Node::Div(x, y) => {
            assert(node_edges(n)[0] == x && node_edges(n)[1] == y);
            lemma_edge_sim(cfg, gh, gu, b, c, x);
            lemma_edge_sim(cfg, gh, gu, b, c, y);
            let (p0, p1, p2) = if n is Add {
                ("api."@ + "Add"@ + "("@, ", "@, ")"@)
            } else if n is Mul {
                ("api."@ + "Mul"@ + "("@, ", "@, ")"@)
            } else if n is Sub {
                ("api."@ + "Sub"@ + "("@, ", "@, ")"@)
            } else {
                ("api.Mul("@, ", api.Inverse("@, "))"@)
            };
            let (xh, xu) = (edge_frags(cfg, gh, x), edge_frags(cu, gu, x));
            let (yh, yu) = (edge_frags(cfg, gh, y), edge_frags(cu, gu, y));
            lemma_sim_concat(gl, seq![lit(p0)], seq![lit(p0)], xh, xu, b, c);
            lemma_sim_concat(gl, seq![lit(p0)] + xh, seq![lit(p0)] + xu, seq![lit(p1)], seq![lit(p1)], b, c);
            lemma_sim_concat(gl, seq![lit(p0)] + xh + seq![lit(p1)], seq![lit(p0)] + xu + seq![lit(p1)], yh, yu, b, c);
            lemma_sim_concat(gl, seq![lit(p0)] + xh + seq![lit(p1)] + yh, seq![lit(p0)] + xu + seq![lit(p1)] + yu,
                seq![lit(p2)], seq![lit(p2)], b, c);
        },
        Node::Neg(x) | Node::Inv(x) | Node::ByteReverse(x) | Node::Truncate128Reverse(x) | Node::Truncate128(x)
        | Node::AppendU64Transform(x) => {
            assert(node_edges(n)[0] == x);
            lemma_edge_sim(cfg, gh, gu, b, c, x);
            let f = match n {
                Node::Neg(_) => "api.Neg"@,
                Node::Inv(_) => "api.Inverse"@,
                Node::ByteReverse(_) => "poseidon.ByteReverse"@,
                Node::Truncate128Reverse(_) => "poseidon.Truncate128Reverse"@,
                Node::Truncate128(_) => "poseidon.Truncate128"@,
                _ => "poseidon.AppendU64Transform"@,
            };
            let (xh, xu) = (edge_frags(cfg, gh, x), edge_frags(cu, gu, x));
            lemma_sim_concat(gl, seq![lit(call_prefix(f))], seq![lit(call_prefix(f))], xh, xu, b, c);
            lemma_sim_concat(gl, seq![lit(call_prefix(f))] + xh, seq![lit(call_prefix(f))] + xu,
                seq![lit(")"@)], seq![lit(")"@)], b, c);
        },
        Node::TranscriptHash(h, s, r) => {
            match h {
                TranscriptHashData::Poseidon(d) => {
                    assert(node_edges(n)[0] == s && node_edges(n)[1] == r && node_edges(n)[2] == d);
                    lemma_edge_sim(cfg, gh, gu, b, c, s);
                    lemma_edge_sim(cfg, gh, gu, b, c, r);
                    lemma_edge_sim(cfg, gh, gu, b, c, d);
                    let (sh, su) = (edge_frags(cfg, gh, s), edge_frags(cu, gu, s));
                    let (rh, ru) = (edge_frags(cfg, gh, r), edge_frags(cu, gu, r));
                    let (dh, du) = (edge_frags(cfg, gh, d), edge_frags(cu, gu, d));
                    let p0 = seq![lit("poseidon.Hash(api, "@)];
                    let p1 = seq![lit(", "@)];
                    let p2 = seq![lit(")"@)];
                    lemma_sim_concat(gl, p0, p0, sh, su, b, c);
                    lemma_sim_concat(gl, p0 + sh, p0 + su, p1, p1, b, c);
                    lemma_sim_concat(gl, p0 + sh + p1, p0 + su + p1, rh, ru, b, c);
                    lemma_sim_concat(gl, p0 + sh + p1 + rh, p0 + su + p1 + ru, p1, p1, b, c);
                    lemma_sim_concat(gl, p0 + sh + p1 + rh + p1, p0 + su + p1 + ru + p1, dh, du, b, c);
                    lemma_sim_concat(gl, p0 + sh + p1 + rh + p1 + dh, p0 + su + p1 + ru + p1 + du, p2, p2, b, c);
                        },
                _ => {
                    assert(expand(cfg.global, Seq::<Frag>::empty(), b, c) =~= Seq::<Frag>::empty());
                },
            }
        },
    }
}

/// Generation with hoisting and without it, from corresponding states, ends
/// in corresponding states.
proof fn lemma_gen_node_sim(cfg: GenCfg, h: GenState, u: GenState, id: int)
    requires
        named_free_from(cfg.nodes, id),
        cfg.nodes.len() <= usize::MAX,
        gen_sim(cfg, h, u),
    ensures
        gen_sim(cfg, gen_node(cfg, h, id), gen_node(unhoisted(cfg), u, id)),
    decreases id, 1nat, 0nat,
{
    let cu = unhoisted(cfg);
    if id < 0 || id >= cfg.nodes.len() || id > usize::MAX || h.generated.contains_key(id as usize) || cfg.nodes[id] is Atom {
    } else {
        let n = cfg.nodes[id];
        let h1 = gen_edges(cfg, h, node_edges(n), id);
        let u1 = gen_edges(cu, u, node_edges(n), id);
        lemma_gen_edges_sim(cfg, h, u, node_edges(n), id);
        lemma_gen_edges_grows(cfg, h, node_edges(n), id);
        lemma_gen_node_grows(cfg, h, id);
        lemma_done_finite(h1.generated, cfg.nodes.len());
        assert(!h1.generated.contains_key(id as usize));
        assert(!u1.generated.contains_key(id as usize));
        assert(!u.generated.contains_key(id as usize));
        let eh = node_frags(cfg, h1.generated, n);
        let eu = node_frags(cu, u1.generated, n);
        lemma_edges_named_free_each(cfg.nodes, node_edges(n), id);
        lemma_node_sim(cfg, h1.generated, u1.generated, h1.bindings, h1.counter, n);
        let fh = gen_node(cfg, h, id);
        let fu = gen_node(cu, u, id);
        assert(!should_hoist(cu, id as usize, eu));
        assert(fu.generated == u1.generated.insert(id as usize, eu));
        if should_hoist(cfg, id as usize, eh) {
            let c1 = h1.counter;
            let b2 = fh.bindings;
            assert(c1 <= usize::MAX);
            assert(b2 == h1.bindings.push((c1 as usize, eh)));
            assert forall|k: int| 0 <= k < h1.bindings.len() implies #[trigger] b2[k] == h1.bindings[k] by {}
            assert forall|k: int| 0 <= k < b2.len() implies (#[trigger] b2[k]).0 == k by {
                if k < h1.bindings.len() {
                    assert(b2[k] == h1.bindings[k]);
                }
            }
            assert(bindings_wf(cfg.global, b2)) by {
                assert forall|k: int| 0 <= k < b2.len() implies refs_below(cfg.global, #[trigger] b2[k].1, k as nat) by {
                    if k < h1.bindings.len() {
                        assert(b2[k] == h1.bindings[k]);
                    }
                }
            }
            assert forall|j: usize| #[trigger] fh.generated.contains_key(j)
                implies sim(cfg.global, fh.generated[j], fu.generated[j], fh.bindings, fh.counter) by {
                if j == id as usize {
                    let r = seq![ref_frag(cfg.global, c1)];
                    assert(fh.generated[j] == r);
                    assert(ctx_ref(cfg.global, r[0]) == Some(c1 as usize));
                    assert(r.drop_last() =~= Seq::<Frag>::empty());
                    assert(expand(cfg.global, r.drop_last(), b2, c1 + 1) == Seq::<Frag>::empty());
                    assert(b2[c1 as int].1 == eh);
                    lemma_expand_ext(cfg.global, eh, h1.bindings, c1, b2, c1);
                    assert(expand(cfg.global, r, b2, c1 + 1) =~= Seq::<Frag>::empty() + expand(cfg.global, eh, b2, c1));
                    assert(expand(cfg.global, r, b2, c1 + 1) =~= eu);
                    assert(fu.generated[j] == eu);
                } else {
                    assert(h1.generated.contains_key(j));
                    assert(fh.generated[j] == h1.generated[j]);
                    assert(fu.generated[j] == u1.generated[j]);
                    lemma_expand_ext(cfg.global, h1.generated[j], h1.bindings, c1, b2, c1 + 1);
                }
            }
        } else {
            assert forall|j: usize| #[trigger] fh.generated.contains_key(j)
                implies sim(cfg.global, fh.generated[j], fu.generated[j], fh.bindings, fh.counter) by {
                if j != id as usize {
                    assert(h1.generated.contains_key(j));
                }
            }
        }
    }
}

proof fn lemma_gen_edges_sim(cfg: GenCfg, h: GenState, u: GenState, es: Seq<Edge>, bound: int)
    requires
        edges_named_free(cfg.nodes, es, bound),
        cfg.nodes.len() <= usize::MAX,
        gen_sim(cfg, h, u),
    ensures
        gen_sim(cfg, gen_edges(cfg, h, es, bound), gen_edges(unhoisted(cfg), u, es, bound)),
    decreases bound, 0nat, es.len(),
{
    if es.len() > 0 {
        match es[0] {
            Edge::NodeRef(j) => if (j as int) < bound {
                lemma_gen_node_sim(cfg, h, u, j as int);
                lemma_gen_edges_sim(cfg, gen_node(cfg, h, j as int), gen_node(unhoisted(cfg), u, j as int),
                    es.drop_first(), bound);
            } else {
                lemma_gen_edges_sim(cfg, h, u, es.drop_first(), bound);
            },
            Edge::Atom(_) => {
                lemma_gen_edges_sim(cfg, h, u, es.drop_first(), bound);
            },
        }
    }
}

/// Hoisting keeps the meaning of every expression: after generating node
/// `id` from a state with no variable bound yet, the same nodes have
/// expressions as without hoisting, and replacing each variable reference
/// by the expression bound to it (recursively) gives back, for every node,
/// exactly the expression generated without hoisting. The variables are
/// numbered in order, each binding refers only to variables bound before
/// it, and every expression only to bound variables. Stated for roots from
/// which generation reaches no let-bound atom, whose names would collide
/// with hoisted ones.
pub proof fn law_hoisting_preserves_expressions(cfg: GenCfg, st: GenState, id: int)
    requires
        named_free_from(cfg.nodes, id),
        cfg.nodes.len() <= usize::MAX,
        st.bindings.len() == 0,
        st.counter == 0,
        forall|j: usize| #[trigger] st.generated.contains_key(j) ==> refs_below(cfg.global, st.generated[j], 0),
    ensures
        ({
            let h = gen_node(cfg, st, id);
            let u = gen_node(unhoisted(cfg), st, id);
            &&& forall|j: usize| #[trigger] h.generated.contains_key(j) <==> u.generated.contains_key(j)
            &&& forall|j: usize| #[trigger] h.generated.contains_key(j)
                ==> expand(cfg.global, h.generated[j], h.bindings, h.counter) == u.generated[j]
                    && refs_below(cfg.global, h.generated[j], h.counter)
            &&& h.bindings.len() == h.counter
            &&& forall|k: int| 0 <= k < h.bindings.len() ==> (#[trigger] h.bindings[k]).0 == k
            &&& bindings_wf(cfg.global, h.bindings)
        }),
{
    assert forall|j: usize| #[trigger] st.generated.contains_key(j)
        implies sim(cfg.global, st.generated[j], st.generated[j], st.bindings, st.counter) by {
        lemma_expand_none(cfg.global, st.generated[j], st.bindings);
    }
    lemma_gen_node_sim(cfg, st, st, id);
}

proof fn lemma_expand_none(global: bool, e: Seq<Frag>, b: Seq<(usize, Seq<Frag>)>)
    ensures
        expand(global, e, b, 0) == e,
    decreases e.len(),
{
    if e.len() > 0 {
        lemma_expand_none(global, e.drop_last(), b);
        assert(e.drop_last().push(e.last()) =~= e);
    }
}


// ---------------------------------------------------------------------------
// What the generated expressions mean
// ---------------------------------------------------------------------------

/// The text of fragments that are all literal text, laid end to end.
pub open spec fn frags_text(fs: Seq<Frag>) -> Option<Seq<char>>
    decreases fs.len(),
{
    if fs.len() == 0 {
        Some(seq![])
    } else {
        match (frags_text(fs.drop_last()), fs.last()) {
            (Some(t), Frag::Lit(x)) => Some(t + x),
            _ => None,
        }
    }
}

proof fn lemma_frags_text_concat(a: Seq<Frag>, b: Seq<Frag>)
    requires
        frags_text(a) is Some,
        frags_text(b) is Some,
    ensures
        frags_text(a + b) == Some(frags_text(a)->0 + frags_text(b)->0),
    decreases b.len(),
{
    if b.len() == 0 {
        assert(a + b =~= a);
        assert(frags_text(a)->0 + Seq::<char>::empty() =~= frags_text(a)->0);
    } else {
        lemma_frags_text_concat(a, b.drop_last());
        assert((a + b).drop_last() =~= a + b.drop_last());
        assert((a + b).last() == b.last());
        if let Frag::Lit(x) = b.last() {
            assert(frags_text(a)->0 + frags_text(b.drop_last())->0 + x =~= frags_text(a)->0 + (frags_text(b.drop_last())->0 + x));
        }
    }
}

proof fn lemma_frags_text_lit(x: Seq<char>)
    ensures
        frags_text(seq![lit(x)]) == Some(x),
{
    let one = seq![lit(x)];
    assert(one.drop_last() =~= Seq::<Frag>::empty());
    assert(frags_text(Seq::<Frag>::empty()) == Some(Seq::<char>::empty()));
    assert(one.last() == Frag::Lit(x));
    assert(Seq::<char>::empty() + x =~= x);
}

/// The Go expression the circuit generator writes for node `id`: every
/// operand in place, a quotient written `api.Mul(a, api.Inverse(b))`.
pub open spec fn gnark_go(nodes: Seq<Node>, id: int) -> GoExpr
    decreases id, 1nat,
{
    if id < 0 || id >= nodes.len() {
        GoExpr::Const([0u64, 0u64, 0u64, 0u64])
    } else {
        match nodes[id] {
            Node::Atom(a) => atom_go(a),
            Node::Add(l, r) => GoExpr::Call2(GoFn::Add, Box::new(gnark_edge_go(nodes, l, id)), Box::new(gnark_edge_go(nodes, r, id))),
            Node::Sub(l, r) => GoExpr::Call2(GoFn::Sub, Box::new(gnark_edge_go(nodes, l, id)), Box::new(gnark_edge_go(nodes, r, id))),
            Node::Mul(l, r) => GoExpr::Call2(GoFn::Mul, Box::new(gnark_edge_go(nodes, l, id)), Box::new(gnark_edge_go(nodes, r, id))),
            Node::Div(l, r) => GoExpr::Call2(GoFn::Mul, Box::new(gnark_edge_go(nodes, l, id)),
                Box::new(GoExpr::Call1(GoFn::Inverse, Box::new(gnark_edge_go(nodes, r, id))))),
            Node::Neg(e) => GoExpr::Call1(GoFn::Neg, Box::new(gnark_edge_go(nodes, e, id))),
            Node::Inv(e) => GoExpr::Call1(GoFn::Inverse, Box::new(gnark_edge_go(nodes, e, id))),
            _ => GoExpr::Const([0u64, 0u64, 0u64, 0u64]),
        }
    }
}

/// The Go expression of an operand of node `bound`.
pub open spec fn gnark_edge_go(nodes: Seq<Node>, e: Edge, bound: int) -> GoExpr
    decreases bound, 0nat,
{
    match e {
        Edge::Atom(a) => atom_go(a),
        Edge::NodeRef(j) => if 0 <= j < bound { gnark_go(nodes, j as int) } else { GoExpr::Const([0u64, 0u64, 0u64, 0u64]) },
    }
}

/// Every expression generated so far is literal text that writes the Go
/// expression of its node.
pub open spec fn texts_ok(cfg: GenCfg, g: Map<usize, Seq<Frag>>) -> bool {
    forall|j: usize| #[trigger] g.contains_key(j) ==> frags_text(g[j]) == Some(render(gnark_go(cfg.nodes, j as int), true, cfg.names))
}

/// The value of a node's Go expression is the node's value.
proof fn lemma_gnark_go_value(nodes: Seq<Node>, w: Map<u16, [u64; 4]>, id: int)
    requires
        arith_from(nodes, id),
    ensures
        go_eval(gnark_go(nodes, id), w) == node_eval(nodes, w, id),
    decreases id, 1nat,
{
    match nodes[id] {
        Node::Atom(_) => {},
        Node::Add(l, r) | Node::Sub(l, r) | Node::Mul(l, r) => {
            lemma_gnark_edge_value(nodes, w, l, id);
            lemma_gnark_edge_value(nodes, w, r, id);
        },
        Node::Div(l, r) => {
            lemma_gnark_edge_value(nodes, w, l, id);
            lemma_gnark_edge_value(nodes, w, r, id);
            let inner = GoExpr::Call1(GoFn::Inverse, Box::new(gnark_edge_go(nodes, r, id)));
            assert(go_eval(inner, w) == match crate::ast_evaluator::edge_eval(nodes, w, r, id) {
                Some(y) => if y == 0 { None } else { Some(field_inv(y)) },
                None => None,
            });
        },
        Node::Neg(e) | Node::Inv(e) => {
            lemma_gnark_edge_value(nodes, w, e, id);
        },
        _ => {},
    }
}

proof fn lemma_gnark_edge_value(nodes: Seq<Node>, w: Map<u16, [u64; 4]>, e: Edge, bound: int)
    requires
        arith_edge(nodes, e, bound),
    ensures
        go_eval(gnark_edge_go(nodes, e, bound), w) == crate::ast_evaluator::edge_eval(nodes, w, e, bound),
    decreases bound, 0nat,
{
    if let Edge::NodeRef(j) = e {
        lemma_gnark_go_value(nodes, w, j as int);
    }
}

proof fn lemma_edge_frags_text(cfg: GenCfg, g: Map<usize, Seq<Frag>>, e: Edge, bound: int)
    requires
        texts_ok(cfg, g),
        arith_edge(cfg.nodes, e, bound),
        e matches Edge::NodeRef(j) ==> g.contains_key(j) || cfg.nodes[j as int] is Atom,
    ensures
        frags_text(edge_frags(cfg, g, e)) == Some(render(gnark_edge_go(cfg.nodes, e, bound), true, cfg.names)),
{
    match e {
        Edge::Atom(a) => {
            match a {
                Atom::Scalar(v) => lemma_frags_text_lit(scalar_text(v)),
                Atom::Var(i) => lemma_frags_text_lit(var_text(cfg.names, i)),
                Atom::NamedVar(_) => {},
            }
        },
        Edge::NodeRef(j) => {
            if g.contains_key(j) {
            } else {
                let a = cfg.nodes[j as int]->Atom_0;
                match a {
                    Atom::Scalar(v) => lemma_frags_text_lit(scalar_text(v)),
                    Atom::Var(i) => lemma_frags_text_lit(var_text(cfg.names, i)),
                    Atom::NamedVar(_) => {},
                }
            }
        },
    }
}

#[verifier::rlimit(60)]
proof fn lemma_node_frags_text(cfg: GenCfg, g: Map<usize, Seq<Frag>>, id: int)
    requires
        texts_ok(cfg, g),
        arith_from(cfg.nodes, id),
        !(cfg.nodes[id] is Atom),
        forall|k: int| 0 <= k < node_edges(cfg.nodes[id]).len() ==> (#[trigger] node_edges(cfg.nodes[id])[k] matches Edge::NodeRef(j)
            ==> g.contains_key(j) || cfg.nodes[j as int] is Atom),
    ensures
        frags_text(node_frags(cfg, g, cfg.nodes[id])) == Some(render(gnark_go(cfg.nodes, id), true, cfg.names)),
{
    lemma_circuit_openings();
    let nm = cfg.names;
    let nodes = cfg.nodes;
    match nodes[id] {
        Node::Add(x, y) | Node::Sub(x, y) | Node::Mul(x, y) | Node::Div(x, y) => {
            assert(node_edges(nodes[id])[0] == x && node_edges(nodes[id])[1] == y);
            lemma_edge_frags_text(cfg, g, x, id);
            lemma_edge_frags_text(cfg, g, y, id);
            let tx = render(gnark_edge_go(nodes, x, id), true, nm);
            let ty = render(gnark_edge_go(nodes, y, id), true, nm);
            let (p0, p1, p2) = if nodes[id] is Add {
                ("api."@ + "Add"@ + "("@, ", "@, ")"@)
            } else if nodes[id] is Sub {
                ("api."@ + "Sub"@ + "("@, ", "@, ")"@)
            } else if nodes[id] is Mul {
                ("api."@ + "Mul"@ + "("@, ", "@, ")"@)
            } else {
                ("api.Mul("@, ", api.Inverse("@, "))"@)
            };
            let ex = edge_frags(cfg, g, x);
            let ey = edge_frags(cfg, g, y);
            lemma_frags_text_lit(p0);
            lemma_frags_text_lit(p1);
            lemma_frags_text_lit(p2);
            lemma_frags_text_concat(seq![lit(p0)], ex);
            lemma_frags_text_concat(seq![lit(p0)] + ex, seq![lit(p1)]);
            lemma_frags_text_concat(seq![lit(p0)] + ex + seq![lit(p1)], ey);
            lemma_frags_text_concat(seq![lit(p0)] + ex + seq![lit(p1)] + ey, seq![lit(p2)]);
            assert(node_frags(cfg, g, nodes[id]) == seq![lit(p0)] + ex + seq![lit(p1)] + ey + seq![lit(p2)]);
            if nodes[id] is Div {
                let inner = GoExpr::Call1(GoFn::Inverse, Box::new(gnark_edge_go(nodes, y, id)));
                assert(render(inner, true, nm) == fn_name(GoFn::Inverse) + "("@ + ty + ")"@);
                assert(render(gnark_go(nodes, id), true, nm)
                    == fn_name(GoFn::Mul) + "("@ + tx + ", "@ + (fn_name(GoFn::Inverse) + "("@ + ty + ")"@) + ")"@);
                assert(p0 + tx + p1 + ty + p2
                    =~= fn_name(GoFn::Mul) + "("@ + tx + ", "@ + (fn_name(GoFn::Inverse) + "("@ + ty + ")"@) + ")"@);
            } else {
                let f = if nodes[id] is Add { GoFn::Add } else if nodes[id] is Sub { GoFn::Sub } else { GoFn::Mul };
                assert(render(gnark_go(nodes, id), true, nm) == fn_name(f) + "("@ + tx + ", "@ + ty + ")"@);
                assert(p0 + tx + p1 + ty + p2 =~= fn_name(f) + "("@ + tx + ", "@ + ty + ")"@);
            }
        },
        Node::Neg(x) | Node::Inv(x) => {
            assert(node_edges(nodes[id])[0] == x);
            lemma_edge_frags_text(cfg, g, x, id);
            let tx = render(gnark_edge_go(nodes, x, id), true, nm);
            let (fname, f) = if nodes[id] is Neg { ("api.Neg"@, GoFn::Neg) } else { ("api.Inverse"@, GoFn::Inverse) };
            let p0 = call_prefix(fname);
            assert(p0 == fname + "("@);
            let ex = edge_frags(cfg, g, x);
            lemma_frags_text_lit(p0);
            lemma_frags_text_lit(")"@);
            lemma_frags_text_concat(seq![lit(p0)], ex);
            lemma_frags_text_concat(seq![lit(p0)] + ex, seq![lit(")"@)]);
            assert(render(gnark_go(nodes, id), true, nm) == fn_name(f) + "("@ + tx + ")"@);
            assert(p0 + tx + ")"@ =~= fn_name(f) + "("@ + tx + ")"@);
        },
        _ => {},
    }
}

proof fn lemma_gen_node_texts(cfg: GenCfg, st: GenState, id: int)
    requires
        cfg.hoist == Set::<usize>::empty(),
        cfg.global,
        texts_ok(cfg, st.generated),
        0 <= id < cfg.nodes.len() ==> arith_from(cfg.nodes, id),
    ensures
        texts_ok(cfg, gen_node(cfg, st, id).generated),
    decreases id, 1nat, 0nat,
{
    if id < 0 || id >= cfg.nodes.len() || id > usize::MAX || st.generated.contains_key(id as usize) || cfg.nodes[id] is Atom {
    } else {
        let n = cfg.nodes[id];
        let es = node_edges(n);
        assert forall|k: int| 0 <= k < es.len() implies arith_edge(cfg.nodes, #[trigger] es[k], id) by {
            match n {
                Node::Neg(_) | Node::Inv(_) => {},
                _ => {},
            }
        }
        lemma_gen_edges_texts(cfg, st, es, id);
        lemma_gen_edges_grows(cfg, st, es, id);
        let st1 = gen_edges(cfg, st, es, id);
        assert forall|k: int| 0 <= k < es.len() implies (#[trigger] es[k] matches Edge::NodeRef(j)
            ==> st1.generated.contains_key(j) || cfg.nodes[j as int] is Atom) by {
            if let Edge::NodeRef(j) = es[k] {
                assert(arith_edge(cfg.nodes, es[k], id));
            }
        }
        lemma_node_frags_text(cfg, st1.generated, id);
        let e = node_frags(cfg, st1.generated, n);
        assert(!should_hoist(cfg, id as usize, e));
        let f = gen_node(cfg, st, id);
        assert(f.generated == st1.generated.insert(id as usize, e));
    }
}

proof fn lemma_gen_edges_texts(cfg: GenCfg, st: GenState, es: Seq<Edge>, bound: int)
    requires
        cfg.hoist == Set::<usize>::empty(),
        cfg.global,
        texts_ok(cfg, st.generated),
        forall|k: int| 0 <= k < es.len() ==> arith_edge(cfg.nodes, #[trigger] es[k], bound),
    ensures
        texts_ok(cfg, gen_edges(cfg, st, es, bound).generated),
    decreases bound, 0nat, es.len(),
{
    if es.len() > 0 {
        assert(arith_edge(cfg.nodes, es[0], bound));
        assert forall|k: int| 0 <= k < es.drop_first().len() implies arith_edge(cfg.nodes, #[trigger] es.drop_first()[k], bound) by {
            assert(es.drop_first()[k] == es[k + 1]);
        }
        match es[0] {
            Edge::NodeRef(j) => if (j as int) < bound {
                lemma_gen_node_texts(cfg, st, j as int);
                lemma_gen_edges_texts(cfg, gen_node(cfg, st, j as int), es.drop_first(), bound);
            } else {
                lemma_gen_edges_texts(cfg, st, es.drop_first(), bound);
            },
            Edge::Atom(_) => {
                lemma_gen_edges_texts(cfg, st, es.drop_first(), bound);
            },
        }
    }
}

/// The Go expression the circuit generator writes for a node means what the
/// node computes: for field arithmetic, generating node `id` without
/// hoisting gives literal Go text that writes an expression whose value
/// under gnark's `api` operations is the node's value under every
/// assignment of the inputs (and has none exactly when the node has none,
/// as for a quotient by zero). A quotient is the numerator times the
/// inverse of the denominator. With hoisting, each expression expands to
/// this one (`law_hoisting_preserves_expressions`).
pub proof fn law_gnark_expression_denotes_value(cfg: GenCfg, w: Map<u16, [u64; 4]>, id: int)
    requires
        arith_from(cfg.nodes, id),
        cfg.nodes.len() <= usize::MAX,
    ensures
        ({
            let u = gen_node(unhoisted(cfg), GenState { generated: Map::empty(), bindings: seq![], counter: 0, poseidon: false }, id);
            &&& frags_text(edge_frags(unhoisted(cfg), u.generated, Edge::NodeRef(id as usize)))
                == Some(render(gnark_go(cfg.nodes, id), true, cfg.names))
            &&& go_eval(gnark_go(cfg.nodes, id), w) == node_eval(cfg.nodes, w, id)
        }),
{
    let cu = unhoisted(cfg);
    let st0 = GenState { generated: Map::empty(), bindings: seq![], counter: 0, poseidon: false };
    assert(cu.hoist == Set::<usize>::empty());
    lemma_gen_node_texts(cu, st0, id);
    lemma_gen_node_grows(cu, st0, id);
    let u = gen_node(cu, st0, id);
    let j = id as usize;
    if u.generated.contains_key(j) {
        assert(texts_ok(cu, u.generated));
        assert(frags_text(u.generated[j]) == Some(render(gnark_go(cfg.nodes, j as int), true, cfg.names)));
    } else {
        let a = cfg.nodes[id]->Atom_0;
        match a {
            Atom::Scalar(v) => lemma_frags_text_lit(scalar_text(v)),
            Atom::Var(i) => lemma_frags_text_lit(var_text(cfg.names, i)),
            Atom::NamedVar(_) => {},
        }
    }
    lemma_gnark_go_value(cfg.nodes, w, id);
}


proof fn lemma_arith_named_free(nodes: Seq<Node>, id: int)
    requires
        arith_from(nodes, id),
    ensures
        named_free_from(nodes, id),
    decreases id, 1nat,
{
    let es = node_edges(nodes[id]);
    assert forall|k: int| 0 <= k < es.len() implies arith_edge(nodes, #[trigger] es[k], id) by {}
    lemma_arith_edges_named_free(nodes, es, id);
}

proof fn lemma_arith_edges_named_free(nodes: Seq<Node>, es: Seq<Edge>, bound: int)
    requires
        forall|k: int| 0 <= k < es.len() ==> arith_edge(nodes, #[trigger] es[k], bound),
    ensures
        edges_named_free(nodes, es, bound),
    decreases bound, 0nat, es.len(),
{
    if es.len() > 0 {
        assert(arith_edge(nodes, es[0], bound));
        if let Edge::NodeRef(j) = es[0] {
            lemma_arith_named_free(nodes, j as int);
        }
        assert forall|k: int| 0 <= k < es.drop_first().len() implies arith_edge(nodes, #[trigger] es.drop_first()[k], bound) by {
            assert(es.drop_first()[k] == es[k + 1]);
        }
        lemma_arith_edges_named_free(nodes, es.drop_first(), bound);
    }
}

/// What the circuit generator writes for a node of field arithmetic, with
/// hoisting, means what the node computes: replacing each hoisted variable
/// by the expression bound to it gives literal Go text that writes an
/// expression whose value under gnark's `api` operations is the node's
/// value under every assignment of the inputs.
pub proof fn law_hoisted_expression_denotes_value(cfg: GenCfg, w: Map<u16, [u64; 4]>, id: int)
    requires
        arith_from(cfg.nodes, id),
        !(cfg.nodes[id] is Atom),
        cfg.nodes.len() <= usize::MAX,
    ensures
        ({
            let h = gen_node(cfg, GenState { generated: Map::empty(), bindings: seq![], counter: 0, poseidon: false }, id);
            &&& h.generated.contains_key(id as usize)
            &&& frags_text(expand(cfg.global, h.generated[id as usize], h.bindings, h.counter))
                == Some(render(gnark_go(cfg.nodes, id), true, cfg.names))
            &&& go_eval(gnark_go(cfg.nodes, id), w) == node_eval(cfg.nodes, w, id)
        }),
{
    let st0 = GenState { generated: Map::empty(), bindings: seq![], counter: 0, poseidon: false };
    lemma_arith_named_free(cfg.nodes, id);
    law_hoisting_preserves_expressions(cfg, st0, id);
    law_gnark_expression_denotes_value(cfg, w, id);
    lemma_gen_node_grows(cfg, st0, id);
    let u = gen_node(unhoisted(cfg), st0, id);
    lemma_gen_node_grows(unhoisted(cfg), st0, id);
    assert(u.generated.contains_key(id as usize));
}

} // verus!
