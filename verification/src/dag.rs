//! Inspecting expression DAGs: building a sample polynomial, counting how
//! often nodes are reached, collecting input variables, a standalone circuit
//! around one expression, and Graphviz (DOT) renderings of the DAG.

use vstd::prelude::*;
use std::collections::HashMap;
use crate::codegen::{args_vars, atom_vars, edge_vars, node_vars};
use crate::mle_ast::{arena_wf, children_of, edge_child, edge_of, node_edge_vec, node_edges, valid, Arena, Atom, Edge, MleAst, Node};
use crate::sorted::{insert_sorted, strictly_sorted};
use crate::codegen::{push_var_fields, var_fields};
use crate::sorted::{lemma_sorted_elems, sorted_elems};
use crate::text::{contains_text, dec, has_sub, push_dec, push_str, push_tab_lines_from, string_chars, tab_lines, text_lines, text_of};

verus! {

// ---------------------------------------------------------------------------
// Children of a node
// ---------------------------------------------------------------------------

/// The node ids referred to by two operands (`get_edge_children`).
pub fn get_edge_children(e1: &Edge, e2: &Edge) -> (r: Vec<usize>)
    ensures
        r@ == edge_child(*e1) + edge_child(*e2),
{
    let mut children: Vec<usize> = Vec::new();
    if let Edge::NodeRef(id) = e1 {
        children.push(*id);
    }
    if let Edge::NodeRef(id) = e2 {
        children.push(*id);
    }
    assert(children@ =~= edge_child(*e1) + edge_child(*e2));
    children
}

/// The node id referred to by one operand, if any (`get_single_edge_child`).
pub fn get_single_edge_child(e: &Edge) -> (r: Vec<usize>)
    ensures
        r@ == edge_child(*e),
{
    let mut children: Vec<usize> = Vec::new();
    if let Edge::NodeRef(id) = e {
        children.push(*id);
    }
    assert(children@ =~= edge_child(*e));
    children
}

/// The node ids referred to by the three operands of a hash
/// (`get_poseidon_children`).
pub fn get_poseidon_children(e1: &Edge, e2: &Edge, e3: &Edge) -> (r: Vec<usize>)
    ensures
        r@ == edge_child(*e1) + edge_child(*e2) + edge_child(*e3),
{
    let mut children: Vec<usize> = Vec::new();
    if let Edge::NodeRef(id) = e1 {
        children.push(*id);
    }
    if let Edge::NodeRef(id) = e2 {
        children.push(*id);
    }
    if let Edge::NodeRef(id) = e3 {
        children.push(*id);
    }
    assert(children@ =~= edge_child(*e1) + edge_child(*e2) + edge_child(*e3));
    children
}

proof fn lemma_children_of_concat(a: Seq<Edge>, b: Seq<Edge>)
    ensures
        children_of(a + b) == children_of(a) + children_of(b),
    decreases a.len(),
{
    if a.len() == 0 {
        assert(a + b =~= b);
        assert(children_of(a) + children_of(b) =~= children_of(b));
    } else {
        assert((a + b).drop_first() =~= a.drop_first() + b);
        lemma_children_of_concat(a.drop_first(), b);
        assert(children_of(a + b) =~= edge_child(a[0]) + children_of(a.drop_first() + b));
    }
}

/// The node ids a node refers to, in operand order.
pub fn node_children(n: &Node) -> (r: Vec<usize>)
    ensures
        r@ == children_of(node_edges(*n)),
{
    let es = node_edge_vec(n);
    let mut r: Vec<usize> = Vec::new();
    let mut i: usize = 0;
    while i < es.len()
        invariant
            i <= es@.len(),
            es@ == node_edges(*n),
            r@ == children_of(es@.subrange(0, i as int)),
        decreases es@.len() - i,
    {
        proof {
            assert(es@.subrange(0, i + 1) =~= es@.subrange(0, i as int) + seq![es@[i as int]]);
            lemma_children_of_concat(es@.subrange(0, i as int), seq![es@[i as int]]);
            let one = seq![es@[i as int]];
            assert(one.drop_first() =~= Seq::<Edge>::empty());
            assert(children_of(one.drop_first()) == Seq::<usize>::empty());
            assert(children_of(one) =~= edge_child(es@[i as int]));
        }
        if let Edge::NodeRef(id) = es[i] {
            r.push(id);
        }
        i += 1;
    }
    assert(es@.subrange(0, es@.len() as int) =~= es@);
    r
}

// ---------------------------------------------------------------------------
// A sample polynomial
// ---------------------------------------------------------------------------

/// The quadratic polynomial `a + b*x + c*x²`, built as
/// `(a + b*x) + c*(x*x)`.
pub fn quadratic(arena: &mut Arena, a: MleAst, b: MleAst, c: MleAst, x: MleAst) -> (r: MleAst)
    requires
        old(arena)@.len() + 5 < usize::MAX,
        arena_wf(old(arena)@),
        valid(old(arena)@, a),
        valid(old(arena)@, b),
        valid(old(arena)@, c),
        valid(old(arena)@, x),
    ensures
        ({
            let s = old(arena)@;
            let n = s.len();
            final(arena)@ == s + seq![
                Node::Mul(edge_of(s, b), edge_of(s, x)),
                Node::Mul(edge_of(s, x), edge_of(s, x)),
                Node::Mul(edge_of(s, c), Edge::NodeRef((n + 1) as usize)),
                Node::Add(edge_of(s, a), Edge::NodeRef(n as usize)),
                Node::Add(Edge::NodeRef((n + 3) as usize), Edge::NodeRef((n + 2) as usize)),
            ]
        }),
        r.root == old(arena)@.len() + 4,
        arena_wf(final(arena)@),
{
    let ghost s = arena@;
    let bx = MleAst::mul(arena, b, x);
    let ghost s1 = arena@;
    assert(edge_of(s1, x) == edge_of(s, x) && edge_of(s1, c) == edge_of(s, c) && edge_of(s1, a) == edge_of(s, a)) by {
        assert(s1[x.root as int] == s[x.root as int]);
        assert(s1[c.root as int] == s[c.root as int]);
        assert(s1[a.root as int] == s[a.root as int]);
    }
    let x_squared = MleAst::mul(arena, x, x);
    let ghost s2 = arena@;
    assert(edge_of(s2, c) == edge_of(s, c) && edge_of(s2, a) == edge_of(s, a)) by {
        assert(s2[c.root as int] == s[c.root as int]);
        assert(s2[a.root as int] == s[a.root as int]);
    }
    assert(edge_of(s2, x_squared) == Edge::NodeRef((s.len() + 1) as usize));
    let cx2 = MleAst::mul(arena, c, x_squared);
    let ghost s3 = arena@;
    assert(edge_of(s3, a) == edge_of(s, a)) by {
        assert(s3[a.root as int] == s[a.root as int]);
    }
    assert(edge_of(s3, bx) == Edge::NodeRef(s.len() as usize));
    let t = MleAst::add(arena, a, bx);
    let ghost s4 = arena@;
    assert(edge_of(s4, t) == Edge::NodeRef((s.len() + 3) as usize));
    assert(edge_of(s4, cx2) == Edge::NodeRef((s.len() + 2) as usize));
    let r = MleAst::add(arena, t, cx2);
    assert(arena@ =~= s + seq![
        Node::Mul(edge_of(s, b), edge_of(s, x)),
        Node::Mul(edge_of(s, x), edge_of(s, x)),
        Node::Mul(edge_of(s, c), Edge::NodeRef((s.len() + 1) as usize)),
        Node::Add(edge_of(s, a), Edge::NodeRef(s.len() as usize)),
        Node::Add(Edge::NodeRef((s.len() + 3) as usize), Edge::NodeRef((s.len() + 2) as usize)),
    ]);
    r
}

// ---------------------------------------------------------------------------
// Collecting input variables
// ---------------------------------------------------------------------------

/// Adds every input variable of the expression rooted at node `node_id`
/// to the increasing vector `vars` (`collect_vars`).
pub fn collect_vars(nodes: &[Node], node_id: usize, vars: &mut Vec<u16>)
    requires
        node_id < nodes@.len(),
        strictly_sorted(old(vars)@),
    ensures
        strictly_sorted(final(vars)@),
        final(vars)@.to_set() == old(vars)@.to_set().union(node_vars(nodes@, node_id as int)),
    decreases node_id, 2nat, 0nat,
{
    match &nodes[node_id] {
        Node::Atom(Atom::Var(v)) => {
            insert_sorted(vars, *v);
            assert(vars@.to_set() =~= old(vars)@.to_set().union(node_vars(nodes@, node_id as int)));
        },
        Node::Atom(_) => {
            assert(vars@.to_set() =~= old(vars)@.to_set().union(node_vars(nodes@, node_id as int)));
        },
        _ => {
            let es = node_edge_vec(&nodes[node_id]);
            collect_vars_from_edges(nodes, &es, node_id, vars);
        },
    }
}

/// Adds the input variables reachable through the given operands of node `bound`.
fn collect_vars_from_edges(nodes: &[Node], es: &Vec<Edge>, bound: usize, vars: &mut Vec<u16>)
    requires
        bound < nodes@.len(),
        strictly_sorted(old(vars)@),
    ensures
        strictly_sorted(final(vars)@),
        final(vars)@.to_set() == old(vars)@.to_set().union(args_vars(nodes@, es@, bound as int)),
    decreases bound, 1nat, 0nat,
{
    let mut i: usize = 0;
    assert(es@.subrange(0, es@.len() as int) =~= es@);
    while i < es.len()
        invariant
            i <= es@.len(),
            bound < nodes@.len(),
            strictly_sorted(vars@),
            old(vars)@.to_set().union(args_vars(nodes@, es@, bound as int))
                == vars@.to_set().union(args_vars(nodes@, es@.subrange(i as int, es@.len() as int), bound as int)),
        decreases es@.len() - i,
    {
        let ghost rest = es@.subrange(i as int, es@.len() as int);
        let ghost v0 = vars@.to_set();
        assert(rest.drop_first() =~= es@.subrange(i + 1, es@.len() as int));
        collect_vars_from_edge(nodes, &es[i], bound, vars);
        i += 1;
        proof {
            assert(v0.union(args_vars(nodes@, rest, bound as int))
                =~= vars@.to_set().union(args_vars(nodes@, es@.subrange(i as int, es@.len() as int), bound as int)));
        }
    }
    assert(es@.subrange(i as int, es@.len() as int) =~= Seq::<Edge>::empty());
    assert(vars@.to_set().union(Set::<u16>::empty()) =~= vars@.to_set());
}

/// Adds the input variables reachable through an operand of node `bound`
/// (`collect_vars_from_edge`).
pub fn collect_vars_from_edge(nodes: &[Node], edge: &Edge, bound: usize, vars: &mut Vec<u16>)
    requires
        bound < nodes@.len(),
        strictly_sorted(old(vars)@),
    ensures
        strictly_sorted(final(vars)@),
        final(vars)@.to_set() == old(vars)@.to_set().union(edge_vars(nodes@, *edge, bound as int)),
    decreases bound, 0nat, 0nat,
{
    match edge {
        Edge::NodeRef(id) => {
            if *id < bound {
                collect_vars(nodes, *id, vars);
            } else {
                assert(vars@.to_set() =~= old(vars)@.to_set().union(edge_vars(nodes@, *edge, bound as int)));
            }
        },
        Edge::Atom(Atom::Var(v)) => {
            insert_sorted(vars, *v);
            assert(vars@.to_set() =~= old(vars)@.to_set().union(edge_vars(nodes@, *edge, bound as int)));
        },
        Edge::Atom(_) => {
            assert(vars@.to_set() =~= old(vars)@.to_set().union(edge_vars(nodes@, *edge, bound as int)));
        },
    }
}

// ---------------------------------------------------------------------------
// Counting references
// ---------------------------------------------------------------------------

/// One more, saturating at the largest `usize`.
pub open spec fn bump(c: usize) -> usize {
    if c < usize::MAX { (c + 1) as usize } else { c }
}

/// The counts after reaching node `id` once more: its count goes up, and on
/// the first reach every operand node is reached in turn.
pub open spec fn count_node(nodes: Seq<Node>, m: Map<usize, usize>, id: int) -> Map<usize, usize>
    decreases id, 1nat, 0nat,
{
    if id < 0 || id > usize::MAX {
        m
    } else {
        let c = bump(if m.contains_key(id as usize) { m[id as usize] } else { 0 });
        let m1 = m.insert(id as usize, c);
        if c > 1 || id >= nodes.len() {
            m1
        } else {
            count_edges(nodes, m1, node_edges(nodes[id]), id)
        }
    }
}

/// The counts after reaching, in turn, the nodes the given operands of node
/// `bound` refer to.
pub open spec fn count_edges(nodes: Seq<Node>, m: Map<usize, usize>, es: Seq<Edge>, bound: int) -> Map<usize, usize>
    decreases bound, 0nat, es.len(),
{
    if es.len() == 0 {
        m
    } else {
        let m1 = match es[0] {
            Edge::NodeRef(j) => if (j as int) < bound { count_node(nodes, m, j as int) } else { m },
            Edge::Atom(_) => m,
        };
        count_edges(nodes, m1, es.drop_first(), bound)
    }
}

/// Counts how often each node is reached from node `node_id`: a node is
/// counted once per operand that refers to it from a node reached for the
/// first time, plus once for the root (`count_all_refs`). Counts saturate at
/// the largest `usize`.
pub fn count_all_refs(nodes: &[Node], node_id: usize, ref_counts: &mut HashMap<usize, usize>)
    requires
        node_id < nodes@.len(),
    ensures
        final(ref_counts)@ == count_node(nodes@, old(ref_counts)@, node_id as int),
    decreases node_id, 1nat, 0nat,
{
    let cur: usize = match ref_counts.get(&node_id) {
        Some(c) => *c,
        None => 0,
    };
    let count = cur.saturating_add(1);
    ref_counts.insert(node_id, count);
    if count > 1 {
        return;
    }
    let es = node_edge_vec(&nodes[node_id]);
    let ghost m1 = ref_counts@;
    let mut i: usize = 0;
    assert(es@.subrange(0, es@.len() as int) =~= es@);
    while i < es.len()
        invariant
            i <= es@.len(),
            node_id < nodes@.len(),
            count_edges(nodes@, ref_counts@, es@.subrange(i as int, es@.len() as int), node_id as int)
                == count_edges(nodes@, m1, es@, node_id as int),
        decreases es@.len() - i,
    {
        let ghost rest = es@.subrange(i as int, es@.len() as int);
        assert(rest.drop_first() =~= es@.subrange(i + 1, es@.len() as int));
        count_refs_from_edge(nodes, &es[i], node_id, ref_counts);
        i += 1;
    }
    assert(es@.subrange(i as int, es@.len() as int) =~= Seq::<Edge>::empty());
}

/// Reaches the node an operand of node `bound` refers to, if any
/// (`count_refs_from_edge`).
pub fn count_refs_from_edge(nodes: &[Node], edge: &Edge, bound: usize, ref_counts: &mut HashMap<usize, usize>)
    requires
        bound < nodes@.len(),
    ensures
        final(ref_counts)@ == match *edge {
            Edge::NodeRef(j) => if j < bound { count_node(nodes@, old(ref_counts)@, j as int) } else { old(ref_counts)@ },
            Edge::Atom(_) => old(ref_counts)@,
        },
    decreases bound, 0nat, 0nat,
{
    if let Edge::NodeRef(id) = edge {
        if *id < bound {
            count_all_refs(nodes, *id, ref_counts);
        }
    }
}

// ---------------------------------------------------------------------------
// Graphviz rendering
// ---------------------------------------------------------------------------

/// The label of a node in the DOT rendering.
pub open spec fn dot_label(n: Node) -> Seq<char> {
    match n {
        Node::Atom(Atom::Var(v)) => "X_"@ + dec(v as nat),
        Node::Atom(Atom::Scalar(s)) => dec(crate::scalar::limbs_val(s)),
        Node::Atom(Atom::NamedVar(i)) => "cse_"@ + dec(i as nat),
        Node::Add(_, _) => "Add"@,
        Node::Mul(_, _) => "Mul"@,
        Node::Sub(_, _) => "Sub"@,
        Node::Div(_, _) => "Div"@,
        Node::Neg(_) => "Neg"@,
        Node::Inv(_) => "Inv"@,
        Node::TranscriptHash(h, _, _) => match h {
            crate::mle_ast::TranscriptHashData::Poseidon(_) => "Poseidon"@,
            crate::mle_ast::TranscriptHashData::Blake2b(_) => "Blake2b"@,
            crate::mle_ast::TranscriptHashData::Keccak(_) => "Keccak"@,
        },
        Node::ByteReverse(_) => "ByteReverse"@,
        Node::Truncate128Reverse(_) => "Truncate128Reverse"@,
        Node::Truncate128(_) => "Truncate128"@,
        Node::AppendU64Transform(_) => "AppendU64Transform"@,
    }
}

/// The fill color of a node in the DOT rendering.
pub open spec fn dot_color(n: Node) -> Seq<char> {
    match n {
        Node::Atom(Atom::Var(_)) => "lightblue"@,
        Node::Atom(Atom::Scalar(_)) => "lightgray"@,
        Node::Atom(Atom::NamedVar(_)) => "lightcyan"@,
        Node::Add(_, _) => "lightyellow"@,
        Node::Mul(_, _) => "lightgreen"@,
        Node::Sub(_, _) => "lightpink"@,
        Node::Div(_, _) => "lightsalmon"@,
        Node::TranscriptHash(h, _, _) => match h {
            crate::mle_ast::TranscriptHashData::Poseidon(_) => "orange"@,
            _ => "purple"@,
        },
        _ => "white"@,
    }
}

/// How often node `id` was reached, by the counts (one if absent).
pub open spec fn refs_of(counts: Map<usize, usize>, id: usize) -> usize {
    if counts.contains_key(id) { counts[id] } else { 1 }
}

/// The DOT line declaring node `id`; with counts, a shared node (reached
/// more than once) is drawn with a red border and its count.
pub open spec fn node_line(id: usize, n: Node, counts: Option<Map<usize, usize>>) -> Seq<char> {
    match counts {
        None => "  n"@ + dec(id as nat) + " [label=\"["@ + dec(id as nat) + "] "@ + dot_label(n) + "\" style=filled fillcolor=\""@
            + dot_color(n) + "\"];\n"@,
        Some(m) => {
            let shared = refs_of(m, id) > 1;
            "  n"@ + dec(id as nat) + " [label=\""@ + shared_label(id, n, refs_of(m, id)) + "\" style=filled fillcolor=\""@ + dot_color(n)
                + "\" color=\""@ + (if shared { "red"@ } else { dot_color(n) }) + "\" penwidth="@
                + (if shared { "3"@ } else { "1"@ }) + "];\n"@
        },
    }
}

/// The label of a node that may be shared: `[id] label`, followed by
/// `\n(refs: k)` (a backslash and an `n`) when it was reached `k > 1` times.
pub open spec fn shared_label(id: usize, n: Node, k: usize) -> Seq<char> {
    if k > 1 {
        "["@ + dec(id as nat) + "] "@ + dot_label(n) + "\\n(refs: "@ + dec(k as nat) + ")"@
    } else {
        "["@ + dec(id as nat) + "] "@ + dot_label(n)
    }
}

/// The DOT line of the edge from node `id` to node `c`; with counts, an
/// edge into a shared node is drawn red.
pub open spec fn edge_line(id: usize, c: usize, counts: Option<Map<usize, usize>>) -> Seq<char> {
    match counts {
        Some(m) => if refs_of(m, c) > 1 {
            "  n"@ + dec(id as nat) + " -> n"@ + dec(c as nat) + " [color=red penwidth=2];\n"@
        } else {
            "  n"@ + dec(id as nat) + " -> n"@ + dec(c as nat) + ";\n"@
        },
        None => "  n"@ + dec(id as nat) + " -> n"@ + dec(c as nat) + ";\n"@,
    }
}

/// The edge lines of node `id` to each of `cs`, in order.
pub open spec fn edge_lines(id: usize, cs: Seq<usize>, counts: Option<Map<usize, usize>>) -> Seq<char>
    decreases cs.len(),
{
    if cs.len() == 0 {
        seq![]
    } else {
        edge_lines(id, cs.drop_last(), counts) + edge_line(id, cs.last(), counts)
    }
}

/// Depth-first rendering from node `id`: a node not yet visited is declared
/// with its edges, then its children are rendered from the last to the first
/// (the order a stack gives). Returns the visited set and the text.
pub open spec fn dot_visit(nodes: Seq<Node>, counts: Option<Map<usize, usize>>, vis: Set<usize>, id: int) -> (Set<usize>, Seq<char>)
    decreases id, 1nat, 0nat,
{
    if id < 0 || id >= nodes.len() || id > usize::MAX || vis.contains(id as usize) {
        (vis, seq![])
    } else {
        let cs = children_of(node_edges(nodes[id]));
        let r = dot_visit_children(nodes, counts, vis.insert(id as usize), cs, cs.len(), id);
        (r.0, node_line(id as usize, nodes[id], counts) + edge_lines(id as usize, cs, counts) + r.1)
    }
}

/// Rendering of children `cs[k-1]`, ..., `cs[0]` of node `bound`, in that order.
pub open spec fn dot_visit_children(nodes: Seq<Node>, counts: Option<Map<usize, usize>>, vis: Set<usize>, cs: Seq<usize>,
    k: nat, bound: int) -> (Set<usize>, Seq<char>)
    decreases bound, 0nat, k,
{
    if k == 0 || k > cs.len() {
        (vis, seq![])
    } else {
        let c = cs[k - 1];
        let r1 = if (c as int) < bound { dot_visit(nodes, counts, vis, c as int) } else { (vis, seq![]) };
        let r2 = dot_visit_children(nodes, counts, r1.0, cs, (k - 1) as nat, bound);
        (r2.0, r1.1 + r2.1)
    }
}

/// The set of ids flagged in a visited vector.
pub open spec fn visited_set(v: Seq<bool>) -> Set<usize> {
    Set::new(|i: usize| (i as int) < v.len() && v[i as int])
}

/// The label of a node.
fn dot_label_string(n: &Node) -> (r: String)
    ensures
        r@ == dot_label(*n),
{
    match n {
        Node::Atom(Atom::Var(v)) => {
            let mut s = text_of("X_");
            push_dec(&mut s, *v as u64);
            s
        },
        Node::Atom(Atom::Scalar(l)) => crate::text::scalar_decimal(*l),
        Node::Atom(Atom::NamedVar(i)) => {
            let mut s = text_of("cse_");
            push_dec(&mut s, *i as u64);
            s
        },
        Node::Add(_, _) => text_of("Add"),
        Node::Mul(_, _) => text_of("Mul"),
        Node::Sub(_, _) => text_of("Sub"),
        Node::Div(_, _) => text_of("Div"),
        Node::Neg(_) => text_of("Neg"),
        Node::Inv(_) => text_of("Inv"),
        Node::TranscriptHash(h, _, _) => match h {
            crate::mle_ast::TranscriptHashData::Poseidon(_) => text_of("Poseidon"),
            crate::mle_ast::TranscriptHashData::Blake2b(_) => text_of("Blake2b"),
            crate::mle_ast::TranscriptHashData::Keccak(_) => text_of("Keccak"),
        },
        Node::ByteReverse(_) => text_of("ByteReverse"),
        Node::Truncate128Reverse(_) => text_of("Truncate128Reverse"),
        Node::Truncate128(_) => text_of("Truncate128"),
        Node::AppendU64Transform(_) => text_of("AppendU64Transform"),
    }
}

/// The fill color of a node.
fn dot_color_string(n: &Node) -> (r: String)
    ensures
        r@ == dot_color(*n),
{
    match n {
        Node::Atom(Atom::Var(_)) => text_of("lightblue"),
        Node::Atom(Atom::Scalar(_)) => text_of("lightgray"),
        Node::Atom(Atom::NamedVar(_)) => text_of("lightcyan"),
        Node::Add(_, _) => text_of("lightyellow"),
        Node::Mul(_, _) => text_of("lightgreen"),
        Node::Sub(_, _) => text_of("lightpink"),
        Node::Div(_, _) => text_of("lightsalmon"),
        Node::TranscriptHash(h, _, _) => match h {
            crate::mle_ast::TranscriptHashData::Poseidon(_) => text_of("orange"),
            _ => text_of("purple"),
        },
        _ => text_of("white"),
    }
}

/// How often a node was reached, by the counts (one if absent).
fn refs_of_exec(counts: &HashMap<usize, usize>, id: usize) -> (r: usize)
    ensures
        r == refs_of(counts@, id),
{
    match counts.get(&id) {
        Some(c) => *c,
        None => 1,
    }
}

/// The view of optional counts.
pub open spec fn counts_view(counts: Option<&HashMap<usize, usize>>) -> Option<Map<usize, usize>> {
    match counts {
        Some(m) => Some(m@),
        None => None,
    }
}

/// The DOT line declaring a node.
fn node_line_string(id: usize, n: &Node, counts: Option<&HashMap<usize, usize>>) -> (r: String)
    ensures
        r@ == node_line(id, *n, counts_view(counts)),
{
    let label = dot_label_string(n);
    let color = dot_color_string(n);
    let mut s = text_of("  n");
    push_dec(&mut s, id as u64);
    match counts {
        None => {
            push_str(&mut s, " [label=\"[");
            push_dec(&mut s, id as u64);
            push_str(&mut s, "] ");
            push_str(&mut s, label.as_str());
            push_str(&mut s, "\" style=filled fillcolor=\"");
            push_str(&mut s, color.as_str());
            push_str(&mut s, "\"];\n");
        },
        Some(m) => {
            let k = refs_of_exec(m, id);
            let mut lbl = text_of("[");
            push_dec(&mut lbl, id as u64);
            push_str(&mut lbl, "] ");
            push_str(&mut lbl, label.as_str());
            if k > 1 {
                push_str(&mut lbl, "\\n(refs: ");
                push_dec(&mut lbl, k as u64);
                push_str(&mut lbl, ")");
            }
            assert(lbl@ == shared_label(id, *n, k));
            let border = if k > 1 { text_of("red") } else { dot_color_string(n) };
            let pw = if k > 1 { text_of("3") } else { text_of("1") };
            push_str(&mut s, " [label=\"");
            push_str(&mut s, lbl.as_str());
            push_str(&mut s, "\" style=filled fillcolor=\"");
            push_str(&mut s, color.as_str());
            push_str(&mut s, "\" color=\"");
            push_str(&mut s, border.as_str());
            push_str(&mut s, "\" penwidth=");
            push_str(&mut s, pw.as_str());
            push_str(&mut s, "];\n");
        },
    }
    s
}

/// The DOT line of an edge.
fn edge_line_string(id: usize, c: usize, counts: Option<&HashMap<usize, usize>>) -> (r: String)
    ensures
        r@ == edge_line(id, c, counts_view(counts)),
{
    let mut s = text_of("  n");
    push_dec(&mut s, id as u64);
    push_str(&mut s, " -> n");
    push_dec(&mut s, c as u64);
    let red = match counts {
        Some(m) => refs_of_exec(m, c) > 1,
        None => false,
    };
    if red {
        push_str(&mut s, " [color=red penwidth=2];\n");
    } else {
        push_str(&mut s, ";\n");
    }
    s
}

/// Renders node `id` and what is below it, depth first.
fn dot_visit_exec(nodes: &[Node], counts: Option<&HashMap<usize, usize>>, visited: &mut Vec<bool>, id: usize) -> (r: String)
    requires
        old(visited)@.len() == nodes@.len(),
    ensures
        final(visited)@.len() == nodes@.len(),
        visited_set(final(visited)@) == dot_visit(nodes@, counts_view(counts), visited_set(old(visited)@), id as int).0,
        r@ == dot_visit(nodes@, counts_view(counts), visited_set(old(visited)@), id as int).1,
    decreases id, 1nat,
{
    let ghost cv = counts_view(counts);
    if id >= nodes.len() || visited[id] {
        return String::new();
    }
    let ghost v0 = visited_set(visited@);
    visited.set(id, true);
    assert(visited_set(visited@) =~= v0.insert(id));
    let cs = node_children(&nodes[id]);
    let mut s = node_line_string(id, &nodes[id], counts);
    let ghost head = s@;
    let mut k: usize = 0;
    while k < cs.len()
        invariant
            k <= cs@.len(),
            cv == counts_view(counts),
            s@ == head + edge_lines(id, cs@.subrange(0, k as int), cv),
        decreases cs@.len() - k,
    {
        let e = edge_line_string(id, cs[k], counts);
        let ghost s0 = s@;
        push_str(&mut s, e.as_str());
        proof {
            assert(cs@.subrange(0, k + 1).drop_last() =~= cs@.subrange(0, k as int));
            vstd::seq_lib::lemma_concat_associative(head, edge_lines(id, cs@.subrange(0, k as int), cv), e@);
        }
        k += 1;
    }
    assert(cs@.subrange(0, cs@.len() as int) =~= cs@);
    let ghost before = s@;
    let ghost target = dot_visit_children(nodes@, cv, v0.insert(id), cs@, cs@.len(), id as int);
    let mut j: usize = cs.len();
    while j > 0
        invariant
            j <= cs@.len(),
            cv == counts_view(counts),
            id < nodes@.len(),
            visited@.len() == nodes@.len(),
            dot_visit_children(nodes@, cv, visited_set(visited@), cs@, j as nat, id as int).0 == target.0,
            s@ + dot_visit_children(nodes@, cv, visited_set(visited@), cs@, j as nat, id as int).1 == before + target.1,
        decreases j,
    {
        let c = cs[j - 1];
        let ghost vj = visited_set(visited@);
        let ghost s0 = s@;
        if c < id {
            let t = dot_visit_exec(nodes, counts, visited, c);
            push_str(&mut s, t.as_str());
        }
        proof {
            let r1 = if (c as int) < id { dot_visit(nodes@, cv, vj, c as int) } else { (vj, seq![]) };
            let r2 = dot_visit_children(nodes@, cv, r1.0, cs@, (j - 1) as nat, id as int);
            assert(visited_set(visited@) == r1.0);
            assert(s@ == s0 + r1.1) by {
                if !((c as int) < id) {
                    assert(s0 + r1.1 =~= s0);
                }
            }
            vstd::seq_lib::lemma_concat_associative(s0, r1.1, r2.1);
        }
        j -= 1;
    }
    proof {
        assert(s@ + Seq::<char>::empty() =~= s@);
        vstd::seq_lib::lemma_concat_associative(head, edge_lines(id, cs@, cv), target.1);
    }
    s
}

/// The DOT text of a rendering: the graph header, the nodes and edges, and
/// the closing brace.
pub open spec fn dot_text(name: Seq<char>, body: Seq<char>) -> Seq<char> {
    "digraph "@ + name + " {\n"@ + "  rankdir=TB;\n"@ + "  node [shape=box, fontname=\"monospace\"];\n\n"@ + body + "}\n"@
}

/// All nodes unvisited.
fn unvisited(n: usize) -> (r: Vec<bool>)
    ensures
        r@.len() == n,
        visited_set(r@) == Set::<usize>::empty(),
{
    let mut r: Vec<bool> = Vec::new();
    let mut t: usize = 0;
    while t < n
        invariant
            t <= n,
            r@.len() == t,
            forall|j: int| 0 <= j < t ==> !r@[j],
        decreases n - t,
    {
        r.push(false);
        t += 1;
    }
    assert(visited_set(r@) =~= Set::<usize>::empty());
    r
}

/// Renders the DAG below `root` in DOT format (`export_ast_to_dot`).
pub fn export_ast_to_dot(nodes: &[Node], root: usize, name: &str) -> (r: String)
    ensures
        r@ == dot_text(name@, dot_visit(nodes@, None, Set::empty(), root as int).1),
{
    let mut visited = unvisited(nodes.len());
    let body = dot_visit_exec(nodes, None, &mut visited, root);
    let mut dot = text_of("digraph ");
    push_str(&mut dot, name);
    push_str(&mut dot, " {\n");
    push_str(&mut dot, "  rankdir=TB;\n");
    push_str(&mut dot, "  node [shape=box, fontname=\"monospace\"];\n\n");
    push_str(&mut dot, body.as_str());
    push_str(&mut dot, "}\n");
    dot
}

/// Renders the DAG below `root` in DOT format, marking shared nodes (those
/// reached more than once, by `count_all_refs`) and the edges into them in
/// red (`export_ast_to_dot_with_sharing`).
pub fn export_ast_to_dot_with_sharing(nodes: &[Node], root: usize, name: &str) -> (r: String)
    requires
        root < nodes@.len(),
    ensures
        r@ == dot_text(name@, dot_visit(nodes@, Some(count_node(nodes@, Map::empty(), root as int)), Set::empty(), root as int).1),
{
    let mut ref_counts: HashMap<usize, usize> = HashMap::new();
    count_all_refs(nodes, root, &mut ref_counts);
    let mut visited = unvisited(nodes.len());
    let body = dot_visit_exec(nodes, Some(&ref_counts), &mut visited, root);
    let mut dot = text_of("digraph ");
    push_str(&mut dot, name);
    push_str(&mut dot, " {\n");
    push_str(&mut dot, "  rankdir=TB;\n");
    push_str(&mut dot, "  node [shape=box, fontname=\"monospace\"];\n\n");
    push_str(&mut dot, body.as_str());
    push_str(&mut dot, "}\n");
    dot
}

// ---------------------------------------------------------------------------
// A standalone circuit for one expression
// ---------------------------------------------------------------------------

/// The import line of the Poseidon gadget, present when the code calls it.
pub open spec fn poseidon_import(bindings: Seq<char>, expr: Seq<char>) -> Seq<char> {
    if has_sub(bindings, "poseidon.Hash"@) || has_sub(expr, "poseidon.Hash"@) {
        "\t\"github.com/vocdoni/gnark-prover-tinygo/std/hash/poseidon\"\n"@
    } else {
        seq![]
    }
}

/// The memoized bindings, one per line behind a tab, under a comment; nothing
/// when there are none.
pub open spec fn bindings_block(bindings: Seq<char>) -> Seq<char> {
    if bindings.len() == 0 {
        seq![]
    } else {
        "\t// Memoized subexpressions\n"@ + tab_lines(text_lines(bindings)) + "\n"@
    }
}

/// Package and imports.
pub open spec fn simple_head(bindings: Seq<char>, expr: Seq<char>) -> Seq<char> {
    "package jolt_verifier\n\n"@ + "import (\n"@ + "\t\"github.com/consensys/gnark/frontend\"\n"@
        + poseidon_import(bindings, expr) + ")\n\n"@
}

/// The circuit struct: one public input per variable and the expected result.
pub open spec fn simple_struct(name: Seq<char>, vars: Seq<u16>) -> Seq<char> {
    "type "@ + name + " struct {\n"@ + var_fields(vars) + "\tExpectedResult frontend.Variable `gnark:\",public\"`\n"@
        + "}\n\n"@
}

/// The `Define` method: the bindings, then the assertion that the expression
/// equals the expected result.
pub open spec fn simple_define(name: Seq<char>, bindings: Seq<char>, expr: Seq<char>) -> Seq<char> {
    "func (circuit *"@ + name + ") Define(api frontend.API) error {\n"@ + bindings_block(bindings)
        + "\tresult := "@ + expr + "\n"@ + "\tapi.AssertIsEqual(result, circuit.ExpectedResult)\n\n"@
        + "\treturn nil\n"@ + "}\n"@
}

/// The Go file of a standalone circuit.
pub open spec fn simple_circuit_text(name: Seq<char>, vars: Seq<u16>, bindings: Seq<char>, expr: Seq<char>) -> Seq<char> {
    simple_head(bindings, expr) + simple_struct(name, vars) + simple_define(name, bindings, expr)
}

fn simple_head_string(bindings: &str, expr: &str) -> (r: String)
    ensures
        r@ == simple_head(bindings@, expr@),
{
    let mut out = text_of("package jolt_verifier\n\n");
    push_str(&mut out, "import (\n");
    push_str(&mut out, "\t\"github.com/consensys/gnark/frontend\"\n");
    if contains_text(bindings, "poseidon.Hash") || contains_text(expr, "poseidon.Hash") {
        push_str(&mut out, "\t\"github.com/vocdoni/gnark-prover-tinygo/std/hash/poseidon\"\n");
    }
    push_str(&mut out, ")\n\n");
    assert(out@ =~= simple_head(bindings@, expr@));
    out
}

fn simple_struct_string(name: &str, vars: &Vec<u16>) -> (r: String)
    ensures
        r@ == simple_struct(name@, vars@),
{
    let mut out = text_of("type ");
    push_str(&mut out, name);
    push_str(&mut out, " struct {\n");
    push_var_fields(&mut out, vars);
    push_str(&mut out, "\tExpectedResult frontend.Variable `gnark:\",public\"`\n");
    push_str(&mut out, "}\n\n");
    assert(out@ =~= simple_struct(name@, vars@));
    out
}

fn bindings_block_string(bindings: &str) -> (r: String)
    ensures
        r@ == bindings_block(bindings@),
{
    let cs = string_chars(bindings);
    if cs.len() == 0 {
        let out = String::new();
        assert(out@ =~= bindings_block(bindings@));
        return out;
    }
    let mut out = text_of("\t// Memoized subexpressions\n");
    push_tab_lines_from(&mut out, &cs, 0);
    push_str(&mut out, "\n");
    assert(out@ =~= bindings_block(bindings@));
    out
}

fn simple_define_string(name: &str, bindings: &str, expr: &str) -> (r: String)
    ensures
        r@ == simple_define(name@, bindings@, expr@),
{
    let block = bindings_block_string(bindings);
    let mut out = text_of("func (circuit *");
    push_str(&mut out, name);
    push_str(&mut out, ") Define(api frontend.API) error {\n");
    push_str(&mut out, block.as_str());
    push_str(&mut out, "\tresult := ");
    push_str(&mut out, expr);
    push_str(&mut out, "\n");
    push_str(&mut out, "\tapi.AssertIsEqual(result, circuit.ExpectedResult)\n\n");
    push_str(&mut out, "\treturn nil\n");
    push_str(&mut out, "}\n");
    assert(out@ =~= simple_define(name@, bindings@, expr@));
    out
}

/// Generates a Go file for a standalone circuit over the expression rooted at
/// `root`: its input variables (in increasing order) and an expected result
/// as public inputs, the given memoized bindings, and the assertion that the
/// given expression text equals the expected result; the Poseidon gadget is
/// imported when the bindings or the expression call `poseidon.Hash`
/// (`generate_simple_circuit`).
pub fn generate_simple_circuit(nodes: &[Node], root: usize, name: &str, bindings: &str, expr: &str) -> (r: String)
    requires
        root < nodes@.len(),
    ensures
        r@ == simple_circuit_text(name@, sorted_elems(node_vars(nodes@, root as int)), bindings@, expr@),
{
    let mut vars: Vec<u16> = Vec::new();
    proof {
        assert(vars@.to_set() =~= Set::<u16>::empty());
    }
    collect_vars(nodes, root, &mut vars);
    proof {
        assert(vars@.to_set() =~= node_vars(nodes@, root as int));
        lemma_sorted_elems(vars@);
    }
    let head = simple_head_string(bindings, expr);
    let body = simple_struct_string(name, &vars);
    let define = simple_define_string(name, bindings, expr);
    let mut output = head;
    push_str(&mut output, body.as_str());
    push_str(&mut output, define.as_str());
    output
}

} // verus!
