//! Constraint bundles: the node arena, the circuit inputs, the constraints
//! over arena nodes, and the common subexpressions chosen for hoisting.

use vstd::prelude::*;
use crate::mle_ast::{arena_wf, node_edge_vec, node_edges, Edge, Node};

verus! {

// ---------------------------------------------------------------------------
// Reachability
// ---------------------------------------------------------------------------

/// Node `c` is an operand of node `k`.
pub open spec fn is_operand(nodes: Seq<Node>, k: int, c: int) -> bool {
    exists|s: int| 0 <= s < node_edges(nodes[k]).len() && node_edges(nodes[k])[s] == Edge::NodeRef(c as usize)
}

/// Node `j` is reached from node `k` by following operands down (to nodes
/// below the one that refers to them), never going below a node of `stop`.
pub open spec fn reaches(nodes: Seq<Node>, stop: Set<usize>, k: int, j: int) -> bool
    decreases k,
{
    k == j || (0 <= k < nodes.len() && !stop.contains(k as usize) && exists|c: int|
        0 <= c < k && #[trigger] is_operand(nodes, k, c) && reaches(nodes, stop, c, j))
}

/// Node `j` is one of the roots.
pub open spec fn is_root(roots: Seq<usize>, j: int) -> bool {
    exists|r: int| 0 <= r < roots.len() && #[trigger] roots[r] as int == j
}

/// Node `j` is reached from one of the roots.
pub open spec fn reached(nodes: Seq<Node>, stop: Set<usize>, roots: Seq<usize>, j: int) -> bool {
    exists|r: int| 0 <= r < roots.len() && #[trigger] reaches(nodes, stop, roots[r] as int, j)
}

proof fn lemma_reaches_step(nodes: Seq<Node>, stop: Set<usize>, a: int, k: int, c: int)
    requires
        reaches(nodes, stop, a, k),
        0 <= k < nodes.len(),
        !stop.contains(k as usize),
        0 <= c < k,
        is_operand(nodes, k, c),
    ensures
        reaches(nodes, stop, a, c),
    decreases a,
{
    if a == k {
        assert(reaches(nodes, stop, c, c));
    } else {
        assert(0 <= a < nodes.len());
        assert(!stop.contains(a as usize));
        assert(exists|c2: int|
            0 <= c2 < a && #[trigger] is_operand(nodes, a, c2) && reaches(nodes, stop, c2, k));
        let c2 = choose|c2: int| 0 <= c2 < a && #[trigger] is_operand(nodes, a, c2) && reaches(nodes, stop, c2, k);
        lemma_reaches_step(nodes, stop, c2, k, c);
    }
}

/// The operands of a reached node that is not a stop node are reached.
pub proof fn lemma_reached_operand(nodes: Seq<Node>, stop: Set<usize>, roots: Seq<usize>, k: int, c: int)
    requires
        reached(nodes, stop, roots, k),
        0 <= k < nodes.len(),
        !stop.contains(k as usize),
        0 <= c < k,
        is_operand(nodes, k, c),
    ensures
        reached(nodes, stop, roots, c),
{
    let r = choose|r: int| 0 <= r < roots.len() && #[trigger] reaches(nodes, stop, roots[r] as int, k);
    lemma_reaches_step(nodes, stop, roots[r] as int, k, c);
}

proof fn lemma_reaches_last(nodes: Seq<Node>, stop: Set<usize>, a: int, j: int)
    requires
        reaches(nodes, stop, a, j),
        a != j,
    ensures
        exists|k: int| j < k && 0 <= k < nodes.len() && !stop.contains(k as usize) && is_operand(nodes, k, j)
            && #[trigger] reaches(nodes, stop, a, k),
    decreases a,
{
    assert(0 <= a < nodes.len() && !stop.contains(a as usize) && exists|c2: int|
        0 <= c2 < a && #[trigger] is_operand(nodes, a, c2) && reaches(nodes, stop, c2, j));
    let c = choose|c: int| 0 <= c < a && #[trigger] is_operand(nodes, a, c) && reaches(nodes, stop, c, j);
    if c == j {
        assert(reaches(nodes, stop, a, a));
    } else {
        lemma_reaches_last(nodes, stop, c, j);
        let k = choose|k: int| j < k && 0 <= k < nodes.len() && !stop.contains(k as usize) && is_operand(nodes, k, j)
            && #[trigger] reaches(nodes, stop, c, k);
        assert(reaches(nodes, stop, a, k));
    }
}

/// A node other than a root is reached exactly when a reached node above it,
/// not in `stop`, has it as an operand.
proof fn lemma_reached_char(nodes: Seq<Node>, stop: Set<usize>, roots: Seq<usize>, j: int)
    requires
        forall|r: int| 0 <= r < roots.len() ==> (#[trigger] roots[r] as int) < nodes.len(),
        0 <= j,
    ensures
        reached(nodes, stop, roots, j) <==> is_root(roots, j) || exists|k: int|
            j < k < nodes.len() && 0 <= k && #[trigger] reached(nodes, stop, roots, k) && !stop.contains(k as usize)
            && is_operand(nodes, k, j),
{
    if reached(nodes, stop, roots, j) {
        let r = choose|r: int| 0 <= r < roots.len() && #[trigger] reaches(nodes, stop, roots[r] as int, j);
        if roots[r] as int == j {
            assert(is_root(roots, j));
        } else {
            lemma_reaches_last(nodes, stop, roots[r] as int, j);
            let k = choose|k: int| j < k && 0 <= k < nodes.len() && !stop.contains(k as usize) && is_operand(nodes, k, j)
                && #[trigger] reaches(nodes, stop, roots[r] as int, k);
            assert(reached(nodes, stop, roots, k));
        }
    }
    if is_root(roots, j) {
        let r = choose|r: int| 0 <= r < roots.len() && #[trigger] roots[r] as int == j;
        assert(reaches(nodes, stop, roots[r] as int, j));
        assert(reached(nodes, stop, roots, j));
    }
    if exists|k: int| j < k < nodes.len() && 0 <= k && #[trigger] reached(nodes, stop, roots, k)
        && !stop.contains(k as usize) && is_operand(nodes, k, j) {
        let k = choose|k: int| j < k < nodes.len() && 0 <= k && #[trigger] reached(nodes, stop, roots, k)
            && !stop.contains(k as usize) && is_operand(nodes, k, j);
        let r = choose|r: int| 0 <= r < roots.len() && #[trigger] reaches(nodes, stop, roots[r] as int, k);
        if 0 <= j {
            lemma_reaches_step(nodes, stop, roots[r] as int, k, j);
            assert(reached(nodes, stop, roots, j));
        }
    }
}

/// The set of ids flagged in a vector of flags.
pub open spec fn flagged(v: Seq<bool>) -> Set<usize> {
    Set::new(|i: usize| (i as int) < v.len() && v[i as int])
}

/// Above node `i`: a reached node, not stopped at, has `j` as an operand.
pub open spec fn fed_from_above(nodes: Seq<Node>, stop: Set<usize>, roots: Seq<usize>, i: int, j: int) -> bool {
    exists|k: int| i <= k < nodes.len() && #[trigger] reached(nodes, stop, roots, k) && !stop.contains(k as usize)
        && is_operand(nodes, k, j)
}

/// Flags the nodes reached from `roots` without going below a node flagged
/// in `stop`, in one sweep from the top (operands lie below their node).
pub fn mark_reachable(nodes: &[Node], stop: &Vec<bool>, roots: &[usize]) -> (r: Vec<bool>)
    requires
        stop@.len() == nodes@.len(),
        forall|k: int| 0 <= k < roots@.len() ==> (#[trigger] roots@[k] as int) < nodes@.len(),
    ensures
        r@.len() == nodes@.len(),
        forall|j: int| 0 <= j < nodes@.len() ==> r@[j] == reached(nodes@, flagged(stop@), roots@, j),
{
    let ghost st = flagged(stop@);
    let n = nodes.len();
    let mut mark: Vec<bool> = Vec::new();
    let mut t: usize = 0;
    while t < n
        invariant
            t <= n,
            n == nodes@.len(),
            mark@.len() == t,
            forall|j: int| 0 <= j < t ==> !mark@[j],
        decreases n - t,
    {
        mark.push(false);
        t += 1;
    }
    let mut q: usize = 0;
    while q < roots.len()
        invariant
            q <= roots@.len(),
            n == nodes@.len(),
            mark@.len() == n,
            forall|k: int| 0 <= k < roots@.len() ==> (#[trigger] roots@[k] as int) < nodes@.len(),
            forall|j: int| 0 <= j < n ==> mark@[j] == is_root(roots@.subrange(0, q as int), j),
        decreases roots@.len() - q,
    {
        let rt = roots[q];
        mark.set(rt, true);
        proof {
            assert forall|j: int| 0 <= j < n implies mark@[j] == is_root(roots@.subrange(0, q + 1), j) by {
                if is_root(roots@.subrange(0, q as int), j) {
                    let r = choose|r: int| 0 <= r < q && #[trigger] roots@.subrange(0, q as int)[r] as int == j;
                    assert(roots@.subrange(0, q + 1)[r] as int == j);
                }
                if is_root(roots@.subrange(0, q + 1), j) {
                    let r = choose|r: int| 0 <= r < q + 1 && #[trigger] roots@.subrange(0, q + 1)[r] as int == j;
                    if r < q {
                        assert(roots@.subrange(0, q as int)[r] as int == j);
                    }
                }
                if j == rt as int {
                    assert(roots@.subrange(0, q + 1)[q as int] as int == j);
                }
            }
        }
        q += 1;
    }
    assert(roots@.subrange(0, roots@.len() as int) =~= roots@);
    let mut i: usize = n;
    while i > 0
        invariant
            i <= n,
            n == nodes@.len(),
            stop@.len() == n,
            st == flagged(stop@),
            mark@.len() == n,
            forall|k: int| 0 <= k < roots@.len() ==> (#[trigger] roots@[k] as int) < nodes@.len(),
            forall|j: int| i <= j < n ==> mark@[j] == reached(nodes@, st, roots@, j),
            forall|j: int| 0 <= j < i ==> mark@[j] == (is_root(roots@, j) || fed_from_above(nodes@, st, roots@, i as int, j)),
        decreases i,
    {
        i -= 1;
        proof {
            lemma_reached_char(nodes@, st, roots@, i as int);
            assert(mark@[i as int] == reached(nodes@, st, roots@, i as int)) by {
                if fed_from_above(nodes@, st, roots@, i + 1, i as int) {
                    let k = choose|k: int| i + 1 <= k < nodes@.len() && #[trigger] reached(nodes@, st, roots@, k)
                        && !st.contains(k as usize) && is_operand(nodes@, k, i as int);
                    assert(reached(nodes@, st, roots@, i as int));
                }
                if reached(nodes@, st, roots@, i as int) && !is_root(roots@, i as int) {
                    let k = choose|k: int| (i as int) < k < nodes@.len() && 0 <= k && #[trigger] reached(nodes@, st, roots@, k)
                        && !st.contains(k as usize) && is_operand(nodes@, k, i as int);
                    assert(fed_from_above(nodes@, st, roots@, i + 1, i as int));
                }
            }
        }
        let ghost m0 = mark@;
        assert(forall|j: int| i < j < n ==> m0[j] == reached(nodes@, st, roots@, j));
        let live = mark[i] && !stop[i];
        assert(live == (reached(nodes@, st, roots@, i as int) && !st.contains(i)));
        if live {
            let es = node_edge_vec(&nodes[i]);
            let mut s: usize = 0;
            while s < es.len()
                invariant
                    s <= es@.len(),
                    es@ == node_edges(nodes@[i as int]),
                    i < n,
                    n == nodes@.len(),
                    mark@.len() == n,
                    m0.len() == n,
                    forall|j: int| i <= j < n ==> mark@[j] == m0[j],
                    forall|j: int| 0 <= j < i ==> mark@[j] == (m0[j] || exists|t: int| 0 <= t < s && #[trigger] es@[t] == Edge::NodeRef(j as usize)),
                decreases es@.len() - s,
            {
                let ghost mb = mark@;
                match es[s] {
                    Edge::NodeRef(c) => {
                        if c < i {
                            mark.set(c, true);
                        }
                    },
                    Edge::Atom(_) => {},
                }
                s += 1;
                proof {
                    assert forall|j: int| 0 <= j < i implies mark@[j] == (m0[j] || exists|t: int| 0 <= t < s
                        && #[trigger] es@[t] == Edge::NodeRef(j as usize)) by {
                        assert(mb[j] == (m0[j] || exists|t: int| 0 <= t < s - 1 && #[trigger] es@[t] == Edge::NodeRef(j as usize)));
                        if es@[s - 1] == Edge::NodeRef(j as usize) {
                            assert(mark@[j]);
                            assert(0 <= s - 1 < s && es@[s - 1] == Edge::NodeRef(j as usize));
                        } else {
                            assert(mark@[j] == mb[j]);
                            if exists|t: int| 0 <= t < s && #[trigger] es@[t] == Edge::NodeRef(j as usize) {
                                let t = choose|t: int| 0 <= t < s && #[trigger] es@[t] == Edge::NodeRef(j as usize);
                                assert(t < s - 1);
                            }
                            if exists|t: int| 0 <= t < s - 1 && #[trigger] es@[t] == Edge::NodeRef(j as usize) {
                                let t = choose|t: int| 0 <= t < s - 1 && #[trigger] es@[t] == Edge::NodeRef(j as usize);
                                assert(0 <= t < s);
                            }
                        }
                    }
                }
            }
            proof {
                assert forall|j: int| 0 <= j < i implies mark@[j] == (is_root(roots@, j) || fed_from_above(nodes@, st, roots@, i as int, j)) by {
                    assert(m0[j] == (is_root(roots@, j) || fed_from_above(nodes@, st, roots@, i + 1, j)));
                    assert(is_operand(nodes@, i as int, j) == exists|t: int| 0 <= t < es@.len() && #[trigger] es@[t] == Edge::NodeRef(j as usize));
                    assert(mark@[j] == (m0[j] || is_operand(nodes@, i as int, j)));
                    if fed_from_above(nodes@, st, roots@, i as int, j) {
                        let k = choose|k: int| i <= k < nodes@.len() && #[trigger] reached(nodes@, st, roots@, k)
                            && !st.contains(k as usize) && is_operand(nodes@, k, j);
                        if k > i {
                            assert(fed_from_above(nodes@, st, roots@, i + 1, j));
                        }
                    }
                    if fed_from_above(nodes@, st, roots@, i + 1, j) {
                        let k = choose|k: int| i + 1 <= k < nodes@.len() && #[trigger] reached(nodes@, st, roots@, k)
                            && !st.contains(k as usize) && is_operand(nodes@, k, j);
                        assert(fed_from_above(nodes@, st, roots@, i as int, j));
                    }
                    assert(reached(nodes@, st, roots@, i as int) && !st.contains(i));
                    if is_operand(nodes@, i as int, j) {
                        assert(fed_from_above(nodes@, st, roots@, i as int, j));
                    }
                    if fed_from_above(nodes@, st, roots@, i as int, j) {
                        let k = choose|k: int| i <= k < nodes@.len() && #[trigger] reached(nodes@, st, roots@, k)
                            && !st.contains(k as usize) && is_operand(nodes@, k, j);
                        if k == i {
                            assert(is_operand(nodes@, i as int, j));
                        }
                    }
                }
            }
        } else {
            proof {
                assert forall|j: int| 0 <= j < i implies mark@[j] == (is_root(roots@, j) || fed_from_above(nodes@, st, roots@, i as int, j)) by {
                    if fed_from_above(nodes@, st, roots@, i as int, j) {
                        let k = choose|k: int| i <= k < nodes@.len() && #[trigger] reached(nodes@, st, roots@, k)
                            && !st.contains(k as usize) && is_operand(nodes@, k, j);
                        if k > i {
                            assert(fed_from_above(nodes@, st, roots@, i + 1, j));
                        }
                    }
                    if fed_from_above(nodes@, st, roots@, i + 1, j) {
                        let k = choose|k: int| i + 1 <= k < nodes@.len() && #[trigger] reached(nodes@, st, roots@, k)
                            && !st.contains(k as usize) && is_operand(nodes@, k, j);
                        assert(fed_from_above(nodes@, st, roots@, i as int, j));
                    }
                }
            }
        }
        assert forall|j: int| i <= j < n implies mark@[j] == reached(nodes@, st, roots@, j) by {
            assert(mark@[j] == m0[j]);
        }
    }
    mark
}

// ---------------------------------------------------------------------------
// Shared references
// ---------------------------------------------------------------------------

/// Operand slot `s` of node `k` refers to node `j`, and node `k` is reached
/// from the roots and not stopped at.
pub open spec fn live_ref(nodes: Seq<Node>, stop: Set<usize>, roots: Seq<usize>, k: int, s: int, j: int) -> bool {
    &&& 0 <= k < nodes.len()
    &&& reached(nodes, stop, roots, k)
    &&& !stop.contains(k as usize)
    &&& 0 <= s < node_edges(nodes[k]).len()
    &&& node_edges(nodes[k])[s] == Edge::NodeRef(j as usize)
    &&& 0 <= j < k
}

/// Slot `(k1, s1)` comes before slot `(k2, s2)` (by node, then by operand).
pub open spec fn slot_before(k1: int, s1: int, k2: int, s2: int) -> bool {
    k1 < k2 || (k1 == k2 && s1 < s2)
}

/// Some live slot before `(k, s)` refers to `j`.
pub open spec fn one_ref(nodes: Seq<Node>, stop: Set<usize>, roots: Seq<usize>, j: int, k: int, s: int) -> bool {
    exists|k1: int, s1: int| slot_before(k1, s1, k, s) && #[trigger] live_ref(nodes, stop, roots, k1, s1, j)
}

/// Two distinct live slots before `(k, s)` refer to `j`.
pub open spec fn two_refs(nodes: Seq<Node>, stop: Set<usize>, roots: Seq<usize>, j: int, k: int, s: int) -> bool {
    exists|k1: int, s1: int, k2: int, s2: int| slot_before(k1, s1, k2, s2) && slot_before(k2, s2, k, s)
        && #[trigger] live_ref(nodes, stop, roots, k1, s1, j) && #[trigger] live_ref(nodes, stop, roots, k2, s2, j)
}

/// Node `j` is referred to by two distinct operand slots of the reached part
/// of the DAG.
pub open spec fn multi_ref(nodes: Seq<Node>, stop: Set<usize>, roots: Seq<usize>, j: int) -> bool {
    two_refs(nodes, stop, roots, j, nodes.len() as int, 0)
}

proof fn lemma_ref_slot(nodes: Seq<Node>, stop: Set<usize>, roots: Seq<usize>, j: int, k: int, s: int)
    ensures
        one_ref(nodes, stop, roots, j, k, s + 1) == (one_ref(nodes, stop, roots, j, k, s) || live_ref(nodes, stop, roots, k, s, j)),
        two_refs(nodes, stop, roots, j, k, s + 1) == (two_refs(nodes, stop, roots, j, k, s)
            || (one_ref(nodes, stop, roots, j, k, s) && live_ref(nodes, stop, roots, k, s, j))),
{
    if one_ref(nodes, stop, roots, j, k, s + 1) {
        let (k1, s1) = choose|k1: int, s1: int| slot_before(k1, s1, k, s + 1) && #[trigger] live_ref(nodes, stop, roots, k1, s1, j);
        if !(k1 == k && s1 == s) {
            assert(slot_before(k1, s1, k, s));
        }
    }
    if one_ref(nodes, stop, roots, j, k, s) {
        let (k1, s1) = choose|k1: int, s1: int| slot_before(k1, s1, k, s) && #[trigger] live_ref(nodes, stop, roots, k1, s1, j);
        assert(slot_before(k1, s1, k, s + 1));
    }
    if live_ref(nodes, stop, roots, k, s, j) {
        assert(slot_before(k, s, k, s + 1));
    }
    if two_refs(nodes, stop, roots, j, k, s + 1) {
        let (k1, s1, k2, s2) = choose|k1: int, s1: int, k2: int, s2: int| slot_before(k1, s1, k2, s2) && slot_before(k2, s2, k, s + 1)
            && #[trigger] live_ref(nodes, stop, roots, k1, s1, j) && #[trigger] live_ref(nodes, stop, roots, k2, s2, j);
        if k2 == k && s2 == s {
            assert(slot_before(k1, s1, k, s));
            assert(one_ref(nodes, stop, roots, j, k, s));
        } else {
            assert(slot_before(k2, s2, k, s));
        }
    }
    if two_refs(nodes, stop, roots, j, k, s) {
        let (k1, s1, k2, s2) = choose|k1: int, s1: int, k2: int, s2: int| slot_before(k1, s1, k2, s2) && slot_before(k2, s2, k, s)
            && #[trigger] live_ref(nodes, stop, roots, k1, s1, j) && #[trigger] live_ref(nodes, stop, roots, k2, s2, j);
        assert(slot_before(k2, s2, k, s + 1));
    }
    if one_ref(nodes, stop, roots, j, k, s) && live_ref(nodes, stop, roots, k, s, j) {
        let (k1, s1) = choose|k1: int, s1: int| slot_before(k1, s1, k, s) && #[trigger] live_ref(nodes, stop, roots, k1, s1, j);
        assert(slot_before(k, s, k, s + 1));
    }
}

proof fn lemma_ref_node(nodes: Seq<Node>, stop: Set<usize>, roots: Seq<usize>, j: int, k: int, s: int)
    requires
        0 <= k < nodes.len() ==> (s == node_edges(nodes[k]).len() || (s == 0 && !(reached(nodes, stop, roots, k)
            && !stop.contains(k as usize)))),
        s >= 0,
    ensures
        one_ref(nodes, stop, roots, j, k, s) == one_ref(nodes, stop, roots, j, k + 1, 0),
        two_refs(nodes, stop, roots, j, k, s) == two_refs(nodes, stop, roots, j, k + 1, 0),
{
    if one_ref(nodes, stop, roots, j, k + 1, 0) {
        let (k1, s1) = choose|k1: int, s1: int| slot_before(k1, s1, k + 1, 0) && #[trigger] live_ref(nodes, stop, roots, k1, s1, j);
        assert(slot_before(k1, s1, k, s));
    }
    if one_ref(nodes, stop, roots, j, k, s) {
        let (k1, s1) = choose|k1: int, s1: int| slot_before(k1, s1, k, s) && #[trigger] live_ref(nodes, stop, roots, k1, s1, j);
        assert(slot_before(k1, s1, k + 1, 0));
    }
    if two_refs(nodes, stop, roots, j, k + 1, 0) {
        let (k1, s1, k2, s2) = choose|k1: int, s1: int, k2: int, s2: int| slot_before(k1, s1, k2, s2) && slot_before(k2, s2, k + 1, 0)
            && #[trigger] live_ref(nodes, stop, roots, k1, s1, j) && #[trigger] live_ref(nodes, stop, roots, k2, s2, j);
        assert(slot_before(k2, s2, k, s));
    }
    if two_refs(nodes, stop, roots, j, k, s) {
        let (k1, s1, k2, s2) = choose|k1: int, s1: int, k2: int, s2: int| slot_before(k1, s1, k2, s2) && slot_before(k2, s2, k, s)
            && #[trigger] live_ref(nodes, stop, roots, k1, s1, j) && #[trigger] live_ref(nodes, stop, roots, k2, s2, j);
        assert(slot_before(k2, s2, k + 1, 0));
    }
}

/// Flags the nodes referred to by two distinct operand slots of live nodes
/// (flagged in `live`).
fn shared_refs(nodes: &[Node], live: &Vec<bool>, Ghost(stop): Ghost<Set<usize>>, Ghost(roots): Ghost<Seq<usize>>) -> (r: Vec<bool>)
    requires
        live@.len() == nodes@.len(),
        forall|k: int| 0 <= k < nodes@.len() ==> live@[k] == (reached(nodes@, stop, roots, k) && !stop.contains(k as usize)),
    ensures
        r@.len() == nodes@.len(),
        forall|j: int| 0 <= j < nodes@.len() ==> r@[j] == multi_ref(nodes@, stop, roots, j),
{
    let n = nodes.len();
    let mut one: Vec<bool> = Vec::new();
    let mut two: Vec<bool> = Vec::new();
    let mut t: usize = 0;
    while t < n
        invariant
            t <= n,
            n == nodes@.len(),
            one@.len() == t,
            two@.len() == t,
            forall|j: int| 0 <= j < t ==> !one@[j] && !two@[j],
        decreases n - t,
    {
        one.push(false);
        two.push(false);
        t += 1;
    }
    assert forall|j: int| 0 <= j < n implies one@[j] == one_ref(nodes@, stop, roots, j, 0, 0)
        && two@[j] == two_refs(nodes@, stop, roots, j, 0, 0) by {
        if one_ref(nodes@, stop, roots, j, 0, 0) {
            let (k1, s1) = choose|k1: int, s1: int| slot_before(k1, s1, 0, 0) && #[trigger] live_ref(nodes@, stop, roots, k1, s1, j);
        }
        if two_refs(nodes@, stop, roots, j, 0, 0) {
            let (k1, s1, k2, s2) = choose|k1: int, s1: int, k2: int, s2: int| slot_before(k1, s1, k2, s2) && slot_before(k2, s2, 0, 0)
                && #[trigger] live_ref(nodes@, stop, roots, k1, s1, j) && #[trigger] live_ref(nodes@, stop, roots, k2, s2, j);
        }
    }
    let mut k: usize = 0;
    while k < n
        invariant
            k <= n,
            n == nodes@.len(),
            live@.len() == n,
            forall|q: int| 0 <= q < nodes@.len() ==> live@[q] == (reached(nodes@, stop, roots, q) && !stop.contains(q as usize)),
            one@.len() == n,
            two@.len() == n,
            forall|j: int| 0 <= j < n ==> one@[j] == one_ref(nodes@, stop, roots, j, k as int, 0),
            forall|j: int| 0 <= j < n ==> two@[j] == two_refs(nodes@, stop, roots, j, k as int, 0),
        decreases n - k,
    {
        if live[k] {
            let es = node_edge_vec(&nodes[k]);
            let mut s: usize = 0;
            while s < es.len()
                invariant
                    s <= es@.len(),
                    k < n,
                    n == nodes@.len(),
                    es@ == node_edges(nodes@[k as int]),
                    reached(nodes@, stop, roots, k as int) && !stop.contains(k),
                    one@.len() == n,
                    two@.len() == n,
                    forall|j: int| 0 <= j < n ==> one@[j] == one_ref(nodes@, stop, roots, j, k as int, s as int),
                    forall|j: int| 0 <= j < n ==> two@[j] == two_refs(nodes@, stop, roots, j, k as int, s as int),
                decreases es@.len() - s,
            {
                let ghost o0 = one@;
                let ghost w0 = two@;
                match es[s] {
                    Edge::NodeRef(c) => {
                        if c < k {
                            if one[c] {
                                two.set(c, true);
                            }
                            one.set(c, true);
                        }
                    },
                    Edge::Atom(_) => {},
                }
                proof {
                    assert forall|j: int| 0 <= j < n implies one@[j] == one_ref(nodes@, stop, roots, j, k as int, s + 1)
                        && two@[j] == two_refs(nodes@, stop, roots, j, k as int, s + 1) by {
                        lemma_ref_slot(nodes@, stop, roots, j, k as int, s as int);
                        if live_ref(nodes@, stop, roots, k as int, s as int, j) {
                            assert(one@[j] && two@[j] == (w0[j] || o0[j]));
                        } else {
                            assert(one@[j] == o0[j] && two@[j] == w0[j]);
                        }
                    }
                }
                s += 1;
            }
            proof {
                assert forall|j: int| 0 <= j < n implies one@[j] == one_ref(nodes@, stop, roots, j, k + 1, 0)
                    && two@[j] == two_refs(nodes@, stop, roots, j, k + 1, 0) by {
                    lemma_ref_node(nodes@, stop, roots, j, k as int, s as int);
                }
            }
        } else {
            proof {
                assert forall|j: int| 0 <= j < n implies one@[j] == one_ref(nodes@, stop, roots, j, k + 1, 0)
                    && two@[j] == two_refs(nodes@, stop, roots, j, k + 1, 0) by {
                    lemma_ref_node(nodes@, stop, roots, j, k as int, 0);
                }
            }
        }
        k += 1;
    }
    two
}

// ---------------------------------------------------------------------------
// Bundles
// ---------------------------------------------------------------------------

/// How a circuit input is supplied.
#[derive(Clone, Copy, Debug, PartialEq, Eq, Structural)]
pub enum WitnessType {
    ProofData,
    PublicStatement,
}

/// The field an input's value lives in.
#[derive(Clone, Copy, Debug, PartialEq, Eq, Structural)]
pub enum TargetField {
    /// The native scalar field of the circuit.
    Fr,
    /// The base field, which would need emulated arithmetic.
    Fq,
}

impl TargetField {
    /// Whether arithmetic over this field is not native to the circuit.
    pub fn is_non_native(&self) -> (r: bool)
        ensures
            r == (*self is Fq),
    {
        match self {
            TargetField::Fr => false,
            TargetField::Fq => true,
        }
    }
}

/// A circuit input: variable `index` of the arena's `Var` atoms.
pub struct Input {
    pub index: u16,
    pub name: String,
    pub witness_type: WitnessType,
    pub target_field: TargetField,
}

/// What a constraint asserts of its root.
pub enum Assertion {
    /// The root equals zero.
    EqualZero,
    /// The root equals the named public input.
    EqualPublicInput { name: String },
    /// The root equals another node.
    EqualNode(usize),
}

/// A named assertion about an arena node.
pub struct Constraint {
    pub name: String,
    pub root: usize,
    pub assertion: Assertion,
}

/// The nodes hoisted once for all constraints, in binding order.
pub struct GlobalCse {
    pub bindings: Vec<usize>,
}

/// The nodes hoisted within one constraint.
pub struct ConstraintCse {
    pub bindings: Vec<usize>,
}

impl Default for GlobalCse {
    fn default() -> (r: Self)
        ensures
            r.bindings@ == Seq::<usize>::empty(),
    {
        GlobalCse { bindings: Vec::new() }
    }
}

impl Default for ConstraintCse {
    fn default() -> (r: Self)
        ensures
            r.bindings@ == Seq::<usize>::empty(),
    {
        ConstraintCse { bindings: Vec::new() }
    }
}

/// Everything the circuit generator needs: the arena, the inputs, the
/// constraints, and the hoisting choices.
pub struct AstBundle {
    pub nodes: Vec<Node>,
    pub inputs: Vec<Input>,
    pub constraints: Vec<Constraint>,
    pub global_cse: GlobalCse,
    pub constraint_cse: Vec<ConstraintCse>,
}

/// The nodes a constraint's code is generated from: its root and, for an
/// equality with another node, that node.
pub open spec fn constraint_roots(c: Constraint) -> Seq<usize> {
    match c.assertion {
        Assertion::EqualNode(o) => seq![c.root, o],
        _ => seq![c.root],
    }
}

/// Every node a constraint names is in the arena.
pub open spec fn constraint_in(c: Constraint, n: nat) -> bool {
    forall|r: int| 0 <= r < constraint_roots(c).len() ==> (#[trigger] constraint_roots(c)[r] as int) < n
}

/// The ids below `n` (ascending) of which `p` holds.
pub open spec fn ids_where(n: nat, p: spec_fn(int) -> bool) -> Seq<usize>
    decreases n,
{
    if n == 0 {
        seq![]
    } else if p(n - 1) {
        ids_where((n - 1) as nat, p).push((n - 1) as usize)
    } else {
        ids_where((n - 1) as nat, p)
    }
}

/// Node `j` is reached (through every node) from two different constraints.
pub open spec fn shared_by_constraints(nodes: Seq<Node>, cs: Seq<Constraint>, j: int) -> bool {
    exists|a: int, b: int| 0 <= a < b < cs.len()
        && #[trigger] reached(nodes, Set::empty(), constraint_roots(cs[a]), j)
        && #[trigger] reached(nodes, Set::empty(), constraint_roots(cs[b]), j)
}

/// The nodes hoisted for all constraints: every non-atom node that two
/// different constraints reach, ascending.
pub open spec fn global_choice(nodes: Seq<Node>, cs: Seq<Constraint>) -> Seq<usize> {
    ids_where(nodes.len(), global_pred(nodes, cs))
}

/// The test `global_choice` applies to each id.
pub open spec fn global_pred(nodes: Seq<Node>, cs: Seq<Constraint>) -> spec_fn(int) -> bool {
    |j: int| !(nodes[j] is Atom) && shared_by_constraints(nodes, cs, j)
}

/// The globally hoisted nodes, as a set of arena ids.
pub open spec fn global_set(nodes: Seq<Node>, gb: Seq<usize>) -> Set<usize> {
    Set::new(|i: usize| (i as int) < nodes.len() && gb.contains(i))
}

/// The nodes hoisted within a constraint: every non-atom node, not globally
/// hoisted, that two distinct operand slots refer to within the part of the
/// DAG the constraint reaches without entering globally hoisted nodes.
pub open spec fn constraint_choice(nodes: Seq<Node>, gb: Seq<usize>, c: Constraint) -> Seq<usize> {
    ids_where(nodes.len(), constraint_pred(nodes, gb, c))
}

/// The test `constraint_choice` applies to each id.
pub open spec fn constraint_pred(nodes: Seq<Node>, gb: Seq<usize>, c: Constraint) -> spec_fn(int) -> bool {
    |j: int| !(nodes[j] is Atom) && !global_set(nodes, gb).contains(j as usize)
        && multi_ref(nodes, global_set(nodes, gb), constraint_roots(c), j)
}

/// The ids of a flag vector that are set and satisfy `extra`, ascending.
fn collect_ids(flags: &Vec<bool>, Ghost(p): Ghost<spec_fn(int) -> bool>) -> (r: Vec<usize>)
    requires
        forall|j: int| 0 <= j < flags@.len() ==> flags@[j] == p(j),
    ensures
        r@ == ids_where(flags@.len(), p),
{
    let mut r: Vec<usize> = Vec::new();
    let mut i: usize = 0;
    while i < flags.len()
        invariant
            i <= flags@.len(),
            forall|j: int| 0 <= j < flags@.len() ==> flags@[j] == p(j),
            r@ == ids_where(i as nat, p),
        decreases flags@.len() - i,
    {
        if flags[i] {
            r.push(i);
        }
        i += 1;
    }
    r
}

/// The root list of a constraint.
fn roots_of(c: &Constraint) -> (r: Vec<usize>)
    ensures
        r@ == constraint_roots(*c),
{
    let mut r: Vec<usize> = Vec::new();
    r.push(c.root);
    match &c.assertion {
        Assertion::EqualNode(o) => {
            r.push(*o);
        },
        _ => {},
    }
    assert(r@ =~= constraint_roots(*c));
    r
}

/// A copy of a string.
fn copy_str(s: &str) -> (r: String)
    ensures
        r@ == s@,
{
    let mut r = String::new();
    crate::text::push_str(&mut r, s);
    assert(r@ =~= s@);
    r
}

impl AstBundle {
    /// An empty bundle.
    pub fn new() -> (r: AstBundle)
        ensures
            r.nodes@ == Seq::<Node>::empty(),
            r.inputs@.len() == 0,
            r.constraints@.len() == 0,
            r.global_cse.bindings@ == Seq::<usize>::empty(),
            r.constraint_cse@.len() == 0,
    {
        AstBundle {
            nodes: Vec::new(),
            inputs: Vec::new(),
            constraints: Vec::new(),
            global_cse: GlobalCse { bindings: Vec::new() },
            constraint_cse: Vec::new(),
        }
    }

    /// Registers a native-field input.
    pub fn add_input(&mut self, index: u16, name: &str, witness_type: WitnessType)
        ensures
            final(self).inputs@.len() == old(self).inputs@.len() + 1,
            final(self).inputs@.drop_last() == old(self).inputs@,
            final(self).inputs@.last().index == index,
            final(self).inputs@.last().name@ == name@,
            final(self).inputs@.last().witness_type == witness_type,
            final(self).inputs@.last().target_field == TargetField::Fr,
            final(self).nodes == old(self).nodes,
            final(self).constraints == old(self).constraints,
            final(self).global_cse == old(self).global_cse,
            final(self).constraint_cse == old(self).constraint_cse,
    {
        self.add_input_with_field(index, name, witness_type, TargetField::Fr);
    }

    /// Registers an input over the given field.
    pub fn add_input_with_field(&mut self, index: u16, name: &str, witness_type: WitnessType, target_field: TargetField)
        ensures
            final(self).inputs@.len() == old(self).inputs@.len() + 1,
            final(self).inputs@.drop_last() == old(self).inputs@,
            final(self).inputs@.last().index == index,
            final(self).inputs@.last().name@ == name@,
            final(self).inputs@.last().witness_type == witness_type,
            final(self).inputs@.last().target_field == target_field,
            final(self).nodes == old(self).nodes,
            final(self).constraints == old(self).constraints,
            final(self).global_cse == old(self).global_cse,
            final(self).constraint_cse == old(self).constraint_cse,
    {
        self.inputs.push(Input { index, name: copy_str(name), witness_type, target_field });
        assert(self.inputs@.drop_last() =~= old(self).inputs@);
    }

    /// Adds the constraint that node `root` equals zero.
    pub fn add_constraint_eq_zero(&mut self, name: &str, root: usize)
        ensures
            final(self).constraints@.len() == old(self).constraints@.len() + 1,
            final(self).constraints@.drop_last() == old(self).constraints@,
            final(self).constraints@.last().name@ == name@,
            final(self).constraints@.last().root == root,
            final(self).constraints@.last().assertion is EqualZero,
            final(self).nodes == old(self).nodes,
            final(self).inputs == old(self).inputs,
            final(self).global_cse == old(self).global_cse,
            final(self).constraint_cse == old(self).constraint_cse,
    {
        self.constraints.push(Constraint { name: copy_str(name), root, assertion: Assertion::EqualZero });
        assert(self.constraints@.drop_last() =~= old(self).constraints@);
    }

    /// Adds the constraint that node `root` equals the named public input.
    pub fn add_constraint_eq_public(&mut self, name: &str, root: usize, public_name: &str)
        ensures
            final(self).constraints@.len() == old(self).constraints@.len() + 1,
            final(self).constraints@.drop_last() == old(self).constraints@,
            final(self).constraints@.last().name@ == name@,
            final(self).constraints@.last().root == root,
            final(self).constraints@.last().assertion matches Assertion::EqualPublicInput { name: p } && p@ == public_name@,
            final(self).nodes == old(self).nodes,
            final(self).inputs == old(self).inputs,
            final(self).global_cse == old(self).global_cse,
            final(self).constraint_cse == old(self).constraint_cse,
    {
        let a = Assertion::EqualPublicInput { name: copy_str(public_name) };
        self.constraints.push(Constraint { name: copy_str(name), root, assertion: a });
        assert(self.constraints@.drop_last() =~= old(self).constraints@);
    }

    /// Whether per-constraint hoisting has been chosen (one entry per constraint).
    pub fn has_cse(&self) -> (r: bool)
        ensures
            r == (self.constraint_cse@.len() == self.constraints@.len()),
    {
        self.constraint_cse.len() == self.constraints.len()
    }

    /// The nodes hoisted within constraint `idx`, if chosen.
    pub fn get_cse_bindings(&self, idx: usize) -> (r: Option<&Vec<usize>>)
        ensures
            idx < self.constraint_cse@.len() ==> r == Some(&self.constraint_cse@[idx as int].bindings),
            idx >= self.constraint_cse@.len() ==> r is None,
    {
        if idx < self.constraint_cse.len() {
            Some(&self.constraint_cse[idx].bindings)
        } else {
            None
        }
    }

    /// Whether some input lives in the given field.
    pub fn has_inputs_for_field(&self, field: TargetField) -> (r: bool)
        ensures
            r == exists|i: int| 0 <= i < self.inputs@.len() && #[trigger] self.inputs@[i].target_field == field,
    {
        let mut i: usize = 0;
        while i < self.inputs.len()
            invariant
                i <= self.inputs@.len(),
                forall|k: int| 0 <= k < i ==> #[trigger] self.inputs@[k].target_field != field,
            decreases self.inputs@.len() - i,
        {
            if self.inputs[i].target_field == field {
                return true;
            }
            i += 1;
        }
        false
    }
}

/// `n` flags, all clear.
pub(crate) fn no_flags(n: usize) -> (r: Vec<bool>)
    ensures
        r@.len() == n,
        forall|j: int| 0 <= j < n ==> !r@[j],
{
    let mut r: Vec<bool> = Vec::new();
    let mut t: usize = 0;
    while t < n
        invariant
            t <= n,
            r@.len() == t,
            forall|j: int| 0 <= j < t ==> !r@[j],
        decreases n - t,
    {
        r.push(false);
        t += 1;
    }
    r
}

/// Whether a node is an atom.
fn is_atom_node(n: &Node) -> (r: bool)
    ensures
        r == (*n is Atom),
{
    match n {
        Node::Atom(_) => true,
        _ => false,
    }
}

impl AstBundle {
    /// Chooses the globally hoisted nodes: every non-atom node that two
    /// different constraints reach, ascending.
    pub fn run_global_cse(&mut self)
        requires
            forall|c: int| 0 <= c < old(self).constraints@.len() ==> constraint_in(#[trigger] old(self).constraints@[c], old(self).nodes@.len()),
        ensures
            final(self).global_cse.bindings@ == global_choice(old(self).nodes@, old(self).constraints@),
            final(self).nodes == old(self).nodes,
            final(self).inputs == old(self).inputs,
            final(self).constraints == old(self).constraints,
            final(self).constraint_cse == old(self).constraint_cse,
    {
        let n = self.nodes.len();
        let stop = no_flags(n);
        assert(flagged(stop@) =~= Set::<usize>::empty());
        let mut one = no_flags(n);
        let mut two = no_flags(n);
        let ghost cs = self.constraints@;
        let ghost nodes = self.nodes@;
        let mut c: usize = 0;
        while c < self.constraints.len()
            invariant
                c <= cs.len(),
                cs == self.constraints@,
                nodes == self.nodes@,
                n == nodes.len(),
                stop@.len() == n,
                flagged(stop@) == Set::<usize>::empty(),
                forall|q: int| 0 <= q < cs.len() ==> constraint_in(#[trigger] cs[q], nodes.len()),
                one@.len() == n,
                two@.len() == n,
                forall|j: int| 0 <= j < n ==> one@[j] == exists|a: int| 0 <= a < c
                    && #[trigger] reached(nodes, Set::empty(), constraint_roots(cs[a]), j),
                forall|j: int| 0 <= j < n ==> two@[j] == exists|a: int, b: int| 0 <= a < b < c
                    && #[trigger] reached(nodes, Set::empty(), constraint_roots(cs[a]), j)
                    && #[trigger] reached(nodes, Set::empty(), constraint_roots(cs[b]), j),
            decreases cs.len() - c,
        {
            let roots = roots_of(&self.constraints[c]);
            proof {
                assert(constraint_in(cs[c as int], nodes.len()));
                assert forall|k: int| 0 <= k < roots@.len() implies (#[trigger] roots@[k] as int) < nodes.len() by {
                    assert(constraint_roots(cs[c as int])[k] == roots@[k]);
                }
            }
            let mark = mark_reachable(self.nodes.as_slice(), &stop, roots.as_slice());
            let ghost o0 = one@;
            let ghost w0 = two@;
            let mut j: usize = 0;
            while j < n
                invariant
                    j <= n,
                    n == nodes.len(),
                    mark@.len() == n,
                    one@.len() == n,
                    two@.len() == n,
                    o0.len() == n,
                    w0.len() == n,
                    forall|q: int| j <= q < n ==> one@[q] == o0[q] && two@[q] == w0[q],
                    forall|q: int| 0 <= q < j ==> one@[q] == (o0[q] || mark@[q]) && two@[q] == (w0[q] || (o0[q] && mark@[q])),
                decreases n - j,
            {
                let ghost ob = one@;
                let ghost wb = two@;
                if mark[j] {
                    if one[j] {
                        two.set(j, true);
                    }
                    one.set(j, true);
                }
                proof {
                    assert forall|q: int| 0 <= q < j + 1 implies one@[q] == (o0[q] || mark@[q]) && two@[q] == (w0[q] || (o0[q] && mark@[q])) by {
                        if q == j {
                            assert(ob[q] == o0[q] && wb[q] == w0[q]);
                        } else {
                            assert(one@[q] == ob[q] && two@[q] == wb[q]);
                        }
                    }
                }
                j += 1;
            }
            proof {
                assert forall|q: int| 0 <= q < n implies one@[q] == (exists|a: int| 0 <= a < c + 1
                    && #[trigger] reached(nodes, Set::empty(), constraint_roots(cs[a]), q)) by {
                    assert(mark@[q] == reached(nodes, Set::empty(), constraint_roots(cs[c as int]), q));
                    if o0[q] {
                        let a = choose|a: int| 0 <= a < c && #[trigger] reached(nodes, Set::empty(), constraint_roots(cs[a]), q);
                        assert(0 <= a < c + 1);
                    }
                    if mark@[q] {
                        assert(reached(nodes, Set::empty(), constraint_roots(cs[c as int]), q));
                    }
                    if exists|a: int| 0 <= a < c + 1 && #[trigger] reached(nodes, Set::empty(), constraint_roots(cs[a]), q) {
                        let a = choose|a: int| 0 <= a < c + 1 && #[trigger] reached(nodes, Set::empty(), constraint_roots(cs[a]), q);
                        if a < c {
                            assert(o0[q]);
                        }
                    }
                }
                assert forall|q: int| 0 <= q < n implies two@[q] == (exists|a: int, b: int| 0 <= a < b < c + 1
                    && #[trigger] reached(nodes, Set::empty(), constraint_roots(cs[a]), q)
                    && #[trigger] reached(nodes, Set::empty(), constraint_roots(cs[b]), q)) by {
                    assert(mark@[q] == reached(nodes, Set::empty(), constraint_roots(cs[c as int]), q));
                    if exists|a: int, b: int| 0 <= a < b < c + 1
                        && #[trigger] reached(nodes, Set::empty(), constraint_roots(cs[a]), q)
                        && #[trigger] reached(nodes, Set::empty(), constraint_roots(cs[b]), q) {
                        let (a, b) = choose|a: int, b: int| 0 <= a < b < c + 1
                            && #[trigger] reached(nodes, Set::empty(), constraint_roots(cs[a]), q)
                            && #[trigger] reached(nodes, Set::empty(), constraint_roots(cs[b]), q);
                        if b < c {
                            assert(w0[q]);
                        } else {
                            assert(o0[q]);
                        }
                    }
                    if w0[q] {
                        let (a, b) = choose|a: int, b: int| 0 <= a < b < c
                            && #[trigger] reached(nodes, Set::empty(), constraint_roots(cs[a]), q)
                            && #[trigger] reached(nodes, Set::empty(), constraint_roots(cs[b]), q);
                        assert(0 <= a < b < c + 1);
                    }
                    if o0[q] && mark@[q] {
                        let a = choose|a: int| 0 <= a < c && #[trigger] reached(nodes, Set::empty(), constraint_roots(cs[a]), q);
                        assert(reached(nodes, Set::empty(), constraint_roots(cs[c as int]), q));
                    }
                }
            }
            c += 1;
        }
        let mut flags = no_flags(n);
        let mut j: usize = 0;
        while j < n
            invariant
                j <= n,
                n == nodes.len(),
                nodes == self.nodes@,
                cs == self.constraints@,
                flags@.len() == n,
                two@.len() == n,
                forall|q: int| 0 <= q < n ==> two@[q] == shared_by_constraints(nodes, cs, q),
                forall|q: int| 0 <= q < j ==> flags@[q] == global_pred(nodes, cs)(q),
            decreases n - j,
        {
            let f = two[j] && !is_atom_node(&self.nodes[j]);
            flags.set(j, f);
            j += 1;
        }
        let ids = collect_ids(&flags, Ghost(global_pred(nodes, cs)));
        self.global_cse = GlobalCse { bindings: ids };
    }
}

/// Flags the globally hoisted nodes among `n` node ids.
fn global_flags(n: usize, gb: &Vec<usize>) -> (r: Vec<bool>)
    ensures
        r@.len() == n,
        forall|j: int| 0 <= j < n ==> r@[j] == gb@.contains(j as usize),
{
    let mut r = no_flags(n);
    let mut k: usize = 0;
    while k < gb.len()
        invariant
            k <= gb@.len(),
            r@.len() == n,
            forall|j: int| 0 <= j < n ==> r@[j] == gb@.subrange(0, k as int).contains(j as usize),
        decreases gb@.len() - k,
    {
        let g = gb[k];
        let ghost rb = r@;
        if g < n {
            r.set(g, true);
        }
        proof {
            assert forall|j: int| 0 <= j < n implies r@[j] == gb@.subrange(0, k + 1).contains(j as usize) by {
                let pre = gb@.subrange(0, k as int);
                let pre1 = gb@.subrange(0, k + 1);
                assert(pre1 =~= pre.push(g));
                if j == g as int {
                    assert(pre1[k as int] == g);
                } else {
                    assert(r@[j] == rb[j]);
                    if pre1.contains(j as usize) {
                        let t = choose|t: int| 0 <= t < pre1.len() && pre1[t] == j as usize;
                        assert(pre[t] == j as usize);
                    }
                    if pre.contains(j as usize) {
                        let t = choose|t: int| 0 <= t < pre.len() && pre[t] == j as usize;
                        assert(pre1[t] == j as usize);
                    }
                }
            }
        }
        k += 1;
    }
    assert(gb@.subrange(0, gb@.len() as int) =~= gb@);
    r
}

impl AstBundle {
    /// Chooses the nodes hoisted within each constraint: every non-atom node,
    /// not globally hoisted, that two distinct operand slots refer to within
    /// the part of the DAG the constraint reaches without entering globally
    /// hoisted nodes (ascending).
    pub fn run_cse(&mut self)
        requires
            forall|c: int| 0 <= c < old(self).constraints@.len() ==> constraint_in(#[trigger] old(self).constraints@[c], old(self).nodes@.len()),
        ensures
            final(self).constraint_cse@.len() == old(self).constraints@.len(),
            forall|c: int| 0 <= c < old(self).constraints@.len() ==> (#[trigger] final(self).constraint_cse@[c]).bindings@
                == constraint_choice(old(self).nodes@, old(self).global_cse.bindings@, old(self).constraints@[c]),
            final(self).nodes == old(self).nodes,
            final(self).inputs == old(self).inputs,
            final(self).constraints == old(self).constraints,
            final(self).global_cse == old(self).global_cse,
    {
        let n = self.nodes.len();
        let ghost cs = self.constraints@;
        let ghost nodes = self.nodes@;
        let ghost gb = self.global_cse.bindings@;
        let stop = global_flags(n, &self.global_cse.bindings);
        let ghost gs = global_set(nodes, gb);
        assert(flagged(stop@) =~= gs);
        let mut out: Vec<ConstraintCse> = Vec::new();
        let mut c: usize = 0;
        while c < self.constraints.len()
            invariant
                c <= cs.len(),
                cs == self.constraints@,
                nodes == self.nodes@,
                gb == self.global_cse.bindings@,
                gs == global_set(nodes, gb),
                n == nodes.len(),
                stop@.len() == n,
                flagged(stop@) == gs,
                forall|j: int| 0 <= j < n ==> stop@[j] == gb.contains(j as usize),
                forall|q: int| 0 <= q < cs.len() ==> constraint_in(#[trigger] cs[q], nodes.len()),
                out@.len() == c,
                forall|q: int| 0 <= q < c ==> (#[trigger] out@[q]).bindings@ == constraint_choice(nodes, gb, cs[q]),
            decreases cs.len() - c,
        {
            let roots = roots_of(&self.constraints[c]);
            proof {
                assert(constraint_in(cs[c as int], nodes.len()));
                assert forall|k: int| 0 <= k < roots@.len() implies (#[trigger] roots@[k] as int) < nodes.len() by {
                    assert(constraint_roots(cs[c as int])[k] == roots@[k]);
                }
            }
            let mark = mark_reachable(self.nodes.as_slice(), &stop, roots.as_slice());
            let mut live = no_flags(n);
            let mut j: usize = 0;
            while j < n
                invariant
                    j <= n,
                    n == nodes.len(),
                    mark@.len() == n,
                    stop@.len() == n,
                    live@.len() == n,
                    forall|q: int| 0 <= q < j ==> live@[q] == (mark@[q] && !stop@[q]),
                decreases n - j,
            {
                let f = mark[j] && !stop[j];
                live.set(j, f);
                j += 1;
            }
            proof {
                assert forall|k: int| 0 <= k < nodes.len() implies live@[k] == (reached(nodes, gs, roots@, k) && !gs.contains(k as usize)) by {
                    assert(gs.contains(k as usize) == stop@[k]);
                }
            }
            let two = shared_refs(self.nodes.as_slice(), &live, Ghost(gs), Ghost(roots@));
            let mut flags = no_flags(n);
            let mut j: usize = 0;
            while j < n
                invariant
                    j <= n,
                    n == nodes.len(),
                    nodes == self.nodes@,
                    flags@.len() == n,
                    two@.len() == n,
                    stop@.len() == n,
                    forall|q: int| 0 <= q < n ==> stop@[q] == gs.contains(q as usize),
                    forall|q: int| 0 <= q < n ==> two@[q] == multi_ref(nodes, gs, roots@, q),
                    roots@ == constraint_roots(cs[c as int]),
                    gs == global_set(nodes, gb),
                    forall|q: int| 0 <= q < j ==> flags@[q] == constraint_pred(nodes, gb, cs[c as int])(q),
                decreases n - j,
            {
                let f = two[j] && !is_atom_node(&self.nodes[j]) && !stop[j];
                flags.set(j, f);
                j += 1;
            }
            let ids = collect_ids(&flags, Ghost(constraint_pred(nodes, gb, cs[c as int])));
            out.push(ConstraintCse { bindings: ids });
            c += 1;
        }
        self.constraint_cse = out;
    }
}

// ---------------------------------------------------------------------------
// Laws
// ---------------------------------------------------------------------------

/// The ids `ids_where` lists are increasing, below `n`, and exactly those
/// satisfying the test.
pub proof fn lemma_ids_where(n: nat, p: spec_fn(int) -> bool)
    requires
        n <= usize::MAX,
    ensures
        forall|a: int, b: int| 0 <= a < b < ids_where(n, p).len() ==> ids_where(n, p)[a] < ids_where(n, p)[b],
        forall|a: int| 0 <= a < ids_where(n, p).len() ==> (ids_where(n, p)[a] as int) < n,
        forall|x: usize| ids_where(n, p).contains(x) <==> ((x as int) < n && p(x as int)),
    decreases n,
{
    if n > 0 {
        lemma_ids_where((n - 1) as nat, p);
        let prev = ids_where((n - 1) as nat, p);
        if p(n - 1) {
            let cur = prev.push((n - 1) as usize);
            assert forall|x: usize| cur.contains(x) <==> ((x as int) < n && p(x as int)) by {
                if cur.contains(x) {
                    let k = choose|k: int| 0 <= k < cur.len() && cur[k] == x;
                    if k < prev.len() {
                        assert(prev.contains(x));
                    }
                }
                if (x as int) < n && p(x as int) && (x as int) < n - 1 {
                    assert(prev.contains(x));
                    let k = choose|k: int| 0 <= k < prev.len() && prev[k] == x;
                    assert(cur[k] == x);
                }
                if x as int == n - 1 {
                    assert(cur[prev.len() as int] == x);
                }
            }
        } else {
            assert forall|x: usize| prev.contains(x) <==> ((x as int) < n && p(x as int)) by {
                if (x as int) == n - 1 {
                    if prev.contains(x) {
                        let k = choose|k: int| 0 <= k < prev.len() && prev[k] == x;
                    }
                }
            }
        }
    }
}

/// Global hoisting lists, in increasing order, exactly the non-atom nodes
/// that two different constraints reach.
pub proof fn law_global_bindings(nodes: Seq<Node>, cs: Seq<Constraint>)
    requires
        nodes.len() <= usize::MAX,
    ensures
        ({
            let gb = global_choice(nodes, cs);
            &&& forall|a: int, b: int| 0 <= a < b < gb.len() ==> gb[a] < gb[b]
            &&& forall|x: usize| gb.contains(x) <==> ((x as int) < nodes.len() && !(nodes[x as int] is Atom)
                && shared_by_constraints(nodes, cs, x as int))
        }),
{
    lemma_ids_where(nodes.len(), global_pred(nodes, cs));
}

/// No node is hoisted twice: the nodes hoisted within a constraint are never
/// among the globally hoisted ones, and are non-atom nodes in increasing order.
pub proof fn law_hoisted_once(nodes: Seq<Node>, gb: Seq<usize>, c: Constraint)
    requires
        nodes.len() <= usize::MAX,
    ensures
        ({
            let local = constraint_choice(nodes, gb, c);
            &&& forall|x: usize| local.contains(x) ==> !gb.contains(x)
            &&& forall|x: usize| local.contains(x) ==> !(nodes[x as int] is Atom)
            &&& forall|a: int, b: int| 0 <= a < b < local.len() ==> local[a] < local[b]
        }),
{
    lemma_ids_where(nodes.len(), constraint_pred(nodes, gb, c));
    assert forall|x: usize| constraint_choice(nodes, gb, c).contains(x) implies !gb.contains(x) by {
        assert(!global_set(nodes, gb).contains(x));
    }
}


/// The hoisting choices depend only on the arena and on the nodes each
/// constraint names: bundles built separately with the same nodes and
/// constraint roots get the same global bindings and the same bindings per
/// constraint, whatever order anything was visited in.
pub proof fn law_cse_choice_determined(nodes: Seq<Node>, cs1: Seq<Constraint>, cs2: Seq<Constraint>)
    requires
        cs1.len() == cs2.len(),
        forall|k: int| 0 <= k < cs1.len() ==> constraint_roots(#[trigger] cs1[k]) == constraint_roots(cs2[k]),
    ensures
        global_choice(nodes, cs1) == global_choice(nodes, cs2),
        forall|k: int| 0 <= k < cs1.len() ==> constraint_choice(nodes, global_choice(nodes, cs1), #[trigger] cs1[k])
            == constraint_choice(nodes, global_choice(nodes, cs2), cs2[k]),
{
    assert forall|j: int| shared_by_constraints(nodes, cs1, j) == shared_by_constraints(nodes, cs2, j) by {
        if shared_by_constraints(nodes, cs1, j) {
            let (a, b) = choose|a: int, b: int| 0 <= a < b < cs1.len()
                && #[trigger] reached(nodes, Set::empty(), constraint_roots(cs1[a]), j)
                && #[trigger] reached(nodes, Set::empty(), constraint_roots(cs1[b]), j);
            assert(constraint_roots(cs1[a]) == constraint_roots(cs2[a]));
            assert(constraint_roots(cs1[b]) == constraint_roots(cs2[b]));
        }
        if shared_by_constraints(nodes, cs2, j) {
            let (a, b) = choose|a: int, b: int| 0 <= a < b < cs2.len()
                && #[trigger] reached(nodes, Set::empty(), constraint_roots(cs2[a]), j)
                && #[trigger] reached(nodes, Set::empty(), constraint_roots(cs2[b]), j);
            assert(constraint_roots(cs1[a]) == constraint_roots(cs2[a]));
            assert(constraint_roots(cs1[b]) == constraint_roots(cs2[b]));
        }
    }
    assert(global_pred(nodes, cs1) =~= global_pred(nodes, cs2));
    let g = global_choice(nodes, cs1);
    assert forall|k: int| 0 <= k < cs1.len() implies constraint_choice(nodes, g, #[trigger] cs1[k])
        == constraint_choice(nodes, g, cs2[k]) by {
        assert(constraint_roots(cs1[k]) == constraint_roots(cs2[k]));
        assert(constraint_pred(nodes, g, cs1[k]) =~= constraint_pred(nodes, g, cs2[k]));
    }
}

} // verus!
