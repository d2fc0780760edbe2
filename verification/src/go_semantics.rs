//! What generated gnark expressions mean: a small model of the Go
//! expressions the code generators write (constants, circuit inputs and
//! calls of the `api` field operations), how each is written out, and the
//! field element it stands for when the circuit runs.

use vstd::prelude::*;
use crate::ast_evaluator::{field_inv, fr_of};
use crate::gnark_codegen::{scalar_text, var_text};
use crate::mle_ast::{Atom, Edge, Node};
use crate::scalar::{add_mod_spec, limbs_val, mul_mod_spec, neg_mod_spec, sub_mod_spec};
use crate::text::dec;

verus! {

/// A field operation of gnark's `frontend.API`.
pub enum GoFn {
    Add,
    Sub,
    Mul,
    Div,
    Neg,
    Inverse,
}

/// A gnark Go expression over field elements.
pub enum GoExpr {
    /// A constant, by its limbs.
    Const([u64; 4]),
    /// Input `i` of the circuit.
    Input(u16),
    /// `api.F(a)`.
    Call1(GoFn, Box<GoExpr>),
    /// `api.F(a, b)`.
    Call2(GoFn, Box<GoExpr>, Box<GoExpr>),
}

/// The Go name of an operation.
pub open spec fn fn_name(f: GoFn) -> Seq<char> {
    match f {
        GoFn::Add => "api.Add"@,
        GoFn::Sub => "api.Sub"@,
        GoFn::Mul => "api.Mul"@,
        GoFn::Div => "api.Div"@,
        GoFn::Neg => "api.Neg"@,
        GoFn::Inverse => "api.Inverse"@,
    }
}

/// How an expression is written: constants in decimal (`big`: as the
/// circuit generator writes them, through `bigInt` past `int64`), inputs by
/// their field name in `names` (`circuit.X_i` when they have none), calls as
/// `api.F(a)` and `api.F(a, b)`.
pub open spec fn render(g: GoExpr, big: bool, names: Map<u16, Seq<char>>) -> Seq<char>
    decreases g,
{
    match g {
        GoExpr::Const(l) => if big { scalar_text(l) } else { dec(limbs_val(l)) },
        GoExpr::Input(i) => var_text(names, i),
        GoExpr::Call1(f, a) => fn_name(f) + "("@ + render(*a, big, names) + ")"@,
        GoExpr::Call2(f, a, b) => fn_name(f) + "("@ + render(*a, big, names) + ", "@ + render(*b, big, names) + ")"@,
    }
}

/// The field element an expression stands for when input `i` holds `w[i]`:
/// gnark's field operations modulo `p`; an inverse or a quotient of zero,
/// or an input without a value, has none (the circuit cannot be satisfied).
pub open spec fn go_eval(g: GoExpr, w: Map<u16, [u64; 4]>) -> Option<nat>
    decreases g,
{
    match g {
        GoExpr::Const(l) => Some(fr_of(l)),
        GoExpr::Input(i) => if w.contains_key(i) { Some(fr_of(w[i])) } else { None },
        GoExpr::Call1(f, a) => match go_eval(*a, w) {
            Some(x) => match f {
                GoFn::Neg => Some(neg_mod_spec(x)),
                GoFn::Inverse => if x == 0 { None } else { Some(field_inv(x)) },
                _ => None,
            },
            None => None,
        },
        GoExpr::Call2(f, a, b) => match (go_eval(*a, w), go_eval(*b, w)) {
            (Some(x), Some(y)) => match f {
                GoFn::Add => Some(add_mod_spec(x, y)),
                GoFn::Sub => Some(sub_mod_spec(x, y)),
                GoFn::Mul => Some(mul_mod_spec(x, y)),
                GoFn::Div => if y == 0 { None } else { Some(mul_mod_spec(x, field_inv(y))) },
                _ => None,
            },
            _ => None,
        },
    }
}

/// The expression rooted at node `id` is field arithmetic only: constants,
/// inputs, addition, subtraction, multiplication, division, negation and
/// inversion, each operand a constant, an input or an earlier node.
pub open spec fn arith_from(nodes: Seq<Node>, id: int) -> bool
    decreases id, 1nat,
{
    0 <= id < nodes.len() && match nodes[id] {
        Node::Atom(a) => !(a is NamedVar),
        Node::Add(l, r) | Node::Sub(l, r) | Node::Mul(l, r) | Node::Div(l, r) => arith_edge(nodes, l, id) && arith_edge(nodes, r, id),
        Node::Neg(e) | Node::Inv(e) => arith_edge(nodes, e, id),
        _ => false,
    }
}

/// An operand of node `bound` that `arith_from` admits.
pub open spec fn arith_edge(nodes: Seq<Node>, e: Edge, bound: int) -> bool
    decreases bound, 0nat,
{
    match e {
        Edge::Atom(a) => !(a is NamedVar),
        Edge::NodeRef(j) => (j as int) < bound && arith_from(nodes, j as int),
    }
}

/// The Go expression of an atom.
pub open spec fn atom_go(a: Atom) -> GoExpr {
    match a {
        Atom::Scalar(l) => GoExpr::Const(l),
        Atom::Var(i) => GoExpr::Input(i),
        Atom::NamedVar(_) => GoExpr::Const([0u64, 0u64, 0u64, 0u64]),
    }
}


/// The opening of each call as one string.
pub proof fn lemma_call_openings()
    ensures
        fn_name(GoFn::Add) + "("@ == "api.Add("@,
        fn_name(GoFn::Sub) + "("@ == "api.Sub("@,
        fn_name(GoFn::Mul) + "("@ == "api.Mul("@,
        fn_name(GoFn::Div) + "("@ == "api.Div("@,
        fn_name(GoFn::Neg) + "("@ == "api.Neg("@,
        fn_name(GoFn::Inverse) + "("@ == "api.Inverse("@,
{
    reveal_strlit("(");
    reveal_strlit("api.Add");
    reveal_strlit("api.Add(");
    reveal_strlit("api.Sub");
    reveal_strlit("api.Sub(");
    reveal_strlit("api.Mul");
    reveal_strlit("api.Mul(");
    reveal_strlit("api.Div");
    reveal_strlit("api.Div(");
    reveal_strlit("api.Neg");
    reveal_strlit("api.Neg(");
    reveal_strlit("api.Inverse");
    reveal_strlit("api.Inverse(");
    assert(fn_name(GoFn::Add) + "("@ =~= "api.Add("@);
    assert(fn_name(GoFn::Sub) + "("@ =~= "api.Sub("@);
    assert(fn_name(GoFn::Mul) + "("@ =~= "api.Mul("@);
    assert(fn_name(GoFn::Div) + "("@ =~= "api.Div("@);
    assert(fn_name(GoFn::Neg) + "("@ =~= "api.Neg("@);
    assert(fn_name(GoFn::Inverse) + "("@ =~= "api.Inverse("@);
}

/// The openings and closings the circuit generator writes, as calls.
pub proof fn lemma_circuit_openings()
    ensures
        "api."@ + "Add"@ + "("@ == fn_name(GoFn::Add) + "("@,
        "api."@ + "Sub"@ + "("@ == fn_name(GoFn::Sub) + "("@,
        "api."@ + "Mul"@ + "("@ == fn_name(GoFn::Mul) + "("@,
        "api.Mul("@ == fn_name(GoFn::Mul) + "("@,
        ", api.Inverse("@ == ", "@ + fn_name(GoFn::Inverse) + "("@,
        "))"@ == ")"@ + ")"@,
        "api."@.is_prefix_of("api.Neg"@),
        "api."@.is_prefix_of("api.Inverse"@),
        "api.Neg"@ == fn_name(GoFn::Neg),
        "api.Inverse"@ == fn_name(GoFn::Inverse),
{
    lemma_call_openings();
    reveal_strlit("api.");
    reveal_strlit("Add");
    reveal_strlit("Sub");
    reveal_strlit("Mul");
    reveal_strlit("(");
    reveal_strlit(")");
    reveal_strlit("))");
    reveal_strlit(", ");
    reveal_strlit(", api.Inverse(");
    reveal_strlit("api.Add(");
    reveal_strlit("api.Sub(");
    reveal_strlit("api.Mul(");
    reveal_strlit("api.Mul");
    reveal_strlit("api.Inverse");
    reveal_strlit("api.Neg");
    assert("api."@ + "Add"@ + "("@ =~= "api.Add("@);
    assert("api."@ + "Sub"@ + "("@ =~= "api.Sub("@);
    assert("api."@ + "Mul"@ + "("@ =~= "api.Mul("@);
    assert(", api.Inverse("@ =~= ", "@ + "api.Inverse"@ + "("@);
    assert("))"@ =~= ")"@ + ")"@);
    assert("api."@ =~= "api.Neg"@.subrange(0, 4));
    assert("api."@ =~= "api.Inverse"@.subrange(0, 4));
}

} // verus!
