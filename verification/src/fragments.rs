//! Structured Go expressions: literal text and references to hoisted
//! (CSE) variables, rendered to text at emission time.

use vstd::prelude::*;
use crate::text::{dec, push_dec, push_str, copy_string};

verus! {

/// A fragment of a generated Go expression.
#[derive(Debug)]
pub enum ExprFragment {
    /// Literal Go text.
    Lit(String),
    /// Reference to a per-constraint hoisted variable.
    CseRef(usize),
    /// Reference to a globally hoisted variable.
    GcseRef(usize),
}

/// What a fragment stands for.
pub enum Frag {
    Lit(Seq<char>),
    Cse(usize),
    Gcse(usize),
}

impl View for ExprFragment {
    type V = Frag;

    open spec fn view(&self) -> Frag {
        match self {
            ExprFragment::Lit(s) => Frag::Lit(s@),
            ExprFragment::CseRef(n) => Frag::Cse(*n),
            ExprFragment::GcseRef(n) => Frag::Gcse(*n),
        }
    }
}

/// The fragments of an expression.
pub open spec fn frags(e: Seq<ExprFragment>) -> Seq<Frag> {
    e.map_values(|f: ExprFragment| f@)
}

/// Copies a fragment.
pub fn copy_frag(f: &ExprFragment) -> (r: ExprFragment)
    ensures
        r@ == f@,
{
    match f {
        ExprFragment::Lit(s) => ExprFragment::Lit(copy_string(s)),
        ExprFragment::CseRef(n) => ExprFragment::CseRef(*n),
        ExprFragment::GcseRef(n) => ExprFragment::GcseRef(*n),
    }
}

/// Appends copies of the fragments of `src` to `dst`.
pub fn extend_frags(dst: &mut Vec<ExprFragment>, src: &Vec<ExprFragment>)
    ensures
        frags(final(dst)@) == frags(old(dst)@) + frags(src@),
{
    let mut i: usize = 0;
    while i < src.len()
        invariant
            i <= src@.len(),
            frags(dst@) == frags(old(dst)@) + frags(src@.subrange(0, i as int)),
        decreases src@.len() - i,
    {
        let ghost d0 = dst@;
        let f = copy_frag(&src[i]);
        dst.push(f);
        assert(frags(dst@) =~= frags(d0).push(src@[i as int]@));
        assert(frags(src@.subrange(0, i + 1)) =~= frags(src@.subrange(0, i as int)).push(src@[i as int]@));
        i += 1;
        assert(frags(dst@) =~= frags(old(dst)@) + frags(src@.subrange(0, i as int)));
    }
    assert(src@.subrange(0, src@.len() as int) =~= src@);
}

/// Copies an expression.
pub fn copy_expr(e: &Vec<ExprFragment>) -> (r: Vec<ExprFragment>)
    ensures
        frags(r@) == frags(e@),
{
    let mut r: Vec<ExprFragment> = Vec::new();
    extend_frags(&mut r, e);
    assert(frags(r@) =~= frags(e@));
    r
}

/// Whether the fragments hold a per-constraint reference.
pub open spec fn has_cse_ref(e: Seq<Frag>) -> bool {
    exists|k: int| 0 <= k < e.len() && e[k] is Cse
}

/// Go text of a fragment: a per-constraint reference is `cse_K_N` (named
/// variables of constraint `K`) or `cse[N]` (slice mode); a global reference
/// is `gcse[N]`.
pub open spec fn frag_text(f: Frag, constraint_idx: Option<usize>, slice_mode: bool) -> Seq<char> {
    match f {
        Frag::Lit(s) => s,
        Frag::Cse(n) => if slice_mode {
            "cse["@ + dec(n as nat) + "]"@
        } else {
            "cse_"@ + dec(constraint_idx.unwrap() as nat) + "_"@ + dec(n as nat)
        },
        Frag::Gcse(n) => "gcse["@ + dec(n as nat) + "]"@,
    }
}

/// Go text of an expression: its fragments' texts in order.
pub open spec fn expr_text(e: Seq<Frag>, constraint_idx: Option<usize>, slice_mode: bool) -> Seq<char>
    decreases e.len(),
{
    if e.len() == 0 {
        seq![]
    } else {
        expr_text(e.drop_last(), constraint_idx, slice_mode) + frag_text(e.last(), constraint_idx, slice_mode)
    }
}

/// Renders an expression to Go source. Per-constraint references need the
/// constraint index unless they are rendered as slice indexes.
pub fn render_expr(expr: &Vec<ExprFragment>, constraint_idx: Option<usize>, slice_mode: bool) -> (r: String)
    requires
        !slice_mode && has_cse_ref(frags(expr@)) ==> constraint_idx is Some,
    ensures
        r@ == expr_text(frags(expr@), constraint_idx, slice_mode),
{
    let mut out = String::new();
    let mut i: usize = 0;
    while i < expr.len()
        invariant
            i <= expr@.len(),
            !slice_mode && has_cse_ref(frags(expr@)) ==> constraint_idx is Some,
            out@ == expr_text(frags(expr@.subrange(0, i as int)), constraint_idx, slice_mode),
        decreases expr@.len() - i,
    {
        proof {
            assert(frags(expr@.subrange(0, i + 1)).drop_last() =~= frags(expr@.subrange(0, i as int)));
            assert(frags(expr@.subrange(0, i + 1)).last() == expr@[i as int]@);
        }
        match &expr[i] {
            ExprFragment::Lit(s) => push_str(&mut out, s.as_str()),
            ExprFragment::CseRef(n) => {
                if slice_mode {
                    push_str(&mut out, "cse[");
                    push_dec(&mut out, *n as u64);
                    push_str(&mut out, "]");
                } else {
                    proof {
                        assert(frags(expr@)[i as int] is Cse);
                    }
                    let idx = match constraint_idx {
                        Some(idx) => idx,
                        None => 0,
                    };
                    push_str(&mut out, "cse_");
                    push_dec(&mut out, idx as u64);
                    push_str(&mut out, "_");
                    push_dec(&mut out, *n as u64);
                }
            },
            ExprFragment::GcseRef(n) => {
                push_str(&mut out, "gcse[");
                push_dec(&mut out, *n as u64);
                push_str(&mut out, "]");
            },
        }
        i += 1;
        assert(out@ =~= expr_text(frags(expr@.subrange(0, i as int)), constraint_idx, slice_mode));
    }
    assert(expr@.subrange(0, expr@.len() as int) =~= expr@);
    out
}

} // verus!
