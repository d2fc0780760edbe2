//! A log of compared values, for checking a verifier run against a reference.
//!
//! Each logged comparison gets the next index; values are recorded as the
//! decimal numbers their little-endian byte encodings stand for.

use vstd::prelude::*;
use crate::bytes::le_nat;
use crate::text::{biguint_le_decimal, dec, push_dec, push_str, text_of};

verus! {

/// One logged comparison: its index and the two values in decimal.
pub type AssertionEntry = (usize, String, String);

/// The comparison log: the next index and the entries so far.
pub struct AssertionLog {
    pub counter: usize,
    pub assertions: Vec<AssertionEntry>,
}

/// One more, wrapping around at the largest `usize` (as an atomic counter does).
pub open spec fn next_index(c: usize) -> usize {
    if c == usize::MAX { 0 } else { (c + 1) as usize }
}

impl AssertionLog {
    /// An empty log starting at index zero.
    pub fn new() -> (r: Self)
        ensures
            r.counter == 0,
            r.assertions@.len() == 0,
    {
        AssertionLog { counter: 0, assertions: Vec::new() }
    }
}

/// Empties the log and restarts the indices at zero (`reset`).
pub fn reset(log: &mut AssertionLog)
    ensures
        final(log).counter == 0,
        final(log).assertions@.len() == 0,
{
    log.counter = 0;
    log.assertions = Vec::new();
}

/// What logging one comparison does: the entry gets the counter as its
/// index and the two values in decimal, and the counter moves on.
pub open spec fn logs(a: AssertionLog, b: AssertionLog, lhs: Seq<u8>, rhs: Seq<u8>) -> bool {
    &&& b.counter == next_index(a.counter)
    &&& b.assertions@.len() == a.assertions@.len() + 1
    &&& b.assertions@.drop_last() == a.assertions@
    &&& b.assertions@.last().0 == a.counter
    &&& b.assertions@.last().1@ == dec(le_nat(lhs))
    &&& b.assertions@.last().2@ == dec(le_nat(rhs))
}

/// Logs the comparison of two values given by their little-endian encodings
/// and returns its index (`log_assertion_eq`); the entry holds both values
/// in decimal.
pub fn log_assertion_eq(log: &mut AssertionLog, lhs: &[u8], rhs: &[u8]) -> (idx: usize)
    ensures
        idx == old(log).counter,
        final(log).counter == next_index(old(log).counter),
        final(log).assertions@.len() == old(log).assertions@.len() + 1,
        final(log).assertions@.drop_last() == old(log).assertions@,
        final(log).assertions@.last().0 == idx,
        final(log).assertions@.last().1@ == dec(le_nat(lhs@)),
        final(log).assertions@.last().2@ == dec(le_nat(rhs@)),
        logs(*old(log), *final(log), lhs@, rhs@),
{
    let idx = log.counter;
    log.counter = if idx == usize::MAX { 0 } else { idx + 1 };
    let lhs_str = biguint_le_decimal(lhs);
    let rhs_str = biguint_le_decimal(rhs);
    log.assertions.push((idx, lhs_str, rhs_str));
    assert(log.assertions@.drop_last() =~= old(log).assertions@);
    idx
}

/// One entry of the JSON list.
pub open spec fn entry_json(idx: usize, lhs: Seq<char>, rhs: Seq<char>) -> Seq<char> {
    "    {\"index\": "@ + dec(idx as nat) + ", \"lhs\": \""@ + lhs + "\", \"rhs\": \""@ + rhs + "\"}"@
}

/// The entries, separated by a comma and a newline.
pub open spec fn entries_json(es: Seq<AssertionEntry>) -> Seq<char>
    decreases es.len(),
{
    if es.len() == 0 {
        seq![]
    } else if es.len() == 1 {
        entry_json(es[0].0, es[0].1@, es[0].2@)
    } else {
        entries_json(es.drop_last()) + ",\n"@ + entry_json(es.last().0, es.last().1@, es.last().2@)
    }
}

/// The JSON document of a log.
pub open spec fn log_json(es: Seq<AssertionEntry>) -> Seq<char> {
    "{\n  \"source\": \"rust_verify_real\",\n  \"assertions\": [\n"@ + entries_json(es) + "\n  ],\n  \"count\": "@
        + dec(es.len()) + "\n}"@
}

fn entry_json_string(e: &AssertionEntry) -> (r: String)
    ensures
        r@ == entry_json(e.0, e.1@, e.2@),
{
    let mut out = text_of("    {\"index\": ");
    push_dec(&mut out, e.0 as u64);
    push_str(&mut out, ", \"lhs\": \"");
    push_str(&mut out, e.1.as_str());
    push_str(&mut out, "\", \"rhs\": \"");
    push_str(&mut out, e.2.as_str());
    push_str(&mut out, "\"}");
    assert(out@ =~= entry_json(e.0, e.1@, e.2@));
    out
}

/// The log as the JSON document that `export_json` writes.
pub fn export_json_text(log: &AssertionLog) -> (r: String)
    ensures
        r@ == log_json(log.assertions@),
{
    let es = &log.assertions;
    let mut body = String::new();
    let mut i: usize = 0;
    while i < es.len()
        invariant
            i <= es@.len(),
            body@ == entries_json(es@.subrange(0, i as int)),
        decreases es@.len() - i,
    {
        let ghost pre = es@.subrange(0, i as int);
        let e = entry_json_string(&es[i]);
        if i > 0 {
            push_str(&mut body, ",\n");
        }
        push_str(&mut body, e.as_str());
        i += 1;
        proof {
            let cur = es@.subrange(0, i as int);
            assert(cur.drop_last() =~= pre);
            if i == 1 {
                assert(body@ =~= entries_json(cur));
            } else {
                assert(body@ =~= entries_json(cur));
            }
        }
    }
    assert(es@.subrange(0, es@.len() as int) =~= es@);
    let mut out = text_of("{\n  \"source\": \"rust_verify_real\",\n  \"assertions\": [\n");
    push_str(&mut out, body.as_str());
    push_str(&mut out, "\n  ],\n  \"count\": ");
    push_dec(&mut out, es.len() as u64);
    push_str(&mut out, "\n}");
    assert(out@ =~= log_json(log.assertions@));
    out
}


/// After a reset (or on a new log), the comparisons logged next get the
/// indices 0, 1, 2, ... in order: after `n` of them the log holds `n`
/// entries, entry `i` with index `i`, and the counter is `n`.
pub proof fn law_log_indices_restart(ls: Seq<AssertionLog>, values: Seq<(Seq<u8>, Seq<u8>)>)
    requires
        ls.len() == values.len() + 1,
        ls[0].counter == 0,
        ls[0].assertions@.len() == 0,
        values.len() <= usize::MAX,
        forall|i: int| 0 <= i < values.len() ==> logs(#[trigger] ls[i], ls[i + 1], values[i].0, values[i].1),
    ensures
        ls.last().counter == values.len(),
        ls.last().assertions@.len() == values.len(),
        forall|i: int| 0 <= i < values.len() ==> (#[trigger] ls.last().assertions@[i]).0 == i,
    decreases values.len(),
{
    if values.len() > 0 {
        let n = values.len() - 1;
        law_log_indices_restart(ls.drop_last(), values.drop_last());
        let a = ls[n];
        let b = ls[n + 1];
        assert(ls.drop_last().last() == a);
        assert(logs(ls[n], ls[n + 1], values[n].0, values[n].1));
        assert forall|i: int| 0 <= i < values.len() implies (#[trigger] b.assertions@[i]).0 == i by {
            if i < n {
                assert(b.assertions@[i] == b.assertions@.drop_last()[i]);
                assert(a.assertions@[i] == ls.drop_last().last().assertions@[i]);
            }
        }
    }
}

} // verus!
