//! Challenges of the zero-knowledge Fiat-Shamir stages, derived with the
//! BlindFold transcript: each stage absorbs its label, and each of its rounds
//! absorbs the commitment label and the commitment's field element, then
//! squeezes one challenge.

use vstd::prelude::*;
use crate::ast_evaluator::{canonical, le_repr, poseidon3};
use crate::gnark_blindfold_transcript::{absorb_bytes_state, bytes_value, GnarkBlindFoldTranscript};
use crate::scalar::limbs_val;

verus! {

/// `Jolt`, the label the transcript starts from.
pub open spec fn jolt_label() -> Seq<u8> {
    seq![74u8, 111, 108, 116]
}

/// `sumcheck_commitment`, absorbed before each commitment.
pub open spec fn commitment_label() -> Seq<u8> {
    seq![115u8, 117, 109, 99, 104, 101, 99, 107, 95, 99, 111, 109, 109, 105, 116, 109, 101, 110, 116]
}

/// State, round counter and challenges after the rounds of one stage, from
/// state `s` at round `n`, one round per commitment value in `cfrs`.
pub open spec fn rounds_run(s: nat, n: nat, cfrs: Seq<nat>) -> (nat, nat, Seq<nat>)
    decreases cfrs.len(),
{
    if cfrs.len() == 0 {
        (s, n, seq![])
    } else {
        let s1 = poseidon3(s, n, bytes_value(commitment_label()));
        let s2 = absorb_bytes_state(s1, n + 1, le_repr(cfrs[0], 32));
        let c = poseidon3(s2, n + 2, 0);
        let rest = rounds_run(c, n + 3, cfrs.drop_first());
        (rest.0, rest.1, seq![c] + rest.2)
    }
}

/// State, round counter and challenges after the stages: stage `i` absorbs
/// `labels[i]`, then runs `counts[i]` rounds on the next commitment values.
pub open spec fn stages_run(s: nat, n: nat, labels: Seq<Seq<u8>>, counts: Seq<usize>, cfrs: Seq<nat>) -> (nat, nat, Seq<nat>)
    decreases labels.len(),
{
    if labels.len() == 0 || counts.len() == 0 {
        (s, n, seq![])
    } else {
        let k = counts[0] as int;
        let r = rounds_run(poseidon3(s, n, bytes_value(labels[0])), n + 1, cfrs.take(k));
        let rest = stages_run(r.0, r.1, labels.drop_first(), counts.drop_first(), cfrs.skip(k));
        (rest.0, rest.1, r.2 + rest.2)
    }
}

/// The total number of rounds.
pub open spec fn total_rounds(counts: Seq<usize>) -> nat
    decreases counts.len(),
{
    if counts.len() == 0 {
        0
    } else {
        counts[0] as nat + total_rounds(counts.drop_first())
    }
}

/// The values of field elements.
pub open spec fn values(v: Seq<[u64; 4]>) -> Seq<nat> {
    v.map_values(|c: [u64; 4]| limbs_val(c))
}

/// The labels as byte sequences.
pub open spec fn label_bytes(v: Seq<Vec<u8>>) -> Seq<Seq<u8>> {
    v.map_values(|l: Vec<u8>| l@)
}

/// The challenges of the zero-knowledge Fiat-Shamir stages, one per round,
/// in order, from a transcript labelled `Jolt`. Stage `i` has
/// `rounds_per_stage[i]` rounds and label `stage_labels[i]`; the commitment
/// values are taken in order, one per round.
pub fn derive_zk_fiat_shamir_challenges(
    rounds_per_stage: &[usize],
    stage_labels: &[Vec<u8>],
    commitment_cfrs: &[[u64; 4]],
) -> (r: Vec<[u64; 4]>)
    requires
        rounds_per_stage@.len() == stage_labels@.len(),
        forall|i: int| 0 <= i < stage_labels@.len() ==> (#[trigger] stage_labels@[i])@.len() <= 32,
        total_rounds(rounds_per_stage@) == commitment_cfrs@.len(),
        forall|i: int| 0 <= i < commitment_cfrs@.len() ==> canonical(#[trigger] commitment_cfrs@[i]),
        stage_labels@.len() + 3 * commitment_cfrs@.len() < u32::MAX,
    ensures
        values(r@) == stages_run(poseidon3(bytes_value(jolt_label()), 0, 0), 0, label_bytes(stage_labels@),
            rounds_per_stage@, values(commitment_cfrs@)).2,
        r@.len() == commitment_cfrs@.len(),
        forall|i: int| 0 <= i < r@.len() ==> canonical(#[trigger] r@[i]),
{
    let ghost labels = label_bytes(stage_labels@);
    let ghost counts = rounds_per_stage@;
    let ghost cv = values(commitment_cfrs@);
    let jolt: [u8; 4] = [74, 111, 108, 116];
    assert(jolt@ =~= jolt_label());
    let mut t = GnarkBlindFoldTranscript::new(&jolt);
    let ghost target = stages_run(t.state_value(), t.rounds(), labels, counts, cv).2;
    let sc: [u8; 19] = [115, 117, 109, 99, 104, 101, 99, 107, 95, 99, 111, 109, 109, 105, 116, 109, 101, 110, 116];
    assert(sc@ =~= commitment_label());
    let mut out: Vec<[u64; 4]> = Vec::new();
    let mut off: usize = 0;
    let mut i: usize = 0;
    proof {
        assert(labels.skip(0) =~= labels);
        assert(counts.skip(0) =~= counts);
        assert(cv.skip(0) =~= cv);
        assert(values(out@) + target =~= target);
    }
    while i < rounds_per_stage.len()
        invariant
            i <= rounds_per_stage@.len() == stage_labels@.len() == labels.len(),
            counts == rounds_per_stage@,
            labels == label_bytes(stage_labels@),
            cv == values(commitment_cfrs@),
            forall|q: int| 0 <= q < stage_labels@.len() ==> (#[trigger] stage_labels@[q])@.len() <= 32,
            forall|q: int| 0 <= q < commitment_cfrs@.len() ==> canonical(#[trigger] commitment_cfrs@[q]),
            stage_labels@.len() + 3 * commitment_cfrs@.len() < u32::MAX,
            sc@ == commitment_label(),
            off + total_rounds(counts.skip(i as int)) == commitment_cfrs@.len(),
            out@.len() == off,
            t.rounds() == i + 3 * off,
            target == values(out@) + stages_run(t.state_value(), t.rounds(), labels.skip(i as int), counts.skip(i as int),
                cv.skip(off as int)).2,
            forall|q: int| 0 <= q < out@.len() ==> canonical(#[trigger] out@[q]),
        decreases rounds_per_stage@.len() - i,
    {
        let k = rounds_per_stage[i];
        let ghost w = cv.skip(off as int).take(k as int);
        let ghost rest_labels = labels.skip(i + 1);
        let ghost rest_counts = counts.skip(i + 1);
        proof {
            assert(counts.skip(i as int).drop_first() =~= rest_counts);
            assert(labels.skip(i as int).drop_first() =~= rest_labels);
            assert(counts.skip(i as int)[0] == k);
            assert(off + k <= commitment_cfrs@.len());
            assert(labels[i as int] == stage_labels@[i as int]@);
        }
        t.raw_append_label(stage_labels[i].as_slice());
        proof {
            assert(cv.skip(off as int).skip(k as int) =~= cv.skip(off + k));
            assert(w.skip(0) =~= w);
        }
        let mut j: usize = 0;
        while j < k
            invariant
                j <= k,
                off + k <= commitment_cfrs@.len(),
                i < stage_labels@.len(),
                w == cv.skip(off as int).take(k as int),
                cv == values(commitment_cfrs@),
                forall|q: int| 0 <= q < commitment_cfrs@.len() ==> canonical(#[trigger] commitment_cfrs@[q]),
                stage_labels@.len() + 3 * commitment_cfrs@.len() < u32::MAX,
                sc@ == commitment_label(),
                out@.len() == off + j,
                t.rounds() == i + 1 + 3 * (off + j),
                target == values(out@) + ({
                    let r = rounds_run(t.state_value(), t.rounds(), w.skip(j as int));
                    r.2 + stages_run(r.0, r.1, rest_labels, rest_counts, cv.skip(off + k)).2
                }),
                forall|q: int| 0 <= q < out@.len() ==> canonical(#[trigger] out@[q]),
            decreases k - j,
        {
            let ghost s0 = t.state_value();
            let ghost n0 = t.rounds();
            let ghost ws = w.skip(j as int);
            proof {
                assert(ws[0] == limbs_val(commitment_cfrs@[off + j]));
                assert(ws.drop_first() =~= w.skip(j + 1));
            }
            t.raw_append_label(&sc);
            t.raw_append_scalar(commitment_cfrs[off + j]);
            let c = t.challenge_scalar();
            let ghost r1 = rounds_run(t.state_value(), t.rounds(), w.skip(j + 1));
            let ghost x = stages_run(r1.0, r1.1, rest_labels, rest_counts, cv.skip(off + k)).2;
            proof {
                assert(rounds_run(s0, n0, ws).2 == seq![limbs_val(c)] + r1.2);
                assert(values(out@.push(c)) =~= values(out@).push(limbs_val(c)));
                assert(values(out@) + (seq![limbs_val(c)] + r1.2 + x) =~= values(out@).push(limbs_val(c)) + (r1.2 + x));
            }
            out.push(c);
            j += 1;
        }
        proof {
            assert(w.skip(k as int).len() == 0);
            assert(values(out@) + (Seq::<nat>::empty() + stages_run(t.state_value(), t.rounds(), rest_labels, rest_counts,
                cv.skip(off + k)).2) =~= values(out@) + stages_run(t.state_value(), t.rounds(), rest_labels, rest_counts,
                cv.skip(off + k)).2);
        }
        off = off + k;
        i += 1;
    }
    proof {
        assert(labels.skip(i as int).len() == 0);
        assert(values(out@) + Seq::<nat>::empty() =~= values(out@));
    }
    out
}

} // verus!
