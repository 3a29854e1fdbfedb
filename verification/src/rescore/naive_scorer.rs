//! The first-fit baseline matcher: hits in time order each claim the
//! closest still-free note within tolerance; unclaimed notes are misses.

use vstd::prelude::*;

use super::{ScoringResult, ScoringSystem, MATCH_TOLERANCE};
use crate::wife::Wife;

verus! {

/// Magnitude of a note-to-hit distance.
pub open spec fn dev_of(note: int, hit: int) -> int {
    if note - hit < 0 {
        hit - note
    } else {
        note - hit
    }
}

/// Scan the notes from `j` for the closest unclaimed one within tolerance;
/// only a strictly closer note replaces the candidate, so the earliest
/// closest note wins.
pub open spec fn naive_pick(
    notes: Seq<i64>,
    claimed: Seq<bool>,
    hit: int,
    j: int,
    best: Option<(int, int)>,
) -> Option<(int, int)>
    decreases notes.len() - j,
{
    if j < 0 || j >= notes.len() {
        best
    } else {
        let dev = dev_of(notes[j] as int, hit);
        let keep = if dev > MATCH_TOLERANCE {
            best
        } else if claimed[j] {
            best
        } else if best is Some && dev >= best.unwrap().1 {
            best
        } else {
            Option::Some((j, dev))
        };
        naive_pick(notes, claimed, hit, j + 1, keep)
    }
}

/// One hit folded into the claim state: a successful pick claims its note
/// and adds its curve value.
pub open spec fn naive_step<W: Wife>(
    notes: Seq<i64>,
    state: (Seq<bool>, int, int),
    hit: int,
) -> (Seq<bool>, int, int) {
    match naive_pick(notes, state.0, hit, 0, Option::None) {
        Option::None => state,
        Option::Some((j, dev)) => (state.0.update(j, true), state.1 + W::spec_calc(dev), state.2 + 1),
    }
}

/// The claim state after the first `k` hits.
pub open spec fn naive_fold<W: Wife>(notes: Seq<i64>, hits: Seq<i64>, k: int) -> (
    Seq<bool>,
    int,
    int,
)
    decreases k,
{
    if k <= 0 {
        (Seq::new(notes.len(), |i: int| false), 0, 0)
    } else {
        naive_step::<W>(notes, naive_fold::<W>(notes, hits, k - 1), hits[k - 1] as int)
    }
}

/// How many flags are set.
pub open spec fn count_true(s: Seq<bool>) -> int
    decreases s.len(),
{
    if s.len() == 0 {
        0
    } else {
        count_true(s.drop_last()) + if s.last() {
            1int
        } else {
            0int
        }
    }
}

proof fn lemma_count_true_le(s: Seq<bool>)
    ensures
        0 <= count_true(s) <= s.len(),
    decreases s.len(),
{
    if s.len() > 0 {
        lemma_count_true_le(s.drop_last());
    }
}

proof fn lemma_count_true_update(s: Seq<bool>, j: int)
    requires
        0 <= j < s.len(),
        !s[j],
    ensures
        count_true(s.update(j, true)) == count_true(s) + 1,
    decreases s.len(),
{
    if j == s.len() - 1 {
        assert(s.update(j, true).drop_last() =~= s.drop_last());
    } else {
        assert(s.update(j, true).drop_last() =~= s.drop_last().update(j, true));
        lemma_count_true_update(s.drop_last(), j);
    }
}

/// What a successful pick guarantees: an unclaimed in-bounds note within
/// tolerance.
proof fn lemma_pick_props(
    notes: Seq<i64>,
    claimed: Seq<bool>,
    hit: int,
    j: int,
    best: Option<(int, int)>,
)
    requires
        0 <= j,
        match best {
            Option::Some(b) => 0 <= b.0 < notes.len() && !claimed[b.0] && 0 <= b.1
                <= MATCH_TOLERANCE,
            Option::None => true,
        },
    ensures
        match naive_pick(notes, claimed, hit, j, best) {
            Option::Some(b) => 0 <= b.0 < notes.len() && !claimed[b.0] && 0 <= b.1
                <= MATCH_TOLERANCE,
            Option::None => true,
        },
    decreases notes.len() - j,
{
    if 0 <= j < notes.len() {
        lemma_pick_props(
            notes,
            claimed,
            hit,
            j + 1,
            if dev_of(notes[j] as int, hit) > MATCH_TOLERANCE {
                best
            } else if claimed[j] {
                best
            } else if best is Some && dev_of(notes[j] as int, hit) >= best.unwrap().1 {
                best
            } else {
                Option::Some((j, dev_of(notes[j] as int, hit)))
            },
        );
    }
}

/// The fold's invariants: the flags stay aligned with the notes, the judged
/// count is the claimed count, and the sum stays within the curve bounds.
proof fn lemma_naive_fold_props<W: Wife>(notes: Seq<i64>, hits: Seq<i64>, k: int)
    ensures
        ({
            let (claimed, sum, judged) = naive_fold::<W>(notes, hits, k);
            &&& claimed.len() == notes.len()
            &&& judged == count_true(claimed)
            &&& -4_000_000 * judged <= sum <= 4_000_000 * judged
        }),
    decreases k,
{
    if k > 0 {
        lemma_naive_fold_props::<W>(notes, hits, k - 1);
        let (claimed, sum, judged) = naive_fold::<W>(notes, hits, k - 1);
        lemma_pick_props(notes, claimed, hits[k - 1] as int, 0, Option::None);
        match naive_pick(notes, claimed, hits[k - 1] as int, 0, Option::None) {
            Option::Some(b) => {
                lemma_count_true_update(claimed, b.0);
                W::lemma_bounds(b.1);
                assert(-4_000_000 * (judged + 1) == -4_000_000 * judged + -4_000_000)
                    by (nonlinear_arith);
                assert(4_000_000 * (judged + 1) == 4_000_000 * judged + 4_000_000)
                    by (nonlinear_arith);
            },
            Option::None => {},
        }
    } else {
        assert(count_true(Seq::new(notes.len(), |i: int| false)) == 0) by {
            lemma_count_all_false(Seq::new(notes.len(), |i: int| false));
        }
    }
}

proof fn lemma_count_all_false(s: Seq<bool>)
    requires
        forall|i: int| 0 <= i < s.len() ==> !s[i],
    ensures
        count_true(s) == 0,
    decreases s.len(),
{
    if s.len() > 0 {
        assert(forall|i: int| 0 <= i < s.len() - 1 ==> #[trigger] s.drop_last()[i] == s[i]);
        lemma_count_all_false(s.drop_last());
    }
}

/// First-fit matching: each hit in order claims the closest free note
/// within the tolerance; a hit with no such note is ignored, and every
/// note left unclaimed counts as a miss under the curve's miss weight.
pub struct NaiveScorer;

impl<W: Wife> ScoringSystem<W> for NaiveScorer {
    open spec fn spec_evaluate(note_seconds: Seq<i64>, hit_seconds: Seq<i64>) -> (int, int) {
        let (claimed, sum, judged) = naive_fold::<W>(note_seconds, hit_seconds, hit_seconds.len() as int);
        (sum + W::spec_miss_weight() * (note_seconds.len() - count_true(claimed)), judged)
    }

    proof fn lemma_evaluate_bounds(note_seconds: Seq<i64>, hit_seconds: Seq<i64>) {
        lemma_naive_fold_props::<W>(note_seconds, hit_seconds, hit_seconds.len() as int);
        let (claimed, sum, judged) = naive_fold::<W>(
            note_seconds,
            hit_seconds,
            hit_seconds.len() as int,
        );
        lemma_count_true_le(claimed);
        W::lemma_bounds(0);
        assert(-4_000_000 * judged >= -4_000_000 * note_seconds.len()) by (nonlinear_arith)
            requires
                judged <= note_seconds.len(),
        ;
        assert(-4_000_000 * (note_seconds.len() - count_true(claimed)) <= W::spec_miss_weight()
            * (note_seconds.len() - count_true(claimed)) <= 0) by (nonlinear_arith)
            requires
                -4_000_000 <= W::spec_miss_weight() <= 0,
                note_seconds.len() - count_true(claimed) >= 0,
        ;
        assert(-4_000_000 * (note_seconds.len() as int) >= -10_000_000_000_000_000)
            by (nonlinear_arith)
            requires
                note_seconds.len() <= 1_000_000_000,
        ;
        assert(4_000_000 * judged <= 10_000_000_000_000_000) by (nonlinear_arith)
            requires
                judged <= note_seconds.len() <= 1_000_000_000,
        ;
        assert(-4_000_000 * (note_seconds.len() - count_true(claimed))
            >= -10_000_000_000_000_000) by (nonlinear_arith)
            requires
                note_seconds.len() <= 1_000_000_000,
                count_true(claimed) >= 0,
        ;
    }

    #[verifier::loop_isolation(false)]
    fn evaluate(note_seconds: &Vec<i64>, hit_seconds: &Vec<i64>) -> (r: ScoringResult) {
        let nn = note_seconds.len();
        let nh = hit_seconds.len();
        let mut claimed: Vec<bool> = Vec::new();
        let mut z: usize = 0;
        while z < nn
            invariant
                0 <= z <= nn,
                claimed@.len() == z,
                forall|i: int| 0 <= i < z ==> !claimed@[i],
            decreases nn - z,
        {
            claimed.push(false);
            z += 1;
        }
        proof {
            assert(claimed@ =~= Seq::new(note_seconds@.len(), |i: int| false));
        }
        let mut wifescore_sum: i128 = 0;
        let mut num_judged_notes: u64 = 0;
        let mut k: usize = 0;
        while k < nh
            invariant
                0 <= k <= nh == hit_seconds@.len(),
                claimed@.len() == nn == note_seconds@.len(),
                (claimed@, wifescore_sum as int, num_judged_notes as int) == naive_fold::<W>(
                    note_seconds@,
                    hit_seconds@,
                    k as int,
                ),
                num_judged_notes <= nn,
                -4_000_000 * (num_judged_notes as int) <= wifescore_sum <= 4_000_000 * (
                num_judged_notes as int),
            decreases nh - k,
        {
            let hit = hit_seconds[k];
            let mut best: Option<(usize, i64)> = None;
            let mut j: usize = 0;
            while j < nn
                invariant
                    0 <= j <= nn,
                    claimed@.len() == nn,
                    match best {
                        Option::Some(b) => 0 <= b.0 < nn && !claimed@[b.0 as int] && 0 <= b.1
                            <= MATCH_TOLERANCE,
                        Option::None => true,
                    },
                    naive_pick(note_seconds@, claimed@, hit as int, 0, Option::None)
                        == naive_pick(
                        note_seconds@,
                        claimed@,
                        hit as int,
                        j as int,
                        match best {
                            Option::Some(b) => Option::Some((b.0 as int, b.1 as int)),
                            Option::None => Option::None,
                        },
                    ),
                decreases nn - j,
            {
                let note = note_seconds[j];
                let d = note - hit;
                let dev: i64 = if d < 0 {
                    -d
                } else {
                    d
                };
                let replace: bool = if dev > MATCH_TOLERANCE {
                    false
                } else if claimed[j] {
                    false
                } else {
                    match best {
                        Some(b) => dev < b.1,
                        None => true,
                    }
                };
                if replace {
                    best = Some((j, dev));
                }
                j += 1;
            }
            proof {
                lemma_pick_props(note_seconds@, claimed@, hit as int, 0, Option::None);
                lemma_naive_fold_props::<W>(note_seconds@, hit_seconds@, k as int);
                lemma_naive_fold_props::<W>(note_seconds@, hit_seconds@, k + 1);
                lemma_count_true_le(claimed@);
                lemma_count_true_le(naive_fold::<W>(note_seconds@, hit_seconds@, k + 1).0);
                match naive_pick(note_seconds@, claimed@, hit as int, 0, Option::None) {
                    Option::Some(b) => {
                        lemma_count_true_update(claimed@, b.0);
                    },
                    Option::None => {},
                }
            }
            match best {
                Some(b) => {
                    claimed.set(b.0, true);
                    let v = W::calc(b.1);
                    proof {
                        W::lemma_bounds(b.1 as int);
                    }
                    wifescore_sum = wifescore_sum + v as i128;
                    num_judged_notes = num_judged_notes + 1;
                },
                None => {},
            }
            k += 1;
        }
        // Unclaimed notes are misses.
        let miss_weight = W::miss_weight();
        let mut num_misses: u64 = 0;
        let mut t: usize = 0;
        while t < nn
            invariant
                0 <= t <= nn,
                claimed@.len() == nn,
                num_misses == t - count_true(claimed@.take(t as int)),
                count_true(claimed@.take(t as int)) >= 0,
            decreases nn - t,
        {
            proof {
                assert(claimed@.take(t + 1).drop_last() =~= claimed@.take(t as int));
                assert(claimed@.take(t + 1).last() == claimed@[t as int]);
                lemma_count_true_le(claimed@.take(t as int));
            }
            if !claimed[t] {
                num_misses = num_misses + 1;
            }
            t += 1;
        }
        proof {
            assert(claimed@.take(nn as int) =~= claimed@);
            lemma_count_true_le(claimed@);
            lemma_naive_fold_props::<W>(note_seconds@, hit_seconds@, nh as int);
            W::lemma_bounds(0);
            assert(-4_000_000_000_000_000 <= wifescore_sum <= 4_000_000_000_000_000)
                by (nonlinear_arith)
                requires
                    -4_000_000 * (num_judged_notes as int) <= wifescore_sum <= 4_000_000 * (
                    num_judged_notes as int),
                    0 <= num_judged_notes <= 1_000_000_000,
            ;
            assert(W::spec_miss_weight() * (num_misses as int) >= -4_000_000_000_000_000
                && W::spec_miss_weight() * (num_misses as int) <= 0) by (nonlinear_arith)
                requires
                    -4_000_000 <= W::spec_miss_weight() <= 0,
                    0 <= num_misses <= 1_000_000_000,
            ;
            assert(W::spec_miss_weight() * (num_misses as int) == (num_misses as int)
                * W::spec_miss_weight()) by (nonlinear_arith);
        }
        let wifescore_sum = wifescore_sum + (miss_weight as i128) * (num_misses as i128);
        ScoringResult { wifescore_sum, num_judged_notes }
    }
}

} // verus!
