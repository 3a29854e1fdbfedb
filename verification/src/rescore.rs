//! Re-deriving a score from note and hit times alone: a first-fit baseline
//! matcher and the full matching engine with cascading displacement.

use vstd::prelude::*;

use crate::ratio::Ratio;
use crate::replays_analysis::times_bounded;
use crate::wife::Wife;

pub mod matching_scorer;
pub mod naive_scorer;

verus! {

/// The matching tolerance: a hit can claim a note at most this far away,
/// in microseconds.
pub const MATCH_TOLERANCE: i64 = 180_000;

/// One column's evaluation: the summed curve points (in millionths) and the
/// number of notes that were judged against a hit.
pub struct ScoringResult {
    pub wifescore_sum: i128,
    pub num_judged_notes: u64,
}

/// A scorer that evaluates one column's hits against its notes, needing
/// the whole hit list at once.
pub trait ScoringSystem<W: Wife>: Sized {
    /// The column result: summed points and judged-note count.
    spec fn spec_evaluate(note_seconds: Seq<i64>, hit_seconds: Seq<i64>) -> (int, int);

    /// The sums stay within four points per note and hit, and the judged
    /// count within the note count.
    proof fn lemma_evaluate_bounds(note_seconds: Seq<i64>, hit_seconds: Seq<i64>)
        requires
            note_seconds.len() <= 1_000_000_000,
            hit_seconds.len() <= 1_000_000_000,
        ensures
            -10_000_000_000_000_000 <= Self::spec_evaluate(note_seconds, hit_seconds).0
                <= 10_000_000_000_000_000,
            0 <= Self::spec_evaluate(note_seconds, hit_seconds).1 <= note_seconds.len(),
    ;

    fn evaluate(note_seconds: &Vec<i64>, hit_seconds: &Vec<i64>) -> (r: ScoringResult)
        requires
            note_seconds@.len() <= 1_000_000_000,
            hit_seconds@.len() <= 1_000_000_000,
            times_bounded(note_seconds@),
            times_bounded(hit_seconds@),
        ensures
            r.wifescore_sum == Self::spec_evaluate(note_seconds@, hit_seconds@).0,
            r.num_judged_notes == Self::spec_evaluate(note_seconds@, hit_seconds@).1,
            Self::spec_evaluate(note_seconds@, hit_seconds@).1 <= note_seconds@.len(),
    ;
}

/// The whole-chart rescoring under scorer `S` and curve `W`: the four
/// columns' sums, the mine and hold penalties, over the total judged count.
pub open spec fn spec_rescore<S: ScoringSystem<W>, W: Wife>(
    note_seconds_columns: Seq<Seq<i64>>,
    hit_seconds_columns: Seq<Seq<i64>>,
    num_mine_hits: int,
    num_hold_drops: int,
) -> (int, int) {
    let c0 = S::spec_evaluate(note_seconds_columns[0], hit_seconds_columns[0]);
    let c1 = S::spec_evaluate(note_seconds_columns[1], hit_seconds_columns[1]);
    let c2 = S::spec_evaluate(note_seconds_columns[2], hit_seconds_columns[2]);
    let c3 = S::spec_evaluate(note_seconds_columns[3], hit_seconds_columns[3]);
    (
        c0.0 + c1.0 + c2.0 + c3.0 + num_mine_hits * W::spec_mine_hit_weight() + num_hold_drops
            * W::spec_hold_drop_weight(),
        c0.1 + c1.1 + c2.1 + c3.1,
    )
}

/// Rescore a chart: evaluate each of the four columns, add the mine-hit and
/// hold-drop penalties, and divide by the judged-note count. The result is
/// the exact ratio; with no judged note its denominator is zero.
pub fn rescore<S: ScoringSystem<W>, W: Wife>(
    note_seconds_columns: &Vec<Vec<i64>>,
    hit_seconds_columns: &Vec<Vec<i64>>,
    num_mine_hits: u64,
    num_hold_drops: u64,
) -> (r: Ratio)
    requires
        note_seconds_columns@.len() == 4,
        hit_seconds_columns@.len() == 4,
        forall|c: int|
            0 <= c < 4 ==> (#[trigger] note_seconds_columns@[c])@.len() <= 1_000_000_000,
        forall|c: int| 0 <= c < 4 ==> (#[trigger] hit_seconds_columns@[c])@.len() <= 1_000_000_000,
        forall|c: int| 0 <= c < 4 ==> times_bounded((#[trigger] note_seconds_columns@[c])@),
        forall|c: int| 0 <= c < 4 ==> times_bounded((#[trigger] hit_seconds_columns@[c])@),
        num_mine_hits <= 1_000_000_000,
        num_hold_drops <= 1_000_000_000,
    ensures
        r.num == spec_rescore::<S, W>(
            note_seconds_columns@.map_values(|v: Vec<i64>| v@),
            hit_seconds_columns@.map_values(|v: Vec<i64>| v@),
            num_mine_hits as int,
            num_hold_drops as int,
        ).0,
        r.den == spec_rescore::<S, W>(
            note_seconds_columns@.map_values(|v: Vec<i64>| v@),
            hit_seconds_columns@.map_values(|v: Vec<i64>| v@),
            num_mine_hits as int,
            num_hold_drops as int,
        ).1,
{
    let r0 = S::evaluate(&note_seconds_columns[0], &hit_seconds_columns[0]);
    let r1 = S::evaluate(&note_seconds_columns[1], &hit_seconds_columns[1]);
    let r2 = S::evaluate(&note_seconds_columns[2], &hit_seconds_columns[2]);
    let r3 = S::evaluate(&note_seconds_columns[3], &hit_seconds_columns[3]);
    proof {
        W::lemma_bounds(0);
        S::lemma_evaluate_bounds(note_seconds_columns@[0]@, hit_seconds_columns@[0]@);
        S::lemma_evaluate_bounds(note_seconds_columns@[1]@, hit_seconds_columns@[1]@);
        S::lemma_evaluate_bounds(note_seconds_columns@[2]@, hit_seconds_columns@[2]@);
        S::lemma_evaluate_bounds(note_seconds_columns@[3]@, hit_seconds_columns@[3]@);
        assert(num_mine_hits as i128 * (W::spec_mine_hit_weight() as i128)
            >= -4_000_000_000_000_000 && num_mine_hits as i128 * (W::spec_mine_hit_weight()
            as i128) <= 0) by (nonlinear_arith)
            requires
                0 <= num_mine_hits <= 1_000_000_000,
                -4_000_000 <= W::spec_mine_hit_weight() <= 0,
        ;
        assert(num_hold_drops as i128 * (W::spec_hold_drop_weight() as i128)
            >= -4_000_000_000_000_000 && num_hold_drops as i128 * (W::spec_hold_drop_weight()
            as i128) <= 0) by (nonlinear_arith)
            requires
                0 <= num_hold_drops <= 1_000_000_000,
                -4_000_000 <= W::spec_hold_drop_weight() <= 0,
        ;
    }
    let mine_weight = W::mine_hit_weight();
    let hold_weight = W::hold_drop_weight();
    let wifescore_sum: i128 = r0.wifescore_sum + r1.wifescore_sum + r2.wifescore_sum
        + r3.wifescore_sum + (num_mine_hits as i128) * (mine_weight as i128) + (
    num_hold_drops as i128) * (hold_weight as i128);
    let num_judged: u64 = r0.num_judged_notes + r1.num_judged_notes + r2.num_judged_notes
        + r3.num_judged_notes;
    proof {
        assert(note_seconds_columns@.map_values(|v: Vec<i64>| v@)[0] == note_seconds_columns@[0]@);
        assert(note_seconds_columns@.map_values(|v: Vec<i64>| v@)[1] == note_seconds_columns@[1]@);
        assert(note_seconds_columns@.map_values(|v: Vec<i64>| v@)[2] == note_seconds_columns@[2]@);
        assert(note_seconds_columns@.map_values(|v: Vec<i64>| v@)[3] == note_seconds_columns@[3]@);
        assert(hit_seconds_columns@.map_values(|v: Vec<i64>| v@)[0] == hit_seconds_columns@[0]@);
        assert(hit_seconds_columns@.map_values(|v: Vec<i64>| v@)[1] == hit_seconds_columns@[1]@);
        assert(hit_seconds_columns@.map_values(|v: Vec<i64>| v@)[2] == hit_seconds_columns@[2]@);
        assert(hit_seconds_columns@.map_values(|v: Vec<i64>| v@)[3] == hit_seconds_columns@[3]@);
    }
    Ratio { num: wifescore_sum, den: num_judged as i128 }
}

/// Re-running the rescoring on equal inputs gives an equal result: the
/// outcome is a function of the note and hit arrays alone, with no other
/// state.
pub proof fn lemma_rescore_idempotent<S: ScoringSystem<W>, W: Wife>(
    notes1: Seq<Seq<i64>>,
    hits1: Seq<Seq<i64>>,
    notes2: Seq<Seq<i64>>,
    hits2: Seq<Seq<i64>>,
    num_mine_hits: int,
    num_hold_drops: int,
)
    requires
        notes1 == notes2,
        hits1 == hits2,
    ensures
        spec_rescore::<S, W>(notes1, hits1, num_mine_hits, num_hold_drops) == spec_rescore::<
            S,
            W,
        >(notes2, hits2, num_mine_hits, num_hold_drops),
{
}

} // verus!
