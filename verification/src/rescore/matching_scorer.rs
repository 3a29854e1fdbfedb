//! The matching engine: a dynamic bipartite assignment of hits to notes.
//! Each hit claims the best note within tolerance that is free or held by a
//! worse-fitting hit; a displaced hit immediately searches again. The
//! cascade terminates because every reassignment strictly lowers its note's
//! deviation.

use vstd::prelude::*;

use super::{ScoringResult, ScoringSystem, MATCH_TOLERANCE};
use super::naive_scorer::dev_of;
use crate::wife::{Wife, Wife3, STRAY_WEIGHT};

verus! {

/// A note's claim: the holding hit's index and the deviation, or nothing.
pub type Claim = Option<(int, int)>;

/// The ghost view of an executable claim table.
pub open spec fn claim_view(c: Option<(usize, i64)>) -> Claim {
    match c {
        Option::Some(p) => Option::Some((p.0 as int, p.1 as int)),
        Option::None => Option::None,
    }
}

pub open spec fn claims_view(s: Seq<Option<(usize, i64)>>) -> Seq<Claim> {
    s.map_values(|c: Option<(usize, i64)>| claim_view(c))
}

/// Deviations within tolerance and hit indices within the hit list.
pub open spec fn claims_ok(claims: Seq<Claim>, nhits: int) -> bool {
    forall|j: int|
        0 <= j < claims.len() ==> match #[trigger] claims[j] {
            Option::Some(c) => 0 <= c.0 < nhits && 0 <= c.1 <= MATCH_TOLERANCE,
            Option::None => true,
        }
}

/// The termination measure: an unclaimed note weighs one more than any
/// in-tolerance deviation, so every reassignment lowers the total.
pub open spec fn claims_measure(claims: Seq<Claim>, i: int) -> int
    decreases i,
{
    if i <= 0 {
        0
    } else {
        claims_measure(claims, i - 1) + (match claims[i - 1] {
            Option::Some(c) => c.1,
            Option::None => MATCH_TOLERANCE + 1,
        })
    }
}

proof fn lemma_measure_nonneg(claims: Seq<Claim>, i: int)
    requires
        forall|j: int|
            0 <= j < claims.len() ==> match #[trigger] claims[j] {
                Option::Some(c) => c.1 >= 0,
                Option::None => true,
            },
        i <= claims.len(),
    ensures
        claims_measure(claims, i) >= 0,
    decreases i,
{
    if i > 0 {
        lemma_measure_nonneg(claims, i - 1);
    }
}

/// Replacing one claim changes the measure by the difference of the two
/// weights.
proof fn lemma_measure_update(claims: Seq<Claim>, i: int, n: int, v: Claim)
    requires
        0 <= n < claims.len(),
        i <= claims.len(),
    ensures
        claims_measure(claims.update(n, v), i) == claims_measure(claims, i) + (if n < i {
            (match v {
                Option::Some(c) => c.1,
                Option::None => MATCH_TOLERANCE + 1,
            }) - (match claims[n] {
                Option::Some(c) => c.1,
                Option::None => MATCH_TOLERANCE + 1,
            })
        } else {
            0int
        }),
    decreases i,
{
    if i > 0 {
        lemma_measure_update(claims, i - 1, n, v);
        if n == i - 1 {
            assert(claims.update(n, v)[i - 1] == v);
        } else {
            assert(claims.update(n, v)[i - 1] == claims[i - 1]);
        }
        assert(claims_measure(claims.update(n, v), i) == claims_measure(claims.update(n, v), i - 1)
            + (match claims.update(n, v)[i - 1] {
            Option::Some(c) => c.1,
            Option::None => MATCH_TOLERANCE + 1,
        }));
        assert(claims_measure(claims, i) == claims_measure(claims, i - 1) + (match claims[i - 1] {
            Option::Some(c) => c.1,
            Option::None => MATCH_TOLERANCE + 1,
        }));
    }
}

/// Scan all notes for the best claimable one: a candidate must be within
/// tolerance and strictly closer than the note's current claim, and only a
/// deviation no larger than the best so far takes over (so equal-deviation
/// notes later in the list win).
pub open spec fn match_scan(
    notes: Seq<i64>,
    claims: Seq<Claim>,
    hit: int,
    j: int,
    best: Option<(int, int)>,
) -> Option<(int, int)>
    decreases notes.len() - j,
{
    if j < 0 || j >= notes.len() {
        best
    } else {
        let dev = dev_of(notes[j] as int, hit);
        let keep = if best is Some && dev > best.unwrap().1 {
            best
        } else if dev > MATCH_TOLERANCE {
            best
        } else if claims[j] is Some && dev >= claims[j].unwrap().1 {
            best
        } else {
            Option::Some((j, dev))
        };
        match_scan(notes, claims, hit, j + 1, keep)
    }
}

/// What a successful scan guarantees: a real note, a tolerated deviation,
/// and strict improvement over any displaced claim.
proof fn lemma_match_scan_props(
    notes: Seq<i64>,
    claims: Seq<Claim>,
    hit: int,
    j: int,
    best: Option<(int, int)>,
)
    requires
        0 <= j,
        claims.len() == notes.len(),
        match best {
            Option::Some(b) => 0 <= b.0 < notes.len() && 0 <= b.1 <= MATCH_TOLERANCE && (
            match claims[b.0] {
                Option::Some(c) => b.1 < c.1,
                Option::None => true,
            }),
            Option::None => true,
        },
    ensures
        match match_scan(notes, claims, hit, j, best) {
            Option::Some(b) => 0 <= b.0 < notes.len() && 0 <= b.1 <= MATCH_TOLERANCE && (
            match claims[b.0] {
                Option::Some(c) => b.1 < c.1,
                Option::None => true,
            }),
            Option::None => best is None,
        },
    decreases notes.len() - j,
{
    if 0 <= j < notes.len() {
        let dev = dev_of(notes[j] as int, hit);
        let keep = if best is Some && dev > best.unwrap().1 {
            best
        } else if dev > MATCH_TOLERANCE {
            best
        } else if claims[j] is Some && dev >= claims[j].unwrap().1 {
            best
        } else {
            Option::Some((j, dev))
        };
        lemma_match_scan_props(notes, claims, hit, j + 1, keep);
    }
}

/// Find a home for one hit: claim the best candidate note, and if that
/// displaces another hit, search again for the displaced one against the
/// updated table. Terminates because the claim measure strictly falls.
pub open spec fn match_find(
    notes: Seq<i64>,
    hits: Seq<i64>,
    claims: Seq<Claim>,
    hit_idx: int,
) -> Seq<Claim>
    decreases claims_measure(claims, claims.len() as int)
        when claims_ok(claims, hits.len() as int) && claims.len() == notes.len() && 0 <= hit_idx
            < hits.len() via match_find_decreases
{
    match match_scan(notes, claims, hits[hit_idx] as int, 0, Option::None) {
        Option::None => claims,
        Option::Some((n, dev)) => {
            let prev = claims[n];
            let claims2 = claims.update(n, Option::Some((hit_idx, dev)));
            match prev {
                Option::None => claims2,
                Option::Some(p) => match_find(notes, hits, claims2, p.0),
            }
        },
    }
}

#[via_fn]
proof fn match_find_decreases(notes: Seq<i64>, hits: Seq<i64>, claims: Seq<Claim>, hit_idx: int) {
    lemma_match_scan_props(notes, claims, hits[hit_idx] as int, 0, Option::None);
    match match_scan(notes, claims, hits[hit_idx] as int, 0, Option::None) {
        Option::None => {},
        Option::Some((n, dev)) => {
            let claims2 = claims.update(n, Option::Some((hit_idx, dev)));
            lemma_measure_update(claims, claims.len() as int, n, Option::Some((hit_idx, dev)));
            lemma_measure_nonneg(claims2, claims2.len() as int);
        },
    }
}

/// The table is still well-formed after a find.
proof fn lemma_match_find_ok(notes: Seq<i64>, hits: Seq<i64>, claims: Seq<Claim>, hit_idx: int)
    requires
        claims_ok(claims, hits.len() as int),
        claims.len() == notes.len(),
        0 <= hit_idx < hits.len(),
    ensures
        claims_ok(match_find(notes, hits, claims, hit_idx), hits.len() as int),
        match_find(notes, hits, claims, hit_idx).len() == notes.len(),
    decreases claims_measure(claims, claims.len() as int),
{
    lemma_match_scan_props(notes, claims, hits[hit_idx] as int, 0, Option::None);
    match match_scan(notes, claims, hits[hit_idx] as int, 0, Option::None) {
        Option::None => {},
        Option::Some((n, dev)) => {
            let claims2 = claims.update(n, Option::Some((hit_idx, dev)));
            lemma_measure_update(claims, claims.len() as int, n, Option::Some((hit_idx, dev)));
            lemma_measure_nonneg(claims2, claims2.len() as int);
            match claims[n] {
                Option::None => {},
                Option::Some(p) => {
                    lemma_match_find_ok(notes, hits, claims2, p.0);
                },
            }
        },
    }
}

/// The claim table after processing the first `k` hits in order.
pub open spec fn match_all(notes: Seq<i64>, hits: Seq<i64>, k: int) -> Seq<Claim>
    decreases k,
{
    if k <= 0 {
        Seq::new(notes.len(), |i: int| Option::<(int, int)>::None)
    } else {
        match_find(notes, hits, match_all(notes, hits, k - 1), k - 1)
    }
}

pub proof fn lemma_match_all_ok(notes: Seq<i64>, hits: Seq<i64>, k: int)
    requires
        0 <= k <= hits.len(),
    ensures
        claims_ok(match_all(notes, hits, k), hits.len() as int),
        match_all(notes, hits, k).len() == notes.len(),
    decreases k,
{
    if k > 0 {
        lemma_match_all_ok(notes, hits, k - 1);
        lemma_match_find_ok(notes, hits, match_all(notes, hits, k - 1), k - 1);
    }
}

/// Summed curve points of the claimed notes.
pub open spec fn claims_score_sum<W: Wife>(claims: Seq<Claim>, i: int) -> int
    decreases i,
{
    if i <= 0 {
        0
    } else {
        claims_score_sum::<W>(claims, i - 1) + (match claims[i - 1] {
            Option::Some(c) => W::spec_calc(c.1),
            Option::None => 0int,
        })
    }
}

/// Number of claimed notes.
pub open spec fn count_claimed(claims: Seq<Claim>, i: int) -> int
    decreases i,
{
    if i <= 0 {
        0
    } else {
        count_claimed(claims, i - 1) + (match claims[i - 1] {
            Option::Some(_) => 1int,
            Option::None => 0int,
        })
    }
}

/// Whether some note's final claim belongs to hit `h`.
pub open spec fn hit_is_claimed(claims: Seq<Claim>, h: int) -> bool {
    exists|j: int|
        0 <= j < claims.len() && #[trigger] claims[j] is Some && claims[j].unwrap().0 == h
}

/// Number of the first `h` hits that hold no note: the stray taps.
pub open spec fn count_strays(claims: Seq<Claim>, h: int) -> int
    decreases h,
{
    if h <= 0 {
        0
    } else {
        count_strays(claims, h - 1) + (if hit_is_claimed(claims, h - 1) {
            0int
        } else {
            1int
        })
    }
}

proof fn lemma_claims_counts_bounds<W: Wife>(claims: Seq<Claim>, i: int)
    requires
        i <= claims.len(),
    ensures
        0 <= count_claimed(claims, i) <= (if i >= 0 {
            i
        } else {
            0
        }),
        -4_000_000 * count_claimed(claims, i) <= claims_score_sum::<W>(claims, i) <= 4_000_000
            * count_claimed(claims, i),
    decreases i,
{
    if i > 0 {
        lemma_claims_counts_bounds::<W>(claims, i - 1);
        match claims[i - 1] {
            Option::Some(c) => {
                W::lemma_bounds(c.1);
                let cc = count_claimed(claims, i - 1);
                assert(-4_000_000 * (cc + 1) == -4_000_000 * cc + -4_000_000) by (nonlinear_arith);
                assert(4_000_000 * (cc + 1) == 4_000_000 * cc + 4_000_000) by (nonlinear_arith);
            },
            Option::None => {},
        }
    }
}

proof fn lemma_count_strays_bounds(claims: Seq<Claim>, h: int)
    ensures
        0 <= count_strays(claims, h) <= (if h >= 0 {
            h
        } else {
            0
        }),
    decreases h,
{
    if h > 0 {
        lemma_count_strays_bounds(claims, h - 1);
    }
}

/// The matching engine. The column result sums the judging curve over every
/// finally-claimed note, plus the primary curve's miss weight for each
/// unclaimed note (whatever curve judges the claims) and the stray weight
/// for each unmatched hit; only claimed notes are judged.
pub struct MatchingScorer;

impl<W: Wife> ScoringSystem<W> for MatchingScorer {
    open spec fn spec_evaluate(note_seconds: Seq<i64>, hit_seconds: Seq<i64>) -> (int, int) {
        let claims = match_all(note_seconds, hit_seconds, hit_seconds.len() as int);
        let judged = count_claimed(claims, note_seconds.len() as int);
        (
            claims_score_sum::<W>(claims, note_seconds.len() as int) + Wife3::spec_miss_weight() * (
            note_seconds.len() - judged) + STRAY_WEIGHT * count_strays(
                claims,
                hit_seconds.len() as int,
            ),
            judged,
        )
    }

    proof fn lemma_evaluate_bounds(note_seconds: Seq<i64>, hit_seconds: Seq<i64>) {
        let claims = match_all(note_seconds, hit_seconds, hit_seconds.len() as int);
        lemma_match_all_ok(note_seconds, hit_seconds, hit_seconds.len() as int);
        lemma_claims_counts_bounds::<W>(claims, note_seconds.len() as int);
        lemma_count_strays_bounds(claims, hit_seconds.len() as int);
        let judged = count_claimed(claims, note_seconds.len() as int);
        assert(-4_000_000_000_000_000 <= -4_000_000 * judged <= 0) by (nonlinear_arith)
            requires
                0 <= judged <= 1_000_000_000,
        ;
        assert(-4_000_000_000_000_000 <= Wife3::spec_miss_weight() * (note_seconds.len() - judged)
            <= 0) by (nonlinear_arith)
            requires
                0 <= note_seconds.len() - judged <= 1_000_000_000,
                Wife3::spec_miss_weight() == -2_750_000,
        ;
        assert(-4_000_000_000_000_000 <= STRAY_WEIGHT * count_strays(
            claims,
            hit_seconds.len() as int,
        ) <= 0) by (nonlinear_arith)
            requires
                0 <= count_strays(claims, hit_seconds.len() as int) <= 1_000_000_000,
                STRAY_WEIGHT == -2_750_000,
        ;
        assert(4_000_000 * judged <= 4_000_000_000_000_000) by (nonlinear_arith)
            requires
                0 <= judged <= 1_000_000_000,
        ;
    }

    #[verifier::loop_isolation(false)]
    fn evaluate(note_seconds: &Vec<i64>, hit_seconds: &Vec<i64>) -> (r: ScoringResult) {
        let nn = note_seconds.len();
        let nh = hit_seconds.len();
        let mut claims: Vec<Option<(usize, i64)>> = Vec::new();
        let mut z: usize = 0;
        while z < nn
            invariant
                0 <= z <= nn,
                claims@.len() == z,
                forall|i: int| 0 <= i < z ==> claims@[i] is None,
            decreases nn - z,
        {
            claims.push(None);
            z += 1;
        }
        proof {
            assert(claims_view(claims@) =~= Seq::new(
                note_seconds@.len(),
                |i: int| Option::<(int, int)>::None,
            ));
        }
        let mut k: usize = 0;
        while k < nh
            invariant
                0 <= k <= nh == hit_seconds@.len(),
                claims@.len() == nn == note_seconds@.len(),
                claims_view(claims@) == match_all(note_seconds@, hit_seconds@, k as int),
                claims_ok(claims_view(claims@), nh as int),
            decreases nh - k,
        {
            proof {
                lemma_match_all_ok(note_seconds@, hit_seconds@, k as int);
            }
            claims = find_matching_note(note_seconds, hit_seconds, claims, k);
            k += 1;
        }
        proof {
            lemma_match_all_ok(note_seconds@, hit_seconds@, nh as int);
            lemma_claims_counts_bounds::<W>(claims_view(claims@), nn as int);
        }
        let ghost final_claims = claims_view(claims@);
        // Score the final table.
        let mut wifescore_sum: i128 = 0;
        let mut num_judged_notes: u64 = 0;
        let mut t: usize = 0;
        while t < nn
            invariant
                0 <= t <= nn,
                claims@.len() == nn,
                final_claims == claims_view(claims@),
                final_claims.len() == nn,
                wifescore_sum == claims_score_sum::<W>(final_claims, t as int),
                num_judged_notes == count_claimed(final_claims, t as int),
                num_judged_notes <= t,
                claims_ok(final_claims, nh as int),
            decreases nn - t,
        {
            proof {
                lemma_claims_counts_bounds::<W>(final_claims, t as int);
                assert(final_claims[t as int] == claim_view(claims@[t as int]));
            }
            match &claims[t] {
                Some(c) => {
                    let v = W::calc(c.1);
                    proof {
                        W::lemma_bounds(c.1 as int);
                    }
                    wifescore_sum = wifescore_sum + v as i128;
                    num_judged_notes = num_judged_notes + 1;
                },
                None => {},
            }
            t += 1;
        }
        // Unclaimed notes are misses; unmatched hits are strays.
        let num_misses = nn as u64 - num_judged_notes;
        let mut num_strays: u64 = 0;
        let mut h: usize = 0;
        while h < nh
            invariant
                0 <= h <= nh,
                claims@.len() == nn,
                final_claims == claims_view(claims@),
                final_claims.len() == nn,
                num_strays == count_strays(final_claims, h as int),
                num_strays <= h,
            decreases nh - h,
        {
            let mut found = false;
            let mut j: usize = 0;
            while j < nn
                invariant
                    0 <= j <= nn,
                    claims@.len() == nn,
                    final_claims == claims_view(claims@),
                    final_claims.len() == nn,
                    found == exists|t: int|
                        0 <= t < j && #[trigger] final_claims[t] is Some
                            && final_claims[t].unwrap().0 == h,
                decreases nn - j,
            {
                proof {
                    assert(final_claims[j as int] == claim_view(claims@[j as int]));
                }
                match &claims[j] {
                    Some(c) => {
                        if c.0 == h {
                            found = true;
                        }
                    },
                    None => {},
                }
                j += 1;
            }
            proof {
                assert(found == hit_is_claimed(final_claims, h as int));
                lemma_count_strays_bounds(final_claims, h as int);
            }
            if !found {
                num_strays = num_strays + 1;
            }
            h += 1;
        }
        let miss_weight = Wife3::miss_weight();
        proof {
            assert(Wife3::spec_miss_weight() * (num_misses as int) == (num_misses as int)
                * Wife3::spec_miss_weight()) by (nonlinear_arith);
            assert(-4_000_000_000_000_000 <= Wife3::spec_miss_weight() * (num_misses as int)
                <= 0) by (nonlinear_arith)
                requires
                    0 <= num_misses <= 1_000_000_000,
                    Wife3::spec_miss_weight() == -2_750_000,
            ;
            assert(-4_000_000_000_000_000 <= (STRAY_WEIGHT as int) * (num_strays as int) <= 0)
                by (nonlinear_arith)
                requires
                    0 <= num_strays <= 1_000_000_000,
                    STRAY_WEIGHT == -2_750_000,
            ;
            assert((STRAY_WEIGHT as int) * (num_strays as int) == (STRAY_WEIGHT as int)
                * count_strays(final_claims, nh as int));
        }
        let wifescore_sum = wifescore_sum + (miss_weight as i128) * (num_misses as i128) + (
        STRAY_WEIGHT as i128) * (num_strays as i128);
        ScoringResult { wifescore_sum, num_judged_notes }
    }
}

/// Find the best note for one hit and claim it, then re-home whatever hit
/// that displaced, until a hit claims a free note or finds none.
#[verifier::loop_isolation(false)]
fn find_matching_note(
    note_seconds: &Vec<i64>,
    hit_seconds: &Vec<i64>,
    claims: Vec<Option<(usize, i64)>>,
    hit_idx: usize,
) -> (r: Vec<Option<(usize, i64)>>)
    requires
        claims@.len() == note_seconds@.len(),
        hit_idx < hit_seconds@.len(),
        claims_ok(claims_view(claims@), hit_seconds@.len() as int),
        crate::replays_analysis::times_bounded(note_seconds@),
        crate::replays_analysis::times_bounded(hit_seconds@),
    ensures
        claims_view(r@) == match_find(
            note_seconds@,
            hit_seconds@,
            claims_view(claims@),
            hit_idx as int,
        ),
        r@.len() == note_seconds@.len(),
        claims_ok(claims_view(r@), hit_seconds@.len() as int),
    decreases claims_measure(claims_view(claims@), claims@.len() as int),
{
    let mut claims = claims;
    let ghost cv = claims_view(claims@);
    let nn = note_seconds.len();
    let hit = hit_seconds[hit_idx];
    let mut best: Option<(usize, i64)> = None;
    let mut j: usize = 0;
    while j < nn
        invariant
            0 <= j <= nn,
            claims@.len() == nn == note_seconds@.len(),
            cv == claims_view(claims@),
            match best {
                Option::Some(b) => 0 <= b.0 < nn && 0 <= b.1 <= MATCH_TOLERANCE && (match cv[
                    b.0 as int] {
                    Option::Some(c) => b.1 < c.1,
                    Option::None => true,
                }),
                Option::None => true,
            },
            match_scan(note_seconds@, cv, hit as int, 0, Option::None) == match_scan(
                note_seconds@,
                cv,
                hit as int,
                j as int,
                claim_view(best),
            ),
        decreases nn - j,
    {
        let note = note_seconds[j];
        let d = note - hit;
        let dev: i64 = if d < 0 {
            -d
        } else {
            d
        };
        proof {
            assert(cv[j as int] == claim_view(claims@[j as int]));
        }
        let skip: bool = if match best {
            Some(b) => dev > b.1,
            None => false,
        } {
            true
        } else if dev > MATCH_TOLERANCE {
            true
        } else {
            match &claims[j] {
                Some(c) => dev >= c.1,
                None => false,
            }
        };
        if !skip {
            best = Some((j, dev));
        }
        j += 1;
    }
    proof {
        lemma_match_scan_props(note_seconds@, cv, hit as int, 0, Option::None);
    }
    let (n, dev) = match best {
        Some(b) => b,
        None => {
            return claims;
        },
    };
    let prev = claims[n];
    claims.set(n, Some((hit_idx, dev)));
    proof {
        assert(claims_view(claims@) =~= cv.update(n as int, Option::Some((hit_idx as int, dev as int))));
        lemma_measure_update(cv, cv.len() as int, n as int, Option::Some((hit_idx as int, dev as int)));
        lemma_measure_nonneg(claims_view(claims@), claims@.len() as int);
    }
    match prev {
        None => claims,
        Some(p) => find_matching_note(note_seconds, hit_seconds, claims, p.0),
    }
}

} // verus!
