//! The "wife" judging curves: deterministic maps from a hit's timing
//! deviation to a point value, normalized so that a perfect hit is worth
//! one point. Points are in millionths (a deviation judged perfect yields
//! `1_000_000`); deviations are in microseconds.

use vstd::prelude::*;

use crate::numeric::{div_trunc, div_trunc_i128, exp_neg, erf_nano, spec_exp_neg, spec_erf, NANO};
use crate::ratio::Ratio;

verus! {

/// Penalty for a stray tap that matches no note, in millionths of a point.
pub const STRAY_WEIGHT: i64 = -2_750_000;

/// A hit whose recorded deviation is within a tenth of a millisecond of the
/// one-second sentinel stands for a miss.
pub open spec fn is_miss_sentinel(deviation: int) -> bool {
    -100 < deviation - 1_000_000 < 100
}

/// A judging curve with its penalty weights. `calc` takes a deviation in
/// microseconds (sign immaterial) and yields millionths of a point.
pub trait Wife: Sized {
    spec fn spec_calc(deviation: int) -> int;

    spec fn spec_miss_weight() -> int;

    spec fn spec_mine_hit_weight() -> int;

    spec fn spec_hold_drop_weight() -> int;

    /// Every curve value and weight lies between minus four points and one
    /// point.
    proof fn lemma_bounds(deviation: int)
        ensures
            -4_000_000 <= Self::spec_calc(deviation) <= 1_000_000,
            -4_000_000 <= Self::spec_miss_weight() <= 0,
            -4_000_000 <= Self::spec_mine_hit_weight() <= 0,
            -4_000_000 <= Self::spec_hold_drop_weight() <= 0,
    ;

    fn calc(deviation: i64) -> (r: i64)
        ensures
            r == Self::spec_calc(deviation as int),
    ;

    fn miss_weight() -> (r: i64)
        ensures
            r == Self::spec_miss_weight(),
    ;

    fn mine_hit_weight() -> (r: i64)
        ensures
            r == Self::spec_mine_hit_weight(),
    ;

    fn hold_drop_weight() -> (r: i64)
        ensures
            r == Self::spec_hold_drop_weight(),
    ;
}

/// Sum of curve values over a deviation sequence, where a value equal to
/// the miss sentinel contributes the miss weight instead of the curve.
pub open spec fn spec_apply_sum<W: Wife>(deviations: Seq<i64>) -> int
    decreases deviations.len(),
{
    if deviations.len() == 0 {
        0
    } else {
        spec_apply_sum::<W>(deviations.drop_last()) + (
        if is_miss_sentinel(deviations.last() as int) {
            W::spec_miss_weight()
        } else {
            W::spec_calc(deviations.last() as int)
        })
    }
}

proof fn lemma_apply_sum_bound<W: Wife>(deviations: Seq<i64>)
    ensures
        -4_000_000 * deviations.len() <= spec_apply_sum::<W>(deviations) <= 1_000_000
            * deviations.len(),
    decreases deviations.len(),
{
    if deviations.len() > 0 {
        lemma_apply_sum_bound::<W>(deviations.drop_last());
        W::lemma_bounds(deviations.last() as int);
    }
}

/// Mean curve value of a whole deviation list, mine hits and hold drops
/// included, as an exact ratio over the note count. Misses must be present
/// as sentinel values. With an empty list the ratio is zero over zero.
pub fn apply<W: Wife>(deviations: &Vec<i64>, num_mine_hits: u64, num_hold_drops: u64) -> (r:
    Ratio)
    requires
        deviations@.len() <= 1_000_000_000,
        num_mine_hits <= 1_000_000_000,
        num_hold_drops <= 1_000_000_000,
    ensures
        r.num == spec_apply_sum::<W>(deviations@) + num_mine_hits * W::spec_mine_hit_weight()
            + num_hold_drops * W::spec_hold_drop_weight(),
        r.den == deviations@.len(),
{
    let mut wifescore_sum: i128 = 0;
    let mut i: usize = 0;
    let n = deviations.len();
    while i < n
        invariant
            0 <= i <= n == deviations@.len() <= 1_000_000_000,
            wifescore_sum == spec_apply_sum::<W>(deviations@.take(i as int)),
            -4_000_000 * i <= wifescore_sum <= 1_000_000 * i,
        decreases n - i,
    {
        let deviation = deviations[i];
        let term = if deviation > 999_900 && deviation < 1_000_100 {
            W::miss_weight()
        } else {
            W::calc(deviation)
        };
        proof {
            W::lemma_bounds(deviation as int);
            assert(deviations@.take(i + 1).drop_last() =~= deviations@.take(i as int));
            assert(deviations@.take(i + 1).last() == deviations@[i as int]);
        }
        wifescore_sum = wifescore_sum + term as i128;
        i += 1;
    }
    proof {
        assert(deviations@.take(n as int) =~= deviations@);
    }
    let mine_weight = W::mine_hit_weight();
    let hold_weight = W::hold_drop_weight();
    proof {
        W::lemma_bounds(0);
        assert(num_mine_hits as i128 * mine_weight as i128 >= -4_000_000_000_000_000
            && num_mine_hits as i128 * mine_weight as i128 <= 0) by (nonlinear_arith)
            requires
                0 <= num_mine_hits <= 1_000_000_000,
                -4_000_000 <= mine_weight <= 0,
        ;
        assert(num_hold_drops as i128 * hold_weight as i128 >= -4_000_000_000_000_000
            && num_hold_drops as i128 * hold_weight as i128 <= 0) by (nonlinear_arith)
            requires
                0 <= num_hold_drops <= 1_000_000_000,
                -4_000_000 <= hold_weight <= 0,
        ;
    }
    let sum = wifescore_sum + (num_mine_hits as i128) * (mine_weight as i128) + (
    num_hold_drops as i128) * (hold_weight as i128);
    Ratio::new(sum, n as i128)
}

/// The legacy curve: a squared exponential decay,
/// `5 (1 - (1 - 2^(-ms^2 / 95^2))^2) - 4` points.
pub struct Wife2;

/// Value of the legacy curve in millionths of a point. The deviation's
/// magnitude is clipped to one second, beyond which the curve is flat at
/// this resolution.
pub open spec fn spec_wife2(deviation: int) -> int {
    let d = if -1_000_000 <= deviation <= 1_000_000 {
        if deviation < 0 {
            -deviation
        } else {
            deviation
        }
    } else {
        1_000_000
    };
    let v = d * d * 693_147_181 / 9_025_000_000;
    let y = 1_000_000_000 - spec_exp_neg(v);
    let y2 = y * y / 1_000_000_000;
    div_trunc(5 * (1_000_000_000 - y2) - 4_000_000_000, 1000)
}

impl Wife for Wife2 {
    open spec fn spec_calc(deviation: int) -> int {
        spec_wife2(deviation)
    }

    open spec fn spec_miss_weight() -> int {
        -4_000_000
    }

    open spec fn spec_mine_hit_weight() -> int {
        -4_000_000
    }

    open spec fn spec_hold_drop_weight() -> int {
        -3_000_000
    }

    proof fn lemma_bounds(deviation: int) {
        lemma_wife2_bounds(deviation);
    }

    fn calc(deviation: i64) -> (r: i64) {
        wife2(deviation)
    }

    fn miss_weight() -> (r: i64) {
        -4_000_000
    }

    fn mine_hit_weight() -> (r: i64) {
        -4_000_000
    }

    fn hold_drop_weight() -> (r: i64) {
        -3_000_000
    }
}

proof fn lemma_wife2_bounds(deviation: int)
    ensures
        -4_000_000 <= spec_wife2(deviation) <= 1_000_000,
{
    let d = if -1_000_000 <= deviation <= 1_000_000 {
        if deviation < 0 {
            -deviation
        } else {
            deviation
        }
    } else {
        1_000_000
    };
    let v = d * d * 693_147_181 / 9_025_000_000;
    assert(0 <= v) by (nonlinear_arith)
        requires
            0 <= d,
            v == d * d * 693_147_181 / 9_025_000_000,
    ;
    let y = 1_000_000_000 - spec_exp_neg(v);
    assert(0 <= spec_exp_neg(v) <= 1_000_000_000) by {
        lemma_exp_neg_range(v);
    }
    let y2 = y * y / 1_000_000_000;
    assert(0 <= y2 <= 1_000_000_000) by (nonlinear_arith)
        requires
            0 <= y <= 1_000_000_000,
            y2 == y * y / 1_000_000_000,
    ;
}

/// `spec_exp_neg` stays within `[0, NANO]` for a non-negative argument.
proof fn lemma_exp_neg_range(u: int)
    requires
        u >= 0,
    ensures
        0 <= spec_exp_neg(u) <= 1_000_000_000,
{
    let k = u / 1_000_000_000;
    let f = u % 1_000_000_000;
    let ei = crate::numeric::spec_exp_neg_int(k);
    let ef = crate::numeric::spec_exp_neg_frac(f);
    assert(0 <= ei <= 1_000_000_000);
    assert(0 <= ef <= 1_000_000_000);
    assert(0 <= ei * ef <= 1_000_000_000_000_000_000) by (nonlinear_arith)
        requires
            0 <= ei <= 1_000_000_000,
            0 <= ef <= 1_000_000_000,
    ;
    assert(0 <= ei * ef / 1_000_000_000 <= 1_000_000_000) by (nonlinear_arith)
        requires
            0 <= ei * ef <= 1_000_000_000_000_000_000,
    ;
}

/// Legacy curve, in millionths of a point.
pub fn wife2(deviation: i64) -> (r: i64)
    ensures
        r == spec_wife2(deviation as int),
{
    let d: i64 = if deviation >= -1_000_000 && deviation <= 1_000_000 {
        if deviation < 0 {
            -deviation
        } else {
            deviation
        }
    } else {
        1_000_000
    };
    let dw = d as i128;
    proof {
        assert(0 <= dw * dw * 693_147_181 <= 693_147_181_000_000_000_000) by (nonlinear_arith)
            requires
                0 <= dw <= 1_000_000,
        ;
        assert(dw * dw * 693_147_181 / 9_025_000_000 <= 100_000_000_000) by (nonlinear_arith)
            requires
                0 <= dw * dw * 693_147_181 <= 693_147_181_000_000_000_000,
        ;
    }
    let v = dw * dw * 693_147_181 / 9_025_000_000;
    let e = exp_neg(v as i64);
    let y = (NANO - e) as i128;
    proof {
        assert(0 <= y * y <= 1_000_000_000_000_000_000) by (nonlinear_arith)
            requires
                0 <= y <= 1_000_000_000,
        ;
        assert(0 <= y * y / 1_000_000_000 <= 1_000_000_000) by (nonlinear_arith)
            requires
                0 <= y * y <= 1_000_000_000_000_000_000,
        ;
    }
    let y2 = y * y / 1_000_000_000;
    let score = div_trunc_i128(5 * (1_000_000_000 - y2) - 4_000_000_000, 1000);
    score as i64
}

/// The primary curve: flat at one point inside the "ridiculous" window,
/// an error-function decay out to 65 ms, a linear miss ramp out to 180 ms
/// and flat at the miss weight beyond.
pub struct Wife3;

/// Value of the primary curve in millionths of a point.
pub open spec fn spec_wife3(deviation: int) -> int {
    let d = if -180_000 <= deviation <= 180_000 {
        if deviation < 0 {
            -deviation
        } else {
            deviation
        }
    } else {
        180_001
    };
    if d <= 5_000 {
        1_000_000
    } else if d <= 65_000 {
        spec_erf((65_000 - d) * 1_000_000_000 / 22_700) / 1_000
    } else if d <= 180_000 {
        -((d - 65_000) * 5_500_000 / 230_000)
    } else {
        -2_750_000
    }
}

impl Wife for Wife3 {
    open spec fn spec_calc(deviation: int) -> int {
        spec_wife3(deviation)
    }

    open spec fn spec_miss_weight() -> int {
        -2_750_000
    }

    open spec fn spec_mine_hit_weight() -> int {
        -3_500_000
    }

    open spec fn spec_hold_drop_weight() -> int {
        -2_250_000
    }

    proof fn lemma_bounds(deviation: int) {
        lemma_wife3_bounds(deviation);
    }

    fn calc(deviation: i64) -> (r: i64) {
        wife3(deviation)
    }

    fn miss_weight() -> (r: i64) {
        -2_750_000
    }

    fn mine_hit_weight() -> (r: i64) {
        -3_500_000
    }

    fn hold_drop_weight() -> (r: i64) {
        -2_250_000
    }
}

proof fn lemma_wife3_bounds(deviation: int)
    ensures
        -2_750_000 <= spec_wife3(deviation) <= 1_000_000,
{
    let d = if -180_000 <= deviation <= 180_000 {
        if deviation < 0 {
            -deviation
        } else {
            deviation
        }
    } else {
        180_001
    };
    if d <= 5_000 {
    } else if d <= 65_000 {
        let x = (65_000 - d) * 1_000_000_000 / 22_700;
        assert(0 <= spec_erf(x) <= 1_000_000_000) by {
            lemma_erf_pos_range(x);
        }
    } else if d <= 180_000 {
        assert((d - 65_000) * 5_500_000 <= 632_500_000_000) by (nonlinear_arith)
            requires
                65_000 < d <= 180_000,
        ;
        assert(0 <= (d - 65_000) * 5_500_000 / 230_000 <= 2_750_000) by (nonlinear_arith)
            requires
                0 <= (d - 65_000) * 5_500_000 <= 632_500_000_000,
        ;
    } else {
    }
}

proof fn lemma_erf_pos_range(x: int)
    requires
        x >= 0,
    ensures
        0 <= spec_erf(x) <= 1_000_000_000,
{
}

/// Primary curve, in millionths of a point (`wife3(4_000)` is one point;
/// `wife3(184_000)` is the miss weight).
pub fn wife3(deviation: i64) -> (r: i64)
    ensures
        r == spec_wife3(deviation as int),
{
    let d: i64 = if deviation >= -180_000 && deviation <= 180_000 {
        if deviation < 0 {
            -deviation
        } else {
            deviation
        }
    } else {
        180_001
    };
    if d <= 5_000 {
        1_000_000
    } else if d <= 65_000 {
        let x = (65_000 - d) * 1_000_000_000 / 22_700;
        let e = erf_nano(x);
        proof {
            lemma_erf_pos_range(x as int);
        }
        e / 1_000
    } else if d <= 180_000 {
        -((d - 65_000) * 5_500_000 / 230_000)
    } else {
        -2_750_000
    }
}


/// All-miss law: when every deviation is the miss sentinel and there are no
/// mine hits or hold drops, the aggregate equals the miss weight exactly:
/// the sum is the count times the weight, and the mean ratio equals the
/// weight over one.
pub proof fn lemma_all_misses_apply_is_miss_weight<W: Wife>(deviations: Seq<i64>)
    requires
        deviations.len() > 0,
        forall|i: int|
            0 <= i < deviations.len() ==> is_miss_sentinel(#[trigger] deviations[i] as int),
    ensures
        spec_apply_sum::<W>(deviations) == deviations.len() * W::spec_miss_weight(),
        crate::ratio::rat_eq(
            spec_apply_sum::<W>(deviations),
            deviations.len() as int,
            W::spec_miss_weight(),
            1,
        ),
{
    lemma_all_misses_sum::<W>(deviations);
    W::lemma_bounds(0);
    assert(deviations.len() * W::spec_miss_weight() * 1 == W::spec_miss_weight()
        * deviations.len()) by (nonlinear_arith);
    if deviations.len() * W::spec_miss_weight() == 0 {
        assert(W::spec_miss_weight() == 0 || deviations.len() == 0) by (nonlinear_arith)
            requires
                deviations.len() * W::spec_miss_weight() == 0,
        ;
    }
}

proof fn lemma_all_misses_sum<W: Wife>(deviations: Seq<i64>)
    requires
        forall|i: int|
            0 <= i < deviations.len() ==> is_miss_sentinel(#[trigger] deviations[i] as int),
    ensures
        spec_apply_sum::<W>(deviations) == deviations.len() * W::spec_miss_weight(),
    decreases deviations.len(),
{
    if deviations.len() > 0 {
        let d = deviations.drop_last();
        assert(forall|i: int| 0 <= i < d.len() ==> #[trigger] d[i] == deviations[i]);
        lemma_all_misses_sum::<W>(d);
        assert(deviations.len() * W::spec_miss_weight() == d.len() * W::spec_miss_weight()
            + W::spec_miss_weight()) by (nonlinear_arith)
            requires
                deviations.len() == d.len() + 1,
        ;
    }
}

} // verus!
