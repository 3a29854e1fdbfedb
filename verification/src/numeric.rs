//! Fixed-point numeric kernel: truncating division helpers, a decaying
//! exponential and the error-function approximation the scoring curves are
//! built on. All values are scaled by `NANO` (billionths).

use vstd::prelude::*;

verus! {

pub const NANO: i64 = 1_000_000_000;

/// Division that truncates toward zero, as machine division does; equals
/// Euclidean division for a non-negative dividend.
pub open spec fn div_trunc(a: int, d: int) -> int
    recommends
        d > 0,
{
    if a >= 0 {
        a / d
    } else {
        -((-a) / d)
    }
}

pub fn div_trunc_i128(a: i128, d: i128) -> (r: i128)
    requires
        d > 0,
        a > i128::MIN,
    ensures
        r == div_trunc(a as int, d as int),
        a >= 0 ==> 0 <= r <= a,
        a < 0 ==> a <= r <= 0,
{
    if a >= 0 {
        let q = (a as u128) / (d as u128);
        proof {
            assert(q <= a as u128) by (nonlinear_arith)
                requires
                    q == (a as u128) / (d as u128),
                    d as u128 >= 1,
            ;
        }
        q as i128
    } else {
        let m = -a;
        let q = (m as u128) / (d as u128);
        proof {
            assert(q <= m as u128) by (nonlinear_arith)
                requires
                    q == (m as u128) / (d as u128),
                    d as u128 >= 1,
            ;
        }
        -(q as i128)
    }
}

/// `e^-k` scaled by `NANO`, for whole `k`; zero from `k = 22` on, where the
/// true value rounds below one billionth.
pub open spec fn spec_exp_neg_int(k: int) -> int {
    if k <= 0 {
        1_000_000_000
    } else if k == 1 {
        367_879_441
    } else if k == 2 {
        135_335_283
    } else if k == 3 {
        49_787_068
    } else if k == 4 {
        18_315_639
    } else if k == 5 {
        6_737_947
    } else if k == 6 {
        2_478_752
    } else if k == 7 {
        911_882
    } else if k == 8 {
        335_463
    } else if k == 9 {
        123_410
    } else if k == 10 {
        45_400
    } else if k == 11 {
        16_702
    } else if k == 12 {
        6_144
    } else if k == 13 {
        2_260
    } else if k == 14 {
        832
    } else if k == 15 {
        306
    } else if k == 16 {
        113
    } else if k == 17 {
        41
    } else if k == 18 {
        15
    } else if k == 19 {
        6
    } else if k == 20 {
        2
    } else if k == 21 {
        1
    } else {
        0
    }
}

fn exp_neg_int(k: i64) -> (r: i64)
    requires
        k >= 0,
    ensures
        r == spec_exp_neg_int(k as int),
        0 <= r <= NANO,
{
    if k == 0 {
        1_000_000_000
    } else if k == 1 {
        367_879_441
    } else if k == 2 {
        135_335_283
    } else if k == 3 {
        49_787_068
    } else if k == 4 {
        18_315_639
    } else if k == 5 {
        6_737_947
    } else if k == 6 {
        2_478_752
    } else if k == 7 {
        911_882
    } else if k == 8 {
        335_463
    } else if k == 9 {
        123_410
    } else if k == 10 {
        45_400
    } else if k == 11 {
        16_702
    } else if k == 12 {
        6_144
    } else if k == 13 {
        2_260
    } else if k == 14 {
        832
    } else if k == 15 {
        306
    } else if k == 16 {
        113
    } else if k == 17 {
        41
    } else if k == 18 {
        15
    } else if k == 19 {
        6
    } else if k == 20 {
        2
    } else if k == 21 {
        1
    } else {
        0
    }
}

/// One Maclaurin term step: the next term of `e^-f` from the previous one.
pub open spec fn taylor_step(t: int, f: int, n: int) -> int {
    t * f / (n * 1_000_000_000)
}

proof fn lemma_taylor_step_bound(t: int, f: int, n: int)
    requires
        0 <= t <= 1_000_000_000,
        0 <= f < 1_000_000_000,
        n >= 1,
    ensures
        0 <= taylor_step(t, f, n) <= t,
        t * f <= 1_000_000_000_000_000_000,
{
    assert(t * f <= t * 1_000_000_000 && 0 <= t * f) by (nonlinear_arith)
        requires
            0 <= t,
            0 <= f <= 1_000_000_000,
    ;
    assert(t * f / (n * 1_000_000_000) <= t * 1_000_000_000 / (n * 1_000_000_000))
        by (nonlinear_arith)
        requires
            0 <= t * f <= t * 1_000_000_000,
            n >= 1,
    ;
    assert(t * 1_000_000_000 / (n * 1_000_000_000) <= t) by (nonlinear_arith)
        requires
            n >= 1,
            t >= 0,
    ;
    assert(t * f / (n * 1_000_000_000) >= 0) by (nonlinear_arith)
        requires
            t * f >= 0,
            n >= 1,
    ;
    assert(t * 1_000_000_000 <= 1_000_000_000_000_000_000) by (nonlinear_arith)
        requires
            t <= 1_000_000_000,
            t >= 0,
    ;
}

/// `e^-f` scaled by `NANO` for a fractional `f` (thirteen Maclaurin terms,
/// clipped to `[0, NANO]`).
pub open spec fn spec_exp_neg_frac(f: int) -> int {
    let t1 = f;
    let t2 = taylor_step(t1, f, 2);
    let t3 = taylor_step(t2, f, 3);
    let t4 = taylor_step(t3, f, 4);
    let t5 = taylor_step(t4, f, 5);
    let t6 = taylor_step(t5, f, 6);
    let t7 = taylor_step(t6, f, 7);
    let t8 = taylor_step(t7, f, 8);
    let t9 = taylor_step(t8, f, 9);
    let t10 = taylor_step(t9, f, 10);
    let t11 = taylor_step(t10, f, 11);
    let t12 = taylor_step(t11, f, 12);
    let t13 = taylor_step(t12, f, 13);
    let s = 1_000_000_000 - t1 + t2 - t3 + t4 - t5 + t6 - t7 + t8 - t9 + t10 - t11 + t12 - t13;
    if s < 0 {
        0
    } else if s > 1_000_000_000 {
        1_000_000_000
    } else {
        s
    }
}

fn exp_neg_frac(f: i64) -> (r: i64)
    requires
        0 <= f < NANO,
    ensures
        r == spec_exp_neg_frac(f as int),
        0 <= r <= NANO,
{
    let fw = f as i128;
    let t1 = fw;
    proof {
        lemma_taylor_step_bound(t1 as int, fw as int, 2);
    }
    let t2 = t1 * fw / 2_000_000_000;
    proof {
        lemma_taylor_step_bound(t2 as int, fw as int, 3);
    }
    let t3 = t2 * fw / 3_000_000_000;
    proof {
        lemma_taylor_step_bound(t3 as int, fw as int, 4);
    }
    let t4 = t3 * fw / 4_000_000_000;
    proof {
        lemma_taylor_step_bound(t4 as int, fw as int, 5);
    }
    let t5 = t4 * fw / 5_000_000_000;
    proof {
        lemma_taylor_step_bound(t5 as int, fw as int, 6);
    }
    let t6 = t5 * fw / 6_000_000_000;
    proof {
        lemma_taylor_step_bound(t6 as int, fw as int, 7);
    }
    let t7 = t6 * fw / 7_000_000_000;
    proof {
        lemma_taylor_step_bound(t7 as int, fw as int, 8);
    }
    let t8 = t7 * fw / 8_000_000_000;
    proof {
        lemma_taylor_step_bound(t8 as int, fw as int, 9);
    }
    let t9 = t8 * fw / 9_000_000_000;
    proof {
        lemma_taylor_step_bound(t9 as int, fw as int, 10);
    }
    let t10 = t9 * fw / 10_000_000_000;
    proof {
        lemma_taylor_step_bound(t10 as int, fw as int, 11);
    }
    let t11 = t10 * fw / 11_000_000_000;
    proof {
        lemma_taylor_step_bound(t11 as int, fw as int, 12);
    }
    let t12 = t11 * fw / 12_000_000_000;
    proof {
        lemma_taylor_step_bound(t12 as int, fw as int, 13);
    }
    let t13 = t12 * fw / 13_000_000_000;
    let s = 1_000_000_000 - t1 + t2 - t3 + t4 - t5 + t6 - t7 + t8 - t9 + t10 - t11 + t12 - t13;
    if s < 0 {
        0
    } else if s > 1_000_000_000 {
        1_000_000_000
    } else {
        s as i64
    }
}

/// `e^-u` scaled by `NANO`, for `u` itself in `NANO` scale: split into the
/// whole and fractional parts, combining the table and the series.
pub open spec fn spec_exp_neg(u: int) -> int {
    let k = u / 1_000_000_000;
    let f = u % 1_000_000_000;
    spec_exp_neg_int(k) * spec_exp_neg_frac(f) / 1_000_000_000
}

pub fn exp_neg(u: i64) -> (r: i64)
    requires
        u >= 0,
    ensures
        r == spec_exp_neg(u as int),
        0 <= r <= NANO,
{
    let k = u / NANO;
    let f = u % NANO;
    let e_int = exp_neg_int(k);
    let e_frac = exp_neg_frac(f);
    proof {
        assert(e_int * e_frac <= 1_000_000_000_000_000_000 && e_int * e_frac >= 0)
            by (nonlinear_arith)
            requires
                0 <= e_int <= 1_000_000_000,
                0 <= e_frac <= 1_000_000_000,
        ;
        assert(e_int * e_frac / 1_000_000_000 <= 1_000_000_000) by (nonlinear_arith)
            requires
                0 <= e_int * e_frac <= 1_000_000_000_000_000_000,
        ;
    }
    let prod = (e_int as i128) * (e_frac as i128);
    (prod / 1_000_000_000) as i64
}

pub const ERF_A1: i64 = 254_829_592;

pub const ERF_A2: i64 = -284_496_736;

pub const ERF_A3: i64 = 1_421_413_741;

pub const ERF_A4: i64 = -1_453_152_027;

pub const ERF_A5: i64 = 1_061_405_429;

pub const ERF_P: i64 = 327_591_100;

proof fn lemma_horner_bound(q: int, t: int, bound: int)
    requires
        -bound <= q <= bound,
        0 <= t <= 1_000_000_000,
        bound >= 0,
    ensures
        -bound <= div_trunc(q * t, 1_000_000_000) <= bound,
        -bound * 1_000_000_000 <= q * t <= bound * 1_000_000_000,
{
    assert(-bound * 1_000_000_000 <= q * t <= bound * 1_000_000_000) by (nonlinear_arith)
        requires
            -bound <= q <= bound,
            0 <= t <= 1_000_000_000,
            bound >= 0,
    ;
    assert(0 <= q * t ==> q * t / 1_000_000_000 <= bound) by (nonlinear_arith)
        requires
            q * t <= bound * 1_000_000_000,
            bound >= 0,
    ;
    assert(q * t < 0 ==> (-(q * t)) / 1_000_000_000 <= bound) by (nonlinear_arith)
        requires
            -bound * 1_000_000_000 <= q * t,
            bound >= 0,
    ;
}

/// The positive branch of the error-function approximation, in `NANO` scale:
/// `1 - poly(1 / (1 + P x)) e^(-x^2)`, clipped to `[0, NANO]`.
pub open spec fn spec_erf_pos(x: int) -> int {
    let u = x * x / 1_000_000_000;
    let t = 1_000_000_000_000_000_000int / (1_000_000_000 + ERF_P * x / 1_000_000_000);
    let q4 = div_trunc(ERF_A5 * t, 1_000_000_000) + ERF_A4;
    let q3 = div_trunc(q4 * t, 1_000_000_000) + ERF_A3;
    let q2 = div_trunc(q3 * t, 1_000_000_000) + ERF_A2;
    let q1 = div_trunc(q2 * t, 1_000_000_000) + ERF_A1;
    let m = div_trunc(q1 * t, 1_000_000_000);
    let y = 1_000_000_000 - div_trunc(m * spec_exp_neg(u), 1_000_000_000);
    if y < 0 {
        0
    } else if y > 1_000_000_000 {
        1_000_000_000
    } else {
        y
    }
}

/// The error function in `NANO` scale, odd around zero.
pub open spec fn spec_erf(x: int) -> int {
    if x >= 0 {
        spec_erf_pos(x)
    } else {
        -spec_erf_pos(-x)
    }
}

fn erf_pos(x: i64) -> (r: i64)
    requires
        0 <= x <= 200 * NANO,
    ensures
        r == spec_erf_pos(x as int),
        0 <= r <= NANO,
{
    let xu = x as u128;
    proof {
        assert(xu * xu <= 40_000_000_000_000_000_000_000) by (nonlinear_arith)
            requires
                xu <= 200_000_000_000,
        ;
        assert(327_591_100u128 * xu <= 65_518_220_000_000_000_000_000) by (nonlinear_arith)
            requires
                xu <= 200_000_000_000,
        ;
    }
    let u_wide = xu * xu / 1_000_000_000;
    proof {
        assert(u_wide <= 40_000_000_000_000) by (nonlinear_arith)
            requires
                u_wide == xu * xu / 1_000_000_000,
                xu * xu <= 40_000_000_000_000_000_000_000,
        ;
    }
    let pd = 1_000_000_000 + 327_591_100u128 * xu / 1_000_000_000;
    let t_wide = 1_000_000_000_000_000_000u128 / pd;
    proof {
        assert(t_wide <= 1_000_000_000) by (nonlinear_arith)
            requires
                t_wide == 1_000_000_000_000_000_000u128 / pd,
                pd >= 1_000_000_000,
        ;
    }
    let t = t_wide as i128;
    proof {
        assert(0 <= t <= 1_000_000_000);
        assert(0 <= t * (ERF_A5 as i128) <= 3_000_000_000_000_000_000) by (nonlinear_arith)
            requires
                0 <= t <= 1_000_000_000,
                ERF_A5 as i128 == 1_061_405_429,
        ;
        lemma_horner_bound(ERF_A5 as int, t as int, 2_000_000_000);
    }
    let q4 = div_trunc_i128(t * (ERF_A5 as i128), 1_000_000_000) + (ERF_A4 as i128);
    proof {
        lemma_horner_bound(q4 as int, t as int, 4_000_000_000);
    }
    let q3 = div_trunc_i128(q4 * t, 1_000_000_000) + (ERF_A3 as i128);
    proof {
        lemma_horner_bound(q3 as int, t as int, 6_000_000_000);
    }
    let q2 = div_trunc_i128(q3 * t, 1_000_000_000) + (ERF_A2 as i128);
    proof {
        lemma_horner_bound(q2 as int, t as int, 8_000_000_000);
    }
    let q1 = div_trunc_i128(q2 * t, 1_000_000_000) + (ERF_A1 as i128);
    proof {
        lemma_horner_bound(q1 as int, t as int, 10_000_000_000);
    }
    let m = div_trunc_i128(q1 * t, 1_000_000_000);
    let u_low = if u_wide > 100_000_000_000 {
        // Far tail: the exponential factor is zero at this resolution either
        // way, but keep the argument in the supported range.
        100_000_000_000
    } else {
        u_wide as i64
    };
    let ghost u_spec = u_wide as int;
    let e_val = exp_neg(u_low);
    proof {
        if u_spec > 100_000_000_000 {
            // Both arguments are in the all-zero region of the table.
            assert(u_spec / 1_000_000_000 >= 22) by (nonlinear_arith)
                requires
                    u_spec > 100_000_000_000,
            ;
            assert(spec_exp_neg_int(u_spec / 1_000_000_000) == 0);
            assert(spec_exp_neg_frac(u_spec % 1_000_000_000) >= 0);
            assert(spec_exp_neg(u_spec) == 0) by {
                assert(0 * spec_exp_neg_frac(u_spec % 1_000_000_000) == 0);
            }
            assert(spec_exp_neg(u_low as int) == 0);
        }
        lemma_horner_bound(m as int, e_val as int, 10_000_000_000);
    }
    let y = 1_000_000_000 - div_trunc_i128(m * (e_val as i128), 1_000_000_000);
    if y < 0 {
        0
    } else if y > 1_000_000_000 {
        1_000_000_000
    } else {
        y as i64
    }
}

/// The error function in `NANO` scale (`erf(1.5)` is about `966105146`).
pub fn erf_nano(x: i64) -> (r: i64)
    requires
        -200 * NANO <= x <= 200 * NANO,
    ensures
        r == spec_erf(x as int),
        -NANO <= r <= NANO,
{
    if x >= 0 {
        erf_pos(x)
    } else {
        -erf_pos(-x)
    }
}

} // verus!
