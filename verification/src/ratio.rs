//! Exact integer ratios. Rates (notes per second, mean deviations,
//! wifescores) are kept as numerator/denominator pairs and compared by
//! cross-multiplication, with the conventions of machine floats for a zero
//! denominator: positive over zero is larger than everything finite,
//! negative over zero smaller, and zero over zero compares false.

use vstd::prelude::*;

verus! {

/// Numerators stay within this bound so that cross-multiplication fits in
/// `i128` (2^66).
pub const RAT_NUM_BOUND: i128 = 73_786_976_294_838_206_464;

/// Denominators stay within this bound (2^60).
pub const RAT_DEN_BOUND: i128 = 1_152_921_504_606_846_976;

/// The indeterminate zero-over-zero value.
pub open spec fn rat_is_nan(n: int, d: int) -> bool {
    d == 0 && n == 0
}

/// `n1/d1 >= n2/d2` under the float conventions, for `d1, d2 >= 0`.
pub open spec fn rat_ge(n1: int, d1: int, n2: int, d2: int) -> bool
    recommends
        d1 >= 0,
        d2 >= 0,
{
    if rat_is_nan(n1, d1) || rat_is_nan(n2, d2) {
        false
    } else if d1 == 0 && d2 == 0 {
        n1 > 0 || n2 < 0
    } else if d1 == 0 {
        n1 > 0
    } else if d2 == 0 {
        n2 < 0
    } else {
        n1 * d2 >= n2 * d1
    }
}

/// `n1/d1 > n2/d2` under the float conventions, for `d1, d2 >= 0`.
pub open spec fn rat_gt(n1: int, d1: int, n2: int, d2: int) -> bool
    recommends
        d1 >= 0,
        d2 >= 0,
{
    if rat_is_nan(n1, d1) || rat_is_nan(n2, d2) {
        false
    } else if d1 == 0 && d2 == 0 {
        n1 > 0 && n2 < 0
    } else if d1 == 0 {
        n1 > 0
    } else if d2 == 0 {
        n2 < 0
    } else {
        n1 * d2 > n2 * d1
    }
}

/// `n1/d1 == n2/d2` under the float conventions, for `d1, d2 >= 0`.
pub open spec fn rat_eq(n1: int, d1: int, n2: int, d2: int) -> bool
    recommends
        d1 >= 0,
        d2 >= 0,
{
    if rat_is_nan(n1, d1) || rat_is_nan(n2, d2) {
        false
    } else if d1 == 0 && d2 == 0 {
        (n1 > 0 && n2 > 0) || (n1 < 0 && n2 < 0)
    } else if d1 == 0 || d2 == 0 {
        false
    } else {
        n1 * d2 == n2 * d1
    }
}

/// An exact ratio with a non-negative denominator.
#[derive(Clone, Copy, Debug, PartialEq, Eq, Structural)]
pub struct Ratio {
    pub num: i128,
    pub den: i128,
}

impl Ratio {
    /// Well-formed: bounded enough that comparisons cannot overflow.
    pub open spec fn wf(self) -> bool {
        &&& -RAT_NUM_BOUND <= self.num <= RAT_NUM_BOUND
        &&& 0 <= self.den <= RAT_DEN_BOUND
    }

    pub fn new(num: i128, den: i128) -> (r: Ratio)
        ensures
            r.num == num,
            r.den == den,
    {
        Ratio { num, den }
    }

    pub fn zero() -> (r: Ratio)
        ensures
            r.num == 0,
            r.den == 1,
            r.wf(),
    {
        Ratio { num: 0, den: 1 }
    }

    pub fn ge(&self, other: &Ratio) -> (r: bool)
        requires
            self.wf(),
            other.wf(),
        ensures
            r == rat_ge(self.num as int, self.den as int, other.num as int, other.den as int),
    {
        if self.den == 0 && self.num == 0 {
            false
        } else if other.den == 0 && other.num == 0 {
            false
        } else if self.den == 0 && other.den == 0 {
            self.num > 0 || other.num < 0
        } else if self.den == 0 {
            self.num > 0
        } else if other.den == 0 {
            other.num < 0
        } else {
            proof {
                lemma_cross_mul_bounded(
                    self.num as int,
                    self.den as int,
                    other.num as int,
                    other.den as int,
                );
            }
            self.num * other.den >= other.num * self.den
        }
    }

    pub fn gt(&self, other: &Ratio) -> (r: bool)
        requires
            self.wf(),
            other.wf(),
        ensures
            r == rat_gt(self.num as int, self.den as int, other.num as int, other.den as int),
    {
        if self.den == 0 && self.num == 0 {
            false
        } else if other.den == 0 && other.num == 0 {
            false
        } else if self.den == 0 && other.den == 0 {
            self.num > 0 && other.num < 0
        } else if self.den == 0 {
            self.num > 0
        } else if other.den == 0 {
            other.num < 0
        } else {
            proof {
                lemma_cross_mul_bounded(
                    self.num as int,
                    self.den as int,
                    other.num as int,
                    other.den as int,
                );
            }
            self.num * other.den > other.num * self.den
        }
    }
}

proof fn lemma_cross_mul_bounded(n1: int, d1: int, n2: int, d2: int)
    requires
        -RAT_NUM_BOUND <= n1 <= RAT_NUM_BOUND,
        -RAT_NUM_BOUND <= n2 <= RAT_NUM_BOUND,
        0 <= d1 <= RAT_DEN_BOUND,
        0 <= d2 <= RAT_DEN_BOUND,
    ensures
        i128::MIN < n1 * d2 < i128::MAX,
        i128::MIN < n2 * d1 < i128::MAX,
{
    assert(n1 * d2 <= RAT_NUM_BOUND * RAT_DEN_BOUND && -RAT_NUM_BOUND * RAT_DEN_BOUND <= n1 * d2)
        by (nonlinear_arith)
        requires
            -RAT_NUM_BOUND <= n1 <= RAT_NUM_BOUND,
            0 <= d2 <= RAT_DEN_BOUND,
    ;
    assert(n2 * d1 <= RAT_NUM_BOUND * RAT_DEN_BOUND && -RAT_NUM_BOUND * RAT_DEN_BOUND <= n2 * d1)
        by (nonlinear_arith)
        requires
            -RAT_NUM_BOUND <= n2 <= RAT_NUM_BOUND,
            0 <= d1 <= RAT_DEN_BOUND,
    ;
}

} // verus!
