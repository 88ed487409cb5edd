//! Linear interpolation in exact integer arithmetic.

use vstd::arithmetic::div_mod::{lemma_div_is_ordered, lemma_div_multiples_vanish};
use vstd::prelude::*;

verus! {

/// How far an animation has come: `num / den`, between zero and one.
#[derive(Debug, Clone, Copy, PartialEq, Eq, Structural)]
pub struct Fraction {
    pub num: u64,
    pub den: u64,
}

impl Fraction {
    /// A fraction is well formed when it lies in `[0, 1]`.
    pub open spec fn wf(self) -> bool {
        0 < self.den && self.num <= self.den
    }

    pub open spec fn spec_zero() -> Fraction {
        Fraction { num: 0, den: 1 }
    }

    pub open spec fn spec_one() -> Fraction {
        Fraction { num: 1, den: 1 }
    }

    /// Nothing done yet.
    pub fn zero() -> (t: Fraction)
        ensures
            t == Fraction::spec_zero(),
            t.wf(),
    {
        Fraction { num: 0, den: 1 }
    }

    /// All done.
    pub fn one() -> (t: Fraction)
        ensures
            t == Fraction::spec_one(),
            t.wf(),
    {
        Fraction { num: 1, den: 1 }
    }
}

/// The part `num / den` of a distance `span`, rounded down.
pub open spec fn scaled(span: int, t: Fraction) -> int {
    (span * t.num) / (t.den as int)
}

/// The point `t` of the way from `a` to `b`. The distance covered is rounded
/// down, so the result never overshoots `b`, whichever side of `a` it lies on.
pub open spec fn spec_lerp(a: int, b: int, t: Fraction) -> int {
    if a <= b {
        a + scaled(b - a, t)
    } else {
        a - scaled(a - b, t)
    }
}

/// The covered part of a distance lies within the distance, is nothing at
/// fraction zero and all of it at fraction one.
pub proof fn lemma_scaled_bounds(span: int, t: Fraction)
    requires
        0 <= span,
        t.wf(),
    ensures
        0 <= scaled(span, t) <= span,
        t.num == 0 ==> scaled(span, t) == 0,
        t.num == t.den ==> scaled(span, t) == span,
{
    let num = t.num as int;
    let den = t.den as int;
    assert(0 <= span * num <= span * den) by (nonlinear_arith)
        requires
            0 <= span,
            0 <= num <= den,
    ;
    assert(span * den == den * span) by (nonlinear_arith);
    lemma_div_multiples_vanish(span, den);
    lemma_div_is_ordered(span * num, span * den, den);
    lemma_div_is_ordered(0, span * num, den);
    if num == 0 {
        assert(span * num == 0) by (nonlinear_arith)
            requires
                num == 0,
        ;
    }
}

/// Interpolation starts at `a`, ends at `b`, and stays between the two.
pub proof fn lemma_lerp_bounds(a: int, b: int, t: Fraction)
    requires
        t.wf(),
    ensures
        a <= b ==> a <= spec_lerp(a, b, t) <= b,
        b <= a ==> b <= spec_lerp(a, b, t) <= a,
        t.num == 0 ==> spec_lerp(a, b, t) == a,
        t.num == t.den ==> spec_lerp(a, b, t) == b,
{
    if a <= b {
        lemma_scaled_bounds(b - a, t);
    } else {
        lemma_scaled_bounds(a - b, t);
    }
}

/// Linear interpolation from `a` to `b` by the fraction `t`.
pub fn lerp(a: i64, b: i64, t: Fraction) -> (r: i64)
    requires
        t.wf(),
    ensures
        r == spec_lerp(a as int, b as int, t),
{
    proof {
        lemma_lerp_bounds(a as int, b as int, t);
    }
    if a <= b {
        let span: u128 = (b as i128 - a as i128) as u128;
        proof {
            lemma_scaled_bounds(span as int, t);
            lemma_product_fits(span as int, t.num as int);
        }
        let step: u128 = span * (t.num as u128) / (t.den as u128);
        (a as i128 + step as i128) as i64
    } else {
        let span: u128 = (a as i128 - b as i128) as u128;
        proof {
            lemma_scaled_bounds(span as int, t);
            lemma_product_fits(span as int, t.num as int);
        }
        let step: u128 = span * (t.num as u128) / (t.den as u128);
        (a as i128 - step as i128) as i64
    }
}

/// The product of two 64-bit magnitudes fits in 128 bits.
proof fn lemma_product_fits(x: int, y: int)
    requires
        0 <= x <= u64::MAX,
        0 <= y <= u64::MAX,
    ensures
        0 <= x * y <= u128::MAX,
{
    assert(0 <= x * y <= 0xFFFF_FFFF_FFFF_FFFF * 0xFFFF_FFFF_FFFF_FFFF) by (nonlinear_arith)
        requires
            0 <= x <= 0xFFFF_FFFF_FFFF_FFFF,
            0 <= y <= 0xFFFF_FFFF_FFFF_FFFF,
    ;
}

} // verus!
