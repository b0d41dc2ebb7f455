//! Distances along a ray as ratios of integers, compared without rounding.

use vstd::prelude::*;
use crate::geometry::wide::lemma_product_bound;

verus! {

/// A rational number `num / den`, by which hits along a ray are ordered.
#[derive(Clone, Copy, Debug)]
pub struct Distance {
    pub num: i64,
    pub den: i64,
}

/// `a / b <= c / d` for positive `b` and `d`.
pub open spec fn ratio_le(a: int, b: int, c: int, d: int) -> bool {
    a * d <= c * b
}

/// The order of ratios is transitive.
pub proof fn lemma_ratio_le_transitive(a: int, b: int, c: int, d: int, e: int, f: int)
    by (nonlinear_arith)
    requires
        b > 0,
        d > 0,
        f > 0,
        ratio_le(a, b, c, d),
        ratio_le(c, d, e, f),
    ensures
        ratio_le(a, b, e, f),
{
    assert(a * d * f <= c * b * f);
    assert(c * f * b <= e * d * b);
    assert((a * f) * d <= (e * b) * d);
}

impl Distance {
    /// The denominator is positive.
    pub open spec fn well_formed(self) -> bool {
        self.den > 0
    }

    /// `self <= other` as rational numbers.
    pub open spec fn spec_le(self, other: Distance) -> bool {
        ratio_le(self.num as int, self.den as int, other.num as int, other.den as int)
    }

    /// `self < other` as rational numbers.
    pub open spec fn spec_lt(self, other: Distance) -> bool {
        !other.spec_le(self)
    }

    /// The whole number `n`.
    pub fn whole(n: i64) -> (d: Distance)
        ensures
            d.num == n,
            d.den == 1,
            d.well_formed(),
    {
        Distance { num: n, den: 1 }
    }

    /// Whether `self <= other` as rational numbers.
    pub fn le(&self, other: &Distance) -> (r: bool)
        ensures
            r == self.spec_le(*other),
    {
        proof {
            lemma_product_bound(
                self.num as int,
                other.den as int,
                0x8000_0000_0000_0000,
                0x8000_0000_0000_0000,
            );
            lemma_product_bound(
                other.num as int,
                self.den as int,
                0x8000_0000_0000_0000,
                0x8000_0000_0000_0000,
            );
        }
        (self.num as i128) * (other.den as i128) <= (other.num as i128) * (self.den as i128)
    }

    /// Whether `self < other` as rational numbers.
    pub fn lt(&self, other: &Distance) -> (r: bool)
        ensures
            r == self.spec_lt(*other),
    {
        !other.le(self)
    }
}

} // verus!
