//! Products beyond 128 bits, for comparing ratios of wide integers.

use vstd::prelude::*;

verus! {

/// The factors of a wide product are below this bound, two to the power 120.
pub const FACTOR_LIMIT: u128 = 0x100_0000_0000_0000_0000_0000_0000_0000;

/// Two to the power 64, the base of the limbs.
pub const BASE: u128 = 0x1_0000_0000_0000_0000;

/// A product too wide for 128 bits, in three limbs to the base two to the
/// power 64; the two lower limbs are digits of that base.
#[derive(Clone, Copy, Debug)]
pub struct Product {
    pub high: u128,
    pub mid: u128,
    pub low: u128,
}

impl Product {
    /// The number that the limbs stand for.
    pub open spec fn value(self) -> int {
        self.high * (BASE * BASE) + self.mid * BASE + self.low
    }

    /// The two lower limbs are digits.
    pub open spec fn well_formed(self) -> bool {
        self.mid < BASE && self.low < BASE
    }

    /// The product of two numbers below [`FACTOR_LIMIT`].
    pub fn of(a: u128, b: u128) -> (p: Product)
        requires
            a < FACTOR_LIMIT,
            b < FACTOR_LIMIT,
        ensures
            p.well_formed(),
            p.value() == a * b,
    {
        let a1: u128 = a / BASE;
        let a0: u128 = a % BASE;
        let b1: u128 = b / BASE;
        let b0: u128 = b % BASE;
        proof {
            lemma_limb_products(a1 as int, a0 as int, b1 as int, b0 as int);
        }
        let top: u128 = a1 * b1;
        let bottom: u128 = a0 * b0;
        let cross: u128 = a1 * b0 + a0 * b1 + bottom / BASE;
        let p = Product { high: top + cross / BASE, mid: cross % BASE, low: bottom % BASE };
        proof {
            let big: int = BASE * BASE;
            assert(big == 0x1_0000_0000_0000_0000_0000_0000_0000_0000int);
            assert(a * b == (a1 * b1) * big + (a1 * b0 + a0 * b1) * BASE + a0 * b0) by (nonlinear_arith)
                requires
                    a == a1 * BASE + a0,
                    b == b1 * BASE + b0,
                    big == BASE * BASE,
            ;
        }
        p
    }

    /// Whether this product is less than the other.
    pub fn lt(&self, other: &Product) -> (r: bool)
        requires
            self.well_formed(),
            other.well_formed(),
        ensures
            r == (self.value() < other.value()),
    {
        proof {
            assert(BASE * BASE == 0x1_0000_0000_0000_0000_0000_0000_0000_0000int);
        }
        if self.high != other.high {
            self.high < other.high
        } else if self.mid != other.mid {
            self.mid < other.mid
        } else {
            self.low < other.low
        }
    }
}

/// The products of limbs stay within 128 bits.
proof fn lemma_limb_products(a1: int, a0: int, b1: int, b0: int)
    by (nonlinear_arith)
    requires
        0 <= a1 < 0x100_0000_0000_0000,
        0 <= b1 < 0x100_0000_0000_0000,
        0 <= a0 < 0x1_0000_0000_0000_0000,
        0 <= b0 < 0x1_0000_0000_0000_0000,
    ensures
        0 <= a1 * b1 <= 0x100_0000_0000_0000 * 0x100_0000_0000_0000,
        0 <= a0 * b0 <= 0xffff_ffff_ffff_ffff * 0xffff_ffff_ffff_ffff,
        0 <= a1 * b0 <= 0x100_0000_0000_0000 * 0x1_0000_0000_0000_0000,
        0 <= a0 * b1 <= 0x100_0000_0000_0000 * 0x1_0000_0000_0000_0000,
{
}

/// Whether `a / b < c / d`, for numerators that are not negative and
/// positive denominators, all below [`FACTOR_LIMIT`].
pub fn ratio_lt(a: u128, b: u128, c: u128, d: u128) -> (r: bool)
    requires
        a < FACTOR_LIMIT,
        b < FACTOR_LIMIT,
        c < FACTOR_LIMIT,
        d < FACTOR_LIMIT,
    ensures
        r == (a * d < c * b),
{
    let left = Product::of(a, d);
    let right = Product::of(c, b);
    left.lt(&right)
}

} // verus!
