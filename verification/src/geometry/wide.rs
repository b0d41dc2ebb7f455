//! 128-bit vector arithmetic with proved bounds, for the products that the
//! exact predicates form.

use vstd::prelude::*;
use crate::geometry::types::{Direction, Position, Vector};

verus! {

/// A vector with 128-bit components, wide enough for the products that the
/// exact predicates form from lattice coordinates.
#[derive(Clone, Copy, Debug)]
pub struct Wide {
    pub x: i128,
    pub y: i128,
    pub z: i128,
}

impl View for Wide {
    type V = Vector;

    open spec fn view(&self) -> Vector {
        Vector { x: self.x as int, y: self.y as int, z: self.z as int }
    }
}

/// The product of two bounded integers stays within the product of the bounds.
pub proof fn lemma_product_bound(a: int, b: int, la: int, lb: int)
    by (nonlinear_arith)
    requires
        -la <= a <= la,
        -lb <= b <= lb,
    ensures
        -(la * lb) <= a * b <= la * lb,
{
}

/// `a * b`, for factors whose bounds show that the product fits.
pub fn product(a: i128, b: i128, Ghost(la): Ghost<int>, Ghost(lb): Ghost<int>) -> (r: i128)
    requires
        -la <= a <= la,
        -lb <= b <= lb,
        la * lb <= i128::MAX,
    ensures
        r == a * b,
        -(la * lb) <= r <= la * lb,
{
    proof {
        lemma_product_bound(a as int, b as int, la, lb);
    }
    a * b
}

/// The absolute value of a bounded integer.
pub fn magnitude(a: i128) -> (r: i128)
    requires
        a > i128::MIN,
    ensures
        r == crate::geometry::types::abs(a as int),
{
    if a < 0 {
        -a
    } else {
        a
    }
}

impl Wide {
    pub fn from_direction(d: &Direction) -> (w: Wide)
        ensures
            w@ == d@,
    {
        Wide { x: d.x as i128, y: d.y as i128, z: d.z as i128 }
    }

    /// The vector from `b` to `a`.
    pub fn between(a: &Position, b: &Position) -> (w: Wide)
        ensures
            w@ == a@.minus(b@),
            w@.within(0xffff_ffff),
    {
        Wide {
            x: a.x as i128 - b.x as i128,
            y: a.y as i128 - b.y as i128,
            z: a.z as i128 - b.z as i128,
        }
    }

    /// The dot product, for operands whose bounds show that it fits.
    pub fn dot(&self, o: &Wide, Ghost(la): Ghost<int>, Ghost(lb): Ghost<int>) -> (r: i128)
        requires
            self@.within(la),
            o@.within(lb),
            0 <= la,
            0 <= lb,
            3 * (la * lb) <= i128::MAX,
        ensures
            r == self@.dot(o@),
            -(3 * (la * lb)) <= r <= 3 * (la * lb),
    {
        proof {
            lemma_product_bound(0, 0, la, lb);
        }
        let a: i128 = product(self.x, o.x, Ghost(la), Ghost(lb));
        let b: i128 = product(self.y, o.y, Ghost(la), Ghost(lb));
        let c: i128 = product(self.z, o.z, Ghost(la), Ghost(lb));
        assert(3 * (la * lb) == la * lb + la * lb + la * lb);
        a + b + c
    }

    /// The cross product, for operands whose bounds show that it fits.
    pub fn cross(&self, o: &Wide, Ghost(la): Ghost<int>, Ghost(lb): Ghost<int>) -> (w: Wide)
        requires
            self@.within(la),
            o@.within(lb),
            0 <= la,
            0 <= lb,
            2 * (la * lb) <= i128::MAX,
        ensures
            w@ == self@.cross(o@),
            w@.within(2 * (la * lb)),
    {
        proof {
            lemma_product_bound(0, 0, la, lb);
        }
        let yz: i128 = product(self.y, o.z, Ghost(la), Ghost(lb));
        let zy: i128 = product(self.z, o.y, Ghost(la), Ghost(lb));
        let zx: i128 = product(self.z, o.x, Ghost(la), Ghost(lb));
        let xz: i128 = product(self.x, o.z, Ghost(la), Ghost(lb));
        let xy: i128 = product(self.x, o.y, Ghost(la), Ghost(lb));
        let yx: i128 = product(self.y, o.x, Ghost(la), Ghost(lb));
        Wide { x: yz - zy, y: zx - xz, z: xy - yx }
    }
}

} // verus!
