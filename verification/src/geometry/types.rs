//! Points and vectors of the lattice, and the vector algebra that contracts
//! are stated in.

use vstd::prelude::*;

verus! {

/// A triangle, as three indices into a vertex array.
pub type Triangle = [usize; 3];

/// A point of the lattice.
#[derive(Clone, Copy, Debug, PartialEq, Eq, Structural)]
pub struct Position {
    pub x: i32,
    pub y: i32,
    pub z: i32,
}

/// A lattice vector: a ray direction or a projection axis.
#[derive(Clone, Copy, Debug, PartialEq, Eq, Structural)]
pub struct Direction {
    pub x: i32,
    pub y: i32,
    pub z: i32,
}

/// A vector of mathematical integers, in which contracts state the algebra.
pub struct Vector {
    pub x: int,
    pub y: int,
    pub z: int,
}

/// The absolute value of an integer.
pub open spec fn abs(a: int) -> int {
    if a < 0 {
        -a
    } else {
        a
    }
}

/// The least of three integers.
pub open spec fn min3(a: int, b: int, c: int) -> int {
    if a <= b && a <= c {
        a
    } else if b <= c {
        b
    } else {
        c
    }
}

/// The greatest of three integers.
pub open spec fn max3(a: int, b: int, c: int) -> int {
    if a >= b && a >= c {
        a
    } else if b >= c {
        b
    } else {
        c
    }
}

impl Vector {
    pub open spec fn coord(self, axis: int) -> int {
        if axis == 0 {
            self.x
        } else if axis == 1 {
            self.y
        } else {
            self.z
        }
    }

    /// This vector with the component along `axis` replaced by `value`.
    pub open spec fn with_coord(self, axis: int, value: int) -> Vector {
        Vector {
            x: if axis == 0 { value } else { self.x },
            y: if axis == 1 { value } else { self.y },
            z: if axis == 2 { value } else { self.z },
        }
    }

    pub open spec fn plus(self, o: Vector) -> Vector {
        Vector { x: self.x + o.x, y: self.y + o.y, z: self.z + o.z }
    }

    pub open spec fn minus(self, o: Vector) -> Vector {
        Vector { x: self.x - o.x, y: self.y - o.y, z: self.z - o.z }
    }

    pub open spec fn scale(self, k: int) -> Vector {
        Vector { x: k * self.x, y: k * self.y, z: k * self.z }
    }

    pub open spec fn dot(self, o: Vector) -> int {
        self.x * o.x + self.y * o.y + self.z * o.z
    }

    pub open spec fn cross(self, o: Vector) -> Vector {
        Vector {
            x: self.y * o.z - self.z * o.y,
            y: self.z * o.x - self.x * o.z,
            z: self.x * o.y - self.y * o.x,
        }
    }

    /// The component-wise absolute value.
    pub open spec fn abs(self) -> Vector {
        Vector { x: abs(self.x), y: abs(self.y), z: abs(self.z) }
    }

    /// Every component lies in `[-limit, limit]`.
    pub open spec fn within(self, limit: int) -> bool {
        &&& -limit <= self.x <= limit
        &&& -limit <= self.y <= limit
        &&& -limit <= self.z <= limit
    }

    pub open spec fn is_zero(self) -> bool {
        self.x == 0 && self.y == 0 && self.z == 0
    }
}

impl View for Position {
    type V = Vector;

    open spec fn view(&self) -> Vector {
        Vector { x: self.x as int, y: self.y as int, z: self.z as int }
    }
}

impl View for Direction {
    type V = Vector;

    open spec fn view(&self) -> Vector {
        Vector { x: self.x as int, y: self.y as int, z: self.z as int }
    }
}

impl Position {
    pub fn new(x: i32, y: i32, z: i32) -> (p: Position)
        ensures
            p.x == x,
            p.y == y,
            p.z == z,
    {
        Position { x, y, z }
    }

    /// The coordinate along `axis` (0, 1 or 2).
    pub open spec fn spec_get(self, axis: int) -> i32 {
        if axis == 0 {
            self.x
        } else if axis == 1 {
            self.y
        } else {
            self.z
        }
    }

    /// The coordinate along `axis`.
    pub fn get(&self, axis: usize) -> (c: i32)
        requires
            axis < 3,
        ensures
            c == self.spec_get(axis as int),
            c == self@.coord(axis as int),
    {
        if axis == 0 {
            self.x
        } else if axis == 1 {
            self.y
        } else {
            self.z
        }
    }

    /// This point with the coordinate along `axis` replaced by `value`.
    pub fn with_coord(&self, axis: usize, value: i32) -> (p: Position)
        requires
            axis < 3,
        ensures
            p@ == self@.with_coord(axis as int, value as int),
    {
        if axis == 0 {
            Position { x: value, y: self.y, z: self.z }
        } else if axis == 1 {
            Position { x: self.x, y: value, z: self.z }
        } else {
            Position { x: self.x, y: self.y, z: value }
        }
    }

    /// The component-wise minimum of two points.
    pub fn inf(&self, o: &Position) -> (p: Position)
        ensures
            p.x == if self.x <= o.x { self.x } else { o.x },
            p.y == if self.y <= o.y { self.y } else { o.y },
            p.z == if self.z <= o.z { self.z } else { o.z },
    {
        Position {
            x: if self.x <= o.x { self.x } else { o.x },
            y: if self.y <= o.y { self.y } else { o.y },
            z: if self.z <= o.z { self.z } else { o.z },
        }
    }

    /// The component-wise maximum of two points.
    pub fn sup(&self, o: &Position) -> (p: Position)
        ensures
            p.x == if self.x >= o.x { self.x } else { o.x },
            p.y == if self.y >= o.y { self.y } else { o.y },
            p.z == if self.z >= o.z { self.z } else { o.z },
    {
        Position {
            x: if self.x >= o.x { self.x } else { o.x },
            y: if self.y >= o.y { self.y } else { o.y },
            z: if self.z >= o.z { self.z } else { o.z },
        }
    }
}

impl Direction {
    pub fn new(x: i32, y: i32, z: i32) -> (d: Direction)
        ensures
            d.x == x,
            d.y == y,
            d.z == z,
    {
        Direction { x, y, z }
    }

    /// Whether all three components are zero.
    pub fn is_zero(&self) -> (r: bool)
        ensures
            r == self@.is_zero(),
    {
        self.x == 0 && self.y == 0 && self.z == 0
    }

    /// The component along `axis`.
    pub fn get(&self, axis: usize) -> (c: i32)
        requires
            axis < 3,
        ensures
            c == self@.coord(axis as int),
    {
        if axis == 0 {
            self.x
        } else if axis == 1 {
            self.y
        } else {
            self.z
        }
    }
}

/// The dot product does not depend on the order of its operands.
pub proof fn lemma_dot_commutes(a: Vector, b: Vector)
    by (nonlinear_arith)
    ensures
        a.dot(b) == b.dot(a),
{
}

/// Swapping the operands of a cross product negates it.
pub proof fn lemma_cross_anticommutes(a: Vector, b: Vector)
    by (nonlinear_arith)
    ensures
        a.cross(b) == b.cross(a).scale(-1),
{
}

/// One component of the triple cross product, over plain integers.
proof fn lemma_triple_cross_component(
    a1: int,
    a2: int,
    a3: int,
    b1: int,
    b2: int,
    b3: int,
    c1: int,
    c2: int,
    c3: int,
)
    ensures
        a2 * (b1 * c2 - b2 * c1) - a3 * (b3 * c1 - b1 * c3) == (a1 * c1 + a2 * c2 + a3 * c3) * b1 - (a1
            * b1 + a2 * b2 + a3 * b3) * c1,
{
    assert(a2 * (b1 * c2 - b2 * c1) == a2 * b1 * c2 - a2 * b2 * c1) by (nonlinear_arith);
    assert(a3 * (b3 * c1 - b1 * c3) == a3 * b3 * c1 - a3 * b1 * c3) by (nonlinear_arith);
    assert((a1 * c1 + a2 * c2 + a3 * c3) * b1 == a1 * c1 * b1 + a2 * c2 * b1 + a3 * c3 * b1)
        by (nonlinear_arith);
    assert((a1 * b1 + a2 * b2 + a3 * b3) * c1 == a1 * b1 * c1 + a2 * b2 * c1 + a3 * b3 * c1)
        by (nonlinear_arith);
    assert(a1 * c1 * b1 == a1 * b1 * c1) by (nonlinear_arith);
    assert(a2 * c2 * b1 == a2 * b1 * c2) by (nonlinear_arith);
    assert(a3 * c3 * b1 == a3 * b1 * c3) by (nonlinear_arith);
}

/// The triple cross product: `a x (b x c) = (a . c) b - (a . b) c`.
pub proof fn lemma_triple_cross(a: Vector, b: Vector, c: Vector)
    ensures
        a.cross(b.cross(c)) == b.scale(a.dot(c)).minus(c.scale(a.dot(b))),
{
    lemma_triple_cross_component(a.x, a.y, a.z, b.x, b.y, b.z, c.x, c.y, c.z);
    lemma_triple_cross_component(a.y, a.z, a.x, b.y, b.z, b.x, c.y, c.z, c.x);
    lemma_triple_cross_component(a.z, a.x, a.y, b.z, b.x, b.y, c.z, c.x, c.y);
}

/// The scalar triple product is unchanged when its operands rotate.
pub proof fn lemma_triple_product_rotates(a: Vector, b: Vector, c: Vector)
    ensures
        a.dot(b.cross(c)) == b.dot(c.cross(a)),
{
    assert(a.x * (b.y * c.z - b.z * c.y) == a.x * b.y * c.z - a.x * b.z * c.y) by (nonlinear_arith);
    assert(a.y * (b.z * c.x - b.x * c.z) == a.y * b.z * c.x - a.y * b.x * c.z) by (nonlinear_arith);
    assert(a.z * (b.x * c.y - b.y * c.x) == a.z * b.x * c.y - a.z * b.y * c.x) by (nonlinear_arith);
    assert(b.x * (c.y * a.z - c.z * a.y) == a.z * b.x * c.y - a.y * b.x * c.z) by (nonlinear_arith);
    assert(b.y * (c.z * a.x - c.x * a.z) == a.x * b.y * c.z - a.z * b.y * c.x) by (nonlinear_arith);
    assert(b.z * (c.x * a.y - c.y * a.x) == a.y * b.z * c.x - a.x * b.z * c.y) by (nonlinear_arith);
}

/// The scalar triple product changes its sign when two operands swap.
pub proof fn lemma_triple_product_swaps(a: Vector, b: Vector, c: Vector)
    ensures
        a.dot(c.cross(b)) == -a.dot(b.cross(c)),
{
    assert(a.x * (c.y * b.z - c.z * b.y) == -(a.x * (b.y * c.z - b.z * c.y))) by (nonlinear_arith);
    assert(a.y * (c.z * b.x - c.x * b.z) == -(a.y * (b.z * c.x - b.x * c.z))) by (nonlinear_arith);
    assert(a.z * (c.x * b.y - c.y * b.x) == -(a.z * (b.x * c.y - b.y * c.x))) by (nonlinear_arith);
}

/// A cross product is perpendicular to both of its operands.
pub proof fn lemma_cross_is_perpendicular(u: Vector, v: Vector)
    ensures
        u.cross(v).dot(u) == 0,
        u.cross(v).dot(v) == 0,
{
    assert((u.y * v.z - u.z * v.y) * u.x + (u.z * v.x - u.x * v.z) * u.y + (u.x * v.y - u.y * v.x) * u.z
        == 0) by (nonlinear_arith);
    assert((u.y * v.z - u.z * v.y) * v.x + (u.z * v.x - u.x * v.z) * v.y + (u.x * v.y - u.y * v.x) * v.z
        == 0) by (nonlinear_arith);
}

/// The dot product with a sum of two scaled vectors is the sum of the scaled
/// dot products.
pub proof fn lemma_dot_of_combination(x: Vector, a: Vector, m: int, b: Vector, n: int)
    ensures
        x.dot(a.scale(m).plus(b.scale(n))) == m * x.dot(a) + n * x.dot(b),
{
    assert(x.x * (m * a.x + n * b.x) == m * (x.x * a.x) + n * (x.x * b.x)) by (nonlinear_arith);
    assert(x.y * (m * a.y + n * b.y) == m * (x.y * a.y) + n * (x.y * b.y)) by (nonlinear_arith);
    assert(x.z * (m * a.z + n * b.z) == m * (x.z * a.z) + n * (x.z * b.z)) by (nonlinear_arith);
    assert(m * x.dot(a) == m * (x.x * a.x) + m * (x.y * a.y) + m * (x.z * a.z)) by (nonlinear_arith);
    assert(n * x.dot(b) == n * (x.x * b.x) + n * (x.y * b.y) + n * (x.z * b.z)) by (nonlinear_arith);
}

} // verus!
