//! Axis-aligned boxes: bounds, splitting, and the separating-axis test
//! against a triangle.

use vstd::prelude::*;
use crate::geometry::types::{abs, max3, min3, Direction, Position, Vector};
use crate::geometry::wide::{lemma_product_bound, magnitude, Wide};

verus! {

/// An axis-aligned box, given by its least and its greatest corner.
#[derive(Clone, Copy, Debug)]
pub struct AxisAlignedBoundingBox {
    pub bounds: [Position; 2],
}

/// The unit vector of a coordinate axis.
pub open spec fn unit(axis: int) -> Vector {
    Vector {
        x: if axis == 0 { 1 } else { 0 },
        y: if axis == 1 { 1 } else { 0 },
        z: if axis == 2 { 1 } else { 0 },
    }
}

/// Some point of `points` has the coordinate `value` on `axis`.
pub open spec fn attained(points: Seq<Position>, axis: int, value: int) -> bool {
    exists|i: int| 0 <= i < points.len() && #[trigger] points[i]@.coord(axis) == value
}

/// The normal of a triangle: the cross product of its two edges from `t0`.
pub open spec fn triangle_normal(t0: Vector, t1: Vector, t2: Vector) -> Vector {
    t1.minus(t0).cross(t2.minus(t0))
}

/// The axis that a caller supplied, if any.
pub open spec fn supplied_axis(normal: Option<&Direction>) -> Option<Vector> {
    match normal {
        Some(n) => Some(n@),
        None => None,
    }
}

/// The cross products of a vector with the three unit vectors, written out.
pub proof fn lemma_cross_with_unit(e: Vector)
    ensures
        e.cross(unit(0)) == (Vector { x: 0, y: e.z, z: -e.y }),
        e.cross(unit(1)) == (Vector { x: -e.z, y: 0, z: e.x }),
        e.cross(unit(2)) == (Vector { x: e.y, y: -e.x, z: 0 }),
{
    assert(unit(0) == Vector { x: 1, y: 0, z: 0 });
    assert(unit(1) == Vector { x: 0, y: 1, z: 0 });
    assert(unit(2) == Vector { x: 0, y: 0, z: 1 });
    assert(e.x * 0 == 0 && e.y * 0 == 0 && e.z * 0 == 0);
    assert(e.x * 1 == e.x && e.y * 1 == e.y && e.z * 1 == e.z);
}

impl AxisAlignedBoundingBox {
    /// The least corner.
    pub open spec fn min(self) -> Vector {
        self.bounds[0]@
    }

    /// The greatest corner.
    pub open spec fn max(self) -> Vector {
        self.bounds[1]@
    }

    /// On every axis the least corner is not above the greatest.
    pub open spec fn well_formed(self) -> bool {
        &&& self.min().x <= self.max().x
        &&& self.min().y <= self.max().y
        &&& self.min().z <= self.max().z
    }

    /// The point lies in the closed box.
    pub open spec fn contains(self, p: Vector) -> bool {
        &&& self.min().x <= p.x <= self.max().x
        &&& self.min().y <= p.y <= self.max().y
        &&& self.min().z <= p.z <= self.max().z
    }

    /// The other box lies in this one.
    pub open spec fn encloses(self, other: AxisAlignedBoundingBox) -> bool {
        &&& self.min().x <= other.min().x && other.max().x <= self.max().x
        &&& self.min().y <= other.min().y && other.max().y <= self.max().y
        &&& self.min().z <= other.min().z && other.max().z <= self.max().z
    }

    /// The box is the tightest one around the points: it holds them all,
    /// and on each axis each of its two faces passes through one of them.
    pub open spec fn is_bounding_box_of(self, points: Seq<Position>) -> bool {
        &&& forall|i: int| 0 <= i < points.len() ==> self.contains(#[trigger] points[i]@)
        &&& attained(points, 0, self.min().x)
        &&& attained(points, 1, self.min().y)
        &&& attained(points, 2, self.min().z)
        &&& attained(points, 0, self.max().x)
        &&& attained(points, 1, self.max().y)
        &&& attained(points, 2, self.max().z)
    }

    /// The extent on each axis.
    pub open spec fn dim(self) -> Vector {
        self.max().minus(self.min())
    }

    /// A point relative to the centre of the box, at twice the scale, so that
    /// it stays on the lattice.
    pub open spec fn centered(self, p: Vector) -> Vector {
        p.scale(2).minus(self.min().plus(self.max()))
    }

    /// The width of the box's projection on `axis`: twice its projected
    /// radius about the centre.
    pub open spec fn projected_extent(self, axis: Vector) -> int {
        self.dim().dot(axis.abs())
    }

    /// The three vertices lie beyond one side of the box on axis `i`.
    pub open spec fn separated_by_box_axis(self, t0: Vector, t1: Vector, t2: Vector, i: int) -> bool {
        ||| max3(t0.coord(i), t1.coord(i), t2.coord(i)) < self.min().coord(i)
        ||| min3(t0.coord(i), t1.coord(i), t2.coord(i)) > self.max().coord(i)
    }

    /// The plane through `t0` with normal `n` passes outside the box.
    pub open spec fn separated_by_normal(self, t0: Vector, n: Vector) -> bool {
        abs(n.dot(self.centered(t0))) > self.projected_extent(n)
    }

    /// The projections of the box and of the triangle on `axis` are disjoint.
    pub open spec fn separated_by_axis(self, t0: Vector, t1: Vector, t2: Vector, axis: Vector) -> bool {
        let r = self.projected_extent(axis);
        let j0 = axis.dot(self.centered(t0));
        let j1 = axis.dot(self.centered(t1));
        let j2 = axis.dot(self.centered(t2));
        r < min3(j0, j1, j2) || -r > max3(j0, j1, j2)
    }

    /// One of the cross products of `edge` with the three box axes separates.
    pub open spec fn separated_by_edge(self, t0: Vector, t1: Vector, t2: Vector, edge: Vector) -> bool {
        ||| self.separated_by_axis(t0, t1, t2, edge.cross(unit(0)))
        ||| self.separated_by_axis(t0, t1, t2, edge.cross(unit(1)))
        ||| self.separated_by_axis(t0, t1, t2, edge.cross(unit(2)))
    }

    /// One of the thirteen axes separates the triangle from the box: the three
    /// box axes, the triangle's normal (the supplied one, else the cross
    /// product of two edges), and the nine cross products of an edge with a
    /// box axis.
    pub open spec fn separated(self, t0: Vector, t1: Vector, t2: Vector, normal: Option<Vector>) -> bool {
        ||| self.separated_by_box_axis(t0, t1, t2, 0)
        ||| self.separated_by_box_axis(t0, t1, t2, 1)
        ||| self.separated_by_box_axis(t0, t1, t2, 2)
        ||| self.separated_by_normal(
            t0,
            match normal {
                Some(n) => n,
                None => triangle_normal(t0, t1, t2),
            },
        )
        ||| self.separated_by_edge(t0, t1, t2, t1.minus(t0))
        ||| self.separated_by_edge(t0, t1, t2, t2.minus(t1))
        ||| self.separated_by_edge(t0, t1, t2, t0.minus(t2))
    }

    /// The axis of greatest extent, the first of them where several tie.
    pub open spec fn spec_largest_dim(self) -> int {
        let d = self.dim();
        if d.x >= d.y && d.x >= d.z {
            0
        } else if d.y >= d.z {
            1
        } else {
            2
        }
    }

    /// The box with the given corners.
    pub fn from_bounds(bounds: [Position; 2]) -> (b: Self)
        ensures
            b.bounds == bounds,
    {
        AxisAlignedBoundingBox { bounds }
    }

    /// The tightest box around the points: on each axis its least corner is
    /// the least coordinate among them, its greatest corner the greatest.
    pub fn new(vertices: &Vec<Position>) -> (b: Self)
        requires
            vertices.len() > 0,
        ensures
            b.well_formed(),
            b.is_bounding_box_of(vertices@),
    {
        let mut min: Position = vertices[0];
        let mut max: Position = vertices[0];
        let mut k: usize = 1;
        proof {
            let first = vertices@.take(1);
            assert(first[0]@.coord(0) == min@.x && first[0]@.coord(1) == min@.y && first[0]@.coord(2)
                == min@.z);
        }
        while k < vertices.len()
            invariant
                1 <= k <= vertices.len(),
                attained(vertices@.take(k as int), 0, min@.x),
                attained(vertices@.take(k as int), 1, min@.y),
                attained(vertices@.take(k as int), 2, min@.z),
                attained(vertices@.take(k as int), 0, max@.x),
                attained(vertices@.take(k as int), 1, max@.y),
                attained(vertices@.take(k as int), 2, max@.z),
                forall|i: int|
                    0 <= i < k ==> {
                        let p = #[trigger] vertices[i]@;
                        &&& min@.x <= p.x <= max@.x
                        &&& min@.y <= p.y <= max@.y
                        &&& min@.z <= p.z <= max@.z
                    },
            decreases vertices.len() - k,
        {
            let p: Position = vertices[k];
            proof {
                let before = vertices@.take(k as int);
                let after = vertices@.take(k as int + 1);
                assert(after[k as int] == p);
                assert forall|a: int, v: int| attained(before, a, v) implies attained(after, a, v) by {
                    let i = choose|i: int| 0 <= i < before.len() && #[trigger] before[i]@.coord(a) == v;
                    assert(after[i]@.coord(a) == v);
                }
                assert(after[k as int]@.coord(0) == p@.x && after[k as int]@.coord(1) == p@.y
                    && after[k as int]@.coord(2) == p@.z);
            }
            min = min.inf(&p);
            max = max.sup(&p);
            k = k + 1;
        }
        assert(vertices@.take(k as int) == vertices@);
        Self::from_bounds([min, max])
    }

    /// The extent along `i`.
    pub fn get_dimension(&self, i: usize) -> (d: i64)
        requires
            i < 3,
        ensures
            d == self.dim().coord(i as int),
    {
        self.bounds[1].get(i) as i64 - self.bounds[0].get(i) as i64
    }

    /// The extent along x.
    pub fn width(&self) -> (d: i64)
        ensures
            d == self.dim().x,
    {
        self.get_dimension(0)
    }

    /// The extent along y.
    pub fn height(&self) -> (d: i64)
        ensures
            d == self.dim().y,
    {
        self.get_dimension(1)
    }

    /// The extent along z.
    pub fn length(&self) -> (d: i64)
        ensures
            d == self.dim().z,
    {
        self.get_dimension(2)
    }

    /// The axis of greatest extent; of several such, the first: width before
    /// height before length.
    pub fn largest_dim(&self) -> (axis: usize)
        ensures
            axis == self.spec_largest_dim(),
            axis < 3,
            forall|a: int| 0 <= a < 3 ==> self.dim().coord(a) <= self.dim().coord(axis as int),
            forall|a: int| 0 <= a < axis ==> self.dim().coord(a) < self.dim().coord(axis as int),
    {
        if self.width() >= self.height() && self.width() >= self.length() {
            return 0;
        }
        if self.height() >= self.length() {
            return 1;
        }
        2
    }

    /// The two halves of the box on either side of the plane `at` on axis
    /// `dim`; nothing where the plane does not meet the box.
    pub fn split(&self, dim: usize, at: i32) -> (halves: Option<(Self, Self)>)
        requires
            dim < 3,
        ensures
            halves.is_some() <==> self.min().coord(dim as int) <= at <= self.max().coord(dim as int),
            halves.is_some() ==> {
                let (left, right) = halves.unwrap();
                &&& left.min() == self.min()
                &&& left.max() == self.max().with_coord(dim as int, at as int)
                &&& right.min() == self.min().with_coord(dim as int, at as int)
                &&& right.max() == self.max()
                &&& self.well_formed() ==> left.well_formed() && right.well_formed()
            },
    {
        let min: Position = self.bounds[0];
        let max: Position = self.bounds[1];
        if min.get(dim) > at || at > max.get(dim) {
            return None;
        }
        let at_min: Position = min.with_coord(dim, at);
        let at_max: Position = max.with_coord(dim, at);
        Some((Self::from_bounds([min, at_max]), Self::from_bounds([at_min, max])))
    }

    /// The extents as a wide vector.
    fn dim_wide(&self) -> (w: Wide)
        ensures
            w@ == self.dim(),
            w@.within(0xffff_ffff),
    {
        Wide::between(&self.bounds[1], &self.bounds[0])
    }

    /// `p` relative to the centre, at twice the scale.
    fn centered_wide(&self, p: &Position) -> (w: Wide)
        ensures
            w@ == self.centered(p@),
            w@.within(0x2_0000_0000),
    {
        let lo: Position = self.bounds[0];
        let hi: Position = self.bounds[1];
        Wide {
            x: 2 * (p.x as i128) - (lo.x as i128 + hi.x as i128),
            y: 2 * (p.y as i128) - (lo.y as i128 + hi.y as i128),
            z: 2 * (p.z as i128) - (lo.z as i128 + hi.z as i128),
        }
    }

    /// The width of the box's projection on `axis`.
    fn projected_extent_wide(&self, axis: &Wide, Ghost(la): Ghost<int>) -> (r: i128)
        requires
            axis@.within(la),
            0 <= la,
            3 * (0xffff_ffff * la) <= i128::MAX,
        ensures
            r == self.projected_extent(axis@),
    {
        let a = Wide { x: magnitude(axis.x), y: magnitude(axis.y), z: magnitude(axis.z) };
        self.dim_wide().dot(&a, Ghost(0xffff_ffff), Ghost(la))
    }

    /// Whether the three vertices lie beyond one side of the box on axis `i`.
    fn box_axis_separates(&self, t0: &Position, t1: &Position, t2: &Position, i: usize) -> (r: bool)
        requires
            i < 3,
        ensures
            r == self.separated_by_box_axis(t0@, t1@, t2@, i as int),
    {
        let a: i32 = t0.get(i);
        let b: i32 = t1.get(i);
        let c: i32 = t2.get(i);
        let lo: i32 = self.bounds[0].get(i);
        let hi: i32 = self.bounds[1].get(i);
        (a < lo && b < lo && c < lo) || (a > hi && b > hi && c > hi)
    }

    /// Whether the projections of the box and of the triangle on `axis` are
    /// disjoint; `u0`, `u1`, `u2` are the centred vertices.
    fn axis_separates(
        &self,
        Ghost(t0): Ghost<Vector>,
        Ghost(t1): Ghost<Vector>,
        Ghost(t2): Ghost<Vector>,
        u0: &Wide,
        u1: &Wide,
        u2: &Wide,
        axis: &Wide,
    ) -> (r: bool)
        requires
            u0@ == self.centered(t0),
            u1@ == self.centered(t1),
            u2@ == self.centered(t2),
            u0@.within(0x2_0000_0000),
            u1@.within(0x2_0000_0000),
            u2@.within(0x2_0000_0000),
            axis@.within(0x2_0000_0000),
        ensures
            r == self.separated_by_axis(t0, t1, t2, axis@),
    {
        let r: i128 = self.projected_extent_wide(axis, Ghost(0x2_0000_0000));
        let j0: i128 = axis.dot(u0, Ghost(0x2_0000_0000), Ghost(0x2_0000_0000));
        let j1: i128 = axis.dot(u1, Ghost(0x2_0000_0000), Ghost(0x2_0000_0000));
        let j2: i128 = axis.dot(u2, Ghost(0x2_0000_0000), Ghost(0x2_0000_0000));
        (r < j0 && r < j1 && r < j2) || (-r > j0 && -r > j1 && -r > j2)
    }

    /// Whether one of the cross products of `edge` with a box axis separates.
    fn edge_separates(
        &self,
        Ghost(t0): Ghost<Vector>,
        Ghost(t1): Ghost<Vector>,
        Ghost(t2): Ghost<Vector>,
        u0: &Wide,
        u1: &Wide,
        u2: &Wide,
        edge: &Wide,
    ) -> (r: bool)
        requires
            u0@ == self.centered(t0),
            u1@ == self.centered(t1),
            u2@ == self.centered(t2),
            u0@.within(0x2_0000_0000),
            u1@.within(0x2_0000_0000),
            u2@.within(0x2_0000_0000),
            edge@.within(0xffff_ffff),
        ensures
            r == self.separated_by_edge(t0, t1, t2, edge@),
    {
        let ax = Wide { x: 0, y: edge.z, z: -edge.y };
        let ay = Wide { x: -edge.z, y: 0, z: edge.x };
        let az = Wide { x: edge.y, y: -edge.x, z: 0 };
        proof {
            lemma_cross_with_unit(edge@);
        }
        self.axis_separates(Ghost(t0), Ghost(t1), Ghost(t2), u0, u1, u2, &ax)
            || self.axis_separates(Ghost(t0), Ghost(t1), Ghost(t2), u0, u1, u2, &ay)
            || self.axis_separates(Ghost(t0), Ghost(t1), Ghost(t2), u0, u1, u2, &az)
    }

    /// Whether the triangle meets the box, by the separating axis theorem:
    /// it does unless one of thirteen axes separates the two. The axes are
    /// tried in the order of [`Self::separated`]; a degenerate axis (a zero
    /// cross product) separates nothing.
    pub fn intersect_triangle(
        &self,
        t0: &Position,
        t1: &Position,
        t2: &Position,
        triangle_normal: Option<&Direction>,
    ) -> (hit: bool)
        ensures
            hit == !self.separated(t0@, t1@, t2@, supplied_axis(triangle_normal)),
    {
        if self.box_axis_separates(t0, t1, t2, 0) || self.box_axis_separates(t0, t1, t2, 1)
            || self.box_axis_separates(t0, t1, t2, 2) {
            return false;
        }
        let u0: Wide = self.centered_wide(t0);
        let u1: Wide = self.centered_wide(t1);
        let u2: Wide = self.centered_wide(t2);
        let e0: Wide = Wide::between(t1, t0);

        let ghost limit: int = 2 * (0xffff_ffffint * 0xffff_ffffint);
        let n: Wide = match triangle_normal {
            Some(v) => Wide::from_direction(v),
            None => {
                let e: Wide = Wide::between(t2, t0);
                e0.cross(&e, Ghost(0xffff_ffff), Ghost(0xffff_ffff))
            },
        };
        assert(n@.within(limit));
        let projection: i128 = n.dot(&u0, Ghost(limit), Ghost(0x2_0000_0000));
        let r: i128 = self.projected_extent_wide(&n, Ghost(limit));
        if magnitude(projection) > r {
            return false;
        }
        let e1: Wide = Wide::between(t2, t1);
        let e2: Wide = Wide::between(t0, t2);
        if self.edge_separates(Ghost(t0@), Ghost(t1@), Ghost(t2@), &u0, &u1, &u2, &e0) {
            return false;
        }
        if self.edge_separates(Ghost(t0@), Ghost(t1@), Ghost(t2@), &u0, &u1, &u2, &e1) {
            return false;
        }
        if self.edge_separates(Ghost(t0@), Ghost(t1@), Ghost(t2@), &u0, &u1, &u2, &e2) {
            return false;
        }
        true
    }
}

/// The projection of a point of the box on any axis stays within the
/// projection of the box.
pub proof fn lemma_projection_within_extent(b: AxisAlignedBoundingBox, p: Vector, axis: Vector)
    requires
        b.contains(p),
    ensures
        abs(axis.dot(b.centered(p))) <= b.projected_extent(axis),
{
    let c = b.centered(p);
    let d = b.dim();
    lemma_product_bound(axis.x, c.x, abs(axis.x), d.x);
    lemma_product_bound(axis.y, c.y, abs(axis.y), d.y);
    lemma_product_bound(axis.z, c.z, abs(axis.z), d.z);
    assert(d.x * abs(axis.x) == abs(axis.x) * d.x) by (nonlinear_arith);
    assert(d.y * abs(axis.y) == abs(axis.y) * d.y) by (nonlinear_arith);
    assert(d.z * abs(axis.z) == abs(axis.z) * d.z) by (nonlinear_arith);
}

/// A triangle whose three vertices lie in the box meets it: no axis
/// separates the two, whichever normal is supplied.
pub proof fn lemma_contained_triangle_intersects(
    b: AxisAlignedBoundingBox,
    t0: Vector,
    t1: Vector,
    t2: Vector,
    normal: Option<Vector>,
)
    requires
        b.contains(t0),
        b.contains(t1),
        b.contains(t2),
    ensures
        !b.separated(t0, t1, t2, normal),
{
    let n = match normal {
        Some(n) => n,
        None => triangle_normal(t0, t1, t2),
    };
    lemma_projection_within_extent(b, t0, n);
    assert forall|axis: Vector| !b.separated_by_axis(t0, t1, t2, axis) by {
        lemma_projection_within_extent(b, t0, axis);
        lemma_projection_within_extent(b, t1, axis);
        lemma_projection_within_extent(b, t2, axis);
    }
}

/// A triangle that lies wholly beyond one face of the box does not meet it.
pub proof fn lemma_beyond_face_is_separated(
    b: AxisAlignedBoundingBox,
    t0: Vector,
    t1: Vector,
    t2: Vector,
    normal: Option<Vector>,
    i: int,
)
    requires
        0 <= i < 3,
        (t0.coord(i) > b.max().coord(i) && t1.coord(i) > b.max().coord(i) && t2.coord(i)
            > b.max().coord(i)) || (t0.coord(i) < b.min().coord(i) && t1.coord(i) < b.min().coord(i)
            && t2.coord(i) < b.min().coord(i)),
    ensures
        b.separated(t0, t1, t2, normal),
{
    assert(b.separated_by_box_axis(t0, t1, t2, i));
}

/// An axis on which the projections of the triangle and of the box are
/// disjoint shows the two apart wherever it is one of the nine cross
/// products of a triangle edge with a box axis.
pub proof fn lemma_edge_axis_is_separating(
    b: AxisAlignedBoundingBox,
    t0: Vector,
    t1: Vector,
    t2: Vector,
    normal: Option<Vector>,
    edge: int,
    i: int,
)
    requires
        0 <= edge < 3,
        0 <= i < 3,
        b.separated_by_axis(
            t0,
            t1,
            t2,
            (if edge == 0 {
                t1.minus(t0)
            } else if edge == 1 {
                t2.minus(t1)
            } else {
                t0.minus(t2)
            }).cross(unit(i)),
        ),
    ensures
        b.separated(t0, t1, t2, normal),
{
}

} // verus!
