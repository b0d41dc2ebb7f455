//! Why the separating-axis test may be believed: a triangle that an axis
//! separates from a box shares no point with it.

use vstd::prelude::*;
use crate::geometry::bounding_box::{triangle_normal, unit, AxisAlignedBoundingBox};
use crate::geometry::types::{abs, lemma_cross_is_perpendicular, Vector};
use crate::geometry::wide::lemma_product_bound;

verus! {

/// The point of the triangle with the barycentric weights `w0`, `w1`, `w2`,
/// times the sum of the weights.
pub open spec fn weighted(t0: Vector, t1: Vector, t2: Vector, w0: int, w1: int, w2: int) -> Vector {
    t0.scale(w0).plus(t1.scale(w1)).plus(t2.scale(w2))
}

/// The point `p / s` lies in the closed box.
pub open spec fn contains_scaled(b: AxisAlignedBoundingBox, p: Vector, s: int) -> bool {
    &&& s * b.min().x <= p.x <= s * b.max().x
    &&& s * b.min().y <= p.y <= s * b.max().y
    &&& s * b.min().z <= p.z <= s * b.max().z
}

/// A weight that is not negative keeps an order.
proof fn lemma_weight_keeps_order(w: int, a: int, b: int)
    by (nonlinear_arith)
    requires
        w >= 0,
        a <= b,
    ensures
        w * a <= w * b,
{
}

/// A weighted sum of values that are all above a bound is above the bound
/// times the sum of the weights; likewise below.
proof fn lemma_weighted_sum_beyond(w0: int, w1: int, w2: int, x0: int, x1: int, x2: int, bound: int)
    requires
        w0 >= 0,
        w1 >= 0,
        w2 >= 0,
        w0 + w1 + w2 > 0,
    ensures
        x0 > bound && x1 > bound && x2 > bound ==> w0 * x0 + w1 * x1 + w2 * x2 > (w0 + w1 + w2) * bound,
        x0 < bound && x1 < bound && x2 < bound ==> w0 * x0 + w1 * x1 + w2 * x2 < (w0 + w1 + w2) * bound,
{
    assert((w0 + w1 + w2) * bound == w0 * bound + w1 * bound + w2 * bound) by (nonlinear_arith);
    if x0 > bound && x1 > bound && x2 > bound {
        lemma_weight_keeps_order(w0, bound + 1, x0);
        lemma_weight_keeps_order(w1, bound + 1, x1);
        lemma_weight_keeps_order(w2, bound + 1, x2);
        assert(w0 * (bound + 1) == w0 * bound + w0) by (nonlinear_arith);
        assert(w1 * (bound + 1) == w1 * bound + w1) by (nonlinear_arith);
        assert(w2 * (bound + 1) == w2 * bound + w2) by (nonlinear_arith);
    }
    if x0 < bound && x1 < bound && x2 < bound {
        lemma_weight_keeps_order(w0, x0, bound - 1);
        lemma_weight_keeps_order(w1, x1, bound - 1);
        lemma_weight_keeps_order(w2, x2, bound - 1);
        assert(w0 * (bound - 1) == w0 * bound - w0) by (nonlinear_arith);
        assert(w1 * (bound - 1) == w1 * bound - w1) by (nonlinear_arith);
        assert(w2 * (bound - 1) == w2 * bound - w2) by (nonlinear_arith);
    }
}

/// One component of the centred, weighted point, projected on an axis: it is
/// the weighted sum of the projected components of the centred vertices.
proof fn lemma_projection_is_weighted(
    a: int,
    w0: int,
    w1: int,
    w2: int,
    x0: int,
    x1: int,
    x2: int,
    s: int,
)
    ensures
        a * (2 * (w0 * x0 + w1 * x1 + w2 * x2) - (w0 + w1 + w2) * s) == w0 * (a * (2 * x0 - s)) + w1 * (a
            * (2 * x1 - s)) + w2 * (a * (2 * x2 - s)),
{
    let k0 = w0 * (2 * x0 - s);
    let k1 = w1 * (2 * x1 - s);
    let k2 = w2 * (2 * x2 - s);
    assert(k0 == 2 * (w0 * x0) - w0 * s) by (nonlinear_arith)
        requires
            k0 == w0 * (2 * x0 - s),
    ;
    assert(k1 == 2 * (w1 * x1) - w1 * s) by (nonlinear_arith)
        requires
            k1 == w1 * (2 * x1 - s),
    ;
    assert(k2 == 2 * (w2 * x2) - w2 * s) by (nonlinear_arith)
        requires
            k2 == w2 * (2 * x2 - s),
    ;
    assert((w0 + w1 + w2) * s == w0 * s + w1 * s + w2 * s) by (nonlinear_arith);
    let inner = 2 * (w0 * x0 + w1 * x1 + w2 * x2) - (w0 + w1 + w2) * s;
    assert(inner == k0 + k1 + k2);
    assert(a * inner == a * k0 + a * k1 + a * k2) by (nonlinear_arith)
        requires
            inner == k0 + k1 + k2,
    ;
    assert(a * (w0 * (2 * x0 - s)) == w0 * (a * (2 * x0 - s))) by (nonlinear_arith);
    assert(a * (w1 * (2 * x1 - s)) == w1 * (a * (2 * x1 - s))) by (nonlinear_arith);
    assert(a * (w2 * (2 * x2 - s)) == w2 * (a * (2 * x2 - s))) by (nonlinear_arith);
}

/// One component of a point of the box, centred and projected on an axis,
/// stays within the projected extent of the box on that component.
proof fn lemma_component_within(a: int, p: int, s: int, lo: int, hi: int)
    requires
        s > 0,
        s * lo <= p <= s * hi,
    ensures
        -(s * ((hi - lo) * abs(a))) <= a * (2 * p - s * (lo + hi)) <= s * ((hi - lo) * abs(a)),
{
    let q = 2 * p - s * (lo + hi);
    let d = hi - lo;
    assert(s * (lo + hi) == s * lo + s * hi) by (nonlinear_arith);
    assert(s * d == s * hi - s * lo) by (nonlinear_arith)
        requires
            d == hi - lo,
    ;
    lemma_product_bound(a, q, abs(a), s * d);
    assert(abs(a) * (s * d) == s * (d * abs(a))) by (nonlinear_arith);
}

/// The projection on an axis of a point of the triangle that lies in the box
/// stays within the projection of the box, and is the weighted sum of the
/// projections of the vertices: so no axis separates the two.
proof fn lemma_common_point_not_separated_by_axis(
    b: AxisAlignedBoundingBox,
    t0: Vector,
    t1: Vector,
    t2: Vector,
    w0: int,
    w1: int,
    w2: int,
    axis: Vector,
)
    requires
        w0 >= 0,
        w1 >= 0,
        w2 >= 0,
        w0 + w1 + w2 > 0,
        contains_scaled(b, weighted(t0, t1, t2, w0, w1, w2), w0 + w1 + w2),
    ensures
        !b.separated_by_axis(t0, t1, t2, axis),
{
    let s = w0 + w1 + w2;
    let p = weighted(t0, t1, t2, w0, w1, w2);
    let lo = b.min();
    let hi = b.max();
    let r = b.projected_extent(axis);
    let j0 = axis.dot(b.centered(t0));
    let j1 = axis.dot(b.centered(t1));
    let j2 = axis.dot(b.centered(t2));
    // the centred point, projected, component by component
    let qx = axis.x * (2 * p.x - s * (lo.x + hi.x));
    let qy = axis.y * (2 * p.y - s * (lo.y + hi.y));
    let qz = axis.z * (2 * p.z - s * (lo.z + hi.z));
    lemma_component_within(axis.x, p.x, s, lo.x, hi.x);
    lemma_component_within(axis.y, p.y, s, lo.y, hi.y);
    lemma_component_within(axis.z, p.z, s, lo.z, hi.z);
    let rx = (hi.x - lo.x) * abs(axis.x);
    let ry = (hi.y - lo.y) * abs(axis.y);
    let rz = (hi.z - lo.z) * abs(axis.z);
    assert(r == rx + ry + rz);
    assert(s * r == s * rx + s * ry + s * rz) by (nonlinear_arith)
        requires
            r == rx + ry + rz,
    ;
    assert(-(s * r) <= qx + qy + qz <= s * r);
    lemma_projection_is_weighted(axis.x, w0, w1, w2, t0.x, t1.x, t2.x, lo.x + hi.x);
    lemma_projection_is_weighted(axis.y, w0, w1, w2, t0.y, t1.y, t2.y, lo.y + hi.y);
    lemma_projection_is_weighted(axis.z, w0, w1, w2, t0.z, t1.z, t2.z, lo.z + hi.z);
    let c0 = b.centered(t0);
    let c1 = b.centered(t1);
    let c2 = b.centered(t2);
    assert(w0 * j0 == w0 * (axis.x * c0.x) + w0 * (axis.y * c0.y) + w0 * (axis.z * c0.z))
        by (nonlinear_arith)
        requires
            j0 == axis.x * c0.x + axis.y * c0.y + axis.z * c0.z,
    ;
    assert(w1 * j1 == w1 * (axis.x * c1.x) + w1 * (axis.y * c1.y) + w1 * (axis.z * c1.z))
        by (nonlinear_arith)
        requires
            j1 == axis.x * c1.x + axis.y * c1.y + axis.z * c1.z,
    ;
    assert(w2 * j2 == w2 * (axis.x * c2.x) + w2 * (axis.y * c2.y) + w2 * (axis.z * c2.z))
        by (nonlinear_arith)
        requires
            j2 == axis.x * c2.x + axis.y * c2.y + axis.z * c2.z,
    ;
    assert(p.x == w0 * t0.x + w1 * t1.x + w2 * t2.x);
    assert(p.y == w0 * t0.y + w1 * t1.y + w2 * t2.y);
    assert(p.z == w0 * t0.z + w1 * t1.z + w2 * t2.z);
    assert(c0.x == 2 * t0.x - (lo.x + hi.x) && c1.x == 2 * t1.x - (lo.x + hi.x) && c2.x == 2 * t2.x - (
    lo.x + hi.x));
    assert(c0.y == 2 * t0.y - (lo.y + hi.y) && c1.y == 2 * t1.y - (lo.y + hi.y) && c2.y == 2 * t2.y - (
    lo.y + hi.y));
    assert(c0.z == 2 * t0.z - (lo.z + hi.z) && c1.z == 2 * t1.z - (lo.z + hi.z) && c2.z == 2 * t2.z - (
    lo.z + hi.z));
    assert(qx + qy + qz == w0 * j0 + w1 * j1 + w2 * j2);
    lemma_weighted_sum_beyond(w0, w1, w2, j0, j1, j2, r);
    lemma_weighted_sum_beyond(w0, w1, w2, j0, j1, j2, -r);
    assert(s * (-r) == -(s * r)) by (nonlinear_arith);
}

/// The centred vertices of a triangle have the same projection on an axis
/// that is perpendicular to two of its edges.
proof fn lemma_normal_projects_alike(b: AxisAlignedBoundingBox, t0: Vector, t1: Vector, t2: Vector, n: Vector)
    requires
        n.dot(t1.minus(t0)) == 0,
        n.dot(t2.minus(t0)) == 0,
    ensures
        n.dot(b.centered(t1)) == n.dot(b.centered(t0)),
        n.dot(b.centered(t2)) == n.dot(b.centered(t0)),
{
    let c0 = b.centered(t0);
    let c1 = b.centered(t1);
    let c2 = b.centered(t2);
    assert(n.dot(c1) - n.dot(c0) == 2 * n.dot(t1.minus(t0))) by (nonlinear_arith)
        requires
            c1.x - c0.x == 2 * (t1.x - t0.x),
            c1.y - c0.y == 2 * (t1.y - t0.y),
            c1.z - c0.z == 2 * (t1.z - t0.z),
    ;
    assert(n.dot(c2) - n.dot(c0) == 2 * n.dot(t2.minus(t0))) by (nonlinear_arith)
        requires
            c2.x - c0.x == 2 * (t2.x - t0.x),
            c2.y - c0.y == 2 * (t2.y - t0.y),
            c2.z - c0.z == 2 * (t2.z - t0.z),
    ;
}

/// The test is sound: where one of the thirteen axes separates a triangle
/// from a box, the two share no point. The points of the triangle are those
/// with barycentric weights that are not negative; a supplied normal counts
/// only where it is perpendicular to the triangle.
pub proof fn lemma_separated_shares_no_point(
    b: AxisAlignedBoundingBox,
    t0: Vector,
    t1: Vector,
    t2: Vector,
    normal: Option<Vector>,
    w0: int,
    w1: int,
    w2: int,
)
    requires
        w0 >= 0,
        w1 >= 0,
        w2 >= 0,
        w0 + w1 + w2 > 0,
        match normal {
            Some(n) => n.dot(t1.minus(t0)) == 0 && n.dot(t2.minus(t0)) == 0,
            None => true,
        },
        b.separated(t0, t1, t2, normal),
    ensures
        !contains_scaled(b, weighted(t0, t1, t2, w0, w1, w2), w0 + w1 + w2),
{
    let s = w0 + w1 + w2;
    let p = weighted(t0, t1, t2, w0, w1, w2);
    if contains_scaled(b, p, s) {
        lemma_weighted_sum_beyond(w0, w1, w2, t0.x, t1.x, t2.x, b.min().x);
        lemma_weighted_sum_beyond(w0, w1, w2, t0.x, t1.x, t2.x, b.max().x);
        lemma_weighted_sum_beyond(w0, w1, w2, t0.y, t1.y, t2.y, b.min().y);
        lemma_weighted_sum_beyond(w0, w1, w2, t0.y, t1.y, t2.y, b.max().y);
        lemma_weighted_sum_beyond(w0, w1, w2, t0.z, t1.z, t2.z, b.min().z);
        lemma_weighted_sum_beyond(w0, w1, w2, t0.z, t1.z, t2.z, b.max().z);
        assert(!b.separated_by_box_axis(t0, t1, t2, 0));
        assert(!b.separated_by_box_axis(t0, t1, t2, 1));
        assert(!b.separated_by_box_axis(t0, t1, t2, 2));
        let n = match normal {
            Some(n) => n,
            None => triangle_normal(t0, t1, t2),
        };
        if normal.is_none() {
            lemma_cross_is_perpendicular(t1.minus(t0), t2.minus(t0));
        }
        lemma_normal_projects_alike(b, t0, t1, t2, n);
        lemma_common_point_not_separated_by_axis(b, t0, t1, t2, w0, w1, w2, n);
        assert(!b.separated_by_normal(t0, n));
        assert forall|axis: Vector| !b.separated_by_axis(t0, t1, t2, axis) by {
            lemma_common_point_not_separated_by_axis(b, t0, t1, t2, w0, w1, w2, axis);
        }
        assert(false);
    }
}

} // verus!
