//! Rays, and where they meet boxes and triangles.

use vstd::prelude::*;
use crate::geometry::distance::{lemma_ratio_le_transitive, ratio_le, Distance};
use crate::geometry::exact::{ratio_lt, FACTOR_LIMIT};
use crate::geometry::types::{
    lemma_cross_anticommutes, lemma_cross_is_perpendicular, lemma_dot_commutes,
    lemma_dot_of_combination, lemma_triple_cross, lemma_triple_product_rotates,
    lemma_triple_product_swaps, Direction, Position, Vector,
};
use crate::geometry::wide::Wide;

verus! {

/// A ray: the points `position + t * direction` for rational `t >= 0`.
#[derive(Clone, Copy, Debug)]
pub struct Ray {
    pub position: Position,
    pub direction: Direction,
    /// For each axis, which corner of a box the ray meets first: 1 where the
    /// direction is negative (the greatest corner), else 0.
    pub direction_sign: [usize; 3],
}

/// A ray's hit on a triangle, as three numerators over one positive
/// denominator: the hit lies at parameter `distance / determinant` on the
/// ray, and at the barycentric coordinates `barycentric[0] / determinant`
/// and `barycentric[1] / determinant` in the triangle.
#[derive(Clone, Copy, Debug)]
pub struct TriangleHit {
    pub determinant: i128,
    pub distance: i128,
    pub barycentric: [i128; 2],
}

impl TriangleHit {
    /// The determinant is positive, the parameter is not negative, the
    /// barycentric coordinates and their sum lie between zero and one, and
    /// determinant and parameter are small enough to be compared.
    pub open spec fn well_formed(self) -> bool {
        &&& 0 < self.determinant < FACTOR_LIMIT
        &&& 0 <= self.distance < FACTOR_LIMIT
        &&& 0 <= self.barycentric[0]
        &&& 0 <= self.barycentric[1]
        &&& self.barycentric[0] + self.barycentric[1] <= self.determinant
    }

    /// This hit lies nearer to the origin of the ray than the other.
    pub open spec fn spec_nearer(self, other: TriangleHit) -> bool {
        self.distance * other.determinant < other.distance * self.determinant
    }

    /// Whether this hit lies nearer to the origin of the ray than the other.
    pub fn nearer(&self, other: &TriangleHit) -> (r: bool)
        requires
            self.well_formed(),
            other.well_formed(),
        ensures
            r == self.spec_nearer(*other),
    {
        ratio_lt(
            self.distance as u128,
            self.determinant as u128,
            other.distance as u128,
            other.determinant as u128,
        )
    }
}

/// The parameters at which a ray lies between some of a box's pairs of faces.
#[derive(Clone, Copy, Debug)]
pub enum Span {
    /// No parameter.
    Empty,
    /// The parameters from `near` to `far`; a missing end is unbounded.
    Range { near: Option<Distance>, far: Option<Distance> },
}

impl Span {
    /// The ratio `n / m` lies in the span.
    pub open spec fn holds(self, n: int, m: int) -> bool {
        match self {
            Span::Empty => false,
            Span::Range { near, far } => {
                &&& near.is_some() ==> ratio_le(near.unwrap().num as int, near.unwrap().den as int, n, m)
                &&& far.is_some() ==> ratio_le(n, m, far.unwrap().num as int, far.unwrap().den as int)
            },
        }
    }

    /// The ends have positive denominators and are in order.
    pub open spec fn well_formed(self) -> bool {
        match self {
            Span::Empty => true,
            Span::Range { near, far } => {
                &&& near.is_some() ==> near.unwrap().well_formed()
                &&& far.is_some() ==> far.unwrap().well_formed()
                &&& near.is_some() && far.is_some() ==> near.unwrap().spec_le(far.unwrap())
            },
        }
    }
}

impl Ray {
    /// The direction is not zero, and the stored signs are those of its
    /// components.
    pub open spec fn well_formed(self) -> bool {
        &&& !self.direction@.is_zero()
        &&& self.direction_sign[0] == (if self.direction.x < 0 { 1usize } else { 0usize })
        &&& self.direction_sign[1] == (if self.direction.y < 0 { 1usize } else { 0usize })
        &&& self.direction_sign[2] == (if self.direction.z < 0 { 1usize } else { 0usize })
    }

    /// The parameter at which the ray enters the slab of axis `i`, where its
    /// direction has a component on that axis.
    pub open spec fn entry(self, bounds: [Position; 2], i: int) -> Distance {
        let d = self.direction@.coord(i);
        let p = self.position@.coord(i);
        if d > 0 {
            Distance { num: (bounds[0]@.coord(i) - p) as i64, den: d as i64 }
        } else {
            Distance { num: (p - bounds[1]@.coord(i)) as i64, den: (-d) as i64 }
        }
    }

    /// The parameter at which the ray leaves the slab of axis `i`, where its
    /// direction has a component on that axis.
    pub open spec fn exit(self, bounds: [Position; 2], i: int) -> Distance {
        let d = self.direction@.coord(i);
        let p = self.position@.coord(i);
        if d > 0 {
            Distance { num: (bounds[1]@.coord(i) - p) as i64, den: d as i64 }
        } else {
            Distance { num: (p - bounds[0]@.coord(i)) as i64, den: (-d) as i64 }
        }
    }

    /// `span` cut down to the parameters at which the ray lies in the slab of
    /// axis `i`. A later end replaces an earlier one only where it is
    /// strictly tighter.
    pub open spec fn clip(self, bounds: [Position; 2], i: int, span: Span) -> Span {
        match span {
            Span::Empty => Span::Empty,
            Span::Range { near, far } => {
                let p = self.position@.coord(i);
                if self.direction@.coord(i) == 0 {
                    if bounds[0]@.coord(i) <= p <= bounds[1]@.coord(i) {
                        span
                    } else {
                        Span::Empty
                    }
                } else {
                    let a = self.entry(bounds, i);
                    let b = self.exit(bounds, i);
                    if b.spec_lt(a) {
                        Span::Empty
                    } else if far.is_some() && far.unwrap().spec_lt(a) {
                        Span::Empty
                    } else if near.is_some() && b.spec_lt(near.unwrap()) {
                        Span::Empty
                    } else {
                        Span::Range {
                            near: if near.is_some() && a.spec_le(near.unwrap()) {
                                near
                            } else {
                                Some(a)
                            },
                            far: if far.is_some() && far.unwrap().spec_le(b) {
                                far
                            } else {
                                Some(b)
                            },
                        }
                    }
                }
            },
        }
    }

    /// The parameters at which the ray's line lies in the box: the three
    /// slabs intersected.
    pub open spec fn span(self, bounds: [Position; 2]) -> Span {
        self.clip(
            bounds,
            2,
            self.clip(bounds, 1, self.clip(bounds, 0, Span::Range { near: None, far: None })),
        )
    }

    /// Where the ray meets the box: the parameter of entry where that is not
    /// negative, else the parameter of exit where that is not negative.
    pub open spec fn spec_intersect_box(self, bounds: [Position; 2]) -> Option<Distance> {
        match self.span(bounds) {
            Span::Range { near: Some(a), far: Some(b) } => {
                if a.num >= 0 {
                    Some(a)
                } else if b.num < 0 {
                    None
                } else {
                    Some(b)
                }
            },
            _ => None,
        }
    }

    /// The point of the ray's line at parameter `n / m` lies between the two
    /// faces of the box on axis `i`.
    pub open spec fn in_slab(self, bounds: [Position; 2], i: int, n: int, m: int) -> bool {
        let at = m * self.position@.coord(i) + n * self.direction@.coord(i);
        m * bounds[0]@.coord(i) <= at <= m * bounds[1]@.coord(i)
    }

    /// The point of the ray's line at parameter `n / m` lies in the box.
    pub open spec fn reaches(self, bounds: [Position; 2], n: int, m: int) -> bool {
        &&& self.in_slab(bounds, 0, n, m)
        &&& self.in_slab(bounds, 1, n, m)
        &&& self.in_slab(bounds, 2, n, m)
    }

    /// No point of the line in the box comes before parameter `t`.
    pub open spec fn first_in_box(self, bounds: [Position; 2], t: Distance) -> bool {
        forall|n: int, m: int|
            m > 0 && #[trigger] self.reaches(bounds, n, m) ==> ratio_le(t.num as int, t.den as int, n, m)
    }

    /// No point of the line in the box comes after parameter `t`.
    pub open spec fn last_in_box(self, bounds: [Position; 2], t: Distance) -> bool {
        forall|n: int, m: int|
            m > 0 && #[trigger] self.reaches(bounds, n, m) ==> ratio_le(n, m, t.num as int, t.den as int)
    }

    /// Some point of the line behind the origin lies in the box.
    pub open spec fn behind(self, bounds: [Position; 2]) -> bool {
        exists|n: int, m: int| m > 0 && n < 0 && #[trigger] self.reaches(bounds, n, m)
    }

    /// What a hit on the box means: nothing is returned exactly where no
    /// point of the ray lies in the box; a parameter returned is not
    /// negative and its point lies in the box; it is the last such point
    /// where the box reaches behind the origin, and the first where not.
    pub open spec fn is_hit(self, bounds: [Position; 2], hit: Option<Distance>) -> bool {
        match hit {
            None => forall|n: int, m: int| m > 0 && n >= 0 ==> !#[trigger] self.reaches(bounds, n, m),
            Some(t) => {
                &&& t.den > 0
                &&& t.num >= 0
                &&& self.reaches(bounds, t.num as int, t.den as int)
                &&& if self.behind(bounds) {
                    self.last_in_box(bounds, t)
                } else {
                    self.first_in_box(bounds, t)
                }
            },
        }
    }

    /// The triple product of the triangle's two edges from `t0` and the
    /// direction: positive where the ray faces the front of the triangle.
    pub open spec fn determinant(self, t0: Vector, t1: Vector, t2: Vector) -> int {
        t1.minus(t0).dot(self.direction@.cross(t2.minus(t0)))
    }

    /// The first barycentric coordinate of the hit, times the determinant.
    pub open spec fn weight_u(self, t0: Vector, t1: Vector, t2: Vector) -> int {
        self.position@.minus(t0).dot(self.direction@.cross(t2.minus(t0)))
    }

    /// The second barycentric coordinate of the hit, times the determinant.
    pub open spec fn weight_v(self, t0: Vector, t1: Vector, t2: Vector) -> int {
        self.direction@.dot(self.position@.minus(t0).cross(t1.minus(t0)))
    }

    /// The parameter of the hit on the ray, times the determinant.
    pub open spec fn reach(self, t0: Vector, t1: Vector, t2: Vector) -> int {
        t2.minus(t0).dot(self.position@.minus(t0).cross(t1.minus(t0)))
    }

    /// The ray meets the front of the triangle: the determinant is positive,
    /// both barycentric coordinates and their sum lie in `[0, 1]`, and the
    /// parameter is not negative.
    pub open spec fn hits_triangle(self, t0: Vector, t1: Vector, t2: Vector) -> bool {
        let det = self.determinant(t0, t1, t2);
        let u = self.weight_u(t0, t1, t2);
        let v = self.weight_v(t0, t1, t2);
        &&& det > 0
        &&& 0 <= u <= det
        &&& 0 <= v
        &&& u + v <= det
        &&& self.reach(t0, t1, t2) >= 0
    }

    /// The ray from `position` along `direction`.
    pub fn new(position: Position, direction: Direction) -> (ray: Ray)
        requires
            !direction@.is_zero(),
        ensures
            ray.position == position,
            ray.direction == direction,
            ray.well_formed(),
    {
        Ray {
            position,
            direction,
            direction_sign: [
                if direction.x < 0 { 1 } else { 0 },
                if direction.y < 0 { 1 } else { 0 },
                if direction.z < 0 { 1 } else { 0 },
            ],
        }
    }

    /// The parameters of entry into and exit from the slab of axis `i`.
    fn min_max_intersection(&self, bounds: &[Position; 2], i: usize) -> (r: (Distance, Distance))
        requires
            self.well_formed(),
            i < 3,
            self.direction@.coord(i as int) != 0,
        ensures
            r.0 == self.entry(*bounds, i as int),
            r.1 == self.exit(*bounds, i as int),
            r.0.well_formed(),
            r.1.well_formed(),
    {
        let d: i64 = self.direction.get(i) as i64;
        let p: i64 = self.position.get(i) as i64;
        let sign: usize = self.direction_sign[i];
        let near: i64 = bounds[sign].get(i) as i64;
        let far: i64 = bounds[1 - sign].get(i) as i64;
        if d > 0 {
            (Distance { num: near - p, den: d }, Distance { num: far - p, den: d })
        } else {
            (Distance { num: p - near, den: -d }, Distance { num: p - far, den: -d })
        }
    }

    /// `span` cut down to the slab of axis `i`.
    fn clip_to_slab(&self, bounds: &[Position; 2], i: usize, span: Span) -> (r: Span)
        requires
            self.well_formed(),
            i < 3,
        ensures
            r == self.clip(*bounds, i as int, span),
    {
        match span {
            Span::Empty => Span::Empty,
            Span::Range { near, far } => {
                if self.direction.get(i) == 0 {
                    let p: i32 = self.position.get(i);
                    if bounds[0].get(i) <= p && p <= bounds[1].get(i) {
                        span
                    } else {
                        Span::Empty
                    }
                } else {
                    let (a, b) = self.min_max_intersection(bounds, i);
                    if b.lt(&a) {
                        return Span::Empty;
                    }
                    let near_kept: bool = match near {
                        Some(t) => {
                            if b.lt(&t) {
                                return Span::Empty;
                            }
                            a.le(&t)
                        },
                        None => false,
                    };
                    let far_kept: bool = match far {
                        Some(t) => {
                            if t.lt(&a) {
                                return Span::Empty;
                            }
                            t.le(&b)
                        },
                        None => false,
                    };
                    Span::Range {
                        near: if near_kept { near } else { Some(a) },
                        far: if far_kept { far } else { Some(b) },
                    }
                }
            },
        }
    }

    /// Where the ray meets the box, by the slab method: the three per-axis
    /// intervals are intersected, and the search fails as soon as the
    /// running interval is empty. The result is the parameter of entry if
    /// that is not negative (the origin is outside the box, or on its
    /// face), else the parameter of exit if that is not negative (the
    /// origin is inside); nothing where the box lies behind the ray.
    pub fn intersect_box(&self, bounds: &[Position; 2]) -> (hit: Option<Distance>)
        requires
            self.well_formed(),
        ensures
            hit == self.spec_intersect_box(*bounds),
            self.is_hit(*bounds, hit),
    {
        proof {
            self.lemma_intersect_box_meaning(*bounds);
        }
        let s0 = self.clip_to_slab(bounds, 0, Span::Range { near: None, far: None });
        if let Span::Empty = s0 {
            return None;
        }
        let s1 = self.clip_to_slab(bounds, 1, s0);
        if let Span::Empty = s1 {
            return None;
        }
        let s2 = self.clip_to_slab(bounds, 2, s1);
        match s2 {
            Span::Range { near: Some(a), far: Some(b) } => {
                if a.num >= 0 {
                    Some(a)
                } else if b.num < 0 {
                    None
                } else {
                    Some(b)
                }
            },
            _ => None,
        }
    }

    /// A parameter lies in a slab exactly where it lies between the slab's
    /// entry and exit.
    pub proof fn lemma_slab(self, bounds: [Position; 2], i: int, n: int, m: int)
        requires
            0 <= i < 3,
            m > 0,
            self.direction@.coord(i) != 0,
        ensures
            self.entry(bounds, i).well_formed(),
            self.exit(bounds, i).well_formed(),
            self.in_slab(bounds, i, n, m) <==> {
                &&& ratio_le(self.entry(bounds, i).num as int, self.entry(bounds, i).den as int, n, m)
                &&& ratio_le(n, m, self.exit(bounds, i).num as int, self.exit(bounds, i).den as int)
            },
    {
        let d = self.direction@.coord(i);
        let p = self.position@.coord(i);
        let lo = bounds[0]@.coord(i);
        let hi = bounds[1]@.coord(i);
        if d > 0 {
            assert(((lo - p) * m <= n * d) <==> (m * lo <= m * p + n * d)) by (nonlinear_arith);
            assert((n * d <= (hi - p) * m) <==> (m * p + n * d <= m * hi)) by (nonlinear_arith);
        } else {
            assert(((p - hi) * m <= n * (-d)) <==> (m * p + n * d <= m * hi)) by (nonlinear_arith);
            assert((n * (-d) <= (p - lo) * m) <==> (m * lo <= m * p + n * d)) by (nonlinear_arith);
        }
    }

    /// Cutting a span down to a slab keeps exactly the parameters of the
    /// span that lie in the slab.
    pub proof fn lemma_clip(self, bounds: [Position; 2], i: int, span: Span, n: int, m: int)
        requires
            0 <= i < 3,
            m > 0,
            span.well_formed(),
        ensures
            self.clip(bounds, i, span).well_formed(),
            self.clip(bounds, i, span).holds(n, m) <==> span.holds(n, m) && self.in_slab(bounds, i, n, m),
    {
        match span {
            Span::Empty => {},
            Span::Range { near, far } => {
                let d = self.direction@.coord(i);
                let p = self.position@.coord(i);
                if d == 0 {
                    assert(n * d == 0);
                    let lo = bounds[0]@.coord(i);
                    let hi = bounds[1]@.coord(i);
                    assert((m * lo <= m * p) <==> (lo <= p)) by (nonlinear_arith)
                        requires
                            m > 0,
                    ;
                    assert((m * p <= m * hi) <==> (p <= hi)) by (nonlinear_arith)
                        requires
                            m > 0,
                    ;
                } else {
                    self.lemma_slab(bounds, i, n, m);
                    let a = self.entry(bounds, i);
                    let b = self.exit(bounds, i);
                    let (an, ad, bn, bd) = (a.num as int, a.den as int, b.num as int, b.den as int);
                    if ratio_le(an, ad, n, m) && ratio_le(n, m, bn, bd) {
                        lemma_ratio_le_transitive(an, ad, n, m, bn, bd);
                    }
                    if near.is_some() {
                        let t = near.unwrap();
                        let (tn, td) = (t.num as int, t.den as int);
                        if ratio_le(tn, td, n, m) && ratio_le(n, m, bn, bd) {
                            lemma_ratio_le_transitive(tn, td, n, m, bn, bd);
                        }
                        if ratio_le(an, ad, tn, td) && ratio_le(tn, td, n, m) {
                            lemma_ratio_le_transitive(an, ad, tn, td, n, m);
                        }
                        if ratio_le(tn, td, an, ad) && ratio_le(an, ad, n, m) {
                            lemma_ratio_le_transitive(tn, td, an, ad, n, m);
                        }
                        if far.is_some() {
                            let f = far.unwrap();
                            let (f_n, f_d) = (f.num as int, f.den as int);
                            if ratio_le(tn, td, f_n, f_d) && ratio_le(f_n, f_d, bn, bd) {
                                lemma_ratio_le_transitive(tn, td, f_n, f_d, bn, bd);
                            }
                            if ratio_le(an, ad, tn, td) && ratio_le(tn, td, f_n, f_d) {
                                lemma_ratio_le_transitive(an, ad, tn, td, f_n, f_d);
                            }
                        }
                    }
                    if far.is_some() {
                        let f = far.unwrap();
                        let (f_n, f_d) = (f.num as int, f.den as int);
                        if ratio_le(an, ad, n, m) && ratio_le(n, m, f_n, f_d) {
                            lemma_ratio_le_transitive(an, ad, n, m, f_n, f_d);
                        }
                        if ratio_le(n, m, f_n, f_d) && ratio_le(f_n, f_d, bn, bd) {
                            lemma_ratio_le_transitive(n, m, f_n, f_d, bn, bd);
                        }
                        if ratio_le(n, m, bn, bd) && ratio_le(bn, bd, f_n, f_d) {
                            lemma_ratio_le_transitive(n, m, bn, bd, f_n, f_d);
                        }
                    }
                }
            },
        }
    }

    /// The span of a box holds exactly the parameters whose points lie in
    /// the box, and both its ends are known.
    pub proof fn lemma_span(self, bounds: [Position; 2], n: int, m: int)
        requires
            !self.direction@.is_zero(),
            m > 0,
        ensures
            self.span(bounds).well_formed(),
            self.span(bounds).holds(n, m) <==> self.reaches(bounds, n, m),
            match self.span(bounds) {
                Span::Empty => true,
                Span::Range { near, far } => near.is_some() && far.is_some(),
            },
    {
        let s = Span::Range { near: None, far: None };
        let s0 = self.clip(bounds, 0, s);
        let s1 = self.clip(bounds, 1, s0);
        self.lemma_clip(bounds, 0, s, n, m);
        self.lemma_clip(bounds, 1, s0, n, m);
        self.lemma_clip(bounds, 2, s1, n, m);
    }

    /// The result of the slab method is the hit that [`Self::is_hit`]
    /// describes.
    pub proof fn lemma_intersect_box_meaning(self, bounds: [Position; 2])
        requires
            !self.direction@.is_zero(),
        ensures
            self.is_hit(bounds, self.spec_intersect_box(bounds)),
    {
        let span = self.span(bounds);
        self.lemma_span(bounds, 0, 1);
        assert forall|n: int, m: int| m > 0 implies (span.holds(n, m) <==> #[trigger] self.reaches(
            bounds,
            n,
            m,
        )) by {
            self.lemma_span(bounds, n, m);
        }
        match span {
            Span::Empty => {},
            Span::Range { near, far } => {
                let a = near.unwrap();
                let b = far.unwrap();
                let (an, ad, bn, bd) = (a.num as int, a.den as int, b.num as int, b.den as int);
                assert(span.holds(an, ad));
                assert(span.holds(bn, bd));
                if an >= 0 {
                    assert forall|n: int, m: int| m > 0 && n < 0 implies !#[trigger] self.reaches(
                        bounds,
                        n,
                        m,
                    ) by {
                        if self.reaches(bounds, n, m) {
                            assert(an * m <= n * ad);
                            assert(false) by (nonlinear_arith)
                                requires
                                    an >= 0,
                                    m > 0,
                                    n < 0,
                                    ad > 0,
                                    an * m <= n * ad,
                            ;
                        }
                    }
                } else if bn < 0 {
                    assert forall|n: int, m: int| m > 0 && n >= 0 implies !#[trigger] self.reaches(
                        bounds,
                        n,
                        m,
                    ) by {
                        if self.reaches(bounds, n, m) {
                            assert(n * bd <= bn * m);
                            assert(false) by (nonlinear_arith)
                                requires
                                    bn < 0,
                                    m > 0,
                                    n >= 0,
                                    bd > 0,
                                    n * bd <= bn * m,
                            ;
                        }
                    }
                } else {
                    assert(self.reaches(bounds, an, ad));
                }
            },
        }
    }

    /// Where the ray meets the triangle, by the method of Moller and
    /// Trumbore. The test is single-sided: a triangle seen from behind, or
    /// edge-on, is not hit.
    pub fn intersect_triangle(&self, t0: &Position, t1: &Position, t2: &Position) -> (hit: Option<
        TriangleHit,
    >)
        ensures
            hit.is_some() <==> self.hits_triangle(t0@, t1@, t2@),
            hit.is_some() ==> {
                let h = hit.unwrap();
                &&& h.well_formed()
                &&& h.determinant == self.determinant(t0@, t1@, t2@)
                &&& h.distance == self.reach(t0@, t1@, t2@)
                &&& h.barycentric[0] == self.weight_u(t0@, t1@, t2@)
                &&& h.barycentric[1] == self.weight_v(t0@, t1@, t2@)
            },
    {
        let ghost edge: int = 0xffff_ffff;
        let ghost aim: int = 0x8000_0000;
        let u: Wide = Wide::between(t1, t0);
        let v: Wide = Wide::between(t2, t0);
        let d: Wide = Wide::from_direction(&self.direction);

        let p: Wide = d.cross(&v, Ghost(aim), Ghost(edge));
        let determinant: i128 = u.dot(&p, Ghost(edge), Ghost(2 * (aim * edge)));
        if determinant <= 0 {
            return None;
        }
        let w: Wide = Wide::between(&self.position, t0);
        let dist_u: i128 = w.dot(&p, Ghost(edge), Ghost(2 * (aim * edge)));
        if dist_u < 0 || dist_u > determinant {
            return None;
        }
        let q: Wide = w.cross(&u, Ghost(edge), Ghost(edge));
        let dist_v: i128 = d.dot(&q, Ghost(aim), Ghost(2 * (edge * edge)));
        if dist_v < 0 || dist_u + dist_v > determinant {
            return None;
        }
        let dist_w: i128 = v.dot(&q, Ghost(edge), Ghost(2 * (edge * edge)));
        if dist_w < 0 {
            return None;
        }
        Some(TriangleHit { determinant, distance: dist_w, barycentric: [dist_u, dist_v] })
    }
}

/// The point that the method of Moller and Trumbore finds lies on the ray and
/// in the plane of the triangle: with every term scaled by the determinant,
/// the origin moved along the direction by the parameter is the vertex `t0`
/// moved along the two edges by the barycentric coordinates.
pub proof fn lemma_hit_point(ray: Ray, t0: Vector, t1: Vector, t2: Vector)
    ensures
        ray.position@.minus(t0).scale(ray.determinant(t0, t1, t2)).plus(
            ray.direction@.scale(ray.reach(t0, t1, t2)),
        ) == t1.minus(t0).scale(ray.weight_u(t0, t1, t2)).plus(
            t2.minus(t0).scale(ray.weight_v(t0, t1, t2)),
        ),
{
    let w = ray.position@.minus(t0);
    let d = ray.direction@;
    let u = t1.minus(t0);
    let v = t2.minus(t0);
    let p = d.cross(v);
    let q = w.cross(u);
    lemma_triple_cross(p, w, u);
    lemma_triple_cross(q, d, v);
    lemma_cross_anticommutes(p, q);
    lemma_dot_commutes(p, u);
    lemma_dot_commutes(p, w);
    lemma_dot_commutes(q, v);
    lemma_dot_commutes(q, d);
}

/// The hit is the only one: a point of the ray's line, at whatever parameter
/// `n / m`, that is a point of the triangle's plane, at whatever barycentric
/// coordinates `a / m` and `b / m`, has the parameter and the coordinates
/// that the method computes.
pub proof fn lemma_hit_is_unique(ray: Ray, t0: Vector, t1: Vector, t2: Vector, m: int, n: int, a: int, b: int)
    requires
        ray.position@.minus(t0).scale(m).plus(ray.direction@.scale(n)) == t1.minus(t0).scale(a).plus(
            t2.minus(t0).scale(b),
        ),
    ensures
        m * ray.weight_u(t0, t1, t2) == a * ray.determinant(t0, t1, t2),
        m * ray.weight_v(t0, t1, t2) == b * ray.determinant(t0, t1, t2),
        m * ray.reach(t0, t1, t2) == n * ray.determinant(t0, t1, t2),
{
    let w = ray.position@.minus(t0);
    let d = ray.direction@;
    let u = t1.minus(t0);
    let v = t2.minus(t0);
    let left = w.scale(m).plus(d.scale(n));
    let right = u.scale(a).plus(v.scale(b));
    // against d x v: the direction and the second edge drop out
    let p = d.cross(v);
    lemma_dot_of_combination(p, w, m, d, n);
    lemma_dot_of_combination(p, u, a, v, b);
    lemma_cross_is_perpendicular(d, v);
    lemma_dot_commutes(p, w);
    lemma_dot_commutes(p, u);
    assert(p.dot(left) == p.dot(right));
    // against u x d: the direction and the first edge drop out
    let r = u.cross(d);
    lemma_dot_of_combination(r, w, m, d, n);
    lemma_dot_of_combination(r, u, a, v, b);
    lemma_cross_is_perpendicular(u, d);
    lemma_dot_commutes(r, w);
    lemma_dot_commutes(r, v);
    lemma_triple_product_rotates(w, u, d);
    lemma_triple_product_rotates(u, d, w);
    lemma_triple_product_rotates(v, u, d);
    assert(r.dot(left) == r.dot(right));
    // against u x v: both edges drop out
    let k = u.cross(v);
    lemma_dot_of_combination(k, w, m, d, n);
    lemma_dot_of_combination(k, u, a, v, b);
    lemma_cross_is_perpendicular(u, v);
    lemma_dot_commutes(k, w);
    lemma_dot_commutes(k, d);
    lemma_triple_product_rotates(w, u, v);
    lemma_triple_product_rotates(u, v, w);
    lemma_triple_product_rotates(d, u, v);
    lemma_triple_product_swaps(u, d, v);
    assert(k.dot(left) == k.dot(right));
    assert(k.dot(d) == -ray.determinant(t0, t1, t2));
    assert(n * (-ray.determinant(t0, t1, t2)) == -(n * ray.determinant(t0, t1, t2))) by (nonlinear_arith);
}

} // verus!
