//! What holds of every tree that the median split builds.

use vstd::prelude::*;
use vstd::seq_lib::lemma_multiset_commutative;
use crate::geometry::bounding_box::{lemma_contained_triangle_intersects, AxisAlignedBoundingBox};
use crate::geometry::kdtree::{all_indices, at_or_above, below, halves, meets, KdTree, LEAF_THRESHOLD};
use crate::geometry::median::{coords, median};
use crate::geometry::types::{Position, Triangle};

verus! {

impl KdTree {
    /// The shape that every tree has: a leaf holds both index lists and no
    /// child; an inner node holds neither list and two well-formed
    /// children, whose boxes are the halves of its own on one axis.
    pub open spec fn well_formed(self) -> bool
        decreases self,
    {
        if self.vertices_index.is_some() {
            &&& self.triangle_index.is_some()
            &&& self.left.is_none()
            &&& self.right.is_none()
        } else {
            &&& self.triangle_index.is_none()
            &&& match (self.left, self.right) {
                (Some(l), Some(r)) => {
                    &&& l.well_formed()
                    &&& r.well_formed()
                    &&& exists|axis: int|
                        0 <= axis < 3 && #[trigger] halves(
                            self.bounding_box,
                            l.bounding_box,
                            r.bounding_box,
                            axis,
                            l.bounding_box.max().coord(axis),
                        )
                },
                _ => false,
            }
        }
    }

    /// The number of nodes.
    pub open spec fn size(self) -> nat
        decreases self,
    {
        match (self.left, self.right) {
            (Some(l), Some(r)) => 1 + l.size() + r.size(),
            (Some(l), None) => 1 + l.size(),
            (None, Some(r)) => 1 + r.size(),
            (None, None) => 1,
        }
    }

    /// The vertex indices of the leaves, from left to right.
    pub open spec fn leaf_vertices(self) -> Seq<usize>
        decreases self,
    {
        match self.vertices_index {
            Some(ids) => ids@,
            None => match (self.left, self.right) {
                (Some(l), Some(r)) => l.leaf_vertices() + r.leaf_vertices(),
                _ => Seq::empty(),
            },
        }
    }

    /// Every triangle that a leaf holds is the index of one of `count`
    /// triangles.
    pub open spec fn triangles_below(self, count: int) -> bool
        decreases self,
    {
        &&& match self.triangle_index {
            Some(ids) => forall|k: int| 0 <= k < ids@.len() ==> (#[trigger] ids@[k]) < count,
            None => true,
        }
        &&& match self.left {
            Some(l) => l.triangles_below(count),
            None => true,
        }
        &&& match self.right {
            Some(r) => r.triangles_below(count),
            None => true,
        }
    }

    /// Every leaf whose box holds the three corners of triangle `i` holds
    /// that triangle.
    pub open spec fn holds_enclosed(self, vertices: Seq<Position>, triangles: Seq<Triangle>, i: usize) -> bool
        decreases self,
    {
        match self.triangle_index {
            Some(ids) => corners_within(vertices, triangles, self.bounding_box, i) ==> ids@.contains(i),
            None => match (self.left, self.right) {
                (Some(l), Some(r)) => l.holds_enclosed(vertices, triangles, i) && r.holds_enclosed(
                    vertices,
                    triangles,
                    i,
                ),
                _ => true,
            },
        }
    }

    /// Every vertex that a leaf holds lies in the box of that leaf.
    pub open spec fn vertices_placed(self, vertices: Seq<Position>) -> bool
        decreases self,
    {
        match self.vertices_index {
            Some(ids) => forall|k: int|
                0 <= k < ids@.len() ==> (#[trigger] ids@[k]) < vertices.len() && self.bounding_box.contains(
                    vertices[ids@[k] as int]@,
                ),
            None => match (self.left, self.right) {
                (Some(l), Some(r)) => l.vertices_placed(vertices) && r.vertices_placed(vertices),
                _ => true,
            },
        }
    }

    /// Every triangle that a leaf holds is one of `tids` and meets the box of
    /// that leaf, unless the leaf is the root.
    pub open spec fn triangles_placed(
        self,
        vertices: Seq<Position>,
        triangles: Seq<Triangle>,
        tids: Seq<usize>,
        root: bool,
    ) -> bool
        decreases self,
    {
        match self.triangle_index {
            Some(ids) => forall|k: int|
                0 <= k < ids@.len() ==> tids.contains(#[trigger] ids@[k]) && (root || meets(
                    vertices,
                    triangles,
                    self.bounding_box,
                )(ids@[k])),
            None => match (self.left, self.right) {
                (Some(l), Some(r)) => l.triangles_placed(vertices, triangles, tids, false)
                    && r.triangles_placed(vertices, triangles, tids, false),
                _ => true,
            },
        }
    }
}

/// The three corners of triangle `i` lie in the box.
pub open spec fn corners_within(
    vertices: Seq<Position>,
    triangles: Seq<Triangle>,
    b: AxisAlignedBoundingBox,
    i: usize,
) -> bool {
    let t = triangles[i as int];
    &&& b.contains(vertices[t[0] as int]@)
    &&& b.contains(vertices[t[1] as int]@)
    &&& b.contains(vertices[t[2] as int]@)
}

/// The two halves of a well-formed box lie in it, are well-formed, and share
/// nothing but the plane that parts them.
pub proof fn lemma_halves(
    parent: AxisAlignedBoundingBox,
    left: AxisAlignedBoundingBox,
    right: AxisAlignedBoundingBox,
    axis: int,
    at: int,
)
    requires
        0 <= axis < 3,
        parent.well_formed(),
        halves(parent, left, right, axis, at),
    ensures
        left.well_formed(),
        right.well_formed(),
        parent.encloses(left),
        parent.encloses(right),
        left.max().coord(axis) == at,
        right.min().coord(axis) == at,
        forall|p: crate::geometry::types::Vector|
            parent.contains(p) <==> left.contains(p) || right.contains(p),
        forall|p: crate::geometry::types::Vector|
            left.contains(p) && right.contains(p) ==> p.coord(axis) == at,
{
}

/// Splitting a list in two by a test loses and repeats nothing.
pub proof fn lemma_partition(s: Seq<usize>, yes: spec_fn(usize) -> bool, no: spec_fn(usize) -> bool)
    requires
        forall|x: usize| #[trigger] no(x) == !yes(x),
    ensures
        s.filter(yes).to_multiset().add(s.filter(no).to_multiset()) == s.to_multiset(),
    decreases s.len(),
{
    broadcast use vstd::multiset::group_multiset_axioms;
    broadcast use vstd::seq_lib::group_to_multiset_ensures;

    reveal(Seq::filter);
    if s.len() == 0 {
        assert(s.filter(yes) =~= s);
        assert(s.filter(no) =~= s);
        assert(s.to_multiset().add(s.to_multiset()) =~= s.to_multiset());
    } else {
        let rest = s.drop_last();
        let x = s.last();
        lemma_partition(rest, yes, no);
        assert(s =~= rest.push(x));
        assert(s.to_multiset() =~= rest.to_multiset().insert(x));
        if yes(x) {
            assert(s.filter(yes) == rest.filter(yes).push(x));
            assert(s.filter(no) == rest.filter(no));
            assert(rest.filter(yes).push(x).to_multiset().add(rest.filter(no).to_multiset())
                =~= rest.filter(yes).to_multiset().add(rest.filter(no).to_multiset()).insert(x));
        } else {
            assert(s.filter(yes) == rest.filter(yes));
            assert(s.filter(no) == rest.filter(no).push(x));
            assert(rest.filter(yes).to_multiset().add(rest.filter(no).push(x).to_multiset())
                =~= rest.filter(yes).to_multiset().add(rest.filter(no).to_multiset()).insert(x));
        }
    }
}

/// A built tree is well-formed.
pub proof fn lemma_built_is_well_formed(
    tree: KdTree,
    vertices: Seq<Position>,
    triangles: Seq<Triangle>,
    vids: Seq<usize>,
    tids: Seq<usize>,
)
    requires
        tree.is_built(vertices, triangles, vids, tids),
    ensures
        tree.well_formed(),
    decreases tree,
{
    let axis = tree.bounding_box.spec_largest_dim();
    let m = median(coords(vertices, vids, axis)) as int;
    let lower = vids.filter(below(vertices, axis, m));
    let upper = vids.filter(at_or_above(vertices, axis, m));
    if vids.len() < LEAF_THRESHOLD || lower.len() == 0 {
    } else {
        match (tree.left, tree.right) {
            (Some(l), Some(r)) => {
                lemma_built_is_well_formed(
                    *l,
                    vertices,
                    triangles,
                    lower,
                    tids.filter(meets(vertices, triangles, l.bounding_box)),
                );
                lemma_built_is_well_formed(
                    *r,
                    vertices,
                    triangles,
                    upper,
                    tids.filter(meets(vertices, triangles, r.bounding_box)),
                );
                assert(halves(
                    tree.bounding_box,
                    l.bounding_box,
                    r.bounding_box,
                    axis,
                    l.bounding_box.max().coord(axis),
                ));
            },
            _ => {},
        }
    }
}

/// The leaves of a built tree hold the vertices it was built over, each as
/// often as it was given: none is lost and none is repeated.
pub proof fn lemma_built_partitions_vertices(
    tree: KdTree,
    vertices: Seq<Position>,
    triangles: Seq<Triangle>,
    vids: Seq<usize>,
    tids: Seq<usize>,
)
    requires
        tree.is_built(vertices, triangles, vids, tids),
    ensures
        tree.leaf_vertices().to_multiset() == vids.to_multiset(),
    decreases tree,
{
    let axis = tree.bounding_box.spec_largest_dim();
    let m = median(coords(vertices, vids, axis)) as int;
    let lower = vids.filter(below(vertices, axis, m));
    let upper = vids.filter(at_or_above(vertices, axis, m));
    if vids.len() < LEAF_THRESHOLD || lower.len() == 0 {
    } else {
        match (tree.left, tree.right) {
            (Some(l), Some(r)) => {
                lemma_built_partitions_vertices(
                    *l,
                    vertices,
                    triangles,
                    lower,
                    tids.filter(meets(vertices, triangles, l.bounding_box)),
                );
                lemma_built_partitions_vertices(
                    *r,
                    vertices,
                    triangles,
                    upper,
                    tids.filter(meets(vertices, triangles, r.bounding_box)),
                );
                lemma_multiset_commutative(l.leaf_vertices(), r.leaf_vertices());
                lemma_partition(vids, below(vertices, axis, m), at_or_above(vertices, axis, m));
            },
            _ => {},
        }
    }
}

/// A tree built over the indices `0, ..., n - 1` holds each of them in
/// exactly one leaf, once, and holds nothing else.
pub proof fn lemma_every_vertex_once(
    tree: KdTree,
    vertices: Seq<Position>,
    triangles: Seq<Triangle>,
    tids: Seq<usize>,
    n: nat,
)
    requires
        tree.is_built(vertices, triangles, all_indices(n), tids),
        n <= usize::MAX,
    ensures
        tree.leaf_vertices().len() == n,
        forall|i: usize| tree.leaf_vertices().to_multiset().count(i) == (if i < n { 1nat } else { 0nat }),
        tree.leaf_vertices().no_duplicates(),
{
    broadcast use vstd::multiset::group_multiset_axioms;
    broadcast use vstd::seq_lib::group_to_multiset_ensures;

    lemma_built_partitions_vertices(tree, vertices, triangles, all_indices(n), tids);
    let all = all_indices(n);
    assert(all.no_duplicates());
    all.lemma_multiset_has_no_duplicates();
    assert forall|i: usize| all.to_multiset().count(i) == (if i < n { 1nat } else { 0nat }) by {
        if i < n {
            assert(all[i as int] == i);
            assert(all.contains(i));
        } else {
            assert(!all.contains(i));
        }
    }
    tree.leaf_vertices().lemma_multiset_has_no_duplicates_conv();
    assert(tree.leaf_vertices().to_multiset().len() == tree.leaf_vertices().len());
    assert(all.to_multiset().len() == all.len());
}

/// Every vertex of a built tree lies in the box of the leaf that holds it.
pub proof fn lemma_built_places_vertices(
    tree: KdTree,
    vertices: Seq<Position>,
    triangles: Seq<Triangle>,
    vids: Seq<usize>,
    tids: Seq<usize>,
)
    requires
        tree.is_built(vertices, triangles, vids, tids),
        forall|k: int|
            0 <= k < vids.len() ==> (#[trigger] vids[k]) < vertices.len() && tree.bounding_box.contains(
                vertices[vids[k] as int]@,
            ),
    ensures
        tree.vertices_placed(vertices),
    decreases tree,
{
    let axis = tree.bounding_box.spec_largest_dim();
    let m = median(coords(vertices, vids, axis)) as int;
    let lower = vids.filter(below(vertices, axis, m));
    let upper = vids.filter(at_or_above(vertices, axis, m));
    if vids.len() < LEAF_THRESHOLD || lower.len() == 0 {
    } else {
        match (tree.left, tree.right) {
            (Some(l), Some(r)) => {
                assert forall|k: int| 0 <= k < lower.len() implies (#[trigger] lower[k]) < vertices.len()
                    && l.bounding_box.contains(vertices[lower[k] as int]@) by {
                    vids.lemma_filter_contains_rev(below(vertices, axis, m), lower[k]);
                    vids.lemma_filter_pred(below(vertices, axis, m), k);
                    let j = choose|j: int| 0 <= j < vids.len() && vids[j] == lower[k];
                    assert(tree.bounding_box.contains(vertices[vids[j] as int]@));
                }
                assert forall|k: int| 0 <= k < upper.len() implies (#[trigger] upper[k]) < vertices.len()
                    && r.bounding_box.contains(vertices[upper[k] as int]@) by {
                    vids.lemma_filter_contains_rev(at_or_above(vertices, axis, m), upper[k]);
                    vids.lemma_filter_pred(at_or_above(vertices, axis, m), k);
                    let j = choose|j: int| 0 <= j < vids.len() && vids[j] == upper[k];
                    assert(tree.bounding_box.contains(vertices[vids[j] as int]@));
                }
                lemma_built_places_vertices(
                    *l,
                    vertices,
                    triangles,
                    lower,
                    tids.filter(meets(vertices, triangles, l.bounding_box)),
                );
                lemma_built_places_vertices(
                    *r,
                    vertices,
                    triangles,
                    upper,
                    tids.filter(meets(vertices, triangles, r.bounding_box)),
                );
            },
            _ => {},
        }
    }
}

/// Every triangle that a leaf of a built tree holds is one of the triangles
/// the tree was built over, and meets the box of that leaf.
pub proof fn lemma_built_places_triangles(
    tree: KdTree,
    vertices: Seq<Position>,
    triangles: Seq<Triangle>,
    vids: Seq<usize>,
    tids: Seq<usize>,
    all: Seq<usize>,
    root: bool,
)
    requires
        tree.is_built(vertices, triangles, vids, tids),
        forall|k: int| 0 <= k < tids.len() ==> all.contains(#[trigger] tids[k]),
        !root ==> forall|k: int|
            0 <= k < tids.len() ==> meets(vertices, triangles, tree.bounding_box)(#[trigger] tids[k]),
    ensures
        tree.triangles_placed(vertices, triangles, all, root),
    decreases tree,
{
    let axis = tree.bounding_box.spec_largest_dim();
    let m = median(coords(vertices, vids, axis)) as int;
    let lower = vids.filter(below(vertices, axis, m));
    let upper = vids.filter(at_or_above(vertices, axis, m));
    if vids.len() < LEAF_THRESHOLD || lower.len() == 0 {
    } else {
        match (tree.left, tree.right) {
            (Some(l), Some(r)) => {
                let lt = tids.filter(meets(vertices, triangles, l.bounding_box));
                let rt = tids.filter(meets(vertices, triangles, r.bounding_box));
                assert forall|k: int| 0 <= k < lt.len() implies all.contains(#[trigger] lt[k]) && meets(
                    vertices,
                    triangles,
                    l.bounding_box,
                )(lt[k]) by {
                    tids.lemma_filter_contains_rev(meets(vertices, triangles, l.bounding_box), lt[k]);
                    tids.lemma_filter_pred(meets(vertices, triangles, l.bounding_box), k);
                }
                assert forall|k: int| 0 <= k < rt.len() implies all.contains(#[trigger] rt[k]) && meets(
                    vertices,
                    triangles,
                    r.bounding_box,
                )(rt[k]) by {
                    tids.lemma_filter_contains_rev(meets(vertices, triangles, r.bounding_box), rt[k]);
                    tids.lemma_filter_pred(meets(vertices, triangles, r.bounding_box), k);
                }
                lemma_built_places_triangles(*l, vertices, triangles, lower, lt, all, false);
                lemma_built_places_triangles(*r, vertices, triangles, upper, rt, all, false);
            },
            _ => {},
        }
    }
}

/// In a leaf, every triangle held is below the bound that holds of the tree.
pub proof fn lemma_leaf_triangles_below(node: KdTree, count: int)
    requires
        node.triangles_below(count),
    ensures
        match node.triangle_index {
            Some(ids) => forall|k: int| 0 <= k < ids@.len() ==> (#[trigger] ids@[k]) < count,
            None => true,
        },
{
}

/// A tree built over valid triangle indices holds only valid ones.
pub proof fn lemma_built_triangles_below(
    tree: KdTree,
    vertices: Seq<Position>,
    triangles: Seq<Triangle>,
    vids: Seq<usize>,
    tids: Seq<usize>,
    count: int,
)
    requires
        tree.is_built(vertices, triangles, vids, tids),
        forall|k: int| 0 <= k < tids.len() ==> (#[trigger] tids[k]) < count,
    ensures
        tree.triangles_below(count),
    decreases tree,
{
    let axis = tree.bounding_box.spec_largest_dim();
    let m = median(coords(vertices, vids, axis)) as int;
    let lower = vids.filter(below(vertices, axis, m));
    let upper = vids.filter(at_or_above(vertices, axis, m));
    if vids.len() < LEAF_THRESHOLD || lower.len() == 0 {
    } else {
        match (tree.left, tree.right) {
            (Some(l), Some(r)) => {
                let lt = tids.filter(meets(vertices, triangles, l.bounding_box));
                let rt = tids.filter(meets(vertices, triangles, r.bounding_box));
                assert forall|k: int| 0 <= k < lt.len() implies (#[trigger] lt[k]) < count by {
                    tids.lemma_filter_contains_rev(meets(vertices, triangles, l.bounding_box), lt[k]);
                }
                assert forall|k: int| 0 <= k < rt.len() implies (#[trigger] rt[k]) < count by {
                    tids.lemma_filter_contains_rev(meets(vertices, triangles, r.bounding_box), rt[k]);
                }
                lemma_built_triangles_below(*l, vertices, triangles, lower, lt, count);
                lemma_built_triangles_below(*r, vertices, triangles, upper, rt, count);
            },
            _ => {},
        }
    }
}

/// A leaf of a built tree holds every triangle, of those the tree was built
/// over, whose three corners lie in the leaf's box.
pub proof fn lemma_built_holds_enclosed(
    tree: KdTree,
    vertices: Seq<Position>,
    triangles: Seq<Triangle>,
    vids: Seq<usize>,
    tids: Seq<usize>,
    i: usize,
)
    requires
        tree.is_built(vertices, triangles, vids, tids),
        tids.contains(i) || !corners_within(vertices, triangles, tree.bounding_box, i),
    ensures
        tree.holds_enclosed(vertices, triangles, i),
    decreases tree,
{
    let axis = tree.bounding_box.spec_largest_dim();
    let m = median(coords(vertices, vids, axis)) as int;
    let lower = vids.filter(below(vertices, axis, m));
    let upper = vids.filter(at_or_above(vertices, axis, m));
    if vids.len() < LEAF_THRESHOLD || lower.len() == 0 {
    } else {
        match (tree.left, tree.right) {
            (Some(l), Some(r)) => {
                let t = triangles[i as int];
                let (t0, t1, t2) = (vertices[t[0] as int]@, vertices[t[1] as int]@, vertices[t[2] as int]@);
                let keep_left = meets(vertices, triangles, l.bounding_box);
                let keep_right = meets(vertices, triangles, r.bounding_box);
                if tids.contains(i) {
                    let at = choose|at: int| 0 <= at < tids.len() && tids[at] == i;
                    if keep_left(i) {
                        tids.lemma_filter_contains(keep_left, at);
                    } else if corners_within(vertices, triangles, l.bounding_box, i) {
                        lemma_contained_triangle_intersects(l.bounding_box, t0, t1, t2, None);
                    }
                    if keep_right(i) {
                        tids.lemma_filter_contains(keep_right, at);
                    } else if corners_within(vertices, triangles, r.bounding_box, i) {
                        lemma_contained_triangle_intersects(r.bounding_box, t0, t1, t2, None);
                    }
                }
                lemma_built_holds_enclosed(*l, vertices, triangles, lower, tids.filter(keep_left), i);
                lemma_built_holds_enclosed(*r, vertices, triangles, upper, tids.filter(keep_right), i);
            },
            _ => {},
        }
    }
}

/// All that holds of a tree built over every vertex and every triangle of a
/// mesh, in a box that holds the vertices.
pub proof fn lemma_built(tree: KdTree, vertices: Seq<Position>, triangles: Seq<Triangle>)
    requires
        vertices.len() <= usize::MAX,
        triangles.len() <= usize::MAX,
        tree.is_built(vertices, triangles, all_indices(vertices.len()), all_indices(triangles.len())),
        forall|i: int| 0 <= i < vertices.len() ==> tree.bounding_box.contains(#[trigger] vertices[i]@),
    ensures
        tree.well_formed(),
        tree.leaf_vertices().len() == vertices.len(),
        tree.leaf_vertices().no_duplicates(),
        tree.leaf_vertices().to_multiset() == all_indices(vertices.len()).to_multiset(),
        tree.vertices_placed(vertices),
        tree.triangles_placed(vertices, triangles, all_indices(triangles.len()), true),
        tree.triangles_below(triangles.len() as int),
        forall|i: usize| i < triangles.len() ==> #[trigger] tree.holds_enclosed(vertices, triangles, i),
{
    let vids = all_indices(vertices.len());
    let tids = all_indices(triangles.len());
    lemma_built_is_well_formed(tree, vertices, triangles, vids, tids);
    lemma_built_partitions_vertices(tree, vertices, triangles, vids, tids);
    lemma_every_vertex_once(tree, vertices, triangles, tids, vertices.len());
    lemma_built_places_vertices(tree, vertices, triangles, vids, tids);
    assert forall|k: int| 0 <= k < tids.len() implies tids.contains(#[trigger] tids[k]) by {}
    lemma_built_places_triangles(tree, vertices, triangles, vids, tids, tids, true);
    lemma_built_triangles_below(tree, vertices, triangles, vids, tids, triangles.len() as int);
    assert forall|i: usize| i < triangles.len() implies #[trigger] tree.holds_enclosed(
        vertices,
        triangles,
        i,
    ) by {
        assert(tids[i as int] == i);
        lemma_built_holds_enclosed(tree, vertices, triangles, vids, tids, i);
    }
}

/// Whether `left` and `right` are the halves of `parent` on `axis`, at the
/// plane where `left` ends.
fn halves_on(
    parent: &AxisAlignedBoundingBox,
    left: &AxisAlignedBoundingBox,
    right: &AxisAlignedBoundingBox,
    axis: usize,
) -> (r: bool)
    requires
        axis < 3,
    ensures
        r == halves(*parent, *left, *right, axis as int, left.max().coord(axis as int)),
{
    let at: i32 = left.bounds[1].get(axis);
    let lo: Position = parent.bounds[0];
    let hi: Position = parent.bounds[1];
    let cut_lo: Position = lo.with_coord(axis, at);
    let cut_hi: Position = hi.with_coord(axis, at);
    lo.get(axis) <= at && at <= hi.get(axis) && left.bounds[0] == lo && left.bounds[1] == cut_hi
        && right.bounds[0] == cut_lo && right.bounds[1] == hi
}

impl KdTree {
    /// Whether the tree is well-formed and its leaves hold only indices of
    /// the first `count` triangles: what the traversals and searches ask of
    /// a tree.
    pub fn check(&self, count: usize) -> (ok: bool)
        ensures
            ok == (self.well_formed() && self.triangles_below(count as int)),
        decreases self,
    {
        match (&self.vertices_index, &self.triangle_index, &self.left, &self.right) {
            (Some(_), Some(ids), None, None) => {
                let mut k: usize = 0;
                while k < ids.len()
                    invariant
                        0 <= k <= ids.len(),
                        self.triangle_index == Some(*ids),
                        forall|j: int| 0 <= j < k ==> (#[trigger] ids@[j]) < count,
                    decreases ids.len() - k,
                {
                    if ids[k] >= count {
                        proof {
                            let held = self.triangle_index.unwrap();
                            assert(held@[k as int] == ids@[k as int]);
                            assert(!(held@[k as int] < count));
                            assert(!self.triangles_below(count as int));
                        }
                        return false;
                    }
                    k = k + 1;
                }
                true
            },
            (None, None, Some(left), Some(right)) => {
                let halved: bool = halves_on(&self.bounding_box, &left.bounding_box, &right.bounding_box, 0)
                    || halves_on(&self.bounding_box, &left.bounding_box, &right.bounding_box, 1)
                    || halves_on(&self.bounding_box, &left.bounding_box, &right.bounding_box, 2);
                proof {
                    if self.well_formed() {
                        let axis = choose|axis: int|
                            0 <= axis < 3 && #[trigger] halves(
                                self.bounding_box,
                                left.bounding_box,
                                right.bounding_box,
                                axis,
                                left.bounding_box.max().coord(axis),
                            );
                        assert(axis == 0 || axis == 1 || axis == 2);
                    }
                }
                if !halved {
                    return false;
                }
                left.check(count) && right.check(count)
            },
            _ => false,
        }
    }
}

} // verus!
