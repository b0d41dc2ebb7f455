//! The tree: boxes halved at the median of their vertices, down to leaves
//! that hold vertex and triangle indices.

use vstd::prelude::*;
pub use crate::geometry::traversal::{
    iter_intersect_ray, iter_intersect_triangle, BoxIntersect, BoxIntersectIter, BoxIntersector,
    KdTreeLeafIter, RayIntersector, TriangleIntersector,
};
use crate::geometry::bounding_box::AxisAlignedBoundingBox;
use crate::geometry::median::{coords, get_median, lemma_median_is_member, median};
use crate::geometry::mesh::{triangles_valid, Mesh};
use crate::geometry::tree_laws::lemma_built;
use crate::geometry::types::{Position, Triangle};

verus! {

/// A node with fewer vertices than this is a leaf.
pub const LEAF_THRESHOLD: usize = 10;

/// A node of the tree: a box, and either two children that halve it or, in a
/// leaf, the indices of the vertices and triangles that fall in it.
#[derive(Debug)]
pub struct KdTree {
    pub bounding_box: AxisAlignedBoundingBox,
    pub left: Option<Box<KdTree>>,
    pub right: Option<Box<KdTree>>,
    pub vertices_index: Option<Vec<usize>>,
    pub triangle_index: Option<Vec<usize>>,
}

/// The vertices whose coordinate on `axis` is below `m`.
pub open spec fn below(vertices: Seq<Position>, axis: int, m: int) -> spec_fn(usize) -> bool {
    |i: usize| vertices[i as int]@.coord(axis) < m
}

/// The vertices whose coordinate on `axis` is `m` or more.
pub open spec fn at_or_above(vertices: Seq<Position>, axis: int, m: int) -> spec_fn(usize) -> bool {
    |i: usize| vertices[i as int]@.coord(axis) >= m
}

/// The triangles that no axis separates from the box `b`.
pub open spec fn meets(vertices: Seq<Position>, triangles: Seq<Triangle>, b: AxisAlignedBoundingBox)
    -> spec_fn(usize) -> bool {
    |i: usize|
        {
            let t = triangles[i as int];
            !b.separated(vertices[t[0] as int]@, vertices[t[1] as int]@, vertices[t[2] as int]@, None)
        }
}

/// `left` and `right` are the halves of `parent` on either side of the plane
/// `at` on `axis`.
pub open spec fn halves(
    parent: AxisAlignedBoundingBox,
    left: AxisAlignedBoundingBox,
    right: AxisAlignedBoundingBox,
    axis: int,
    at: int,
) -> bool {
    &&& parent.min().coord(axis) <= at <= parent.max().coord(axis)
    &&& left.min() == parent.min()
    &&& left.max() == parent.max().with_coord(axis, at)
    &&& right.min() == parent.min().with_coord(axis, at)
    &&& right.max() == parent.max()
}

impl KdTree {
    /// The node holds index lists, and therefore no children.
    pub open spec fn spec_is_leaf(self) -> bool {
        self.vertices_index.is_some()
    }

    /// The tree is the one that the median split builds over the vertices
    /// `vids` and the triangles `tids` in the box of its root.
    ///
    /// A node with fewer than [`LEAF_THRESHOLD`] vertices is a leaf and
    /// holds `vids` and `tids` as they are. Any other node is split on the
    /// axis of its box's greatest extent, at the median of its vertices on
    /// that axis: the vertices below the median go left, the others right,
    /// and each side takes the triangles that meet its half of the box. Where
    /// no vertex lies below the median, so that a split would put every
    /// vertex on the right again, the node is a leaf instead.
    pub open spec fn is_built(
        self,
        vertices: Seq<Position>,
        triangles: Seq<Triangle>,
        vids: Seq<usize>,
        tids: Seq<usize>,
    ) -> bool
        decreases self,
    {
        let axis = self.bounding_box.spec_largest_dim();
        let m = median(coords(vertices, vids, axis)) as int;
        let lower = vids.filter(below(vertices, axis, m));
        let upper = vids.filter(at_or_above(vertices, axis, m));
        if vids.len() < LEAF_THRESHOLD || lower.len() == 0 {
            &&& self.left.is_none()
            &&& self.right.is_none()
            &&& self.vertices_index.is_some()
            &&& self.vertices_index.unwrap()@ == vids
            &&& self.triangle_index.is_some()
            &&& self.triangle_index.unwrap()@ == tids
        } else {
            &&& self.vertices_index.is_none()
            &&& self.triangle_index.is_none()
            &&& match (self.left, self.right) {
                (Some(l), Some(r)) => {
                    &&& halves(self.bounding_box, l.bounding_box, r.bounding_box, axis, m)
                    &&& l.is_built(
                        vertices,
                        triangles,
                        lower,
                        tids.filter(meets(vertices, triangles, l.bounding_box)),
                    )
                    &&& r.is_built(
                        vertices,
                        triangles,
                        upper,
                        tids.filter(meets(vertices, triangles, r.bounding_box)),
                    )
                },
                _ => false,
            }
        }
    }

    /// An inner node.
    fn new_node(bb: AxisAlignedBoundingBox, left: Option<Box<KdTree>>, right: Option<Box<KdTree>>) -> (node:
        KdTree)
        ensures
            node.bounding_box == bb,
            node.left == left,
            node.right == right,
            node.vertices_index.is_none(),
            node.triangle_index.is_none(),
    {
        KdTree { bounding_box: bb, left, right, vertices_index: None, triangle_index: None }
    }

    /// A leaf.
    fn new_leaf(bb: AxisAlignedBoundingBox, vertices_index: Vec<usize>, triangle_index: Vec<usize>) -> (node:
        KdTree)
        ensures
            node.bounding_box == bb,
            node.left.is_none(),
            node.right.is_none(),
            node.vertices_index == Some(vertices_index),
            node.triangle_index == Some(triangle_index),
    {
        KdTree {
            bounding_box: bb,
            left: None,
            right: None,
            vertices_index: Some(vertices_index),
            triangle_index: Some(triangle_index),
        }
    }

    /// Whether the node is a leaf.
    pub fn is_leaf(&self) -> (leaf: bool)
        ensures
            leaf == self.spec_is_leaf(),
    {
        self.vertices_index.is_some()
    }
}

/// The indices of `ids` on either side of `m` on `axis`, each side in the
/// order of `ids`.
fn split_vertices(vertices: &Vec<Position>, ids: &Vec<usize>, axis: usize, m: i32) -> (sides: (
    Vec<usize>,
    Vec<usize>,
))
    requires
        axis < 3,
        forall|k: int| 0 <= k < ids.len() ==> #[trigger] ids[k] < vertices.len(),
    ensures
        sides.0@ == ids@.filter(below(vertices@, axis as int, m as int)),
        sides.1@ == ids@.filter(at_or_above(vertices@, axis as int, m as int)),
        sides.0.len() + sides.1.len() == ids.len(),
        forall|k: int|
            0 <= k < sides.0.len() ==> (#[trigger] sides.0[k]) < vertices.len() && vertices[sides.0[k] as int]@.coord(
                axis as int,
            ) < m,
        forall|k: int|
            0 <= k < sides.1.len() ==> (#[trigger] sides.1[k]) < vertices.len() && vertices[sides.1[k] as int]@.coord(
                axis as int,
            ) >= m,
        forall|k: int|
            0 <= k < ids.len() && vertices[ids[k] as int]@.coord(axis as int) >= m ==> sides.1.len() > 0,
{
    let mut lower: Vec<usize> = Vec::new();
    let mut upper: Vec<usize> = Vec::new();
    let mut k: usize = 0;
    proof {
        reveal(Seq::filter);
        assert(ids@.take(0) =~= Seq::<usize>::empty());
    }
    while k < ids.len()
        invariant
            axis < 3,
            0 <= k <= ids.len(),
            forall|j: int| 0 <= j < ids.len() ==> #[trigger] ids[j] < vertices.len(),
            lower@ == ids@.take(k as int).filter(below(vertices@, axis as int, m as int)),
            upper@ == ids@.take(k as int).filter(at_or_above(vertices@, axis as int, m as int)),
            lower.len() + upper.len() == k,
            forall|j: int|
                0 <= j < lower.len() ==> (#[trigger] lower[j]) < vertices.len() && vertices[lower[j] as int]@.coord(
                    axis as int,
                ) < m,
            forall|j: int|
                0 <= j < upper.len() ==> (#[trigger] upper[j]) < vertices.len() && vertices[upper[j] as int]@.coord(
                    axis as int,
                ) >= m,
            forall|j: int|
                0 <= j < k && vertices[ids[j] as int]@.coord(axis as int) >= m ==> upper.len() > 0,
        decreases ids.len() - k,
    {
        let id: usize = ids[k];
        proof {
            reveal(Seq::filter);
            let next = ids@.take(k as int + 1);
            assert(next.drop_last() =~= ids@.take(k as int));
            assert(next.last() == id);
        }
        if vertices[id].get(axis) < m {
            lower.push(id);
        } else {
            upper.push(id);
        }
        k = k + 1;
    }
    assert(ids@.take(k as int) == ids@);
    (lower, upper)
}

/// The triangles of `ids` that meet the box `b`, in the order of `ids`.
fn select_triangles(
    vertices: &Vec<Position>,
    triangles: &Vec<Triangle>,
    ids: &Vec<usize>,
    b: &AxisAlignedBoundingBox,
) -> (kept: Vec<usize>)
    requires
        triangles_valid(triangles@, vertices@.len() as int),
        forall|k: int| 0 <= k < ids.len() ==> #[trigger] ids[k] < triangles.len(),
    ensures
        kept@ == ids@.filter(meets(vertices@, triangles@, *b)),
        forall|k: int| 0 <= k < kept.len() ==> #[trigger] kept[k] < triangles.len(),
{
    let mut kept: Vec<usize> = Vec::new();
    let mut k: usize = 0;
    proof {
        reveal(Seq::filter);
        assert(ids@.take(0) =~= Seq::<usize>::empty());
    }
    while k < ids.len()
        invariant
            0 <= k <= ids.len(),
            triangles_valid(triangles@, vertices@.len() as int),
            forall|j: int| 0 <= j < ids.len() ==> #[trigger] ids[j] < triangles.len(),
            kept@ == ids@.take(k as int).filter(meets(vertices@, triangles@, *b)),
            forall|j: int| 0 <= j < kept.len() ==> #[trigger] kept[j] < triangles.len(),
        decreases ids.len() - k,
    {
        let id: usize = ids[k];
        let t: Triangle = triangles[id];
        proof {
            reveal(Seq::filter);
            let next = ids@.take(k as int + 1);
            assert(next.drop_last() =~= ids@.take(k as int));
            assert(next.last() == id);
            assert(triangles@[id as int] == t);
        }
        if b.intersect_triangle(&vertices[t[0]], &vertices[t[1]], &vertices[t[2]], None) {
            kept.push(id);
        }
        k = k + 1;
    }
    assert(ids@.take(k as int) == ids@);
    kept
}

/// The tree over the vertices `vertex_ids` and the triangles
/// `triangle_ids`, in the box `bb`.
fn recursion_internal(
    vertices: &Vec<Position>,
    triangles: &Vec<Triangle>,
    bb: AxisAlignedBoundingBox,
    vertex_ids: Vec<usize>,
    triangle_ids: Vec<usize>,
) -> (tree: KdTree)
    requires
        triangles_valid(triangles@, vertices@.len() as int),
        forall|k: int|
            0 <= k < vertex_ids.len() ==> (#[trigger] vertex_ids[k]) < vertices.len() && bb.contains(
                vertices[vertex_ids[k] as int]@,
            ),
        forall|k: int| 0 <= k < triangle_ids.len() ==> #[trigger] triangle_ids[k] < triangles.len(),
    ensures
        tree.bounding_box == bb,
        tree.is_built(vertices@, triangles@, vertex_ids@, triangle_ids@),
    decreases vertex_ids.len(),
{
    if vertex_ids.len() < LEAF_THRESHOLD {
        return KdTree::new_leaf(bb, vertex_ids, triangle_ids);
    }
    let largest_dim: usize = bb.largest_dim();
    let median: i32 = get_median(largest_dim, vertices, &vertex_ids);
    let (left_vertices, right_vertices) = split_vertices(vertices, &vertex_ids, largest_dim, median);
    if left_vertices.len() == 0 {
        return KdTree::new_leaf(bb, vertex_ids, triangle_ids);
    }
    proof {
        let values = coords(vertices@, vertex_ids@, largest_dim as int);
        lemma_median_is_member(values);
        let k = choose|k: int| 0 <= k < values.len() && values[k] == median;
        assert(vertices[vertex_ids[k] as int]@.coord(largest_dim as int) == median);
        assert(bb.contains(vertices[vertex_ids[k] as int]@));
    }
    let (left_bb, right_bb) = bb.split(largest_dim, median).unwrap();
    let left_triangles = select_triangles(vertices, triangles, &triangle_ids, &left_bb);
    let right_triangles = select_triangles(vertices, triangles, &triangle_ids, &right_bb);
    assert forall|k: int| 0 <= k < left_vertices.len() implies left_bb.contains(
        vertices[#[trigger] left_vertices[k] as int]@,
    ) by {
        let id = left_vertices[k];
        vertex_ids@.lemma_filter_contains_rev(below(vertices@, largest_dim as int, median as int), id);
        let j = choose|j: int| 0 <= j < vertex_ids.len() && vertex_ids[j] == id;
        assert(bb.contains(vertices[vertex_ids[j] as int]@));
    }
    assert forall|k: int| 0 <= k < right_vertices.len() implies right_bb.contains(
        vertices[#[trigger] right_vertices[k] as int]@,
    ) by {
        let id = right_vertices[k];
        vertex_ids@.lemma_filter_contains_rev(
            at_or_above(vertices@, largest_dim as int, median as int),
            id,
        );
        let j = choose|j: int| 0 <= j < vertex_ids.len() && vertex_ids[j] == id;
        assert(bb.contains(vertices[vertex_ids[j] as int]@));
    }
    let left = recursion_internal(vertices, triangles, left_bb, left_vertices, left_triangles);
    let right = recursion_internal(vertices, triangles, right_bb, right_vertices, right_triangles);
    KdTree::new_node(bb, Some(Box::new(left)), Some(Box::new(right)))
}

/// The indices `0, 1, ..., n - 1`.
pub open spec fn all_indices(n: nat) -> Seq<usize> {
    Seq::new(n, |i: int| i as usize)
}

/// The indices `0, 1, ..., n - 1`.
pub fn index_range(n: usize) -> (ids: Vec<usize>)
    ensures
        ids@ == all_indices(n as nat),
{
    let mut ids: Vec<usize> = Vec::new();
    let mut i: usize = 0;
    while i < n
        invariant
            0 <= i <= n,
            ids@ == all_indices(i as nat),
        decreases n - i,
    {
        ids.push(i);
        assert(ids@ =~= all_indices((i + 1) as nat));
        i = i + 1;
    }
    ids
}

impl KdTree {
    /// The tree over a mesh: its boxes follow the density of the vertices,
    /// and each leaf holds the vertices in its box and the triangles that
    /// meet it. Every vertex is held by exactly one leaf; a triangle is held
    /// by every leaf that it meets on the way down, possibly by several.
    pub fn from_mesh(mesh: &Mesh) -> (tree: Box<KdTree>)
        requires
            mesh.well_formed(),
            mesh.vertices.len() > 0,
        ensures
            tree.bounding_box.is_bounding_box_of(mesh.vertices@),
            tree.bounding_box.well_formed(),
            tree.is_built(
                mesh.vertices@,
                mesh.triangles@,
                all_indices(mesh.vertices@.len()),
                all_indices(mesh.triangles@.len()),
            ),
            tree.well_formed(),
            tree.leaf_vertices().len() == mesh.vertices@.len(),
            tree.leaf_vertices().no_duplicates(),
            tree.leaf_vertices().to_multiset() == all_indices(mesh.vertices@.len()).to_multiset(),
            tree.vertices_placed(mesh.vertices@),
            tree.triangles_placed(
                mesh.vertices@,
                mesh.triangles@,
                all_indices(mesh.triangles@.len()),
                true,
            ),
            tree.triangles_below(mesh.triangles@.len() as int),
            forall|i: usize|
                i < mesh.triangles@.len() ==> #[trigger] tree.holds_enclosed(
                    mesh.vertices@,
                    mesh.triangles@,
                    i,
                ),
    {
        let bb = AxisAlignedBoundingBox::new(&mesh.vertices);
        let vertex_ids = index_range(mesh.vertices.len());
        let triangle_ids = index_range(mesh.triangles.len());
        let tree = recursion_internal(&mesh.vertices, &mesh.triangles, bb, vertex_ids, triangle_ids);
        proof {
            lemma_built(tree, mesh.vertices@, mesh.triangles@);
        }
        Box::new(tree)
    }

    /// The tree over a set of points alone: every point is held by exactly
    /// one leaf, and the leaves hold no triangle.
    pub fn from_vertices(vertices: &Vec<Position>) -> (tree: KdTree)
        requires
            vertices.len() > 0,
        ensures
            tree.bounding_box.is_bounding_box_of(vertices@),
            tree.bounding_box.well_formed(),
            tree.is_built(
                vertices@,
                Seq::<Triangle>::empty(),
                all_indices(vertices@.len()),
                all_indices(0),
            ),
            tree.well_formed(),
            tree.leaf_vertices().len() == vertices@.len(),
            tree.leaf_vertices().no_duplicates(),
            tree.leaf_vertices().to_multiset() == all_indices(vertices@.len()).to_multiset(),
            tree.vertices_placed(vertices@),
            tree.triangles_below(0),
    {
        let bb = AxisAlignedBoundingBox::new(vertices);
        let vertex_ids = index_range(vertices.len());
        let triangles: Vec<Triangle> = Vec::new();
        let triangle_ids = index_range(0);
        let tree = recursion_internal(vertices, &triangles, bb, vertex_ids, triangle_ids);
        proof {
            assert(triangles@ =~= Seq::<Triangle>::empty());
            lemma_built(tree, vertices@, triangles@);
        }
        tree
    }
}

} // verus!
