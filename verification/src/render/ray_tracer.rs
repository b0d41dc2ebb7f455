//! Which triangle of a mesh a ray sees: by a search of all triangles, and by
//! a search of the leaves of the tree.

use vstd::prelude::*;
use crate::geometry::distance::{lemma_ratio_le_transitive, ratio_le};
use crate::geometry::kdtree::{all_indices, index_range, KdTree};
use crate::geometry::mesh::Mesh;
use crate::geometry::ray::{Ray, TriangleHit};
use crate::geometry::traversal::{
    hit_of, iter_intersect_ray, on_leaf, push_hit, run, weight, BoxIntersect, RayIntersector,
};
use crate::geometry::traversal_laws::lemma_run_keeps_triangles_below;
use crate::geometry::tree_laws::lemma_leaf_triangles_below;
use crate::geometry::types::Vector;

verus! {

/// A ray's hit on a triangle of a mesh.
#[derive(Clone, Copy, Debug)]
pub struct TriangleIntersect {
    pub triangle_index: usize,
    pub hit: TriangleHit,
}

/// Corner `k` of triangle `i` of the mesh.
pub open spec fn corner(mesh: Mesh, i: int, k: int) -> Vector {
    mesh.vertices@[mesh.triangles@[i][k] as int]@
}

/// The ray meets the front of triangle `i`.
pub open spec fn is_hit(ray: Ray, mesh: Mesh, i: int) -> bool {
    ray.hits_triangle(corner(mesh, i, 0), corner(mesh, i, 1), corner(mesh, i, 2))
}

/// The determinant of the ray's hit on triangle `i`.
pub open spec fn determinant_at(ray: Ray, mesh: Mesh, i: int) -> int {
    ray.determinant(corner(mesh, i, 0), corner(mesh, i, 1), corner(mesh, i, 2))
}

/// The parameter of the ray's hit on triangle `i`, times the determinant.
pub open spec fn reach_at(ray: Ray, mesh: Mesh, i: int) -> int {
    ray.reach(corner(mesh, i, 0), corner(mesh, i, 1), corner(mesh, i, 2))
}

/// The ray hits triangle `i` nearer to its origin than triangle `j`.
pub open spec fn nearer_at(ray: Ray, mesh: Mesh, i: int, j: int) -> bool {
    reach_at(ray, mesh, i) * determinant_at(ray, mesh, j) < reach_at(ray, mesh, j) * determinant_at(
        ray,
        mesh,
        i,
    )
}

/// `found` is the ray's hit on triangle `i`.
pub open spec fn records(found: TriangleIntersect, ray: Ray, mesh: Mesh, i: int) -> bool {
    &&& found.triangle_index == i
    &&& found.hit.determinant == determinant_at(ray, mesh, i)
    &&& found.hit.distance == reach_at(ray, mesh, i)
    &&& found.hit.barycentric[0] == ray.weight_u(corner(mesh, i, 0), corner(mesh, i, 1), corner(mesh, i, 2))
    &&& found.hit.barycentric[1] == ray.weight_v(corner(mesh, i, 0), corner(mesh, i, 1), corner(mesh, i, 2))
}

/// The place in `ids` of the triangle that the ray hits nearest to its
/// origin; of several at the same distance, the last. Nothing where the ray
/// hits none of them.
pub open spec fn closest_position(ray: Ray, mesh: Mesh, ids: Seq<usize>) -> Option<int>
    decreases ids.len(),
{
    if ids.len() == 0 {
        None
    } else {
        let earlier = closest_position(ray, mesh, ids.drop_last());
        if !is_hit(ray, mesh, ids.last() as int) {
            earlier
        } else {
            match earlier {
                Some(p) if nearer_at(ray, mesh, ids[p] as int, ids.last() as int) => earlier,
                _ => Some(ids.len() - 1),
            }
        }
    }
}

/// `found` is the nearest hit among the triangles `ids`.
pub open spec fn is_closest(found: Option<TriangleIntersect>, ray: Ray, mesh: Mesh, ids: Seq<usize>) -> bool {
    match (found, closest_position(ray, mesh, ids)) {
        (None, None) => true,
        (Some(c), Some(p)) => 0 <= p < ids.len() && records(c, ray, mesh, ids[p] as int),
        _ => false,
    }
}

/// The nearest of the triangles `ids` that the ray hits is hit, no other of
/// them is hit nearer, and every later one that is hit is hit farther.
pub proof fn lemma_closest_is_nearest(ray: Ray, mesh: Mesh, ids: Seq<usize>)
    ensures
        match closest_position(ray, mesh, ids) {
            None => forall|k: int| 0 <= k < ids.len() ==> !is_hit(ray, mesh, #[trigger] ids[k] as int),
            Some(p) => {
                &&& 0 <= p < ids.len()
                &&& is_hit(ray, mesh, ids[p] as int)
                &&& forall|k: int|
                    0 <= k < ids.len() && is_hit(ray, mesh, #[trigger] ids[k] as int) ==> !nearer_at(
                        ray,
                        mesh,
                        ids[k] as int,
                        ids[p] as int,
                    )
                &&& forall|k: int|
                    p < k < ids.len() && is_hit(ray, mesh, #[trigger] ids[k] as int) ==> nearer_at(
                        ray,
                        mesh,
                        ids[p] as int,
                        ids[k] as int,
                    )
            },
        },
    decreases ids.len(),
{
    if ids.len() > 0 {
        let rest = ids.drop_last();
        let last = ids.last() as int;
        lemma_closest_is_nearest(ray, mesh, rest);
        assert forall|k: int| 0 <= k < rest.len() implies rest[k] == ids[k] by {}
        if is_hit(ray, mesh, last) {
            match closest_position(ray, mesh, rest) {
                Some(p) => {
                    if !nearer_at(ray, mesh, ids[p] as int, last) {
                        assert forall|k: int|
                            0 <= k < ids.len() && is_hit(ray, mesh, #[trigger] ids[k] as int) implies !nearer_at(
                            ray,
                            mesh,
                            ids[k] as int,
                            last,
                        ) by {
                            if k < rest.len() {
                                assert(rest[k] == ids[k]);
                                lemma_ratio_le_transitive(
                                    reach_at(ray, mesh, last),
                                    determinant_at(ray, mesh, last),
                                    reach_at(ray, mesh, ids[p] as int),
                                    determinant_at(ray, mesh, ids[p] as int),
                                    reach_at(ray, mesh, ids[k] as int),
                                    determinant_at(ray, mesh, ids[k] as int),
                                );
                            }
                        }
                    }
                },
                None => {},
            }
        }
    }
}

/// The nearest hit of the ray among the triangles `triangle_indices` of the
/// mesh; of several hits at the same distance, the one on the triangle that
/// comes last.
pub fn triangles_closest_intersection(triangle_indices: &Vec<usize>, ray: &Ray, mesh: &Mesh) -> (found:
    Option<TriangleIntersect>)
    requires
        mesh.well_formed(),
        forall|k: int| 0 <= k < triangle_indices.len() ==> #[trigger] triangle_indices[k] < mesh.triangles.len(),
    ensures
        is_closest(found, *ray, *mesh, triangle_indices@),
        found.is_some() ==> found.unwrap().hit.well_formed(),
{
    let mut closest: Option<TriangleIntersect> = None;
    let mut k: usize = 0;
    assert(triangle_indices@.take(0) =~= Seq::<usize>::empty());
    while k < triangle_indices.len()
        invariant
            0 <= k <= triangle_indices.len(),
            mesh.well_formed(),
            forall|j: int|
                0 <= j < triangle_indices.len() ==> #[trigger] triangle_indices[j] < mesh.triangles.len(),
            is_closest(closest, *ray, *mesh, triangle_indices@.take(k as int)),
            closest.is_some() ==> closest.unwrap().hit.well_formed(),
        decreases triangle_indices.len() - k,
    {
        let triangle_index: usize = triangle_indices[k];
        let triangle = mesh.triangles[triangle_index];
        proof {
            let next = triangle_indices@.take(k as int + 1);
            assert(next.drop_last() =~= triangle_indices@.take(k as int));
            assert(next.last() == triangle_index);
            assert(mesh.triangles@[triangle_index as int] == triangle);
            assert forall|p: int| 0 <= p < k implies next[p] == triangle_indices@.take(k as int)[p] by {}
        }
        let t0 = &mesh.vertices[triangle[0]];
        let t1 = &mesh.vertices[triangle[1]];
        let t2 = &mesh.vertices[triangle[2]];
        if let Some(hit) = ray.intersect_triangle(t0, t1, t2) {
            let keep: bool = match &closest {
                Some(c) => c.hit.nearer(&hit),
                None => false,
            };
            if !keep {
                closest = Some(TriangleIntersect { triangle_index, hit });
            }
        }
        k = k + 1;
    }
    assert(triangle_indices@.take(k as int) == triangle_indices@);
    closest
}

/// The nearest hit among the triangles of the first of `leaves` in which the
/// ray hits a triangle.
pub open spec fn first_leaf_hit<'a>(ray: Ray, mesh: Mesh, leaves: Seq<BoxIntersect<'a>>) -> Option<
    (int, int),
>
    decreases leaves.len(),
{
    if leaves.len() == 0 {
        None
    } else {
        match first_leaf_hit(ray, mesh, leaves.drop_last()) {
            Some(at) => Some(at),
            None => match leaves.last().node.triangle_index {
                Some(ids) => match closest_position(ray, mesh, ids@) {
                    Some(p) => Some((leaves.len() - 1, p)),
                    None => None,
                },
                None => None,
            },
        }
    }
}

/// The nearest hit of the ray among all triangles of the mesh.
pub fn naive_closest_intersection(ray: &Ray, mesh: &Mesh) -> (found: Option<TriangleIntersect>)
    requires
        mesh.well_formed(),
    ensures
        is_closest(found, *ray, *mesh, all_indices(mesh.triangles@.len())),
        found.is_some() ==> found.unwrap().hit.well_formed(),
{
    let all = index_range(mesh.triangles.len());
    triangles_closest_intersection(&all, ray, mesh)
}

/// The hit that the tree finds for the ray: the leaves that the ray meets
/// are pulled from the traversal one by one, nearest first, and the nearest
/// hit among the triangles of the first leaf that holds a triangle the ray
/// hits is returned; no leaf is pulled after that one.
pub fn kdt_closest_intersection<'a>(ray: &'a Ray, mesh: &Mesh, kdt: &'a KdTree) -> (found: Option<
    TriangleIntersect,
>)
    requires
        ray.well_formed(),
        mesh.well_formed(),
        kdt.well_formed(),
        kdt.triangles_below(mesh.triangles@.len() as int),
    ensures
        ({
            let leaves = run(
                RayIntersector { ray },
                push_hit(Seq::empty(), hit_of(ray.spec_intersect_box(kdt.bounding_box.bounds), kdt)),
            ).filter(on_leaf());
            match (found, first_leaf_hit(*ray, *mesh, leaves)) {
                (None, None) => true,
                (Some(c), Some((at, p))) => {
                    &&& 0 <= at < leaves.len()
                    &&& leaves[at].node.triangle_index.is_some()
                    &&& 0 <= p < leaves[at].node.triangle_index.unwrap()@.len()
                    &&& records(c, *ray, *mesh, leaves[at].node.triangle_index.unwrap()@[p] as int)
                },
                _ => false,
            }
        }),
        found.is_some() ==> found.unwrap().hit.well_formed(),
{
    let mut it = iter_intersect_ray(kdt, ray);
    let ghost q = it.box_intersector;
    let ghost start = it.next_nodes@;
    let ghost all = run(q, start).filter(on_leaf());
    let ghost mut searched: Seq<BoxIntersect<'a>> = Seq::empty();
    let ghost count = mesh.triangles@.len() as int;
    proof {
        assert(q == RayIntersector { ray });
        lemma_run_keeps_triangles_below(q, start, count);
        assert forall|j: int| 0 <= j < all.len() implies (#[trigger] all[j]).node.triangles_below(count) by {
            let yielded = run(q, start);
            yielded.lemma_filter_contains_rev(on_leaf(), all[j]);
            let at = choose|at: int| 0 <= at < yielded.len() && yielded[at] == all[j];
            assert(yielded[at].node.triangles_below(count));
        }
        assert(searched + all =~= all);
    }
    loop
        invariant
            it.inv(),
            it.box_intersector == q,
            mesh.well_formed(),
            count == mesh.triangles@.len(),
            all == run(
                RayIntersector { ray },
                push_hit(Seq::empty(), hit_of(ray.spec_intersect_box(kdt.bounding_box.bounds), kdt)),
            ).filter(on_leaf()),
            all == searched + run(q, it.next_nodes@).filter(on_leaf()),
            first_leaf_hit(*ray, *mesh, searched).is_none(),
            forall|j: int| 0 <= j < all.len() ==> (#[trigger] all[j]).node.triangles_below(count),
        decreases weight(it.next_nodes@),
    {
        let ghost rest_before = run(q, it.next_nodes@).filter(on_leaf());
        match it.next_leaf() {
            None => {
                proof {
                    assert(searched + rest_before =~= searched);
                }
                return None;
            },
            Some(leaf) => {
                let ghost rest = run(q, it.next_nodes@).filter(on_leaf());
                let ghost more = searched.push(leaf);
                proof {
                    assert(searched + (seq![leaf] + rest) =~= more + rest);
                    assert(all[searched.len() as int] == leaf);
                    assert(all.take(more.len() as int) =~= more);
                    assert(more.drop_last() =~= searched);
                    lemma_leaf_triangles_below(*leaf.node, count);
                }
                if let Some(triangle_index) = &leaf.node.triangle_index {
                    let triangle_intersect = triangles_closest_intersection(triangle_index, ray, mesh);
                    if triangle_intersect.is_some() {
                        proof {
                            lemma_first_leaf_hit_extends(*ray, *mesh, all, more.len() as int);
                        }
                        return triangle_intersect;
                    }
                }
                proof {
                    searched = more;
                }
            },
        }
    }
}

/// A hit found among the first `n` leaves is the hit found among them all.
pub proof fn lemma_first_leaf_hit_extends<'a>(ray: Ray, mesh: Mesh, leaves: Seq<BoxIntersect<'a>>, n: int)
    requires
        0 <= n <= leaves.len(),
        first_leaf_hit(ray, mesh, leaves.take(n)).is_some(),
    ensures
        first_leaf_hit(ray, mesh, leaves) == first_leaf_hit(ray, mesh, leaves.take(n)),
    decreases leaves.len() - n,
{
    if n < leaves.len() {
        let more = leaves.take(n + 1);
        assert(more.drop_last() =~= leaves.take(n));
        lemma_first_leaf_hit_extends(ray, mesh, leaves, n + 1);
    } else {
        assert(leaves.take(n) =~= leaves);
    }
}

} // verus!
