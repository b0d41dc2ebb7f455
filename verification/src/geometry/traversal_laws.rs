//! What a traversal yields, and in which order.

use vstd::prelude::*;
use vstd::multiset::Multiset;
use crate::geometry::bounding_box::AxisAlignedBoundingBox;
use crate::geometry::distance::{lemma_ratio_le_transitive, Distance};
use crate::geometry::kdtree::{halves, KdTree};
use crate::geometry::ray::Ray;
use crate::geometry::traversal::{
    hit_of, lemma_nearest, lemma_step_decreases, nearest, on_leaf, push_hit, run, step_frontier,
    step_item, weight, BoxIntersect, BoxIntersector, RayIntersector,
};
use crate::geometry::tree_laws::lemma_halves;
use crate::geometry::types::Position;

verus! {

/// The hits come in ascending order of distance.
pub open spec fn ascending<'a>(hits: Seq<BoxIntersect<'a>>) -> bool {
    forall|i: int, j: int|
        0 <= i < j < hits.len() ==> (#[trigger] hits[i]).distance.spec_le((#[trigger] hits[j]).distance)
}

/// The query meets the box `child` no nearer than the box `parent`.
pub open spec fn child_later<'a, A: BoxIntersector<'a>>(
    q: A,
    parent: AxisAlignedBoundingBox,
    child: AxisAlignedBoundingBox,
) -> bool {
    match q.spec_intersect(child) {
        Some(c) => c.well_formed() && match q.spec_intersect(parent) {
            Some(p) => p.spec_le(c),
            None => true,
        },
        None => true,
    }
}

/// All through the tree, the query meets no node nearer than its parent.
pub open spec fn deepens<'a, A: BoxIntersector<'a>>(q: A, node: KdTree) -> bool
    decreases node,
{
    match (node.left, node.right) {
        (Some(l), Some(r)) => {
            &&& child_later(q, node.bounding_box, l.bounding_box)
            &&& child_later(q, node.bounding_box, r.bounding_box)
            &&& deepens(q, *l)
            &&& deepens(q, *r)
        },
        _ => true,
    }
}

/// Every pending node is met at the distance noted, and below it the query
/// meets no node nearer than its parent.
pub open spec fn settled<'a, A: BoxIntersector<'a>>(q: A, pending: Seq<BoxIntersect<'a>>) -> bool {
    forall|j: int|
        0 <= j < pending.len() ==> {
            let e = #[trigger] pending[j];
            &&& e.distance.well_formed()
            &&& q.spec_intersect(e.node.bounding_box) == Some(e.distance)
            &&& deepens(q, *e.node)
        }
}

/// Every pending node is at the distance `floor` or farther.
pub open spec fn no_nearer<'a>(floor: Distance, pending: Seq<BoxIntersect<'a>>) -> bool {
    forall|j: int| 0 <= j < pending.len() ==> floor.spec_le((#[trigger] pending[j]).distance)
}

/// Where the query meets no node nearer than its parent, the traversal
/// yields its nodes in ascending order of distance, none nearer than the
/// nearest pending one.
pub proof fn lemma_run_ascending<'a, A: BoxIntersector<'a>>(
    q: A,
    pending: Seq<BoxIntersect<'a>>,
    floor: Distance,
)
    requires
        floor.well_formed(),
        settled(q, pending),
        no_nearer(floor, pending),
    ensures
        ascending(run(q, pending)),
        no_nearer(floor, run(q, pending)),
        forall|j: int| 0 <= j < run(q, pending).len() ==> (#[trigger] run(q, pending)[j]).distance.well_formed(),
    decreases weight(pending),
{
    if pending.len() > 0 {
        lemma_nearest(pending);
        let k = nearest(pending);
        let e = pending[k];
        match step_item(q, pending) {
            None => {},
            Some(item) => {
                assert(item == e);
                let after = step_frontier(q, pending);
                lemma_step_decreases(q, pending);
                let rest = pending.remove(k);
                assert forall|j: int| 0 <= j < rest.len() implies {
                    let x = #[trigger] rest[j];
                    &&& x.distance.well_formed()
                    &&& q.spec_intersect(x.node.bounding_box) == Some(x.distance)
                    &&& deepens(q, *x.node)
                    &&& e.distance.spec_le(x.distance)
                } by {
                    if j < k {
                        assert(rest[j] == pending[j]);
                    } else {
                        assert(rest[j] == pending[j + 1]);
                    }
                }
                assert(settled(q, after) && no_nearer(e.distance, after)) by {
                    if !e.node.spec_is_leaf() {
                        match (e.node.left, e.node.right) {
                            (Some(l), Some(r)) => {
                                let hl = hit_of(q.spec_intersect(l.bounding_box), &*l);
                                let hr = hit_of(q.spec_intersect(r.bounding_box), &*r);
                                let one = push_hit(rest, hl);
                                assert(child_later(q, e.node.bounding_box, l.bounding_box));
                                assert(child_later(q, e.node.bounding_box, r.bounding_box));
                                assert forall|j: int| 0 <= j < one.len() implies {
                                    let x = #[trigger] one[j];
                                    &&& x.distance.well_formed()
                                    &&& q.spec_intersect(x.node.bounding_box) == Some(x.distance)
                                    &&& deepens(q, *x.node)
                                    &&& e.distance.spec_le(x.distance)
                                } by {
                                    if j < rest.len() {
                                        assert(one[j] == rest[j]);
                                    }
                                }
                                assert forall|j: int| 0 <= j < after.len() implies {
                                    let x = #[trigger] after[j];
                                    &&& x.distance.well_formed()
                                    &&& q.spec_intersect(x.node.bounding_box) == Some(x.distance)
                                    &&& deepens(q, *x.node)
                                    &&& e.distance.spec_le(x.distance)
                                } by {
                                    if j < one.len() {
                                        assert(after[j] == one[j]);
                                    }
                                }
                            },
                            _ => {},
                        }
                    }
                }
                lemma_run_ascending(q, after, e.distance);
                let tail = run(q, after);
                let all = run(q, pending);
                assert(all == seq![e] + tail);
                assert forall|j: int| 0 <= j < all.len() implies floor.spec_le(
                    (#[trigger] all[j]).distance,
                ) && all[j].distance.well_formed() by {
                    if j > 0 {
                        assert(all[j] == tail[j - 1]);
                        lemma_ratio_le_transitive(
                            floor.num as int,
                            floor.den as int,
                            e.distance.num as int,
                            e.distance.den as int,
                            tail[j - 1].distance.num as int,
                            tail[j - 1].distance.den as int,
                        );
                    }
                }
                assert forall|i: int, j: int| 0 <= i < j < all.len() implies (#[trigger] all[i]).distance.spec_le(
                    (#[trigger] all[j]).distance,
                ) by {
                    assert(all[j] == tail[j - 1]);
                    if i > 0 {
                        assert(all[i] == tail[i - 1]);
                    }
                }
            },
        }
    }
}

/// Leaving hits out of an ascending list leaves it ascending.
pub proof fn lemma_filter_ascending<'a>(hits: Seq<BoxIntersect<'a>>, keep: spec_fn(BoxIntersect<'a>) -> bool)
    requires
        ascending(hits),
    ensures
        ascending(hits.filter(keep)),
    decreases hits.len(),
{
    reveal(Seq::filter);
    if hits.len() > 0 {
        let rest = hits.drop_last();
        lemma_filter_ascending(rest, keep);
        let kept = rest.filter(keep);
        if keep(hits.last()) {
            let all = kept.push(hits.last());
            assert forall|i: int, j: int| 0 <= i < j < all.len() implies (#[trigger] all[i]).distance.spec_le(
                (#[trigger] all[j]).distance,
            ) by {
                if j == all.len() - 1 {
                    rest.lemma_filter_contains_rev(keep, kept[i]);
                    let at = choose|at: int| 0 <= at < rest.len() && rest[at] == kept[i];
                    assert(hits[at] == kept[i]);
                    assert(hits[hits.len() - 1] == hits.last());
                } else {
                    assert(all[i] == kept[i] && all[j] == kept[j]);
                }
            }
        }
    }
}

/// A traversal that starts at a node that the query misses yields nothing.
pub proof fn lemma_miss_yields_nothing<'a, A: BoxIntersector<'a>>(q: A, first_node: &'a KdTree)
    requires
        q.spec_intersect(first_node.bounding_box).is_none(),
    ensures
        run(
            q,
            push_hit(Seq::empty(), hit_of(q.spec_intersect(first_node.bounding_box), first_node)),
        ) == Seq::<BoxIntersect<'a>>::empty(),
{
}

/// A point of a line that lies in a box lies in every box around that one.
pub proof fn lemma_reaches_enclosing(ray: Ray, inner: [Position; 2], outer: [Position; 2], n: int, m: int)
    requires
        m > 0,
        ray.reaches(inner, n, m),
        outer[0]@.x <= inner[0]@.x && inner[1]@.x <= outer[1]@.x,
        outer[0]@.y <= inner[0]@.y && inner[1]@.y <= outer[1]@.y,
        outer[0]@.z <= inner[0]@.z && inner[1]@.z <= outer[1]@.z,
    ensures
        ray.reaches(outer, n, m),
{
    assert forall|a: int, b: int| a <= b implies #[trigger] (m * a) <= #[trigger] (m * b) by {
        assert(m * a <= m * b) by (nonlinear_arith)
            requires
                m > 0,
                a <= b,
        ;
    }
    assert(m * outer[0]@.coord(0) <= m * inner[0]@.coord(0));
    assert(m * inner[1]@.coord(0) <= m * outer[1]@.coord(0));
    assert(m * outer[0]@.coord(1) <= m * inner[0]@.coord(1));
    assert(m * inner[1]@.coord(1) <= m * outer[1]@.coord(1));
    assert(m * outer[0]@.coord(2) <= m * inner[0]@.coord(2));
    assert(m * inner[1]@.coord(2) <= m * outer[1]@.coord(2));
}

/// A ray that meets a box, none of whose points lies behind the ray's origin,
/// meets every box inside it no nearer, and none of that box's points lies
/// behind the origin either.
pub proof fn lemma_ray_child_later<'a>(
    ray: &'a Ray,
    parent: AxisAlignedBoundingBox,
    child: AxisAlignedBoundingBox,
)
    requires
        ray.well_formed(),
        parent.encloses(child),
        !ray.behind(parent.bounds),
    ensures
        child_later(RayIntersector { ray }, parent, child),
        !ray.behind(child.bounds),
{
    ray.lemma_intersect_box_meaning(parent.bounds);
    ray.lemma_intersect_box_meaning(child.bounds);
    assert forall|n: int, m: int| m > 0 && #[trigger] ray.reaches(child.bounds, n, m) implies ray.reaches(
        parent.bounds,
        n,
        m,
    ) by {
        lemma_reaches_enclosing(*ray, child.bounds, parent.bounds, n, m);
    }
    if let Some(c) = ray.spec_intersect_box(child.bounds) {
        assert(ray.reaches(parent.bounds, c.num as int, c.den as int));
    }
}

/// In a well-formed tree whose root box has no point behind the origin of a
/// ray, the ray meets no node nearer than its parent.
pub proof fn lemma_ray_deepens<'a>(ray: &'a Ray, node: KdTree)
    requires
        ray.well_formed(),
        node.well_formed(),
        node.bounding_box.well_formed(),
        !ray.behind(node.bounding_box.bounds),
    ensures
        deepens(RayIntersector { ray }, node),
    decreases node,
{
    match (node.left, node.right) {
        (Some(l), Some(r)) => {
            let axis = choose|axis: int|
                0 <= axis < 3 && #[trigger] halves(
                    node.bounding_box,
                    l.bounding_box,
                    r.bounding_box,
                    axis,
                    l.bounding_box.max().coord(axis),
                );
            lemma_halves(
                node.bounding_box,
                l.bounding_box,
                r.bounding_box,
                axis,
                l.bounding_box.max().coord(axis),
            );
            lemma_ray_child_later(ray, node.bounding_box, l.bounding_box);
            lemma_ray_child_later(ray, node.bounding_box, r.bounding_box);
            lemma_ray_deepens(ray, *l);
            lemma_ray_deepens(ray, *r);
        },
        _ => {},
    }
}

/// The leaves that a ray's traversal of a well-formed tree yields come in
/// ascending order of distance, provided that no point of the root's box
/// lies behind the ray's origin: the origin is outside the box, or on the
/// face through which the ray enters.
pub proof fn lemma_ray_leaves_ascending<'a>(ray: &'a Ray, tree: &'a KdTree)
    requires
        ray.well_formed(),
        tree.well_formed(),
        tree.bounding_box.well_formed(),
        !ray.behind(tree.bounding_box.bounds),
    ensures
        ascending(
            run(
                RayIntersector { ray },
                push_hit(Seq::empty(), hit_of(ray.spec_intersect_box(tree.bounding_box.bounds), tree)),
            ).filter(on_leaf()),
        ),
{
    let q = RayIntersector { ray };
    let start = push_hit(Seq::empty(), hit_of(ray.spec_intersect_box(tree.bounding_box.bounds), tree));
    ray.lemma_intersect_box_meaning(tree.bounding_box.bounds);
    lemma_ray_deepens(ray, *tree);
    match ray.spec_intersect_box(tree.bounding_box.bounds) {
        Some(d) => {
            assert(start[0].distance == d);
            assert(d.spec_le(d));
            lemma_run_ascending(q, start, d);
        },
        None => {},
    }
    lemma_filter_ascending(run(q, start), on_leaf());
}

/// Every node that the traversal yields holds only valid triangle indices,
/// where the pending nodes do.
pub proof fn lemma_run_keeps_triangles_below<'a, A: BoxIntersector<'a>>(
    q: A,
    pending: Seq<BoxIntersect<'a>>,
    count: int,
)
    requires
        forall|j: int| 0 <= j < pending.len() ==> (#[trigger] pending[j]).node.triangles_below(count),
    ensures
        forall|j: int|
            0 <= j < run(q, pending).len() ==> (#[trigger] run(q, pending)[j]).node.triangles_below(count),
    decreases weight(pending),
{
    if pending.len() > 0 {
        crate::geometry::traversal::lemma_nearest_in_range(pending);
        let k = nearest(pending);
        let e = pending[k];
        match step_item(q, pending) {
            None => {},
            Some(item) => {
                let after = step_frontier(q, pending);
                lemma_step_decreases(q, pending);
                let rest = pending.remove(k);
                assert forall|j: int| 0 <= j < rest.len() implies (#[trigger] rest[j]).node.triangles_below(
                    count,
                ) by {
                    if j < k {
                        assert(rest[j] == pending[j]);
                    } else {
                        assert(rest[j] == pending[j + 1]);
                    }
                }
                assert forall|j: int| 0 <= j < after.len() implies (#[trigger] after[j]).node.triangles_below(
                    count,
                ) by {
                    assert(e.node.triangles_below(count));
                    if j < rest.len() {
                        assert(after[j] == rest[j]);
                    } else {
                        match (e.node.left, e.node.right) {
                            (Some(l), Some(r)) => {
                                let hl = hit_of(q.spec_intersect(l.bounding_box), &*l);
                                let one = push_hit(rest, hl);
                                if j < one.len() {
                                    assert(after[j] == one[j]);
                                }
                            },
                            _ => {},
                        }
                    }
                }
                lemma_run_keeps_triangles_below(q, after, count);
                let tail = run(q, after);
                let all = run(q, pending);
                assert(all == seq![e] + tail);
                assert forall|j: int| 0 <= j < all.len() implies (#[trigger] all[j]).node.triangles_below(
                    count,
                ) by {
                    if j > 0 {
                        assert(all[j] == tail[j - 1]);
                    }
                }
            },
        }
    }
}

/// The leaves at and under `node` that the query meets, each with the
/// distance at which it is met, as far as the query meets every node on the
/// way down to them.
pub open spec fn met_leaves<'a, A: BoxIntersector<'a>>(q: A, node: &'a KdTree) -> Multiset<BoxIntersect<'a>>
    decreases node,
{
    match q.spec_intersect(node.bounding_box) {
        None => Multiset::empty(),
        Some(distance) => if node.spec_is_leaf() {
            Multiset::singleton(BoxIntersect { distance, node })
        } else {
            match (node.left, node.right) {
                (Some(l), Some(r)) => met_leaves(q, &*l).add(met_leaves(q, &*r)),
                _ => Multiset::empty(),
            }
        },
    }
}

/// The leaves that the query meets under all the pending nodes.
pub open spec fn met_under<'a, A: BoxIntersector<'a>>(q: A, pending: Seq<BoxIntersect<'a>>) -> Multiset<
    BoxIntersect<'a>,
>
    decreases pending.len(),
{
    if pending.len() == 0 {
        Multiset::empty()
    } else {
        met_under(q, pending.drop_last()).add(met_leaves(q, pending.last().node))
    }
}

/// All through the tree, a query that meets an inner node meets one of its
/// children.
pub open spec fn covered<'a, A: BoxIntersector<'a>>(q: A, node: KdTree) -> bool
    decreases node,
{
    match (node.left, node.right) {
        (Some(l), Some(r)) => {
            &&& q.spec_intersect(node.bounding_box).is_some() ==> q.spec_intersect(l.bounding_box).is_some()
                || q.spec_intersect(r.bounding_box).is_some()
            &&& covered(q, *l)
            &&& covered(q, *r)
        },
        _ => true,
    }
}

/// Taking a node out of the pending ones takes out the leaves met under it.
proof fn lemma_met_under_remove<'a, A: BoxIntersector<'a>>(q: A, pending: Seq<BoxIntersect<'a>>, k: int)
    requires
        0 <= k < pending.len(),
    ensures
        met_under(q, pending) == met_under(q, pending.remove(k)).add(met_leaves(q, pending[k].node)),
    decreases pending.len(),
{
    broadcast use vstd::multiset::group_multiset_axioms;

    if k == pending.len() - 1 {
        assert(pending.remove(k) =~= pending.drop_last());
    } else {
        lemma_met_under_remove(q, pending.drop_last(), k);
        assert(pending.remove(k).drop_last() =~= pending.drop_last().remove(k));
        assert(pending.remove(k).last() == pending.last());
        assert(pending.drop_last()[k] == pending[k]);
        assert(met_under(q, pending) =~= met_under(q, pending.remove(k)).add(
            met_leaves(q, pending[k].node),
        ));
    }
}

/// A hit that joins the pending nodes adds the leaves met under it.
proof fn lemma_met_under_push<'a, A: BoxIntersector<'a>>(q: A, pending: Seq<BoxIntersect<'a>>, node: &'a KdTree)
    ensures
        met_under(q, push_hit(pending, hit_of(q.spec_intersect(node.bounding_box), node))) == met_under(
            q,
            pending,
        ).add(met_leaves(q, node)),
{
    broadcast use vstd::multiset::group_multiset_axioms;

    match q.spec_intersect(node.bounding_box) {
        Some(distance) => {
            let h = BoxIntersect { distance, node };
            assert(pending.push(h).drop_last() =~= pending);
        },
        None => {
            assert(met_under(q, pending).add(Multiset::empty()) =~= met_under(q, pending));
        },
    }
}

/// The traversal finds what there is to find: where a query that meets an
/// inner node always meets one of its children, the leaves yielded are
/// those that the query meets under the pending nodes, each once.
pub proof fn lemma_run_finds_met_leaves<'a, A: BoxIntersector<'a>>(q: A, pending: Seq<BoxIntersect<'a>>)
    requires
        forall|j: int|
            0 <= j < pending.len() ==> {
                let e = #[trigger] pending[j];
                &&& q.spec_intersect(e.node.bounding_box) == Some(e.distance)
                &&& e.node.well_formed()
                &&& covered(q, *e.node)
            },
    ensures
        run(q, pending).filter(on_leaf()).to_multiset() == met_under(q, pending),
    decreases weight(pending),
{
    broadcast use vstd::multiset::group_multiset_axioms;
    broadcast use vstd::seq_lib::group_to_multiset_ensures;

    reveal(Seq::filter);
    if pending.len() == 0 {
        assert(run(q, pending).filter(on_leaf()) =~= Seq::<BoxIntersect<'a>>::empty());
    } else {
        crate::geometry::traversal::lemma_nearest_in_range(pending);
        let k = nearest(pending);
        let e = pending[k];
        let rest = pending.remove(k);
        let after = step_frontier(q, pending);
        lemma_step_decreases(q, pending);
        lemma_met_under_remove(q, pending, k);
        assert forall|j: int| 0 <= j < rest.len() implies {
            let x = #[trigger] rest[j];
            &&& q.spec_intersect(x.node.bounding_box) == Some(x.distance)
            &&& x.node.well_formed()
            &&& covered(q, *x.node)
        } by {
            if j < k {
                assert(rest[j] == pending[j]);
            } else {
                assert(rest[j] == pending[j + 1]);
            }
        }
        if e.node.spec_is_leaf() {
            lemma_run_finds_met_leaves(q, after);
            let tail = run(q, after);
            assert(run(q, pending) == seq![e] + tail);
            Seq::filter_distributes_over_add(seq![e], tail, on_leaf());
            assert(seq![e].drop_last() =~= Seq::<BoxIntersect<'a>>::empty());
            assert(seq![e].filter(on_leaf()) =~= seq![e]);
            vstd::seq_lib::lemma_multiset_commutative(seq![e], tail.filter(on_leaf()));
            assert(seq![e].to_multiset() =~= Multiset::singleton(e)) by {
                assert(seq![e] =~= Seq::<BoxIntersect<'a>>::empty().push(e));
            }
            assert(met_leaves(q, e.node) =~= Multiset::singleton(e));
            assert(Multiset::singleton(e).add(met_under(q, rest)) =~= met_under(q, rest).add(
                Multiset::singleton(e),
            ));
        } else {
            match (e.node.left, e.node.right) {
                (Some(l), Some(r)) => {
                    let hl = hit_of(q.spec_intersect(l.bounding_box), &*l);
                    let hr = hit_of(q.spec_intersect(r.bounding_box), &*r);
                    let one = push_hit(rest, hl);
                    lemma_met_under_push(q, rest, &*l);
                    lemma_met_under_push(q, one, &*r);
                    assert(covered(q, *e.node));
                    assert(e.node.well_formed());
                    assert forall|j: int| 0 <= j < after.len() implies {
                        let x = #[trigger] after[j];
                        &&& q.spec_intersect(x.node.bounding_box) == Some(x.distance)
                        &&& x.node.well_formed()
                        &&& covered(q, *x.node)
                    } by {
                        if j < rest.len() {
                            assert(after[j] == rest[j]);
                        } else if j < one.len() {
                            assert(after[j] == one[j]);
                        }
                    }
                    lemma_run_finds_met_leaves(q, after);
                    let tail = run(q, after);
                    assert(step_item(q, pending) == Some(e));
                    assert(run(q, pending) == seq![e] + tail);
                    Seq::filter_distributes_over_add(seq![e], tail, on_leaf());
                    assert(seq![e].drop_last() =~= Seq::<BoxIntersect<'a>>::empty());
                    assert(seq![e].last() == e);
                    assert(!on_leaf()(e));
                    assert(Seq::<BoxIntersect<'a>>::empty().filter(on_leaf()) =~= Seq::<
                        BoxIntersect<'a>,
                    >::empty());
                    assert(seq![e].filter(on_leaf()) =~= Seq::<BoxIntersect<'a>>::empty());
                    assert(seq![e].filter(on_leaf()) + tail.filter(on_leaf()) =~= tail.filter(on_leaf()));
                    assert(met_under(q, rest).add(met_leaves(q, &*l)).add(met_leaves(q, &*r))
                        =~= met_under(q, rest).add(met_leaves(q, &*l).add(met_leaves(q, &*r))));
                },
                _ => {
                    assert(e.node.well_formed());
                },
            }
        }
    }
}

/// All the leaves at and under `node` whose box the query meets, each with
/// the distance at which it is met.
pub open spec fn leaves_meeting<'a, A: BoxIntersector<'a>>(q: A, node: &'a KdTree) -> Multiset<
    BoxIntersect<'a>,
>
    decreases node,
{
    if node.spec_is_leaf() {
        match q.spec_intersect(node.bounding_box) {
            Some(distance) => Multiset::singleton(BoxIntersect { distance, node }),
            None => Multiset::empty(),
        }
    } else {
        match (node.left, node.right) {
            (Some(l), Some(r)) => leaves_meeting(q, &*l).add(leaves_meeting(q, &*r)),
            _ => Multiset::empty(),
        }
    }
}

/// A ray that meets a box meets one of its two halves, and a ray that misses
/// it misses both.
pub proof fn lemma_ray_meets_a_half<'a>(
    ray: &'a Ray,
    parent: AxisAlignedBoundingBox,
    left: AxisAlignedBoundingBox,
    right: AxisAlignedBoundingBox,
    axis: int,
    at: int,
)
    requires
        ray.well_formed(),
        0 <= axis < 3,
        halves(parent, left, right, axis, at),
    ensures
        ray.spec_intersect_box(parent.bounds).is_some() <==> ray.spec_intersect_box(left.bounds).is_some()
            || ray.spec_intersect_box(right.bounds).is_some(),
{
    ray.lemma_intersect_box_meaning(parent.bounds);
    ray.lemma_intersect_box_meaning(left.bounds);
    ray.lemma_intersect_box_meaning(right.bounds);
    if let Some(t) = ray.spec_intersect_box(parent.bounds) {
        let (n, m) = (t.num as int, t.den as int);
        assert(ray.reaches(parent.bounds, n, m));
        assert(ray.reaches(left.bounds, n, m) || ray.reaches(right.bounds, n, m));
    }
    if let Some(t) = ray.spec_intersect_box(left.bounds) {
        lemma_reaches_between(*ray, left.bounds, parent.bounds, t.num as int, t.den as int, axis, at);
    }
    if let Some(t) = ray.spec_intersect_box(right.bounds) {
        lemma_reaches_between(*ray, right.bounds, parent.bounds, t.num as int, t.den as int, axis, at);
    }
}

/// A point of a line that lies in a half of a box lies in the box.
proof fn lemma_reaches_between(
    ray: Ray,
    half: [Position; 2],
    whole: [Position; 2],
    n: int,
    m: int,
    axis: int,
    at: int,
)
    requires
        m > 0,
        0 <= axis < 3,
        ray.reaches(half, n, m),
        whole[0]@.coord(axis) <= at <= whole[1]@.coord(axis),
        (half[0]@ == whole[0]@ && half[1]@ == whole[1]@.with_coord(axis, at)) || (half[0]@
            == whole[0]@.with_coord(axis, at) && half[1]@ == whole[1]@),
    ensures
        ray.reaches(whole, n, m),
{
    lemma_reaches_enclosing(ray, half, whole, n, m);
}

/// In a well-formed tree, a ray that meets an inner node meets one of its
/// children.
pub proof fn lemma_ray_covered<'a>(ray: &'a Ray, node: KdTree)
    requires
        ray.well_formed(),
        node.well_formed(),
    ensures
        covered(RayIntersector { ray }, node),
        leaves_meeting(RayIntersector { ray }, &node) == met_leaves(RayIntersector { ray }, &node),
    decreases node,
{
    broadcast use vstd::multiset::group_multiset_axioms;

    let q = RayIntersector { ray };
    match (node.left, node.right) {
        (Some(l), Some(r)) => {
            let axis = choose|axis: int|
                0 <= axis < 3 && #[trigger] halves(
                    node.bounding_box,
                    l.bounding_box,
                    r.bounding_box,
                    axis,
                    l.bounding_box.max().coord(axis),
                );
            lemma_ray_meets_a_half(
                ray,
                node.bounding_box,
                l.bounding_box,
                r.bounding_box,
                axis,
                l.bounding_box.max().coord(axis),
            );
            lemma_ray_covered(ray, *l);
            lemma_ray_covered(ray, *r);
            if q.spec_intersect(node.bounding_box).is_none() {
                // neither child is met, and under a child that is not met
                // no leaf is met
                assert(met_leaves(q, &*l) =~= Multiset::empty());
                assert(met_leaves(q, &*r) =~= Multiset::empty());
                assert(leaves_meeting(q, &node) =~= Multiset::empty());
            }
        },
        _ => {},
    }
}

/// A ray's traversal of a well-formed tree yields every leaf whose box the
/// ray meets, once, with the distance at which it is met, and no other
/// leaf.
pub proof fn lemma_ray_finds_every_leaf<'a>(ray: &'a Ray, tree: &'a KdTree)
    requires
        ray.well_formed(),
        tree.well_formed(),
    ensures
        run(
            RayIntersector { ray },
            push_hit(Seq::empty(), hit_of(ray.spec_intersect_box(tree.bounding_box.bounds), tree)),
        ).filter(on_leaf()).to_multiset() == leaves_meeting(RayIntersector { ray }, tree),
{
    broadcast use vstd::multiset::group_multiset_axioms;

    let q = RayIntersector { ray };
    let start = push_hit(Seq::empty(), hit_of(ray.spec_intersect_box(tree.bounding_box.bounds), tree));
    lemma_ray_covered(ray, *tree);
    lemma_run_finds_met_leaves(q, start);
    match ray.spec_intersect_box(tree.bounding_box.bounds) {
        Some(d) => {
            assert(start.drop_last() =~= Seq::<BoxIntersect<'a>>::empty());
            assert(met_under(q, start.drop_last()) =~= Multiset::empty());
            assert(met_under(q, start) =~= met_leaves(q, tree));
        },
        None => {
            assert(met_leaves(q, tree) =~= Multiset::empty());
        },
    }
}

} // verus!
