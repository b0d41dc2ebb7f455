//! Walks over the tree: the nodes that a query meets, nearest first, and all
//! the leaves under a node.

use vstd::prelude::*;
use crate::geometry::bounding_box::AxisAlignedBoundingBox;
use crate::geometry::distance::{lemma_ratio_le_transitive, Distance};
use crate::geometry::kdtree::KdTree;
use crate::geometry::ray::Ray;
use crate::geometry::types::{Direction, Position};

verus! {

/// A node that a query meets, with the distance at which it does.
#[derive(Clone, Copy, Debug)]
pub struct BoxIntersect<'a> {
    pub distance: Distance,
    pub node: &'a KdTree,
}

/// A query that can be held against the box of a node: a ray, a triangle.
pub trait BoxIntersector<'a> {
    /// What the query needs to be well-formed.
    spec fn ready(&self) -> bool;

    /// The distance at which the query meets the box, if it does.
    spec fn spec_intersect(&self, b: AxisAlignedBoundingBox) -> Option<Distance>;

    /// The node with the distance at which the query meets its box, if it
    /// does.
    fn intersect_box(&self, kdt_node: &'a KdTree) -> (hit: Option<BoxIntersect<'a>>)
        requires
            self.ready(),
        ensures
            hit == hit_of(self.spec_intersect(kdt_node.bounding_box), kdt_node),
            hit.is_some() ==> hit.unwrap().distance.well_formed(),
    ;
}

/// The hit on `node` at the distance `d`, if there is one.
pub open spec fn hit_of<'a>(d: Option<Distance>, node: &'a KdTree) -> Option<BoxIntersect<'a>> {
    match d {
        Some(distance) => Some(BoxIntersect { distance, node }),
        None => None,
    }
}

/// A ray as a query: it meets a box at the parameter that
/// [`Ray::intersect_box`] gives.
pub struct RayIntersector<'a> {
    pub ray: &'a Ray,
}

impl<'a> BoxIntersector<'a> for RayIntersector<'a> {
    open spec fn ready(&self) -> bool {
        self.ray.well_formed()
    }

    open spec fn spec_intersect(&self, b: AxisAlignedBoundingBox) -> Option<Distance> {
        self.ray.spec_intersect_box(b.bounds)
    }

    fn intersect_box(&self, kdt_node: &'a KdTree) -> (hit: Option<BoxIntersect<'a>>) {
        let hit = self.ray.intersect_box(&kdt_node.bounding_box.bounds);
        match hit {
            Some(distance) => Some(BoxIntersect { distance, node: kdt_node }),
            None => None,
        }
    }
}

/// A triangle as a query: it meets a box where no axis separates the two,
/// and then at the distance one, whichever the box.
pub struct TriangleIntersector<'a> {
    pub t0: &'a Position,
    pub t1: &'a Position,
    pub t2: &'a Position,
    pub n: &'a Direction,
}

impl<'a> BoxIntersector<'a> for TriangleIntersector<'a> {
    open spec fn ready(&self) -> bool {
        true
    }

    open spec fn spec_intersect(&self, b: AxisAlignedBoundingBox) -> Option<Distance> {
        if b.separated(self.t0@, self.t1@, self.t2@, Some(self.n@)) {
            None
        } else {
            Some(Distance { num: 1, den: 1 })
        }
    }

    fn intersect_box(&self, kdt_node: &'a KdTree) -> (hit: Option<BoxIntersect<'a>>) {
        let hit = kdt_node.bounding_box.intersect_triangle(self.t0, self.t1, self.t2, Some(self.n));
        if hit {
            Some(BoxIntersect { distance: Distance::whole(1), node: kdt_node })
        } else {
            None
        }
    }
}

/// The index of the nearest pending node; of several at the same distance,
/// the one that has waited longest.
pub open spec fn nearest<'a>(pending: Seq<BoxIntersect<'a>>) -> int
    decreases pending.len(),
{
    if pending.len() <= 1 {
        0
    } else {
        let k = nearest(pending.drop_last());
        if pending.last().distance.spec_lt(pending[k].distance) {
            pending.len() - 1
        } else {
            k
        }
    }
}

/// The nearest pending node is one of them, and none is nearer.
pub proof fn lemma_nearest<'a>(pending: Seq<BoxIntersect<'a>>)
    requires
        pending.len() > 0,
        forall|j: int| 0 <= j < pending.len() ==> (#[trigger] pending[j]).distance.well_formed(),
    ensures
        0 <= nearest(pending) < pending.len(),
        forall|j: int|
            0 <= j < pending.len() ==> pending[nearest(pending)].distance.spec_le(
                (#[trigger] pending[j]).distance,
            ),
    decreases pending.len(),
{
    if pending.len() > 1 {
        let rest = pending.drop_last();
        lemma_nearest(rest);
        let k = nearest(rest);
        let last = pending.last().distance;
        let best = pending[nearest(pending)].distance;
        assert forall|j: int| 0 <= j < pending.len() implies best.spec_le(
            (#[trigger] pending[j]).distance,
        ) by {
            if j < pending.len() - 1 {
                assert(rest[j] == pending[j]);
                assert(rest[k].distance.spec_le(rest[j].distance));
                if last.spec_lt(pending[k].distance) {
                    lemma_ratio_le_transitive(
                        last.num as int,
                        last.den as int,
                        rest[k].distance.num as int,
                        rest[k].distance.den as int,
                        rest[j].distance.num as int,
                        rest[j].distance.den as int,
                    );
                }
            }
        }
    }
}

/// `pending` with one more hit at its end, if there is one.
pub open spec fn push_hit<'a>(pending: Seq<BoxIntersect<'a>>, hit: Option<BoxIntersect<'a>>) -> Seq<
    BoxIntersect<'a>,
> {
    match hit {
        Some(h) => pending.push(h),
        None => pending,
    }
}

/// The pending nodes after one pull: the nearest has left, and where it is an
/// inner node, those of its children that the query meets have joined at
/// the end, the left one first.
pub open spec fn step_frontier<'a, A: BoxIntersector<'a>>(q: A, pending: Seq<BoxIntersect<'a>>) -> Seq<
    BoxIntersect<'a>,
> {
    let k = nearest(pending);
    let node = pending[k].node;
    let rest = pending.remove(k);
    if node.spec_is_leaf() {
        rest
    } else {
        match (node.left, node.right) {
            (Some(l), Some(r)) => push_hit(
                push_hit(rest, hit_of(q.spec_intersect(l.bounding_box), &*l)),
                hit_of(q.spec_intersect(r.bounding_box), &*r),
            ),
            _ => rest,
        }
    }
}

/// What one pull yields: the nearest pending node, unless it is an inner
/// node of whose children the query meets neither.
pub open spec fn step_item<'a, A: BoxIntersector<'a>>(q: A, pending: Seq<BoxIntersect<'a>>) -> Option<
    BoxIntersect<'a>,
> {
    let k = nearest(pending);
    let node = pending[k].node;
    if node.spec_is_leaf() {
        Some(pending[k])
    } else {
        match (node.left, node.right) {
            (Some(l), Some(r)) => if q.spec_intersect(l.bounding_box).is_none() && q.spec_intersect(
                r.bounding_box,
            ).is_none() {
                None
            } else {
                Some(pending[k])
            },
            _ => None,
        }
    }
}

/// The number of nodes in the subtrees of the pending nodes.
pub open spec fn weight<'a>(pending: Seq<BoxIntersect<'a>>) -> nat
    decreases pending.len(),
{
    if pending.len() == 0 {
        0
    } else {
        weight(pending.drop_last()) + pending.last().node.size()
    }
}

/// Taking a node out of the pending ones takes its subtree out of the
/// weight.
pub proof fn lemma_weight_remove<'a>(pending: Seq<BoxIntersect<'a>>, k: int)
    requires
        0 <= k < pending.len(),
    ensures
        weight(pending) == weight(pending.remove(k)) + pending[k].node.size(),
    decreases pending.len(),
{
    if k == pending.len() - 1 {
        assert(pending.remove(k) =~= pending.drop_last());
    } else {
        lemma_weight_remove(pending.drop_last(), k);
        assert(pending.remove(k).drop_last() =~= pending.drop_last().remove(k));
        assert(pending.remove(k).last() == pending.last());
    }
}

/// A hit that joins the pending ones adds at most its subtree to the weight.
pub proof fn lemma_weight_push<'a>(pending: Seq<BoxIntersect<'a>>, hit: Option<BoxIntersect<'a>>)
    ensures
        weight(push_hit(pending, hit)) == weight(pending) + (match hit {
            Some(h) => h.node.size(),
            None => 0,
        }),
{
    if let Some(h) = hit {
        assert(pending.push(h).drop_last() =~= pending);
    }
}

/// Every pull takes at least one node out of the weight.
pub proof fn lemma_step_decreases<'a, A: BoxIntersector<'a>>(q: A, pending: Seq<BoxIntersect<'a>>)
    requires
        pending.len() > 0,
        0 <= nearest(pending) < pending.len(),
    ensures
        weight(step_frontier(q, pending)) < weight(pending),
{
    let k = nearest(pending);
    let node = pending[k].node;
    let rest = pending.remove(k);
    lemma_weight_remove(pending, k);
    if !node.spec_is_leaf() {
        match (node.left, node.right) {
            (Some(l), Some(r)) => {
                let one = push_hit(rest, hit_of(q.spec_intersect(l.bounding_box), &*l));
                lemma_weight_push(rest, hit_of(q.spec_intersect(l.bounding_box), &*l));
                lemma_weight_push(one, hit_of(q.spec_intersect(r.bounding_box), &*r));
            },
            _ => {},
        }
    }
}

/// The index of the nearest pending node lies among them.
pub proof fn lemma_nearest_in_range<'a>(pending: Seq<BoxIntersect<'a>>)
    requires
        pending.len() > 0,
    ensures
        0 <= nearest(pending) < pending.len(),
    decreases pending.len(),
{
    if pending.len() > 1 {
        lemma_nearest_in_range(pending.drop_last());
    }
}

/// All that the traversal yields from the pending nodes on: pull after pull,
/// until nothing is pending or a pull yields nothing.
pub open spec fn run<'a, A: BoxIntersector<'a>>(q: A, pending: Seq<BoxIntersect<'a>>) -> Seq<
    BoxIntersect<'a>,
>
    decreases weight(pending),
{
    if pending.len() == 0 {
        Seq::empty()
    } else {
        match step_item(q, pending) {
            None => Seq::empty(),
            Some(e) => {
                proof {
                    lemma_nearest_in_range(pending);
                    lemma_step_decreases(q, pending);
                }
                seq![e] + run(q, step_frontier(q, pending))
            },
        }
    }
}

/// The hits on leaves.
pub open spec fn on_leaf<'a>() -> spec_fn(BoxIntersect<'a>) -> bool {
    |e: BoxIntersect<'a>| e.node.spec_is_leaf()
}

/// The hits up to the first one on a leaf, that one included.
pub open spec fn until_leaf<'a>(hits: Seq<BoxIntersect<'a>>) -> Seq<BoxIntersect<'a>>
    decreases hits.len(),
{
    if hits.len() == 0 {
        hits
    } else if hits[0].node.spec_is_leaf() {
        seq![hits[0]]
    } else {
        seq![hits[0]] + until_leaf(hits.drop_first())
    }
}

/// A traversal of the nodes that a query meets, nearest first. It holds the
/// nodes that are still to be visited, in the order in which they were
/// found.
pub struct BoxIntersectIter<'a, A: BoxIntersector<'a>> {
    pub next_nodes: Vec<BoxIntersect<'a>>,
    pub box_intersector: A,
}

impl<'a, A: BoxIntersector<'a>> BoxIntersectIter<'a, A> {
    /// The query is well-formed, and every pending node is a well-formed
    /// tree that the query meets at the distance noted.
    pub open spec fn inv(self) -> bool {
        &&& self.box_intersector.ready()
        &&& forall|j: int|
            0 <= j < self.next_nodes@.len() ==> {
                let e = #[trigger] self.next_nodes@[j];
                &&& e.distance.well_formed()
                &&& e.node.well_formed()
                &&& self.box_intersector.spec_intersect(e.node.bounding_box) == Some(e.distance)
            }
    }

    /// The traversal of the tree under `first_node`: it starts at that node
    /// if the query meets its box, and is empty if not.
    pub fn new(box_intersector: A, first_node: &'a KdTree) -> (it: BoxIntersectIter<'a, A>)
        requires
            box_intersector.ready(),
            first_node.well_formed(),
        ensures
            it.inv(),
            it.box_intersector == box_intersector,
            it.next_nodes@ == push_hit(
                Seq::empty(),
                hit_of(box_intersector.spec_intersect(first_node.bounding_box), first_node),
            ),
    {
        let mut next_nodes: Vec<BoxIntersect<'a>> = Vec::new();
        let intersect = box_intersector.intersect_box(first_node);
        if let Some(hit) = intersect {
            next_nodes.push(hit);
        }
        BoxIntersectIter { next_nodes, box_intersector }
    }

    /// The index of the nearest pending node.
    fn nearest_index(&self) -> (k: usize)
        requires
            self.next_nodes.len() > 0,
        ensures
            k == nearest(self.next_nodes@),
            k < self.next_nodes.len(),
    {
        let mut k: usize = 0;
        let mut j: usize = 1;
        assert(self.next_nodes@.take(1).len() == 1);
        while j < self.next_nodes.len()
            invariant
                1 <= j <= self.next_nodes.len(),
                k < j,
                k == nearest(self.next_nodes@.take(j as int)),
            decreases self.next_nodes.len() - j,
        {
            proof {
                let next = self.next_nodes@.take(j as int + 1);
                assert(next.drop_last() =~= self.next_nodes@.take(j as int));
                assert(next.last() == self.next_nodes@[j as int]);
                assert(next[k as int] == self.next_nodes@[k as int]);
            }
            if self.next_nodes[j].distance.lt(&self.next_nodes[k].distance) {
                k = j;
            }
            j = j + 1;
        }
        assert(self.next_nodes@.take(j as int) == self.next_nodes@);
        k
    }

    /// The next node of the traversal: the nearest pending one, whose
    /// children that the query meets become pending in its place. Nothing
    /// is yielded where nothing is pending, nor for an inner node of whose
    /// children the query meets neither.
    pub fn next(&mut self) -> (item: Option<BoxIntersect<'a>>)
        requires
            old(self).inv(),
        ensures
            final(self).inv(),
            final(self).box_intersector == old(self).box_intersector,
            old(self).next_nodes@.len() == 0 ==> item.is_none() && final(self).next_nodes@ == old(
                self,
            ).next_nodes@,
            old(self).next_nodes@.len() > 0 ==> item == step_item(
                old(self).box_intersector,
                old(self).next_nodes@,
            ) && final(self).next_nodes@ == step_frontier(
                old(self).box_intersector,
                old(self).next_nodes@,
            ),
    {
        if self.next_nodes.len() == 0 {
            return None;
        }
        let k: usize = self.nearest_index();
        let cur_node: BoxIntersect<'a> = self.next_nodes.remove(k);
        if cur_node.node.is_leaf() {
            return Some(cur_node);
        }
        let node: &'a KdTree = cur_node.node;
        assert(node.well_formed());
        match (&node.left, &node.right) {
            (Some(left_child), Some(right_child)) => {
                let intersect_left = self.box_intersector.intersect_box(left_child);
                let intersect_right = self.box_intersector.intersect_box(right_child);
                match (intersect_left, intersect_right) {
                    (None, None) => {
                        return None;
                    },
                    (Some(i_left), None) => {
                        self.next_nodes.push(i_left);
                    },
                    (None, Some(i_right)) => {
                        self.next_nodes.push(i_right);
                    },
                    (Some(i_left), Some(i_right)) => {
                        self.next_nodes.push(i_left);
                        self.next_nodes.push(i_right);
                    },
                }
                Some(cur_node)
            },
            _ => None,
        }
    }

    /// The next leaf of the traversal: nodes are pulled until one is a leaf.
    /// Nothing is returned where the traversal ends before it yields a leaf.
    pub fn next_leaf(&mut self) -> (item: Option<BoxIntersect<'a>>)
        requires
            old(self).inv(),
        ensures
            final(self).inv(),
            final(self).box_intersector == old(self).box_intersector,
            match item {
                Some(e) => e.node.spec_is_leaf() && run(
                    old(self).box_intersector,
                    old(self).next_nodes@,
                ).filter(on_leaf()) == seq![e] + run(
                    final(self).box_intersector,
                    final(self).next_nodes@,
                ).filter(on_leaf()),
                None => run(old(self).box_intersector, old(self).next_nodes@).filter(on_leaf()).len() == 0,
            },
            item.is_some() ==> weight(final(self).next_nodes@) < weight(old(self).next_nodes@),
    {
        let ghost q = self.box_intersector;
        let ghost start = self.next_nodes@;
        let ghost mut skipped: Seq<BoxIntersect<'a>> = Seq::empty();
        proof {
            reveal(Seq::filter);
            assert(skipped + run(q, start) =~= run(q, start));
        }
        loop
            invariant
                self.inv(),
                self.box_intersector == q,
                q == old(self).box_intersector,
                start == old(self).next_nodes@,
                skipped.filter(on_leaf()).len() == 0,
                run(q, start) == skipped + run(q, self.next_nodes@),
                weight(self.next_nodes@) <= weight(start),
            decreases weight(self.next_nodes@),
        {
            let ghost before = self.next_nodes@;
            proof {
                if before.len() > 0 {
                    lemma_nearest_in_range(before);
                    lemma_step_decreases(q, before);
                }
                Seq::filter_distributes_over_add(skipped, run(q, before), on_leaf());
            }
            if self.next_nodes.len() == 0 {
                proof {
                    assert(run(q, before) =~= Seq::<BoxIntersect<'a>>::empty());
                    assert(skipped + run(q, before) =~= skipped);
                }
                return None;
            }
            match self.next() {
                None => {
                    proof {
                        assert(skipped + run(q, before) =~= skipped);
                    }
                    return None;
                },
                Some(e) => {
                    let ghost rest = run(q, self.next_nodes@);
                    proof {
                        reveal(Seq::filter);
                        assert(run(q, before) == seq![e] + rest);
                        Seq::filter_distributes_over_add(seq![e], rest, on_leaf());
                        assert(seq![e].drop_last() =~= Seq::<BoxIntersect<'a>>::empty());
                        assert(seq![e].last() == e);
                    }
                    if e.node.is_leaf() {
                        proof {
                            assert(seq![e].filter(on_leaf()) =~= seq![e]);
                            assert(skipped.filter(on_leaf()) =~= Seq::<BoxIntersect<'a>>::empty());
                            assert(Seq::<BoxIntersect<'a>>::empty() + (seq![e] + rest.filter(on_leaf()))
                                =~= seq![e] + rest.filter(on_leaf()));
                        }
                        return Some(e);
                    }
                    proof {
                        let more = skipped.push(e);
                        assert(more.drop_last() =~= skipped);
                        assert(skipped + (seq![e] + rest) =~= more + rest);
                        skipped = more;
                    }
                },
            }
        }
    }

    /// All the leaves that the traversal yields, in its order: all that is
    /// pulled until nothing is left or a pull yields nothing, less the inner
    /// nodes.
    pub fn leaves(self) -> (found: Vec<BoxIntersect<'a>>)
        requires
            self.inv(),
        ensures
            found@ == run(self.box_intersector, self.next_nodes@).filter(on_leaf()),
    {
        let ghost q = self.box_intersector;
        let ghost start = self.next_nodes@;
        let ghost mut yielded: Seq<BoxIntersect<'a>> = Seq::empty();
        let mut it = self;
        let mut found: Vec<BoxIntersect<'a>> = Vec::new();
        let mut done: bool = false;
        proof {
            reveal(Seq::filter);
            assert(yielded + run(q, start) =~= run(q, start));
        }
        while !done
            invariant
                it.inv(),
                it.box_intersector == q,
                found@ == yielded.filter(on_leaf()),
                done ==> run(q, start) == yielded,
                !done ==> run(q, start) == yielded + run(q, it.next_nodes@),
            decreases
                    (if done {
                        0
                    } else {
                        1 + weight(it.next_nodes@)
                    }),
        {
            let ghost before = it.next_nodes@;
            proof {
                if before.len() > 0 {
                    lemma_nearest_in_range(before);
                    lemma_step_decreases(q, before);
                }
            }
            if it.next_nodes.len() == 0 {
                done = true;
                assert(yielded + run(q, before) =~= yielded);
            } else {
                match it.next() {
                    None => {
                        done = true;
                        assert(yielded + run(q, before) =~= yielded);
                    },
                    Some(e) => {
                        proof {
                            reveal(Seq::filter);
                            let more = yielded.push(e);
                            assert(more.drop_last() =~= yielded);
                            assert(yielded + (seq![e] + run(q, it.next_nodes@)) =~= more + run(
                                q,
                                it.next_nodes@,
                            ));
                            yielded = more;
                        }
                        if e.node.is_leaf() {
                            found.push(e);
                        }
                    },
                }
            }
        }
        found
    }

    /// The nearest branch: the nodes that the traversal yields up to its first
    /// leaf, that leaf included.
    pub fn closest_branch(self) -> (found: Vec<BoxIntersect<'a>>)
        requires
            self.inv(),
        ensures
            found@ == until_leaf(run(self.box_intersector, self.next_nodes@)),
    {
        let ghost q = self.box_intersector;
        let ghost start = self.next_nodes@;
        let mut it = self;
        let mut found: Vec<BoxIntersect<'a>> = Vec::new();
        let mut done: bool = false;
        proof {
            assert(found@ + until_leaf(run(q, start)) =~= until_leaf(run(q, start)));
        }
        while !done
            invariant
                it.inv(),
                it.box_intersector == q,
                done ==> until_leaf(run(q, start)) == found@,
                !done ==> until_leaf(run(q, start)) == found@ + until_leaf(run(q, it.next_nodes@)),
            decreases
                    (if done {
                        0
                    } else {
                        1 + weight(it.next_nodes@)
                    }),
        {
            let ghost before = it.next_nodes@;
            let ghost had = found@;
            proof {
                if before.len() > 0 {
                    lemma_nearest_in_range(before);
                    lemma_step_decreases(q, before);
                }
            }
            if it.next_nodes.len() == 0 {
                done = true;
                assert(had + until_leaf(run(q, before)) =~= had);
            } else {
                match it.next() {
                    None => {
                        done = true;
                        assert(had + until_leaf(run(q, before)) =~= had);
                    },
                    Some(e) => {
                        found.push(e);
                        proof {
                            let all = run(q, before);
                            let rest = run(q, it.next_nodes@);
                            assert(all == seq![e] + rest);
                            assert(all[0] == e);
                            assert(all.drop_first() =~= rest);
                            if e.node.spec_is_leaf() {
                                assert(had + seq![e] =~= found@);
                            } else {
                                assert(had + (seq![e] + until_leaf(rest)) =~= found@ + until_leaf(
                                    rest,
                                ));
                            }
                        }
                        if e.node.is_leaf() {
                            done = true;
                        }
                    },
                }
            }
        }
        found
    }
}

/// The traversal of the nodes under `kdtree` that the ray meets, nearest
/// first.
pub fn iter_intersect_ray<'a>(kdtree: &'a KdTree, ray: &'a Ray) -> (it: BoxIntersectIter<
    'a,
    RayIntersector<'a>,
>)
    requires
        kdtree.well_formed(),
        ray.well_formed(),
    ensures
        it.inv(),
        it.box_intersector.ray == ray,
        it.next_nodes@ == push_hit(
            Seq::empty(),
            hit_of(ray.spec_intersect_box(kdtree.bounding_box.bounds), kdtree),
        ),
{
    let ray_box_intersector = RayIntersector { ray };
    BoxIntersectIter::new(ray_box_intersector, kdtree)
}

/// The traversal of the nodes under `kdtree` that the triangle meets; `n` is
/// the axis tried as the triangle's normal.
pub fn iter_intersect_triangle<'a>(
    kdtree: &'a KdTree,
    t0: &'a Position,
    t1: &'a Position,
    t2: &'a Position,
    n: &'a Direction,
) -> (it: BoxIntersectIter<'a, TriangleIntersector<'a>>)
    requires
        kdtree.well_formed(),
    ensures
        it.inv(),
        it.box_intersector.t0 == t0,
        it.box_intersector.t1 == t1,
        it.box_intersector.t2 == t2,
        it.box_intersector.n == n,
        it.next_nodes@ == push_hit(
            Seq::empty(),
            hit_of(it.box_intersector.spec_intersect(kdtree.bounding_box), kdtree),
        ),
{
    let triangle_box_intersector = TriangleIntersector { t0, t1, t2, n };
    BoxIntersectIter::new(triangle_box_intersector, kdtree)
}

/// The leaves under a node, from right to left: the order in which a
/// depth-first walk that takes the child found last first comes by them.
pub open spec fn mirrored_leaves(node: KdTree) -> Seq<KdTree>
    decreases node,
{
    if node.spec_is_leaf() {
        seq![node]
    } else {
        side_leaves(node.right) + side_leaves(node.left)
    }
}

/// The leaves under a child, from right to left; none where it is missing.
pub open spec fn side_leaves(child: Option<Box<KdTree>>) -> Seq<KdTree>
    decreases child,
{
    match child {
        Some(c) => mirrored_leaves(*c),
        None => Seq::empty(),
    }
}

/// The leaves that a walk has still to yield: those under its pending nodes,
/// the node found last first.
pub open spec fn remaining<'a>(pending: Seq<&'a KdTree>) -> Seq<KdTree>
    decreases pending.len(),
{
    if pending.len() == 0 {
        Seq::empty()
    } else {
        mirrored_leaves(*pending.last()) + remaining(pending.drop_last())
    }
}

/// The number of nodes under the pending nodes of a walk.
pub open spec fn stack_weight<'a>(pending: Seq<&'a KdTree>) -> nat
    decreases pending.len(),
{
    if pending.len() == 0 {
        0
    } else {
        stack_weight(pending.drop_last()) + pending.last().size()
    }
}

/// A depth-first walk over all the leaves under a node, whatever query they
/// meet. It holds the nodes still to be visited, the next one last.
pub struct KdTreeLeafIter<'a> {
    pub pending: Vec<&'a KdTree>,
}

impl<'a> KdTreeLeafIter<'a> {
    /// The walk over the leaves under `first_node`.
    pub fn new(first_node: &'a KdTree) -> (it: KdTreeLeafIter<'a>)
        ensures
            it.pending@ == seq![first_node],
            remaining(it.pending@) == mirrored_leaves(*first_node),
    {
        let mut pending: Vec<&'a KdTree> = Vec::new();
        pending.push(first_node);
        proof {
            assert(pending@ =~= seq![first_node]);
            assert(pending@.drop_last() =~= Seq::<&'a KdTree>::empty());
            assert(remaining(pending@.drop_last()) =~= Seq::<KdTree>::empty());
            assert(mirrored_leaves(*first_node) + Seq::<KdTree>::empty() =~= mirrored_leaves(*first_node));
        }
        KdTreeLeafIter { pending }
    }

    /// The next leaf of the walk; nothing when every leaf has been yielded.
    pub fn next(&mut self) -> (leaf: Option<&'a KdTree>)
        ensures
            match leaf {
                Some(node) => node.spec_is_leaf() && remaining(old(self).pending@) == seq![*node] + remaining(
                    final(self).pending@,
                ),
                None => remaining(old(self).pending@).len() == 0 && final(self).pending@.len() == 0,
            },
    {
        let ghost start = self.pending@;
        while self.pending.len() > 0
            invariant
                start == old(self).pending@,
                remaining(self.pending@) == remaining(start),
            decreases stack_weight(self.pending@),
        {
            let ghost before = self.pending@;
            let current: &'a KdTree = self.pending.pop().unwrap();
            let ghost rest = self.pending@;
            assert(rest == before.drop_last());
            assert(before.last() == current);
            assert(remaining(before) == mirrored_leaves(*current) + remaining(rest));
            assert(stack_weight(before) == stack_weight(rest) + current.size());
            if current.is_leaf() {
                return Some(current);
            }
            let ghost left_part: Seq<KdTree> = side_leaves(current.left);
            if let Some(left_child) = &current.left {
                let ghost had = self.pending@;
                self.pending.push(left_child);
                proof {
                    assert(self.pending@.drop_last() =~= had);
                    assert(self.pending@.last() == left_child);
                }
            }
            assert(stack_weight(self.pending@) == stack_weight(rest) + (match current.left {
                Some(l) => l.size(),
                None => 0,
            }));
            proof {
                assert(left_part + remaining(rest) =~= remaining(self.pending@)) by {
                    if current.left.is_none() {
                        assert(Seq::<KdTree>::empty() + remaining(rest) =~= remaining(rest));
                    }
                }
            }
            let ghost middle = self.pending@;
            if let Some(right_child) = &current.right {
                self.pending.push(right_child);
                proof {
                    assert(self.pending@.drop_last() =~= middle);
                    assert(self.pending@.last() == right_child);
                }
            }
            assert(stack_weight(self.pending@) == stack_weight(middle) + (match current.right {
                Some(r) => r.size(),
                None => 0,
            }));
            proof {
                let right_part = side_leaves(current.right);
                assert(right_part + remaining(middle) =~= remaining(self.pending@)) by {
                    if current.right.is_none() {
                        assert(Seq::<KdTree>::empty() + remaining(middle) =~= remaining(middle));
                    }
                }
                assert(right_part + (left_part + remaining(rest)) =~= (right_part + left_part)
                    + remaining(rest));
            }
        }
        None
    }
}

} // verus!
