//! The median coordinate of a set of vertices.

use vstd::prelude::*;
use vstd::relations::{sorted_by, total_ordering};
use vstd::seq_lib::lemma_sorted_unique;
use crate::geometry::types::Position;

verus! {

/// The usual order of the coordinates.
pub open spec fn leq() -> spec_fn(i32, i32) -> bool {
    |a: i32, b: i32| a <= b
}

/// The coordinates on `axis` of the vertices that `ids` names, in the order
/// of `ids`.
pub open spec fn coords(vertices: Seq<Position>, ids: Seq<usize>, axis: int) -> Seq<i32> {
    Seq::new(ids.len(), |k: int| vertices[ids[k] as int].spec_get(axis))
}

/// The median of a list of values: of the values in ascending order, the one
/// in the middle; of an even number of them, the upper of the two.
pub open spec fn median(values: Seq<i32>) -> i32 {
    values.sort_by(leq())[values.len() as int / 2]
}

/// The usual order is total.
pub proof fn lemma_leq_total()
    ensures
        total_ordering(leq()),
{
    assert forall|x: i32, y: i32| #[trigger] leq()(x, y) && #[trigger] leq()(y, x) implies x == y by {}
}

/// The median is one of the values.
pub proof fn lemma_median_is_member(values: Seq<i32>)
    requires
        values.len() > 0,
    ensures
        values.contains(median(values)),
{
    lemma_leq_total();
    values.lemma_sort_by_ensures(leq());
    let sorted = values.sort_by(leq());
    broadcast use vstd::seq_lib::group_to_multiset_ensures;

    assert(sorted.len() == values.len()) by {
        assert(sorted.to_multiset().len() == values.to_multiset().len());
    }
    let m = sorted[values.len() as int / 2];
    assert(sorted.contains(m));
}

/// Sorts the values into ascending order, in place, by
/// `slice::sort_unstable` of std: afterwards the vector holds the values it
/// held before, each as often as before, and none comes before a lesser one.
#[verifier::external_body]
fn sort_values(values: &mut Vec<i32>)
    ensures
        sorted_by(final(values)@, leq()),
        final(values)@.to_multiset() == old(values)@.to_multiset(),
{
    values.sort_unstable();
}

/// The median on axis `dim` of the vertices that `ids` names.
pub fn get_median(dim: usize, vertices: &Vec<Position>, ids: &Vec<usize>) -> (m: i32)
    requires
        dim < 3,
        ids.len() > 0,
        forall|k: int| 0 <= k < ids.len() ==> #[trigger] ids[k] < vertices.len(),
    ensures
        m == median(coords(vertices@, ids@, dim as int)),
{
    let mut values: Vec<i32> = Vec::new();
    let mut k: usize = 0;
    while k < ids.len()
        invariant
            dim < 3,
            0 <= k <= ids.len(),
            forall|j: int| 0 <= j < ids.len() ==> #[trigger] ids[j] < vertices.len(),
            values@ == coords(vertices@, ids@.take(k as int), dim as int),
        decreases ids.len() - k,
    {
        let v: i32 = vertices[ids[k]].get(dim);
        values.push(v);
        assert(values@ =~= coords(vertices@, ids@.take(k as int + 1), dim as int));
        k = k + 1;
    }
    assert(ids@.take(k as int) == ids@);
    let ghost unsorted = values@;
    sort_values(&mut values);
    proof {
        lemma_leq_total();
        unsorted.lemma_sort_by_ensures(leq());
        lemma_sorted_unique(values@, unsorted.sort_by(leq()), leq());
        assert(values@.len() == unsorted.len()) by {
            broadcast use vstd::seq_lib::group_to_multiset_ensures;

            assert(values@.to_multiset().len() == unsorted.to_multiset().len());
        }
    }
    let median_index: usize = values.len() / 2;
    values[median_index]
}

} // verus!
