//! The part of a mesh that lies under a node of the tree.

use vstd::prelude::*;
use crate::geometry::kdtree::{all_indices, KdTree};
use crate::geometry::mesh::Mesh;
use crate::geometry::traversal::{mirrored_leaves, remaining, side_leaves, KdTreeLeafIter};
use crate::geometry::types::{Position, Triangle};

verus! {

/// One of the leaves holds the triangle `i`.
pub open spec fn held(leaves: Seq<KdTree>, i: usize) -> bool {
    exists|k: int|
        0 <= k < leaves.len() && (#[trigger] leaves[k]).triangle_index.is_some()
            && leaves[k].triangle_index.unwrap()@.contains(i)
}

/// The triangles that are held under a node.
pub open spec fn held_under(node: KdTree) -> spec_fn(usize) -> bool {
    |i: usize| held(mirrored_leaves(node), i)
}

/// The triangles of the mesh that are held under `node`, in the order of the
/// mesh, each once.
pub open spec fn triangles_under(node: KdTree, triangles: Seq<Triangle>) -> Seq<Triangle> {
    let picked = all_indices(triangles.len()).filter(held_under(node));
    Seq::new(picked.len(), |k: int| triangles[picked[k] as int])
}

/// Every leaf under a node holds only triangles below the bound that holds of
/// the node.
pub proof fn lemma_leaves_triangles_below(node: KdTree, count: int)
    requires
        node.triangles_below(count),
    ensures
        forall|k: int|
            0 <= k < mirrored_leaves(node).len() ==> (#[trigger] mirrored_leaves(node)[k]).triangles_below(
                count,
            ),
    decreases node,
{
    if !node.spec_is_leaf() {
        if let Some(r) = node.right {
            lemma_leaves_triangles_below(*r, count);
        }
        if let Some(l) = node.left {
            lemma_leaves_triangles_below(*l, count);
        }
        let all = mirrored_leaves(node);
        let right = side_leaves(node.right);
        let left = side_leaves(node.left);
        assert(all == right + left);
        assert forall|k: int| 0 <= k < right.len() implies (#[trigger] right[k]).triangles_below(count) by {
            assert(right == mirrored_leaves(*node.right.unwrap()));
        }
        assert forall|k: int| 0 <= k < left.len() implies (#[trigger] left[k]).triangles_below(count) by {
            assert(left == mirrored_leaves(*node.left.unwrap()));
        }
        assert forall|k: int| 0 <= k < all.len() implies (#[trigger] all[k]).triangles_below(count) by {
            if k < right.len() {
                assert(all[k] == right[k]);
            } else {
                assert(all[k] == side_leaves(node.left)[k - right.len()]);
            }
        }
    }
}

/// The mesh of what lies under a node: all the vertices of `mesh`, so that
/// the triangles keep their indices into them, and those of its triangles
/// that a leaf under `kdt` holds, in the order of `mesh`, each once.
pub fn kdt_to_mesh(kdt: &KdTree, mesh: &Mesh) -> (part: Mesh)
    requires
        mesh.well_formed(),
        kdt.triangles_below(mesh.triangles@.len() as int),
    ensures
        part.well_formed(),
        part.vertices@ == mesh.vertices@,
        part.triangles@ == triangles_under(*kdt, mesh.triangles@),
{
    let count: usize = mesh.triangles.len();
    let mut seen: Vec<bool> = Vec::new();
    let mut i: usize = 0;
    while i < count
        invariant
            0 <= i <= count,
            seen@.len() == i,
            forall|j: int| 0 <= j < i ==> !(#[trigger] seen@[j]),
        decreases count - i,
    {
        seen.push(false);
        i = i + 1;
    }
    let mut walk = KdTreeLeafIter::new(kdt);
    let ghost all = mirrored_leaves(*kdt);
    let ghost mut visited: Seq<KdTree> = Seq::empty();
    proof {
        lemma_leaves_triangles_below(*kdt, count as int);
        assert(visited + remaining(walk.pending@) =~= all);
    }
    loop
        invariant
            count == mesh.triangles@.len(),
            seen@.len() == count,
            all == visited + remaining(walk.pending@),
            forall|k: int| 0 <= k < all.len() ==> (#[trigger] all[k]).triangles_below(count as int),
            forall|j: int| 0 <= j < count ==> ((#[trigger] seen@[j]) <==> held(visited, j as usize)),
        ensures
            visited == all,
        decreases remaining(walk.pending@).len(),
    {
        let ghost before = remaining(walk.pending@);
        match walk.next() {
            None => {
                proof {
                    assert(remaining(walk.pending@) =~= Seq::<KdTree>::empty());
                    assert(visited + remaining(walk.pending@) =~= visited);
                }
                break ;
            },
            Some(leaf) => {
                let ghost had = visited;
                proof {
                    visited = had.push(*leaf);
                    assert(had + (seq![*leaf] + remaining(walk.pending@)) =~= visited + remaining(
                        walk.pending@,
                    ));
                    assert(all[had.len() as int] == *leaf);
                    assert(leaf.triangles_below(count as int));
                    assert forall|j: usize| held(had, j) implies held(visited, j) by {
                        let k = choose|k: int|
                            0 <= k < had.len() && (#[trigger] had[k]).triangle_index.is_some()
                                && had[k].triangle_index.unwrap()@.contains(j);
                        assert(visited[k] == had[k]);
                    }
                }
                if let Some(ids) = &leaf.triangle_index {
                    let mut k: usize = 0;
                    while k < ids.len()
                        invariant
                            0 <= k <= ids.len(),
                            seen@.len() == count,
                            visited == had.push(*leaf),
                            leaf.triangle_index == Some(*ids),
                            forall|j: int| 0 <= j < ids@.len() ==> (#[trigger] ids@[j]) < count,
                            forall|j: int|
                                0 <= j < count ==> ((#[trigger] seen@[j]) <==> held(had, j as usize)
                                    || ids@.take(k as int).contains(j as usize)),
                        decreases ids.len() - k,
                    {
                        let t: usize = ids[k];
                        seen[t] = true;
                        proof {
                            let next = ids@.take(k as int + 1);
                            assert(next[k as int] == t);
                            assert forall|j: usize| ids@.take(k as int).contains(j) implies next.contains(
                                j,
                            ) by {
                                let at = choose|at: int|
                                    0 <= at < ids@.take(k as int).len() && ids@.take(k as int)[at] == j;
                                assert(next[at] == j);
                            }
                            assert forall|j: usize| next.contains(j) implies ids@.take(k as int).contains(
                                j,
                            ) || j == t by {
                                let at = choose|at: int| 0 <= at < next.len() && next[at] == j;
                                if at < k {
                                    assert(ids@.take(k as int)[at] == j);
                                }
                            }
                        }
                        k = k + 1;
                    }
                    proof {
                        assert(ids@.take(k as int) == ids@);
                        assert forall|j: int| 0 <= j < count implies ((#[trigger] seen@[j]) <==> held(
                            visited,
                            j as usize,
                        )) by {
                            if ids@.contains(j as usize) {
                                assert(visited[had.len() as int] == *leaf);
                            }
                            if held(visited, j as usize) {
                                let at = choose|at: int|
                                    0 <= at < visited.len() && (#[trigger] visited[at]).triangle_index.is_some()
                                        && visited[at].triangle_index.unwrap()@.contains(j as usize);
                                if at < had.len() {
                                    assert(had[at] == visited[at]);
                                }
                            }
                        }
                    }
                } else {
                    proof {
                        assert forall|j: int| 0 <= j < count implies ((#[trigger] seen@[j]) <==> held(
                            visited,
                            j as usize,
                        )) by {
                            if held(visited, j as usize) {
                                let at = choose|at: int|
                                    0 <= at < visited.len() && (#[trigger] visited[at]).triangle_index.is_some()
                                        && visited[at].triangle_index.unwrap()@.contains(j as usize);
                                assert(had[at] == visited[at]);
                            }
                        }
                    }
                }
            },
        }
    }

    let mut vertices: Vec<Position> = Vec::new();
    let mut v: usize = 0;
    while v < mesh.vertices.len()
        invariant
            0 <= v <= mesh.vertices.len(),
            vertices@ == mesh.vertices@.take(v as int),
        decreases mesh.vertices.len() - v,
    {
        vertices.push(mesh.vertices[v]);
        assert(vertices@ =~= mesh.vertices@.take(v as int + 1));
        v = v + 1;
    }
    assert(mesh.vertices@.take(v as int) == mesh.vertices@);

    let mut triangles: Vec<Triangle> = Vec::new();
    let ghost mut picked: Seq<usize> = Seq::empty();
    let mut t: usize = 0;
    proof {
        reveal(Seq::filter);
        assert(all_indices(0) =~= Seq::<usize>::empty());
    }
    while t < count
        invariant
            0 <= t <= count,
            count == mesh.triangles@.len(),
            seen@.len() == count,
            mesh.well_formed(),
            forall|j: int| 0 <= j < count ==> ((#[trigger] seen@[j]) <==> held_under(*kdt)(j as usize)),
            picked == all_indices(t as nat).filter(held_under(*kdt)),
            triangles@.len() == picked.len(),
            forall|k: int| 0 <= k < picked.len() ==> (#[trigger] picked[k]) < count,
            forall|k: int| 0 <= k < picked.len() ==> (#[trigger] triangles@[k]) == mesh.triangles@[picked[k] as int],
        decreases count - t,
    {
        proof {
            reveal(Seq::filter);
            let next = all_indices((t + 1) as nat);
            assert(next.drop_last() =~= all_indices(t as nat));
            assert(next.last() == t);
        }
        if seen[t] {
            triangles.push(mesh.triangles[t]);
            proof {
                picked = picked.push(t);
            }
        }
        t = t + 1;
    }
    assert(triangles@ =~= triangles_under(*kdt, mesh.triangles@));
    assert(crate::geometry::mesh::triangles_valid(triangles@, vertices@.len() as int)) by {
        assert forall|k: int| 0 <= k < triangles@.len() implies {
            let tri = #[trigger] triangles@[k];
            tri[0] < vertices@.len() && tri[1] < vertices@.len() && tri[2] < vertices@.len()
        } by {
            assert(triangles@[k] == mesh.triangles@[picked[k] as int]);
        }
    }
    Mesh::from_vertices_and_triangles(vertices, triangles)
}

} // verus!
