//! Triangle meshes over lattice vertices.

use vstd::prelude::*;
use crate::geometry::types::{Position, Triangle};

verus! {

/// The geometry of an object: its vertices, its triangles as indices into
/// them, and for each vertex the triangles that it is a corner of.
#[derive(Debug)]
pub struct Mesh {
    pub vertices: Vec<Position>,
    pub triangles: Vec<Triangle>,
    pub vertex_index_triangle_indices_map: Vec<Vec<usize>>,
}

/// Every corner of every triangle is the index of one of `count` vertices.
pub open spec fn triangles_valid(triangles: Seq<Triangle>, count: int) -> bool {
    forall|i: int|
        0 <= i < triangles.len() ==> {
            let t = #[trigger] triangles[i];
            t[0] < count && t[1] < count && t[2] < count
        }
}

/// `list`, with the triangle `index` added where its corner `corner` is the
/// vertex `v`.
pub open spec fn with_corner(list: Seq<usize>, corner: usize, v: int, index: usize) -> Seq<usize> {
    if corner == v {
        list.push(index)
    } else {
        list
    }
}

/// The triangles that have the vertex `v` as a corner, in ascending order,
/// each once for every corner at which it has `v`.
pub open spec fn incident(triangles: Seq<Triangle>, v: int) -> Seq<usize>
    decreases triangles.len(),
{
    if triangles.len() == 0 {
        Seq::empty()
    } else {
        let t = triangles.last();
        let index = (triangles.len() - 1) as usize;
        with_corner(
            with_corner(with_corner(incident(triangles.drop_last(), v), t[0], v, index), t[1], v, index),
            t[2],
            v,
            index,
        )
    }
}

/// Whether every corner of every triangle is the index of one of `count`
/// vertices.
pub fn triangles_in_range(triangles: &Vec<Triangle>, count: usize) -> (r: bool)
    ensures
        r == triangles_valid(triangles@, count as int),
{
    let mut i: usize = 0;
    while i < triangles.len()
        invariant
            0 <= i <= triangles.len(),
            triangles_valid(triangles@.take(i as int), count as int),
        decreases triangles.len() - i,
    {
        let t: Triangle = triangles[i];
        if !(t[0] < count && t[1] < count && t[2] < count) {
            assert(triangles@[i as int] == t);
            return false;
        }
        proof {
            let next = triangles@.take(i as int + 1);
            assert forall|j: int| 0 <= j < next.len() implies {
                let c = #[trigger] next[j];
                c[0] < count && c[1] < count && c[2] < count
            } by {
                if j < i {
                    assert(triangles@.take(i as int)[j] == next[j]);
                }
            }
        }
        i = i + 1;
    }
    assert(triangles@.take(i as int) == triangles@);
    true
}

impl Mesh {
    /// Every triangle refers to vertices of this mesh, and every vertex
    /// knows the triangles that it is a corner of.
    pub open spec fn well_formed(self) -> bool {
        &&& triangles_valid(self.triangles@, self.vertices@.len() as int)
        &&& self.vertex_index_triangle_indices_map@.len() == self.vertices@.len()
        &&& forall|v: int|
            0 <= v < self.vertices@.len() ==> (#[trigger] self.vertex_index_triangle_indices_map@[v])@
                == incident(self.triangles@, v)
    }

    /// The mesh of the given vertices and triangles.
    pub fn from_vertices_and_triangles(vertices: Vec<Position>, triangles: Vec<Triangle>) -> (mesh: Mesh)
        requires
            triangles_valid(triangles@, vertices@.len() as int),
        ensures
            mesh.vertices == vertices,
            mesh.triangles == triangles,
            mesh.well_formed(),
    {
        let mut map: Vec<Vec<usize>> = Vec::new();
        let mut v: usize = 0;
        while v < vertices.len()
            invariant
                0 <= v <= vertices.len(),
                map@.len() == v,
                forall|j: int| 0 <= j < v ==> (#[trigger] map@[j])@ == Seq::<usize>::empty(),
            decreases vertices.len() - v,
        {
            map.push(Vec::new());
            v = v + 1;
        }
        let mut triangle_index: usize = 0;
        assert(triangles@.take(0) =~= Seq::<Triangle>::empty());
        while triangle_index < triangles.len()
            invariant
                0 <= triangle_index <= triangles.len(),
                triangles_valid(triangles@, vertices@.len() as int),
                map@.len() == vertices@.len(),
                forall|j: int|
                    0 <= j < map@.len() ==> (#[trigger] map@[j])@ == incident(
                        triangles@.take(triangle_index as int),
                        j,
                    ),
            decreases triangles.len() - triangle_index,
        {
            let triangle: Triangle = triangles[triangle_index];
            assert(triangles@[triangle_index as int] == triangle);
            let ghost before = map@;
            map[triangle[0]].push(triangle_index);
            map[triangle[1]].push(triangle_index);
            map[triangle[2]].push(triangle_index);
            proof {
                let next = triangles@.take(triangle_index as int + 1);
                assert(next.drop_last() =~= triangles@.take(triangle_index as int));
                assert(next.last() == triangle);
                assert forall|j: int| 0 <= j < map@.len() implies (#[trigger] map@[j])@ == incident(
                    next,
                    j,
                ) by {
                    assert(before[j]@ == incident(triangles@.take(triangle_index as int), j));
                }
            }
            triangle_index = triangle_index + 1;
        }
        assert(triangles@.take(triangle_index as int) == triangles@);
        Mesh { vertices, triangles, vertex_index_triangle_indices_map: map }
    }
}

} // verus!
