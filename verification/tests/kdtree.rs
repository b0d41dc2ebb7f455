use rand::rngs::StdRng;
use rand::{RngExt, SeedableRng};
use ray_ruster::geometry::bounding_box::AxisAlignedBoundingBox;
use ray_ruster::geometry::kdtree::{KdTree, LEAF_THRESHOLD};
use ray_ruster::geometry::median::get_median;
use ray_ruster::geometry::mesh::Mesh;
use ray_ruster::geometry::ray::Ray;
use ray_ruster::geometry::traversal::{
    iter_intersect_ray, iter_intersect_triangle, BoxIntersect, BoxIntersectIter, KdTreeLeafIter,
    RayIntersector,
};
use ray_ruster::geometry::types::{Direction, Position};

fn scattered(seed: u64, count: usize, side: i32) -> Vec<Position> {
    let mut rng = StdRng::seed_from_u64(seed);
    let mut points = vec![
        Position::new(0, 0, 0),
        Position::new(1, 0, 0),
        Position::new(0, 1, 0),
        Position::new(1, 1, 0),
    ];
    for _ in 0..count {
        points.push(Position::new(
            rng.random_range(0..=side),
            rng.random_range(0..=side),
            rng.random_range(0..=side),
        ));
    }
    points
}

fn grid(n: i32) -> Vec<Position> {
    let mut points = Vec::new();
    for x in 0..n {
        for y in 0..n {
            for z in 0..n {
                points.push(Position::new(10 * x, 10 * y, 10 * z));
            }
        }
    }
    points
}

fn inside(outer: &AxisAlignedBoundingBox, inner: &AxisAlignedBoundingBox) -> bool {
    (0..3usize).all(|a| {
        outer.bounds[0].get(a) <= inner.bounds[0].get(a) && inner.bounds[1].get(a) <= outer.bounds[1].get(a)
    })
}

fn holds(b: &AxisAlignedBoundingBox, p: &Position) -> bool {
    (0..3usize).all(|a| b.bounds[0].get(a) <= p.get(a) && p.get(a) <= b.bounds[1].get(a))
}

/// Walks the tree, checks its shape, and returns its leaves from left to right.
fn check_shape<'a>(node: &'a KdTree, ancestors: &mut Vec<&'a AxisAlignedBoundingBox>, leaves: &mut Vec<&'a KdTree>) {
    for a in ancestors.iter() {
        assert!(inside(a, &node.bounding_box));
    }
    if node.is_leaf() {
        assert!(node.left.is_none() && node.right.is_none());
        assert!(node.vertices_index.is_some() && node.triangle_index.is_some());
        leaves.push(node);
        return;
    }
    assert!(node.vertices_index.is_none() && node.triangle_index.is_none());
    let left = node.left.as_ref().unwrap();
    let right = node.right.as_ref().unwrap();
    let axis = node.bounding_box.largest_dim();
    // The children meet in the splitting plane and nowhere else on that axis.
    assert_eq!(left.bounding_box.bounds[1].get(axis), right.bounding_box.bounds[0].get(axis));
    assert_eq!(left.bounding_box.bounds[0], node.bounding_box.bounds[0]);
    assert_eq!(right.bounding_box.bounds[1], node.bounding_box.bounds[1]);
    for other in 0..3usize {
        if other != axis {
            assert_eq!(left.bounding_box.bounds[1].get(other), node.bounding_box.bounds[1].get(other));
            assert_eq!(right.bounding_box.bounds[0].get(other), node.bounding_box.bounds[0].get(other));
        }
    }
    ancestors.push(&node.bounding_box);
    check_shape(left, ancestors, leaves);
    check_shape(right, ancestors, leaves);
    ancestors.pop();
}

fn leaves_of(tree: &KdTree) -> Vec<&KdTree> {
    let mut leaves = Vec::new();
    check_shape(tree, &mut Vec::new(), &mut leaves);
    leaves
}

fn as_ratio(hit: &BoxIntersect) -> (i128, i128) {
    (hit.distance.num as i128, hit.distance.den as i128)
}

#[test]
fn few_points_make_a_single_leaf() {
    let points = vec![Position::new(1, 2, 3), Position::new(4, 5, 6), Position::new(-7, 8, 9)];
    let tree = KdTree::from_vertices(&points);
    assert!(tree.is_leaf());
    assert_eq!(tree.vertices_index, Some(vec![0, 1, 2]));
    assert_eq!(tree.triangle_index, Some(vec![]));
    assert_eq!(tree.bounding_box.bounds[0], Position::new(-7, 2, 3));
    assert_eq!(tree.bounding_box.bounds[1], Position::new(4, 8, 9));
}

#[test]
fn leaf_threshold_is_ten() {
    assert_eq!(LEAF_THRESHOLD, 10);
    let line = |n: i32| (0..n).map(|x| Position::new(x, 0, 0)).collect::<Vec<_>>();
    assert!(KdTree::from_vertices(&line(9)).is_leaf());
    assert!(!KdTree::from_vertices(&line(10)).is_leaf());
}

#[test]
fn ten_points_on_a_line_split_at_the_median() {
    // Given out of order: the median of 0..=9 is the value at rank 5.
    let xs = [7, 2, 9, 0, 5, 3, 8, 1, 6, 4];
    let points: Vec<Position> = xs.iter().map(|&x| Position::new(x, 0, 0)).collect();
    let tree = KdTree::from_vertices(&points);
    assert!(!tree.is_leaf());
    let left = tree.left.as_ref().unwrap();
    let right = tree.right.as_ref().unwrap();
    assert_eq!(left.bounding_box.bounds[0], Position::new(0, 0, 0));
    assert_eq!(left.bounding_box.bounds[1], Position::new(5, 0, 0));
    assert_eq!(right.bounding_box.bounds[0], Position::new(5, 0, 0));
    assert_eq!(right.bounding_box.bounds[1], Position::new(9, 0, 0));
    // Below the median to the left, the rest to the right, in the order given.
    assert_eq!(left.vertices_index, Some(vec![1, 3, 5, 7, 9]));
    assert_eq!(right.vertices_index, Some(vec![0, 2, 4, 6, 8]));
}

#[test]
fn median_is_the_middle_of_the_sorted_values() {
    let at = |xs: &[i32]| {
        let points: Vec<Position> = xs.iter().map(|&x| Position::new(0, x, 0)).collect();
        let ids: Vec<usize> = (0..points.len()).collect();
        get_median(1, &points, &ids)
    };
    assert_eq!(at(&[5, 1, 4, 2, 3]), 3);
    assert_eq!(at(&[4, 1, 3, 2]), 3);
    assert_eq!(at(&[9]), 9);
    assert_eq!(at(&[2, 1]), 2);
    assert_eq!(at(&[7, 7, 7, -1]), 7);
    assert_eq!(at(&[i32::MAX, i32::MIN, 0]), 0);
}

#[test]
fn median_looks_only_at_the_ids_given() {
    let points = vec![
        Position::new(100, 0, 0),
        Position::new(3, 0, 0),
        Position::new(-50, 0, 0),
        Position::new(1, 0, 0),
        Position::new(2, 0, 0),
    ];
    assert_eq!(get_median(0, &points, &vec![4, 1, 3]), 2);
    assert_eq!(get_median(0, &points, &vec![0, 2]), 100);
}

#[test]
fn unit_square_and_scattered_points() {
    let points = scattered(11, 20, 10);
    assert_eq!(points.len(), 24);
    let tree = KdTree::from_vertices(&points);
    // Every box lies in the boxes of its ancestors, and siblings share only
    // the plane that parts them: checked by the walk.
    let leaves = leaves_of(&tree);
    assert!(leaves.len() >= 2);
    for leaf in &leaves {
        for &i in leaf.vertices_index.as_ref().unwrap() {
            assert!(holds(&leaf.bounding_box, &points[i]));
        }
    }
}

#[test]
fn every_vertex_is_in_exactly_one_leaf() {
    for seed in 0..20 {
        let points = scattered(seed, 200, 1000);
        let tree = KdTree::from_vertices(&points);
        let mut seen = vec![0usize; points.len()];
        for leaf in leaves_of(&tree) {
            for &i in leaf.vertices_index.as_ref().unwrap() {
                assert!(i < points.len());
                seen[i] += 1;
                assert!(holds(&leaf.bounding_box, &points[i]));
            }
            assert!(leaf.triangle_index.as_ref().unwrap().is_empty());
        }
        assert!(seen.iter().all(|&c| c == 1));
    }
}

#[test]
fn equal_points_end_in_a_leaf() {
    let points = vec![Position::new(3, 3, 3); 12];
    let tree = KdTree::from_vertices(&points);
    assert!(tree.is_leaf());
    assert_eq!(tree.vertices_index, Some((0..12).collect::<Vec<usize>>()));
}

#[test]
fn points_equal_on_the_split_axis_end_in_a_leaf() {
    // Eleven points at x = 0 and one at x = 100: the median on x is 0, no
    // point lies below it, and the node stays a leaf.
    let mut points: Vec<Position> = (0..11).map(|k| Position::new(0, k, 0)).collect();
    points.push(Position::new(100, 0, 0));
    let tree = KdTree::from_vertices(&points);
    assert!(tree.is_leaf());
    assert_eq!(tree.vertices_index.as_ref().unwrap().len(), 12);
}

#[test]
fn many_ties_still_terminate() {
    let mut points = Vec::new();
    for k in 0..300 {
        points.push(Position::new(k % 3, k % 5, k % 2));
    }
    let tree = KdTree::from_vertices(&points);
    let total: usize = leaves_of(&tree).iter().map(|l| l.vertices_index.as_ref().unwrap().len()).sum();
    assert_eq!(total, 300);
}

#[test]
fn mesh_triangles_go_to_the_leaves_they_meet() {
    let vertices = grid(3);
    // One triangle in a corner, one spanning the whole grid.
    let index = |x: usize, y: usize, z: usize| 9 * x + 3 * y + z;
    let triangles = vec![
        [index(0, 0, 0), index(0, 0, 1), index(0, 1, 0)],
        [index(0, 0, 0), index(2, 2, 0), index(2, 0, 2)],
    ];
    let mesh = Mesh::from_vertices_and_triangles(vertices, triangles);
    let tree = KdTree::from_mesh(&mesh);
    assert!(!tree.is_leaf());
    let leaves = leaves_of(&tree);
    let mut holders = [0usize; 2];
    for leaf in &leaves {
        let ids = leaf.triangle_index.as_ref().unwrap();
        for &t in ids {
            holders[t] += 1;
            let tri = mesh.triangles[t];
            assert!(leaf.bounding_box.intersect_triangle(
                &mesh.vertices[tri[0]],
                &mesh.vertices[tri[1]],
                &mesh.vertices[tri[2]],
                None
            ));
        }
        // A triangle all of whose corners lie in the leaf's box is held there.
        for (t, tri) in mesh.triangles.iter().enumerate() {
            if tri.iter().all(|&v| holds(&leaf.bounding_box, &mesh.vertices[v])) {
                assert!(ids.contains(&t));
            }
        }
    }
    assert!(holders[0] >= 1);
    // The large triangle straddles the first split.
    assert!(holders[1] >= 2);
    let mut seen = vec![0usize; mesh.vertices.len()];
    for leaf in &leaves {
        for &i in leaf.vertices_index.as_ref().unwrap() {
            seen[i] += 1;
        }
    }
    assert!(seen.iter().all(|&c| c == 1));
}

#[test]
fn mesh_without_triangles() {
    let mesh = Mesh::from_vertices_and_triangles(grid(3), vec![]);
    let tree = KdTree::from_mesh(&mesh);
    for leaf in leaves_of(&tree) {
        assert!(leaf.triangle_index.as_ref().unwrap().is_empty());
    }
}

#[test]
fn ray_traversal_starts_at_the_root() {
    let points = grid(4);
    let tree = KdTree::from_vertices(&points);
    let ray = Ray::new(Position::new(-10, 15, 15), Direction::new(1, 0, 0));
    let mut it = iter_intersect_ray(&tree, &ray);
    let first = it.next().unwrap();
    assert!(std::ptr::eq(first.node, &tree));
    assert_eq!(as_ratio(&first), (10, 1));
}

#[test]
fn ray_leaves_come_nearest_first() {
    for seed in 0..10 {
        let points = scattered(seed, 300, 100);
        let tree = KdTree::from_vertices(&points);
        let rays = [
            Ray::new(Position::new(-5, 50, 50), Direction::new(1, 0, 0)),
            Ray::new(Position::new(-5, -5, -5), Direction::new(1, 1, 1)),
            Ray::new(Position::new(120, 30, 130), Direction::new(-3, 1, -4)),
            Ray::new(Position::new(50, 50, 300), Direction::new(0, 0, -7)),
            Ray::new(Position::new(0, 0, 0), Direction::new(2, 3, 5)),
        ];
        for ray in &rays {
            let leaves = iter_intersect_ray(&tree, ray).leaves();
            assert!(!leaves.is_empty());
            for hit in &leaves {
                assert!(hit.node.is_leaf());
                let again = ray.intersect_box(&hit.node.bounding_box.bounds).unwrap();
                assert_eq!(as_ratio(hit), (again.num as i128, again.den as i128));
            }
            for pair in leaves.windows(2) {
                let (a, b) = (as_ratio(&pair[0]), as_ratio(&pair[1]));
                assert!(a.0 * b.1 <= b.0 * a.1);
            }
        }
    }
}

#[test]
fn ray_leaves_are_those_the_ray_meets() {
    let points = scattered(3, 300, 100);
    let tree = KdTree::from_vertices(&points);
    let ray = Ray::new(Position::new(-5, 40, 60), Direction::new(5, 1, -1));
    let found = iter_intersect_ray(&tree, &ray).leaves();
    let expected: Vec<&KdTree> = leaves_of(&tree)
        .into_iter()
        .filter(|l| ray.intersect_box(&l.bounding_box.bounds).is_some())
        .collect();
    assert_eq!(found.len(), expected.len());
    for leaf in expected {
        assert!(found.iter().any(|hit| std::ptr::eq(hit.node, leaf)));
    }
}

#[test]
fn ray_that_misses_the_root_yields_nothing() {
    let points = scattered(5, 100, 10);
    let tree = KdTree::from_vertices(&points);
    let away = Ray::new(Position::new(-5, 5, 5), Direction::new(-1, 0, 0));
    assert!(iter_intersect_ray(&tree, &away).next().is_none());
    assert!(iter_intersect_ray(&tree, &away).leaves().is_empty());
    assert!(iter_intersect_ray(&tree, &away).closest_branch().is_empty());
    let beside = Ray::new(Position::new(-5, 50, 5), Direction::new(1, 0, 0));
    assert!(iter_intersect_ray(&tree, &beside).next().is_none());
    assert!(iter_intersect_ray(&tree, &beside).leaves().is_empty());
}

#[test]
fn traversal_yields_inner_nodes_too() {
    let points = grid(4);
    let tree = KdTree::from_vertices(&points);
    let ray = Ray::new(Position::new(-10, 15, 15), Direction::new(1, 0, 0));
    let mut it = iter_intersect_ray(&tree, &ray);
    let mut inner = 0;
    let mut leaves = 0;
    while let Some(hit) = it.next() {
        if hit.node.is_leaf() {
            leaves += 1;
        } else {
            inner += 1;
        }
    }
    assert!(inner >= 1);
    assert_eq!(leaves, iter_intersect_ray(&tree, &ray).leaves().len());
    // Exhausted: it stays so.
    assert!(it.next().is_none());
}

#[test]
fn closest_branch_stops_at_the_first_leaf() {
    let points = scattered(9, 300, 100);
    let tree = KdTree::from_vertices(&points);
    let ray = Ray::new(Position::new(-5, 50, 50), Direction::new(1, 0, 0));
    let branch = iter_intersect_ray(&tree, &ray).closest_branch();
    assert!(branch.len() >= 2);
    let (last, before) = branch.split_last().unwrap();
    assert!(last.node.is_leaf());
    assert!(before.iter().all(|hit| !hit.node.is_leaf()));
    assert!(std::ptr::eq(branch[0].node, &tree));
    // It is the start of the full traversal.
    let mut it = iter_intersect_ray(&tree, &ray);
    for hit in &branch {
        assert!(std::ptr::eq(it.next().unwrap().node, hit.node));
    }
    // Its leaf is the first of the leaves.
    let leaves = iter_intersect_ray(&tree, &ray).leaves();
    assert!(std::ptr::eq(leaves[0].node, last.node));
}

#[test]
fn traversal_can_start_below_the_root() {
    let points = grid(4);
    let tree = KdTree::from_vertices(&points);
    let ray = Ray::new(Position::new(-10, 15, 15), Direction::new(1, 0, 0));
    let right = tree.right.as_ref().unwrap();
    let it = BoxIntersectIter::new(RayIntersector { ray: &ray }, right);
    let leaves = it.leaves();
    assert!(!leaves.is_empty());
    for hit in &leaves {
        assert!(inside(&right.bounding_box, &hit.node.bounding_box));
    }
}

#[test]
fn triangle_traversal_finds_the_leaves_it_meets() {
    let points = grid(4);
    let tree = KdTree::from_vertices(&points);
    let t0 = Position::new(1, 1, 1);
    let t1 = Position::new(4, 1, 1);
    let t2 = Position::new(1, 4, 1);
    let n = Direction::new(0, 0, 1);
    let found = iter_intersect_triangle(&tree, &t0, &t1, &t2, &n).leaves();
    let expected: Vec<&KdTree> = leaves_of(&tree)
        .into_iter()
        .filter(|l| l.bounding_box.intersect_triangle(&t0, &t1, &t2, Some(&n)))
        .collect();
    assert!(!expected.is_empty());
    assert_eq!(found.len(), expected.len());
    for hit in &found {
        assert_eq!(as_ratio(hit), (1, 1));
        assert!(expected.iter().any(|l| std::ptr::eq(*l, hit.node)));
    }
    // A triangle far from the tree meets nothing.
    let far = Position::new(1000, 1000, 1000);
    assert!(iter_intersect_triangle(&tree, &far, &far, &far, &n).leaves().is_empty());
}

#[test]
fn leaf_walk_visits_every_leaf_from_the_right() {
    let points = scattered(2, 300, 100);
    let tree = KdTree::from_vertices(&points);
    let mut expected = leaves_of(&tree);
    expected.reverse();
    let mut walk = KdTreeLeafIter::new(&tree);
    let mut found = Vec::new();
    while let Some(leaf) = walk.next() {
        assert!(leaf.is_leaf());
        found.push(leaf);
    }
    assert_eq!(found.len(), expected.len());
    for (a, b) in found.iter().zip(expected.iter()) {
        assert!(std::ptr::eq(*a, *b));
    }
    assert!(walk.next().is_none());
}

#[test]
fn leaf_walk_of_a_leaf_is_that_leaf() {
    let tree = KdTree::from_vertices(&vec![Position::new(0, 0, 0)]);
    let mut walk = KdTreeLeafIter::new(&tree);
    assert!(std::ptr::eq(walk.next().unwrap(), &tree));
    assert!(walk.next().is_none());
}

#[test]
fn next_leaf_pulls_one_leaf_at_a_time() {
    let points = scattered(4, 300, 100);
    let tree = KdTree::from_vertices(&points);
    let ray = Ray::new(Position::new(-5, 50, 50), Direction::new(1, 0, 0));
    let all = iter_intersect_ray(&tree, &ray).leaves();
    let mut it = iter_intersect_ray(&tree, &ray);
    for expected in &all {
        let leaf = it.next_leaf().unwrap();
        assert!(leaf.node.is_leaf());
        assert!(std::ptr::eq(leaf.node, expected.node));
        assert_eq!(as_ratio(&leaf), as_ratio(expected));
    }
    assert!(it.next_leaf().is_none());
    assert!(it.next_nodes.is_empty());
}

#[test]
fn next_leaf_leaves_the_rest_pending() {
    let points = grid(4);
    let tree = KdTree::from_vertices(&points);
    let ray = Ray::new(Position::new(-10, 15, 15), Direction::new(1, 0, 0));
    let mut it = iter_intersect_ray(&tree, &ray);
    let first = it.next_leaf().unwrap();
    assert_eq!(as_ratio(&first), (10, 1));
    // The ray crosses the whole grid: more is pending behind the first leaf.
    assert!(!it.next_nodes.is_empty());
}

#[test]
fn ray_from_inside_the_root_box_finds_its_leaves_by_their_exits() {
    // Nineteen points on a line: the left half is a leaf, the right half is
    // split once more.
    let points: Vec<Position> = (0..19).map(|x| Position::new(x, 0, 0)).collect();
    let tree = KdTree::from_vertices(&points);
    let boxes = |hits: &Vec<BoxIntersect>| {
        hits.iter()
            .map(|h| (h.node.bounding_box.bounds[0].x, h.node.bounding_box.bounds[1].x, as_ratio(h)))
            .collect::<Vec<_>>()
    };
    // From outside, the leaves come nearest first.
    let ray = Ray::new(Position::new(20, 0, 0), Direction::new(-1, 0, 0));
    let leaves = iter_intersect_ray(&tree, &ray).leaves();
    assert_eq!(boxes(&leaves), vec![(14, 18, (2, 1)), (9, 14, (6, 1)), (0, 9, (11, 1))]);
    // From inside, a box around the origin counts by its exit, and the leaf
    // beyond it is found before the leaves within it.
    let ray = Ray::new(Position::new(16, 0, 0), Direction::new(-1, 0, 0));
    let leaves = iter_intersect_ray(&tree, &ray).leaves();
    assert_eq!(boxes(&leaves), vec![(0, 9, (7, 1)), (9, 14, (2, 1)), (14, 18, (2, 1))]);
}

#[test]
fn built_trees_pass_the_check() {
    let tree = KdTree::from_vertices(&scattered(8, 200, 50));
    assert!(tree.check(0));
    assert!(tree.check(17));
    let mesh = Mesh::from_vertices_and_triangles(grid(3), vec![[0, 1, 2], [3, 4, 5]]);
    let tree = KdTree::from_mesh(&mesh);
    assert!(tree.check(2));
    assert!(tree.check(usize::MAX));
    // A leaf holds triangle 1: a mesh of one triangle is not its mesh.
    assert!(!tree.check(1));
    assert!(!tree.check(0));
}

#[test]
fn misshapen_trees_fail_the_check() {
    let leaf = |lo: i32, hi: i32| KdTree {
        bounding_box: AxisAlignedBoundingBox::from_bounds([
            Position::new(lo, 0, 0),
            Position::new(hi, 10, 10),
        ]),
        left: None,
        right: None,
        vertices_index: Some(vec![]),
        triangle_index: Some(vec![]),
    };
    let inner = |left: KdTree, right: KdTree| KdTree {
        bounding_box: AxisAlignedBoundingBox::from_bounds([
            Position::new(0, 0, 0),
            Position::new(10, 10, 10),
        ]),
        left: Some(Box::new(left)),
        right: Some(Box::new(right)),
        vertices_index: None,
        triangle_index: None,
    };
    assert!(leaf(0, 10).check(0));
    assert!(inner(leaf(0, 4), leaf(4, 10)).check(0));
    assert!(inner(leaf(0, 0), leaf(0, 10)).check(0));
    // The halves do not meet, overlap, or reach beyond the parent.
    assert!(!inner(leaf(0, 4), leaf(5, 10)).check(0));
    assert!(!inner(leaf(0, 5), leaf(4, 10)).check(0));
    assert!(!inner(leaf(0, 4), leaf(4, 11)).check(0));
    assert!(!inner(leaf(4, 10), leaf(0, 4)).check(0));
    // A node that is neither a leaf nor an inner node.
    let mut half = inner(leaf(0, 4), leaf(4, 10));
    half.right = None;
    assert!(!half.check(0));
    let mut both = inner(leaf(0, 4), leaf(4, 10));
    both.vertices_index = Some(vec![]);
    assert!(!both.check(0));
    let mut bare = leaf(0, 10);
    bare.triangle_index = None;
    assert!(!bare.check(0));
    // A half may be flat, and the fault may lie deep.
    assert!(inner(inner(leaf(0, 4), leaf(4, 10)), leaf(10, 10)).check(0));
    assert!(!inner(inner(leaf(0, 4), leaf(5, 10)), leaf(10, 10)).check(0));
}
