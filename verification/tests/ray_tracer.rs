use ray_ruster::geometry::kdtree::KdTree;
use ray_ruster::geometry::mesh::Mesh;
use ray_ruster::geometry::ray::Ray;
use ray_ruster::geometry::types::{Direction, Position};
use ray_ruster::render::ray_tracer::{
    kdt_closest_intersection, naive_closest_intersection, triangles_closest_intersection,
};

/// Three parallel squares of two triangles each, facing +z, at z = 0, 10, 20,
/// and a fourth at z = 30 that faces -z.
fn sheets() -> Mesh {
    let mut vertices = Vec::new();
    let mut triangles = Vec::new();
    for (k, z) in [0, 10, 20, 30].into_iter().enumerate() {
        let base = 4 * k;
        vertices.push(Position::new(0, 0, z));
        vertices.push(Position::new(10, 0, z));
        vertices.push(Position::new(10, 10, z));
        vertices.push(Position::new(0, 10, z));
        if z < 30 {
            triangles.push([base, base + 1, base + 2]);
            triangles.push([base, base + 2, base + 3]);
        } else {
            triangles.push([base, base + 2, base + 1]);
            triangles.push([base, base + 3, base + 2]);
        }
    }
    Mesh::from_vertices_and_triangles(vertices, triangles)
}

/// A grid of small triangles in the plane z = 0, facing +z.
fn floor(n: i32) -> Mesh {
    let mut vertices = Vec::new();
    for x in 0..=n {
        for y in 0..=n {
            vertices.push(Position::new(10 * x, 10 * y, 0));
        }
    }
    let at = |x: i32, y: i32| (x * (n + 1) + y) as usize;
    let mut triangles = Vec::new();
    for x in 0..n {
        for y in 0..n {
            triangles.push([at(x, y), at(x + 1, y), at(x + 1, y + 1)]);
            triangles.push([at(x, y), at(x + 1, y + 1), at(x, y + 1)]);
        }
    }
    Mesh::from_vertices_and_triangles(vertices, triangles)
}

#[test]
fn closest_of_no_triangle_is_nothing() {
    let mesh = sheets();
    let ray = Ray::new(Position::new(7, 3, 50), Direction::new(0, 0, -1));
    assert!(triangles_closest_intersection(&vec![], &ray, &mesh).is_none());
}

#[test]
fn closest_hit_is_the_nearest_front_face() {
    let mesh = sheets();
    // From above, looking down: the sheet at z = 30 shows its back, the one
    // at z = 20 is the first that is hit.
    let ray = Ray::new(Position::new(7, 3, 50), Direction::new(0, 0, -1));
    let found = naive_closest_intersection(&ray, &mesh).unwrap();
    assert_eq!(found.triangle_index, 4);
    // t = 30
    assert_eq!(found.hit.distance, 30 * found.hit.determinant);
    // Whatever the order in which the triangles are given.
    let ids = vec![0, 1, 2, 3, 4, 5, 6, 7];
    assert_eq!(triangles_closest_intersection(&ids, &ray, &mesh).unwrap().triangle_index, 4);
    let ids = vec![7, 5, 4, 3, 2, 1, 0, 6];
    assert_eq!(triangles_closest_intersection(&ids, &ray, &mesh).unwrap().triangle_index, 4);
    // Among the lower two sheets only, the one at z = 10.
    let ids = vec![0, 1, 2, 3];
    let found = triangles_closest_intersection(&ids, &ray, &mesh).unwrap();
    assert_eq!(found.triangle_index, 2);
    assert_eq!(found.hit.distance, 40 * found.hit.determinant);
}

#[test]
fn closest_hit_from_below_sees_only_the_back_facing_sheet() {
    let mesh = sheets();
    let ray = Ray::new(Position::new(7, 3, -5), Direction::new(0, 0, 1));
    let found = naive_closest_intersection(&ray, &mesh).unwrap();
    assert_eq!(found.triangle_index, 6);
    assert_eq!(found.hit.distance, 35 * found.hit.determinant);
}

#[test]
fn closest_hit_on_a_shared_edge_is_the_later_triangle() {
    let mesh = sheets();
    // The diagonal x = y belongs to both triangles of a sheet.
    let ray = Ray::new(Position::new(4, 4, 25), Direction::new(0, 0, -1));
    let found = naive_closest_intersection(&ray, &mesh).unwrap();
    assert_eq!(found.triangle_index, 5);
    let found = triangles_closest_intersection(&vec![5, 4], &ray, &mesh).unwrap();
    assert_eq!(found.triangle_index, 4);
}

#[test]
fn closest_hit_misses_beside_the_mesh() {
    let mesh = sheets();
    let ray = Ray::new(Position::new(11, 3, 50), Direction::new(0, 0, -1));
    assert!(naive_closest_intersection(&ray, &mesh).is_none());
    let ray = Ray::new(Position::new(7, 3, 50), Direction::new(0, 0, 1));
    assert!(naive_closest_intersection(&ray, &mesh).is_none());
}

#[test]
fn closest_hit_compares_beyond_128_bits() {
    // Two steep sheets far apart, hit by a long ray: determinants and
    // parameters near the top of their range.
    let far = i32::MAX - 1;
    let vertices = vec![
        Position::new(-far, -far, 0),
        Position::new(far, -far, 0),
        Position::new(0, far, 0),
        Position::new(-far, -far, 2),
        Position::new(far, -far, 2),
        Position::new(0, far, 2),
    ];
    let mesh = Mesh::from_vertices_and_triangles(vertices, vec![[0, 1, 2], [3, 4, 5]]);
    let ray = Ray::new(Position::new(1, 1, far), Direction::new(0, 0, i32::MIN));
    let found = naive_closest_intersection(&ray, &mesh).unwrap();
    assert_eq!(found.triangle_index, 1);
    assert!(found.hit.determinant > 1 << 90);
    let found = triangles_closest_intersection(&vec![1, 0], &ray, &mesh).unwrap();
    assert_eq!(found.triangle_index, 1);
}

#[test]
fn tree_finds_what_the_full_search_finds_on_a_floor() {
    let mesh = floor(12);
    let tree = KdTree::from_mesh(&mesh);
    assert!(!tree.is_leaf());
    for x in 0..24 {
        for y in 0..24 {
            let ray = Ray::new(Position::new(5 * x + 1, 5 * y + 2, 40), Direction::new(0, 0, -1));
            let naive = naive_closest_intersection(&ray, &mesh).unwrap();
            let fast = kdt_closest_intersection(&ray, &mesh, &tree).unwrap();
            assert_eq!(fast.triangle_index, naive.triangle_index);
            assert_eq!(fast.hit.determinant, naive.hit.determinant);
            assert_eq!(fast.hit.distance, naive.hit.distance);
            assert_eq!(fast.hit.barycentric, naive.hit.barycentric);
        }
    }
}

#[test]
fn tree_search_with_a_slanted_ray() {
    let mesh = floor(12);
    let tree = KdTree::from_mesh(&mesh);
    let ray = Ray::new(Position::new(-30, 47, 60), Direction::new(3, 0, -2));
    // Meets z = 0 at t = 30, at the point (60, 47, 0).
    let naive = naive_closest_intersection(&ray, &mesh).unwrap();
    let fast = kdt_closest_intersection(&ray, &mesh, &tree).unwrap();
    assert_eq!(naive.hit.distance, 30 * naive.hit.determinant);
    assert_eq!(fast.triangle_index, naive.triangle_index);
}

#[test]
fn tree_search_misses_where_the_ray_misses() {
    let mesh = floor(12);
    let tree = KdTree::from_mesh(&mesh);
    let beside = Ray::new(Position::new(500, 5, 40), Direction::new(0, 0, -1));
    assert!(kdt_closest_intersection(&beside, &mesh, &tree).is_none());
    let from_below = Ray::new(Position::new(5, 5, -40), Direction::new(0, 0, 1));
    assert!(kdt_closest_intersection(&from_below, &mesh, &tree).is_none());
    assert!(naive_closest_intersection(&from_below, &mesh).is_none());
}

fn triangles_below(node: &KdTree, into: &mut Vec<usize>) {
    if let Some(ids) = &node.triangle_index {
        into.extend(ids.iter().copied());
    }
    if let Some(l) = &node.left {
        triangles_below(l, into);
    }
    if let Some(r) = &node.right {
        triangles_below(r, into);
    }
}

#[test]
fn mesh_under_the_root_is_the_mesh() {
    let mesh = floor(6);
    let tree = KdTree::from_mesh(&mesh);
    let part = ray_ruster::geometry::export::kdt_to_mesh(&tree, &mesh);
    assert_eq!(part.vertices, mesh.vertices);
    assert_eq!(part.triangles, mesh.triangles);
    assert_eq!(part.vertex_index_triangle_indices_map, mesh.vertex_index_triangle_indices_map);
}

#[test]
fn mesh_under_a_node_holds_its_triangles_once_in_order() {
    let mesh = floor(12);
    let tree = KdTree::from_mesh(&mesh);
    let node = tree.left.as_ref().unwrap();
    assert!(!node.is_leaf());
    let part = ray_ruster::geometry::export::kdt_to_mesh(node, &mesh);
    let mut expected = Vec::new();
    triangles_below(node, &mut expected);
    let with_repeats = expected.len();
    expected.sort_unstable();
    expected.dedup();
    // Triangles across a split are held on both sides of it.
    assert!(expected.len() < with_repeats);
    assert!(expected.len() < mesh.triangles.len());
    assert_eq!(part.vertices, mesh.vertices);
    assert_eq!(part.triangles.len(), expected.len());
    for (k, &i) in expected.iter().enumerate() {
        assert_eq!(part.triangles[k], mesh.triangles[i]);
    }
}

#[test]
fn mesh_under_a_leaf_without_triangles_is_empty() {
    let mesh = Mesh::from_vertices_and_triangles(vec![Position::new(0, 0, 0)], vec![]);
    let tree = KdTree::from_mesh(&mesh);
    let part = ray_ruster::geometry::export::kdt_to_mesh(&tree, &mesh);
    assert_eq!(part.vertices.len(), 1);
    assert!(part.triangles.is_empty());
}
