use ray_ruster::geometry::exact::{ratio_lt, Product};
use ray_ruster::geometry::mesh::{triangles_in_range, Mesh};
use ray_ruster::geometry::types::{Direction, Position};
use ray_ruster::render::config::{NormalMode, RenderingConfig};

fn square() -> Vec<Position> {
    vec![
        Position::new(0, 0, 0),
        Position::new(1, 0, 0),
        Position::new(1, 1, 0),
        Position::new(0, 1, 0),
        Position::new(5, 5, 5),
    ]
}

#[test]
fn mesh_keeps_vertices_and_triangles() {
    let triangles = vec![[0, 1, 2], [0, 2, 3]];
    let mesh = Mesh::from_vertices_and_triangles(square(), triangles.clone());
    assert_eq!(mesh.vertices, square());
    assert_eq!(mesh.triangles, triangles);
}

#[test]
fn mesh_maps_each_vertex_to_its_triangles() {
    let mesh = Mesh::from_vertices_and_triangles(square(), vec![[0, 1, 2], [0, 2, 3], [3, 2, 1]]);
    let map = &mesh.vertex_index_triangle_indices_map;
    assert_eq!(map.len(), 5);
    assert_eq!(map[0], vec![0, 1]);
    assert_eq!(map[1], vec![0, 2]);
    assert_eq!(map[2], vec![0, 1, 2]);
    assert_eq!(map[3], vec![1, 2]);
    assert_eq!(map[4], Vec::<usize>::new());
}

#[test]
fn mesh_counts_a_repeated_corner_each_time() {
    let mesh = Mesh::from_vertices_and_triangles(square(), vec![[1, 1, 2], [4, 4, 4]]);
    let map = &mesh.vertex_index_triangle_indices_map;
    assert_eq!(map[1], vec![0, 0]);
    assert_eq!(map[2], vec![0]);
    assert_eq!(map[4], vec![1, 1, 1]);
}

#[test]
fn mesh_without_anything() {
    let mesh = Mesh::from_vertices_and_triangles(vec![], vec![]);
    assert!(mesh.vertices.is_empty());
    assert!(mesh.triangles.is_empty());
    assert!(mesh.vertex_index_triangle_indices_map.is_empty());
}

#[test]
fn wide_products_are_exact() {
    let p = Product::of(3, 5);
    assert_eq!((p.high, p.mid, p.low), (0, 0, 15));
    let base: u128 = 1 << 64;
    let p = Product::of(base, base);
    assert_eq!((p.high, p.mid, p.low), (1, 0, 0));
    let p = Product::of(base + 1, base + 1);
    assert_eq!((p.high, p.mid, p.low), (1, 2, 1));
    let p = Product::of(base - 1, base - 1);
    assert_eq!((p.high, p.mid, p.low), (0, base - 2, 1));
    let top: u128 = (1 << 120) - 1;
    let p = Product::of(top, top);
    // (2^120 - 1)^2 = 2^240 - 2^121 + 1
    assert_eq!(p.low, 1);
    assert_eq!(p.mid, base - (1 << 57));
    assert_eq!(p.high, (1 << 112) - 1);
}

#[test]
fn wide_products_compare_by_value() {
    let a = Product::of(1 << 100, 3);
    let b = Product::of(3, 1 << 100);
    assert!(!a.lt(&b) && !b.lt(&a));
    let c = Product::of((1 << 100) + 1, 3);
    assert!(a.lt(&c) && !c.lt(&a));
    let d = Product::of(1 << 119, 1 << 119);
    assert!(c.lt(&d));
}

#[test]
fn ratios_beyond_128_bits_compare_exactly() {
    let big: u128 = 1 << 99;
    // big / (big + 1) < (big + 1) / (big + 2), though both are next to one.
    assert!(ratio_lt(big, big + 1, big + 1, big + 2));
    assert!(!ratio_lt(big + 1, big + 2, big, big + 1));
    assert!(!ratio_lt(big, big + 1, big, big + 1));
    assert!(ratio_lt(0, 1, 1, big));
    assert!(ratio_lt(1, 3, 1, 2));
    assert!(!ratio_lt(2, 4, 1, 2));
}

#[test]
fn rendering_config_holds_the_normal_mode() {
    let flat = RenderingConfig { normal_mode: NormalMode::Triangle };
    let smooth = RenderingConfig { normal_mode: NormalMode::Phong };
    assert_eq!(flat.normal_mode, NormalMode::Triangle);
    assert_ne!(flat, smooth);
}

#[test]
fn triangles_are_checked_against_the_vertex_count() {
    assert!(triangles_in_range(&vec![], 0));
    assert!(triangles_in_range(&vec![[0, 1, 2], [2, 1, 0]], 3));
    assert!(!triangles_in_range(&vec![[0, 1, 2], [2, 3, 0]], 3));
    assert!(!triangles_in_range(&vec![[3, 1, 2]], 3));
    assert!(!triangles_in_range(&vec![[0, 1, 3]], 3));
    assert!(!triangles_in_range(&vec![[0, 0, 0]], 0));
}

#[test]
fn zero_direction_is_told_apart() {
    assert!(Direction::new(0, 0, 0).is_zero());
    assert!(!Direction::new(0, 0, 1).is_zero());
    assert!(!Direction::new(0, -1, 0).is_zero());
    assert!(!Direction::new(i32::MIN, 0, 0).is_zero());
}
