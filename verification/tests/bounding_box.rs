use ray_ruster::geometry::bounding_box::AxisAlignedBoundingBox;
use ray_ruster::geometry::types::{Direction, Position};

fn cube(lo: i32, hi: i32) -> AxisAlignedBoundingBox {
    AxisAlignedBoundingBox::from_bounds([Position::new(lo, lo, lo), Position::new(hi, hi, hi)])
}

#[test]
fn triangle_intersection_no_normal() {
    let aabb = AxisAlignedBoundingBox::from_bounds([
        Position::new(0, 0, 0),
        Position::new(10, 10, 10),
    ]);
    let ref t0 = Position::new(12, 9, 9);
    let ref t1 = Position::new(9, 12, 9);
    let ref t2 = Position::new(19, 19, 20);

    assert!(!aabb.intersect_triangle(t0, t1, t2, None));
}

#[test]
fn triangle_intersection_no_normal_non_0_aligned() {
    let aabb = AxisAlignedBoundingBox::from_bounds([
        Position::new(10, 10, 10),
        Position::new(20, 20, 20),
    ]);
    let ref t0 = Position::new(22, 19, 19);
    let ref t1 = Position::new(19, 22, 19);
    let ref t2 = Position::new(29, 29, 30);

    assert!(!aabb.intersect_triangle(t0, t1, t2, None));
}

#[test]
fn triangle_in_aabb_intersection_no_normal() {
    let aabb = AxisAlignedBoundingBox::from_bounds([
        Position::new(0, 0, 0),
        Position::new(10, 10, 10),
    ]);
    let ref t0 = Position::new(1, 1, 1);
    let ref t1 = Position::new(9, 12, 9);
    let ref t2 = Position::new(5, 5, 5);

    assert!(aabb.intersect_triangle(t0, t1, t2, None));
}

#[test]
fn triangle_in_flat_aabb_intersection_no_normal() {
    let aabb = AxisAlignedBoundingBox::from_bounds([
        Position::new(0, 0, 0),
        Position::new(10, 10, 0),
    ]);
    let ref t0 = Position::new(1, 1, 0);
    let ref t1 = Position::new(9, 12, 0);
    let ref t2 = Position::new(5, 5, 1);

    assert!(aabb.intersect_triangle(t0, t1, t2, None));
}

#[test]
fn new_is_the_tightest_box() {
    let points = vec![
        Position::new(3, -2, 7),
        Position::new(-1, 5, 7),
        Position::new(4, 0, -9),
        Position::new(0, 0, 0),
    ];
    let b = AxisAlignedBoundingBox::new(&points);
    assert_eq!(b.bounds[0], Position::new(-1, -2, -9));
    assert_eq!(b.bounds[1], Position::new(4, 5, 7));
}

#[test]
fn new_of_one_point_is_that_point() {
    let b = AxisAlignedBoundingBox::new(&vec![Position::new(2, 3, 4)]);
    assert_eq!(b.bounds[0], Position::new(2, 3, 4));
    assert_eq!(b.bounds[1], Position::new(2, 3, 4));
    assert_eq!(b.width(), 0);
}

#[test]
fn dimensions_are_max_minus_min() {
    let b = AxisAlignedBoundingBox::from_bounds([Position::new(-3, 2, 10), Position::new(4, 2, 25)]);
    assert_eq!(b.width(), 7);
    assert_eq!(b.height(), 0);
    assert_eq!(b.length(), 15);
    assert_eq!(b.get_dimension(0), 7);
    assert_eq!(b.get_dimension(1), 0);
    assert_eq!(b.get_dimension(2), 15);
}

#[test]
fn dimensions_of_the_widest_box_do_not_overflow() {
    let b = AxisAlignedBoundingBox::from_bounds([
        Position::new(i32::MIN, 0, 0),
        Position::new(i32::MAX, 0, 0),
    ]);
    assert_eq!(b.width(), 4_294_967_295);
    assert_eq!(b.largest_dim(), 0);
}

#[test]
fn largest_dim_picks_the_greatest_extent() {
    let b = |x, y, z| AxisAlignedBoundingBox::from_bounds([Position::new(0, 0, 0), Position::new(x, y, z)]);
    assert_eq!(b(9, 2, 3).largest_dim(), 0);
    assert_eq!(b(1, 8, 3).largest_dim(), 1);
    assert_eq!(b(1, 2, 7).largest_dim(), 2);
}

#[test]
fn largest_dim_breaks_ties_by_axis_precedence() {
    let b = |x, y, z| AxisAlignedBoundingBox::from_bounds([Position::new(0, 0, 0), Position::new(x, y, z)]);
    assert_eq!(b(5, 5, 5).largest_dim(), 0);
    assert_eq!(b(5, 5, 1).largest_dim(), 0);
    assert_eq!(b(5, 1, 5).largest_dim(), 0);
    assert_eq!(b(1, 5, 5).largest_dim(), 1);
    assert_eq!(b(0, 0, 0).largest_dim(), 0);
}

#[test]
fn split_meets_at_the_coordinate() {
    let b = AxisAlignedBoundingBox::from_bounds([Position::new(0, -4, 2), Position::new(10, 6, 8)]);
    for axis in 0..3usize {
        let at = [4, 1, 5][axis];
        let (left, right) = b.split(axis, at).unwrap();
        assert_eq!(left.bounds[1].get(axis), at);
        assert_eq!(right.bounds[0].get(axis), at);
        assert_eq!(left.bounds[0], b.bounds[0]);
        assert_eq!(right.bounds[1], b.bounds[1]);
        for other in 0..3usize {
            if other != axis {
                assert_eq!(left.bounds[1].get(other), b.bounds[1].get(other));
                assert_eq!(right.bounds[0].get(other), b.bounds[0].get(other));
            }
        }
    }
}

#[test]
fn split_at_the_faces_is_allowed() {
    let b = cube(0, 10);
    let (left, right) = b.split(1, 0).unwrap();
    assert_eq!(left.height(), 0);
    assert_eq!(right.height(), 10);
    let (left, right) = b.split(1, 10).unwrap();
    assert_eq!(left.height(), 10);
    assert_eq!(right.height(), 0);
}

#[test]
fn split_outside_the_box_fails() {
    let b = cube(0, 10);
    assert!(b.split(0, -1).is_none());
    assert!(b.split(0, 11).is_none());
    assert!(b.split(2, i32::MIN).is_none());
    assert!(b.split(2, i32::MAX).is_none());
}

#[test]
fn triangle_inside_the_box_intersects() {
    let b = cube(0, 10);
    let t0 = Position::new(1, 1, 1);
    let t1 = Position::new(9, 2, 3);
    let t2 = Position::new(4, 8, 6);
    assert!(b.intersect_triangle(&t0, &t1, &t2, None));
    // also with any axis supplied as the normal
    assert!(b.intersect_triangle(&t0, &t1, &t2, Some(&Direction::new(7, -3, 1))));
}

#[test]
fn triangle_on_the_faces_intersects() {
    let b = cube(0, 10);
    assert!(b.intersect_triangle(
        &Position::new(0, 0, 0),
        &Position::new(10, 0, 0),
        &Position::new(10, 10, 10),
        None
    ));
}

#[test]
fn triangle_beyond_a_face_does_not_intersect() {
    let b = cube(0, 10);
    for axis in 0..3usize {
        let far = |p: Position, v: i32| p.with_coord(axis, v);
        let t0 = far(Position::new(1, 1, 1), 11);
        let t1 = far(Position::new(5, 2, 7), 12);
        let t2 = far(Position::new(3, 9, 4), 30);
        assert!(!b.intersect_triangle(&t0, &t1, &t2, None));
        let t0 = far(Position::new(1, 1, 1), -1);
        let t1 = far(Position::new(5, 2, 7), -2);
        let t2 = far(Position::new(3, 9, 4), -30);
        assert!(!b.intersect_triangle(&t0, &t1, &t2, None));
    }
}

#[test]
fn triangle_plane_past_a_corner_does_not_intersect() {
    // The plane x + y + z = 40 misses the cube, though on every box axis the
    // triangle's extent overlaps the cube's.
    let b = cube(0, 10);
    let t0 = Position::new(40, 0, 0);
    let t1 = Position::new(0, 40, 0);
    let t2 = Position::new(0, 0, 40);
    assert!(!b.intersect_triangle(&t0, &t1, &t2, None));
    assert!(!b.intersect_triangle(&t0, &t1, &t2, Some(&Direction::new(1, 1, 1))));
    // The plane x + y + z = 30 touches the corner (10, 10, 10).
    let t0 = Position::new(30, 0, 0);
    let t1 = Position::new(0, 30, 0);
    let t2 = Position::new(0, 0, 30);
    assert!(b.intersect_triangle(&t0, &t1, &t2, None));
}

#[test]
fn triangle_apart_on_an_edge_axis_only_does_not_intersect() {
    // In the plane z = 5 the triangle lies beyond the line x + y = 21, past
    // the corner (10, 10) of the square: neither a box axis nor the normal
    // tells them apart, the cross product of an edge with the z axis does.
    let b = cube(0, 10);
    let t0 = Position::new(9, 13, 5);
    let t1 = Position::new(13, 9, 5);
    let t2 = Position::new(13, 13, 5);
    assert!(!b.intersect_triangle(&t0, &t1, &t2, None));
    // Moved to touch the corner, it intersects.
    let t0 = Position::new(8, 12, 5);
    let t1 = Position::new(12, 8, 5);
    let t2 = Position::new(12, 12, 5);
    assert!(b.intersect_triangle(&t0, &t1, &t2, None));
}

#[test]
fn degenerate_triangle_is_handled() {
    let b = cube(0, 10);
    // Three times the same point, inside and outside.
    let p = Position::new(5, 5, 5);
    assert!(b.intersect_triangle(&p, &p, &p, None));
    let q = Position::new(50, 5, 5);
    assert!(!b.intersect_triangle(&q, &q, &q, None));
    // A segment through the box.
    assert!(b.intersect_triangle(
        &Position::new(-5, 5, 5),
        &Position::new(15, 5, 5),
        &Position::new(15, 5, 5),
        None
    ));
}

#[test]
fn flat_box_and_coplanar_triangle() {
    let b = AxisAlignedBoundingBox::from_bounds([Position::new(0, 0, 0), Position::new(10, 10, 0)]);
    assert!(b.intersect_triangle(
        &Position::new(1, 1, 0),
        &Position::new(9, 1, 0),
        &Position::new(5, 8, 0),
        None
    ));
    assert!(!b.intersect_triangle(
        &Position::new(11, 11, 0),
        &Position::new(20, 11, 0),
        &Position::new(11, 20, 0),
        None
    ));
    assert!(!b.intersect_triangle(
        &Position::new(1, 1, 1),
        &Position::new(9, 1, 1),
        &Position::new(5, 8, 1),
        None
    ));
}

#[test]
fn extreme_coordinates_do_not_overflow() {
    let b = AxisAlignedBoundingBox::from_bounds([
        Position::new(i32::MIN, i32::MIN, i32::MIN),
        Position::new(i32::MAX, i32::MAX, i32::MAX),
    ]);
    let t0 = Position::new(i32::MIN, i32::MAX, i32::MIN);
    let t1 = Position::new(i32::MAX, i32::MIN, i32::MAX);
    let t2 = Position::new(i32::MAX, i32::MAX, i32::MIN);
    assert!(b.intersect_triangle(&t0, &t1, &t2, None));
    let small = cube(-1, 1);
    let t0 = Position::new(i32::MAX, i32::MAX, i32::MAX);
    let t1 = Position::new(i32::MAX, i32::MAX - 1, i32::MAX);
    let t2 = Position::new(i32::MAX - 1, i32::MAX, i32::MAX);
    assert!(!small.intersect_triangle(&t0, &t1, &t2, None));
}
