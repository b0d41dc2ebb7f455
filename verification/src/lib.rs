//! A spatial index over triangle meshes, with exact ray, box and triangle
//! queries.
//!
//! All geometry lives on an integer lattice: a vertex has three `i32`
//! coordinates, a direction three `i32` components. Every predicate is
//! decided in integer arithmetic wide enough never to overflow, so that no
//! answer depends on rounding: a ray meets a box or it does not. Where a
//! result is not a lattice quantity (the parameter at which a ray enters a
//! box, the barycentric coordinates of a hit) it is given as a ratio of
//! integers.
//!
//! The parts, leaves first:
//! - [`geometry::types`]: points and vectors;
//! - [`geometry::bounding_box`]: axis-aligned boxes, their splitting, and
//!   the separating-axis test against a triangle;
//! - [`geometry::ray`]: rays, the slab test against a box, and the
//!   single-sided test against a triangle;
//! - [`geometry::mesh`]: vertices and triangles;
//! - [`geometry::off`]: the whole-number parts of the text of an OFF file;
//! - [`geometry::kdtree`]: the tree, built by splitting at the median;
//! - [`geometry::traversal`]: the nodes that a query meets, nearest first;
//! - [`geometry::export`]: the part of a mesh under a node;
//! - [`render::ray_tracer`]: the triangle that a ray sees.
//!
//! The modules `separation`, `tree_laws` and `traversal_laws` hold no code
//! that runs: they state and prove what holds of the rest.

pub mod geometry;
pub mod render;
