//! Lattice geometry: points, boxes, rays and the tree that indexes them.

pub mod bounding_box;
pub mod distance;
pub mod exact;
pub mod export;
pub mod kdtree;
pub mod median;
pub mod mesh;
pub mod off;
pub mod ray;
pub mod separation;
pub mod traversal;
pub mod traversal_laws;
pub mod tree_laws;
pub mod types;
pub(crate) mod wide;
