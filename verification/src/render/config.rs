//! Rendering options.

use vstd::prelude::*;

verus! {

/// How a surface normal is chosen at a hit point.
#[derive(Clone, Copy, Debug, PartialEq, Eq, Structural)]
pub enum NormalMode {
    /// Interpolate the three vertex normals by the barycentric coordinates.
    Phong,
    /// Use the flat normal of the triangle.
    Triangle,
}

/// Options for shading.
#[derive(Clone, Copy, Debug, PartialEq, Eq, Structural)]
pub struct RenderingConfig {
    pub normal_mode: NormalMode,
}

} // verus!
