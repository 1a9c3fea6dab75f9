//! A path-tracing core over fixed-point coordinates.
//!
//! Scene geometry (spheres, lists, bounding-volume hierarchies), materials,
//! the camera model and the recursive path-color evaluator are all written
//! against exact integer arithmetic: coordinates are 16.16 fixed-point values
//! and ray parameters are exact rationals, so the intersection protocol can be
//! specified and proved without floating-point error terms.

use vstd::prelude::*;

pub mod aabb;
pub mod camera;
pub mod color;
pub mod geom;
pub mod hit_equiv;
pub mod material;
pub mod num;
pub mod object;
pub mod random;
pub mod rat;
pub mod ray;
pub mod scene;

pub use num::ONE;

verus! {

/// Why a scene element could not be constructed.
#[derive(Clone, Copy, PartialEq, Eq, Structural, Debug)]
pub enum BuildError {
    /// A hierarchy was requested over no primitives.
    EmptyScene,
    /// A primitive without a bounding box cannot enter a hierarchy.
    MissingBoundingBox,
    /// A material or geometry parameter was out of range.
    InvalidParameter,
}

} // verus!
