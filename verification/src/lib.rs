//! Spatial-query core for a 3D mesh editor: an indexed triangle mesh, a
//! bounding-volume hierarchy built with a binned surface-area heuristic, and
//! exact ray-intersection queries (coarse AABB-level and precise per-face),
//! plus the analytic torus intersection used for rotation-gizmo picking.
//!
//! All geometry is carried in fixed-point coordinates: a coordinate is an
//! `i64` holding `value * SCALE`, so every test the library makes (bucket
//! selection, surface-area comparison, ray-triangle intersection) is exact
//! integer arithmetic, and hit parameters are exact rationals. The embedding
//! layer converts floating-point vertex data to this representation and
//! applies the entity's rotation to the ray before querying, as the queries
//! here work in the mesh's local orientation frame.

#![verifier::loop_isolation(false)]

use vstd::prelude::*;

pub mod ratio;
pub mod vec3;
pub mod aabb;
pub mod xform;
pub mod mesh;
pub mod tri;
pub mod split;
pub mod bvh;
pub mod query;
pub mod plan;
pub mod geom;
pub mod torus;

verus! {

/// Fixed-point unit: a world-space length of 1.0 is `SCALE` in a coordinate.
pub const SCALE: i64 = 1024;

/// Largest magnitude a mesh, ray or translation coordinate may have
/// (64 world units); keeps every intermediate product inside `i128`.
pub const MAX_COORD: i64 = 65536;

/// Largest fixed-point scale factor a transform may carry (4.0 world units).
pub const MAX_SCALE: i64 = 4096;

/// Bound on a coordinate after scale and translation are applied:
/// `MAX_COORD * MAX_SCALE / SCALE + MAX_COORD` rounded up to a power of two.
pub const MAX_PLACED: i64 = 524288;

} // verus!
