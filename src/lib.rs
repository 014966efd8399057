//! The discrete core of a four-dimensional voxel renderer, verified.
//!
//! - `world`: a bounded 4D lattice of blocks and its boundary, layer by layer.
//! - `mesh`: the solid/air boundary of a 16^4 occupancy lattice as unit cube faces.
//! - `clip`: the combinatorial half of 2D polygon difference: crossing tables, entry/exit
//!   marking and the contour walk, driven by crossings and containment flags that the
//!   caller computes in floating point.
//! - `region`: convex regions as lists of half-space boundaries.
//! - `occlusion`: which facets may occlude which.
//! - `triangulate`: fan triangulation of a contour.

pub mod clip;
pub mod mesh;
pub mod occlusion;
pub mod region;
pub mod triangulate;
pub mod world;
