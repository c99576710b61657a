//! Procedural weathering by gammaton tracing.
//!
//! Particles ("tons") travel through a scene of triangles, bounce, fly on
//! parabolas or flow along surfaces, and exchange substances with point
//! samples of the surface ("surfels"). The library holds the exact parts of
//! that simulation:
//!
//! - `aabb`: axis-aligned boxes on an integer grid, their union and octants;
//! - `octree`: an octree over boxed elements with ray and line-segment queries;
//! - `tri`: grid triangles and exact ray intersection;
//! - `bins`: area-binned triangles for area-weighted sampling;
//! - `poisson`: point sets that keep a minimum distance;
//! - `ton`: tons, surfels and the interaction rule between them;
//! - `source`: sources that emit tons;
//! - `sink`, `effect`: where the weathered scene and its maps are written.
//!
//! Coordinates are grid units. Probabilities, concentrations and rates are
//! fixed-point numbers in which `ton::UNIT` stands for 1.
pub mod aabb;
pub mod bins;
pub mod effect;
pub mod octree;
pub mod poisson;
mod random;
pub mod sink;
pub mod source;
pub mod ton;
pub mod tri;
