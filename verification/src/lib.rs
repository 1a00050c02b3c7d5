//! Core of a Monte Carlo path tracer: the discrete logic of the renderer —
//! bounding-volume-hierarchy index structure, tile-parallel work partitioning,
//! buffer decoding, material classification and the per-bounce decision
//! machine of the integrator — stated with contracts and verified.
//!
//! All floating-point geometry (vector arithmetic, slab tests, shading math)
//! lives with the unverified front end that drives this crate; where this
//! crate must speak of a floating-point quantity it carries the value's IEEE
//! 754 bit pattern as a plain integer and leaves its arithmetic outside.

pub mod bvh;
pub mod decode;
pub mod integrator;
pub mod material;
pub mod renderer;
pub mod tile;
pub mod traverse;
pub mod profile;
pub mod render_target;
