use vstd::prelude::*;

verus! {

/// The render entry point. Rendering itself — camera rays, worker pool,
/// image output — is floating-point and I/O work that lives with the
/// unverified front end; the verified pieces it is built from are the
/// tile partition ([`crate::tile::TileGrid`]), the per-ray decision
/// machine ([`crate::integrator::PathIntegrator`]) and the hierarchy
/// traversal ([`crate::traverse::Traversal`]).
pub struct Renderer {}

} // verus!
