use vstd::prelude::*;

verus! {

/// An RGB radiance value carried as the IEEE 754 bit patterns of its
/// three `f32` channels. The material layer stores and hands colors on
/// unchanged; all color arithmetic stays with the shading kernel.
#[derive(Clone, Copy, PartialEq, Eq, Structural, Debug)]
pub struct ColorBits {
    pub r: u32,
    pub g: u32,
    pub b: u32,
}

/// The closed set of material models, dispatched by match instead of
/// through trait objects.
#[derive(Clone, Copy, PartialEq, Eq, Structural, Debug)]
pub enum MaterialKind {
    Diffuse,
    DiffuseLight,
    Metal,
    Normal,
    Uv,
    Refraction,
    Pbr,
}

/// Whether a material's `scatter` produces an outgoing-direction
/// distribution. Every model does except the diffuse light, whose hit
/// terminates the path with its emission.
pub fn produces_scatter_distribution(kind: MaterialKind) -> (b: bool)
    ensures
        b == !(kind is DiffuseLight),
{
    match kind {
        MaterialKind::DiffuseLight => false,
        _ => true,
    }
}

/// Lambertian surface: attenuation is the albedo and the outgoing
/// direction is drawn from a cosine hemisphere around the shading normal.
pub struct DiffuseMaterial {}

/// A surface that only emits: its `scatter` returns no distribution, so a
/// path that hits it ends there, weighted by `color`.
pub struct DiffuseLightMaterial {
    pub color: ColorBits,
}

impl DiffuseLightMaterial {
    /// The emitted radiance is the stored constant color, for every ray
    /// and every hit.
    pub fn emit(&self) -> (c: ColorBits)
        ensures
            c == self.color,
    {
        self.color
    }
}

/// Debug material: shades with the surface normal, scattering like its
/// inner diffuse model.
pub struct NormalMaterial {
    pub diffuse: DiffuseMaterial,
}

/// Debug material: shades with the first UV set, scattering like its
/// inner diffuse model.
pub struct UVMaterial {
    pub diffuse: DiffuseMaterial,
}

/// The media whose index of refraction the dielectric model knows.
#[derive(Clone, Copy, PartialEq, Eq, Structural, Debug)]
pub enum RefractionType {
    Air,
    Glass,
    Diamond,
}

/// Dielectric surface: the scattered ray is the vector refraction of the
/// incoming one, with the index ratio flipped between entering and
/// leaving the medium.
pub struct RefractionMaterial {
    pub refraction_type: RefractionType,
}

} // verus!
