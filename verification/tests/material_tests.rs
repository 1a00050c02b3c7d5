use pupsy_render::material::{
    ColorBits, DiffuseLightMaterial, MaterialKind, RefractionMaterial, RefractionType,
    produces_scatter_distribution,
};
use pupsy_render::profile::{Profile, ProfileType};
use pupsy_render::render_target::RenderTarget;

#[test]
fn only_the_diffuse_light_is_terminal() {
    assert!(produces_scatter_distribution(MaterialKind::Diffuse));
    assert!(!produces_scatter_distribution(MaterialKind::DiffuseLight));
    assert!(produces_scatter_distribution(MaterialKind::Metal));
    assert!(produces_scatter_distribution(MaterialKind::Normal));
    assert!(produces_scatter_distribution(MaterialKind::Uv));
    assert!(produces_scatter_distribution(MaterialKind::Refraction));
    assert!(produces_scatter_distribution(MaterialKind::Pbr));
}

#[test]
fn diffuse_light_emits_its_stored_color() {
    let light = DiffuseLightMaterial {
        color: ColorBits { r: 1.4f32.to_bits(), g: 0.1f32.to_bits(), b: 0.2f32.to_bits() },
    };
    assert_eq!(light.emit(), light.color);
}

#[test]
fn refraction_material_keeps_its_medium() {
    let glass = RefractionMaterial { refraction_type: RefractionType::Glass };
    assert_eq!(glass.refraction_type, RefractionType::Glass);
    assert_ne!(RefractionType::Air, RefractionType::Diamond);
}

#[test]
fn profile_stores_its_identity() {
    let p = Profile::new("Total Time", ProfileType::INSTANT);
    assert_eq!(p.name, "Total Time");
    assert!(matches!(p.profile_type, ProfileType::INSTANT));
}

#[test]
fn render_target_starts_empty() {
    let rt = RenderTarget::new();
    assert_eq!(rt.width, 0);
    assert_eq!(rt.height, 0);
}
