use pupsy_render::integrator::{PathIntegrator, StepAction, TraceOutcome, Vec3Bits};
use pupsy_render::material::{ColorBits, DiffuseLightMaterial};
use pupsy_render::tile::{Rgb8, TileBuffer, TileGrid, TILE_SIZE};

fn dir(x: f32, y: f32, z: f32) -> Vec3Bits {
    Vec3Bits { x: x.to_bits(), y: y.to_bits(), z: z.to_bits() }
}

#[test]
fn miss_terminates_with_sky() {
    let mut p = PathIntegrator::new(5, dir(0.0, 0.0, -1.0));
    let action = p.step(TraceOutcome::Miss, 0);
    assert_eq!(action, StepAction::Sky);
    assert!(p.finished);
}

#[test]
fn emissive_hit_terminates_with_emission() {
    // A one-sample, one-bounce path onto a surface that only emits ends
    // immediately with the emitter's own constant color.
    let light = DiffuseLightMaterial {
        color: ColorBits { r: 1.0f32.to_bits(), g: 0.25f32.to_bits(), b: 0.5f32.to_bits() },
    };
    let mut p = PathIntegrator::new(1, dir(0.0, 0.0, -1.0));
    let action = p.step(
        TraceOutcome::Hit {
            has_scatter: false,
            alpha_masked: false,
            sampled_direction: dir(0.0, 1.0, 0.0),
        },
        0,
    );
    assert_eq!(action, StepAction::Emit);
    assert!(p.finished);
    // The emission the caller weighs in is the stored color, unchanged.
    let emitted = light.emit();
    assert_eq!(f32::from_bits(emitted.r), 1.0);
    assert_eq!(f32::from_bits(emitted.g), 0.25);
    assert_eq!(f32::from_bits(emitted.b), 0.5);
}

#[test]
fn alpha_masked_hit_continues_straight_through() {
    let incoming = dir(0.3, -0.7, -0.648074);
    let mut p = PathIntegrator::new(8, incoming);
    let sampled = dir(0.9, 0.1, 0.1);
    let action = p.step(
        TraceOutcome::Hit { has_scatter: true, alpha_masked: true, sampled_direction: sampled },
        3,
    );
    match action {
        StepAction::Continue { direction, use_light_mixture, unit_density } => {
            // Bit-for-bit the incoming direction: the path is a straight
            // line through the cutout surface.
            assert_eq!(direction, incoming);
            assert!(unit_density);
            assert!(use_light_mixture);
        }
        other => panic!("expected a continue, got {other:?}"),
    }
    assert_eq!(p.direction_bits, incoming);
    assert!(!p.finished);
}

#[test]
fn scatter_follows_the_sampled_direction() {
    let mut p = PathIntegrator::new(8, dir(0.0, 0.0, -1.0));
    let sampled = dir(0.5, 0.5, 0.707);
    let action = p.step(
        TraceOutcome::Hit { has_scatter: true, alpha_masked: false, sampled_direction: sampled },
        0,
    );
    match action {
        StepAction::Continue { direction, use_light_mixture, unit_density } => {
            assert_eq!(direction, sampled);
            assert!(!unit_density);
            // No lights: the plain material distribution is sampled.
            assert!(!use_light_mixture);
        }
        other => panic!("expected a continue, got {other:?}"),
    }
    assert_eq!(p.direction_bits, sampled);
}

#[test]
fn bounce_budget_truncates_to_zero_contribution() {
    let mut p = PathIntegrator::new(2, dir(0.0, 0.0, -1.0));
    let scatter = TraceOutcome::Hit {
        has_scatter: true,
        alpha_masked: false,
        sampled_direction: dir(1.0, 0.0, 0.0),
    };
    assert!(matches!(p.step(scatter, 0), StepAction::Continue { .. }));
    // The second bounce is the last of the budget: a further continue
    // would be discarded, so the path is truncated.
    assert_eq!(p.step(scatter, 0), StepAction::Truncated);
    assert!(p.finished);
}

#[test]
fn zero_depth_never_steps() {
    let p = PathIntegrator::new(0, dir(0.0, 0.0, -1.0));
    assert!(p.finished);
}

#[test]
fn emissive_sphere_fills_frame_uniformly() {
    // One sample per pixel, one bounce, every camera ray hitting the same
    // emissive surface: each pixel's path terminates at once with the
    // emitter's color, and the assembled frame is perfectly uniform.
    let emitter = DiffuseLightMaterial {
        color: ColorBits { r: 1.0f32.to_bits(), g: 0.5f32.to_bits(), b: 0.25f32.to_bits() },
    };
    let grid = TileGrid { width: 48, height: 48 };
    let count = grid.tile_count();

    let mut tiles = Vec::new();
    for _ in 0..count {
        let mut pixels = Vec::with_capacity(TILE_SIZE * TILE_SIZE);
        for _ in 0..TILE_SIZE * TILE_SIZE {
            // The decision machine ends every path at the emissive hit.
            let mut p = PathIntegrator::new(1, dir(0.0, 0.0, -1.0));
            let action = p.step(
                TraceOutcome::Hit {
                    has_scatter: false,
                    alpha_masked: false,
                    sampled_direction: dir(0.0, 0.0, -1.0),
                },
                1,
            );
            assert_eq!(action, StepAction::Emit);
            let c = emitter.emit();
            pixels.push(Rgb8 {
                r: (f32::from_bits(c.r) * 255.0) as u8,
                g: (f32::from_bits(c.g) * 255.0) as u8,
                b: (f32::from_bits(c.b) * 255.0) as u8,
            });
        }
        tiles.push(TileBuffer { pixels });
    }
    let fb = grid.assemble(&tiles);
    assert_eq!(fb.len(), 48 * 48);
    let expected = fb[0];
    assert_eq!(expected.r, 255);
    assert_eq!(expected.g, 127);
    assert_eq!(expected.b, 63);
    for pixel in fb {
        assert_eq!(pixel, expected);
    }
}
