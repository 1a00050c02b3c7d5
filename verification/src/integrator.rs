use vstd::prelude::*;

verus! {

/// A direction vector carried as the IEEE 754 bit patterns of its three
/// `f32` components. The integrator never computes with the components; it
/// only hands them back, so equality of the bit patterns is equality of
/// the exact floating-point vector.
#[derive(Clone, Copy, PartialEq, Eq, Structural, Debug)]
pub struct Vec3Bits {
    pub x: u32,
    pub y: u32,
    pub z: u32,
}

/// What tracing the current ray through the scene produced, as far as the
/// path-tracing decisions are concerned. The colors, densities and the hit
/// point stay with the caller, which owns the floating-point arithmetic.
#[derive(Clone, Copy, PartialEq, Eq, Structural, Debug)]
pub enum TraceOutcome {
    /// The ray left the scene.
    Miss,
    /// The ray hit a surface whose material was evaluated:
    /// `has_scatter` — the material returned an outgoing-direction
    /// distribution (an emissive material returns none and ends the path);
    /// `alpha_masked` — the surface is a cutout that passes the ray
    /// through; `sampled_direction` — the direction drawn from the
    /// material's (possibly light-mixed) distribution.
    Hit { has_scatter: bool, alpha_masked: bool, sampled_direction: Vec3Bits },
}

/// What the caller must do with the current bounce.
#[derive(Clone, Copy, PartialEq, Eq, Structural, Debug)]
pub enum StepAction {
    /// Terminate: weight the path throughput by the sky gradient of the
    /// current direction.
    Sky,
    /// Terminate: the surface only emits; weight by its emission.
    Emit,
    /// Continue from the hit point along `direction`.
    /// `use_light_mixture` — the direction was to be drawn from the
    /// half-and-half mixture of the material's distribution and the light
    /// distributions (exactly when the scene has lights);
    /// `unit_density` — divide the attenuation by a density of one
    /// instead of the mixture's density (the alpha-mask bypass).
    Continue { direction: Vec3Bits, use_light_mixture: bool, unit_density: bool },
    /// The bounce budget is exhausted: the path contributes zero.
    Truncated,
}

/// The per-ray decision machine of the path tracer: which of the bounded
/// bounces terminates the path and how, which direction the next ray
/// takes, and when the mixture density is bypassed. The caller performs
/// the tracing, sampling and radiance arithmetic and feeds each bounce's
/// [`TraceOutcome`] to [`PathIntegrator::step`].
pub struct PathIntegrator {
    /// Bounces left of the configured maximum depth.
    pub remaining: u32,
    /// The direction of the ray now being traced.
    pub direction_bits: Vec3Bits,
    /// The path has terminated; no further step is allowed.
    pub finished: bool,
}

impl PathIntegrator {
    /// A live path always has at least one bounce left.
    pub open spec fn wf(&self) -> bool {
        self.finished || self.remaining >= 1
    }

    /// A path of at most `max_depth` bounces, starting along the camera
    /// ray's direction.
    pub fn new(max_depth: u32, camera_direction: Vec3Bits) -> (p: PathIntegrator)
        ensures
            p.wf(),
            p.remaining == max_depth,
            p.direction_bits == camera_direction,
            p.finished == (max_depth == 0),
    {
        PathIntegrator { remaining: max_depth, direction_bits: camera_direction, finished: max_depth == 0 }
    }

    /// Decides one bounce. In particular, when the hit is alpha-masked the
    /// continued ray's direction is bit-for-bit the direction of the ray
    /// that arrived — the path runs geometrically straight through the
    /// cutout surface — and the density is forced to one.
    pub fn step(&mut self, outcome: TraceOutcome, lights_count: usize) -> (action: StepAction)
        requires
            old(self).wf(),
            !old(self).finished,
        ensures
            final(self).wf(),
            final(self).remaining == old(self).remaining - 1,
            action == match outcome {
                TraceOutcome::Miss => StepAction::Sky,
                TraceOutcome::Hit { has_scatter, alpha_masked, sampled_direction } => {
                    if !has_scatter {
                        StepAction::Emit
                    } else if old(self).remaining == 1 {
                        StepAction::Truncated
                    } else {
                        StepAction::Continue {
                            direction: if alpha_masked {
                                old(self).direction_bits
                            } else {
                                sampled_direction
                            },
                            use_light_mixture: lights_count > 0,
                            unit_density: alpha_masked,
                        }
                    }
                },
            },
            final(self).finished == !(action is Continue),
            action matches StepAction::Continue { direction, .. } ==> final(self).direction_bits
                == direction,
            (action is Continue && outcome matches TraceOutcome::Hit {
                alpha_masked: true,
                ..
            }) ==> final(self).direction_bits == old(self).direction_bits,
    {
        proof {
            assert(old(self).remaining >= 1);
        }
        self.remaining = self.remaining - 1;
        match outcome {
            TraceOutcome::Miss => {
                self.finished = true;
                StepAction::Sky
            },
            TraceOutcome::Hit { has_scatter, alpha_masked, sampled_direction } => {
                if !has_scatter {
                    self.finished = true;
                    StepAction::Emit
                } else if self.remaining == 0 {
                    self.finished = true;
                    StepAction::Truncated
                } else {
                    let direction = if alpha_masked {
                        self.direction_bits
                    } else {
                        sampled_direction
                    };
                    self.direction_bits = direction;
                    StepAction::Continue {
                        direction,
                        use_light_mixture: lights_count > 0,
                        unit_density: alpha_masked,
                    }
                }
            },
        }
    }
}

} // verus!
