//! Which rays leave a hit, and how what they bring back is put together.
//!
//! Both integrators walk a tree of rays of bounded depth. At a hit the
//! direct-lighting tracer adds the lights' contribution and follows the
//! mirror ray; the path tracer adds the surface's own emission, follows one
//! sampled diffuse ray, and follows the mirror ray of a reflective surface.
//! Either follows the refracted ray of a transmissive surface. A
//! transmissive surface blends mirror and refracted light by its Fresnel
//! reflectance; any other surface adds them up. Where the refracted ray does
//! not exist, at total internal reflection, the mirror term alone makes up
//! the result.

use vstd::prelude::*;

verus! {

/// The depth at which a primary ray starts.
pub const REFLECTION_DEPTH: u32 = 6;

/// The two ways of integrating light along a ray.
#[derive(Clone, Copy, PartialEq, Eq, Debug)]
pub enum Integrator {
    /// Direct lighting with mirror and refracted rays.
    Whitted,
    /// One-directional Monte-Carlo path tracing.
    Path,
}

/// How the mirror term and the refracted term are put together.
#[derive(Clone, Copy, PartialEq, Eq, Debug)]
pub enum Blend {
    /// Each term counts in full.
    Sum,
    /// The mirror term is weighted by the Fresnel reflectance, the refracted
    /// term by what is left of it.
    Fresnel,
}

/// What is done at one hit.
#[derive(Clone, Copy, PartialEq, Eq, Debug)]
pub struct Bounce {
    /// The terms that need no further ray count: the lights' contribution
    /// for the direct-lighting tracer, the surface's emission for the path
    /// tracer.
    pub local: bool,
    /// A sampled diffuse ray is followed.
    pub diffuse: bool,
    /// The mirror ray is followed.
    pub mirror: bool,
    /// The refracted ray is followed.
    pub refraction: bool,
    /// How the mirror and the refracted term are put together.
    pub blend: Blend,
    /// The depth at which the rays that are followed start.
    pub depth: u32,
}

/// What is done at a hit that a ray of depth `depth` found, on a surface
/// that is `reflective` or `transmissive` or both or neither, where
/// `total_internal` says that the refracted ray does not exist. At depth 0
/// nothing is done: the ray brings back black.
pub open spec fn bounce_at(
    integrator: Integrator,
    depth: u32,
    reflective: bool,
    transmissive: bool,
    total_internal: bool,
) -> Option<Bounce> {
    let mirror = integrator == Integrator::Whitted || reflective;
    if depth == 0 {
        None
    } else if transmissive && total_internal {
        Some(
            Bounce {
                local: false,
                diffuse: false,
                mirror,
                refraction: false,
                blend: Blend::Sum,
                depth: (depth - 1) as u32,
            },
        )
    } else {
        Some(
            Bounce {
                local: true,
                diffuse: integrator == Integrator::Path,
                mirror,
                refraction: transmissive,
                blend: if transmissive {
                    Blend::Fresnel
                } else {
                    Blend::Sum
                },
                depth: (depth - 1) as u32,
            },
        )
    }
}

/// Decides what is done at a hit.
pub fn plan_bounce(
    integrator: Integrator,
    depth: u32,
    reflective: bool,
    transmissive: bool,
    total_internal: bool,
) -> (bounce: Option<Bounce>)
    ensures
        bounce == bounce_at(integrator, depth, reflective, transmissive, total_internal),
{
    if depth == 0 {
        return None;
    }
    let mirror = match integrator {
        Integrator::Whitted => true,
        Integrator::Path => reflective,
    };
    let diffuse = match integrator {
        Integrator::Whitted => false,
        Integrator::Path => true,
    };
    if transmissive && total_internal {
        Some(
            Bounce {
                local: false,
                diffuse: false,
                mirror,
                refraction: false,
                blend: Blend::Sum,
                depth: depth - 1,
            },
        )
    } else if transmissive {
        Some(
            Bounce {
                local: true,
                diffuse,
                mirror,
                refraction: true,
                blend: Blend::Fresnel,
                depth: depth - 1,
            },
        )
    } else {
        Some(Bounce { local: true, diffuse, mirror, refraction: false, blend: Blend::Sum, depth: depth - 1 })
    }
}

/// Number of rays that a bounce follows.
pub open spec fn rays_followed(bounce: Bounce) -> nat {
    (if bounce.diffuse {
        1nat
    } else {
        0nat
    }) + (if bounce.mirror {
        1nat
    } else {
        0nat
    }) + (if bounce.refraction {
        1nat
    } else {
        0nat
    })
}

/// The rays that leave a hit start one level further down than the ray that
/// found it, and there are at most three of them: the tree of rays ends.
pub proof fn lemma_bounce_descends(
    integrator: Integrator,
    depth: u32,
    reflective: bool,
    transmissive: bool,
    total_internal: bool,
)
    ensures
        match bounce_at(integrator, depth, reflective, transmissive, total_internal) {
            Some(bounce) => bounce.depth + 1 == depth && rays_followed(bounce) <= 3,
            None => depth == 0,
        },
{
}

/// The refracted ray is followed just where the surface is transmissive and
/// the reflection is not total, and just there the Fresnel reflectance
/// weights the mirror term and the refracted term.
pub proof fn lemma_fresnel_where_refracted(
    integrator: Integrator,
    depth: u32,
    reflective: bool,
    transmissive: bool,
    total_internal: bool,
)
    requires
        depth > 0,
    ensures
        bounce_at(integrator, depth, reflective, transmissive, total_internal) matches Some(bounce)
            && (bounce.refraction <==> transmissive && !total_internal) && (bounce.blend
            == Blend::Fresnel <==> bounce.refraction),
{
}

/// On a surface that neither reflects nor transmits, the path tracer follows
/// the one sampled diffuse ray and nothing else.
pub proof fn lemma_diffuse_surface_follows_one_ray(depth: u32, total_internal: bool)
    requires
        depth > 0,
    ensures
        bounce_at(Integrator::Path, depth, false, false, total_internal) == Some(
            Bounce {
                local: true,
                diffuse: true,
                mirror: false,
                refraction: false,
                blend: Blend::Sum,
                depth: (depth - 1) as u32,
            },
        ),
{
}

} // verus!
