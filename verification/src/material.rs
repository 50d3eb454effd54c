//! How a surface answers a ray: whether a metal reflects it or swallows it,
//! and whether glass reflects or refracts it.
//!
//! A diffuse surface always scatters and has nothing to decide. The directions
//! themselves, and the numbers that are compared here, come from the numeric
//! kernel.

use vstd::prelude::*;
use crate::scalar::Scalar;
use crate::scalar::ONE_BITS;

verus! {

/// What glass does with a ray.
#[derive(Clone, Copy, Debug, PartialEq, Eq, Structural)]
pub enum Bend {
    Reflect,
    Refract,
}

/// A metal scatters a ray only if the reflected direction, after it was
/// perturbed by the surface's roughness, still leaves the surface: if its dot
/// product with the normal, `facing`, is above zero. Otherwise the ray is
/// absorbed.
pub open spec fn spec_metal_scatters(facing: Scalar) -> bool {
    facing.spec_gt(Scalar { bits: 0 })
}

/// Snell's law has no solution: the refraction ratio times the sine of the
/// angle of incidence, `ratio_sin`, is above one.
pub open spec fn cannot_refract(ratio_sin: Scalar) -> bool {
    ratio_sin.spec_gt(Scalar { bits: ONE_BITS })
}

/// What glass does where refraction is possible: it reflects if the uniform
/// sample falls below the reflectance, and refracts otherwise.
pub open spec fn by_chance(sample: Scalar, reflectance: Scalar) -> Bend {
    if sample.spec_lt(reflectance) {
        Bend::Reflect
    } else {
        Bend::Refract
    }
}

/// Whether a metal scatters the ray, from the dot product of the perturbed
/// reflected direction with the normal.
pub fn metal_scatters(facing: Scalar) -> (scatters: bool)
    ensures
        scatters == spec_metal_scatters(facing),
{
    let zero = Scalar::zero();
    facing.gt(&zero)
}

/// What glass does with a ray. Total internal reflection forces a reflection
/// and draws nothing. Otherwise one uniform sample is drawn and held against
/// the reflectance.
pub fn dielectric_bend<F: FnOnce() -> Scalar>(
    ratio_sin: Scalar,
    reflectance: Scalar,
    draw: F,
) -> (bend: Bend)
    requires
        call_requires(draw, ()),
    ensures
        cannot_refract(ratio_sin) ==> bend == Bend::Reflect,
        !cannot_refract(ratio_sin) ==> exists|sample: Scalar|
            call_ensures(draw, (), sample) && bend == by_chance(sample, reflectance),
{
    let one = Scalar::one();
    if ratio_sin.gt(&one) {
        Bend::Reflect
    } else {
        let sample = draw();
        let bend = if sample.lt(&reflectance) {
            Bend::Reflect
        } else {
            Bend::Refract
        };
        assert(call_ensures(draw, (), sample) && bend == by_chance(sample, reflectance));
        bend
    }
}

} // verus!
