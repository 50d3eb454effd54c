//! The deciding core of a Monte Carlo ray tracer for scenes of spheres.
//!
//! The numeric kernel of a renderer (vector algebra, square roots, random
//! sampling) is floating-point work that is done elsewhere. This crate holds
//! what is decided from those numbers: which root of a ray-sphere equation
//! counts as the hit, which sphere of a scene is the nearest, how a surface
//! answers a ray, when a path ends, and how the finished pixels are written
//! down as a plain-text image.

pub mod scalar;
pub mod sampling;
pub mod geometry;
pub mod material;
pub mod integrator;
pub mod ppm;
