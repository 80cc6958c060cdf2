//! A progressive Monte Carlo path tracer over spheres.
//!
//! Scalars are fixed-point numbers (see `fixed`), so every geometric and
//! colour computation is exact integer arithmetic with a stated rounding.
//! A scene of spheres with diffuse and mirror materials is seen through a
//! pinhole camera; each `RayTracer::update` traces one more random sample per
//! pixel and folds it into a running average kept as gamma-encoded RGBA bytes.

pub mod fixed;
pub mod vec3;
pub mod ray;
pub mod util;
pub mod material;
pub mod scene;
pub mod raytracer;
