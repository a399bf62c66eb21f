//! The verified core of a Monte Carlo path tracer.
//!
//! A path tracer works in floating point, and this library holds no floating
//! point. It holds what a tracer decides: the branches of the tracer are taken
//! here, on the bit patterns of the doubles that the tracer has worked out,
//! and the depth of each path and the place of each pixel are kept here.
//!
//! - `scalar`: doubles by their bit patterns, their order and their values.
//! - `vector`: the tests on a vector, and its reversal.
//! - `hit`: which root of a shape counts, which shape is nearest, and which
//!   face is hit.
//! - `material`: what a Lambertian, a metal and a dielectric do with a ray.
//! - `path`: the depth of a light path and how the path ends.
//! - `pixel`: from a channel of light to a byte.
//! - `frame`: the scan over the image and the buffer of its pixels.
//! - `scene`: the rules that spheres and cameras are held to.

pub mod frame;
pub mod hit;
pub mod material;
pub mod path;
pub mod pixel;
pub mod scalar;
pub mod scene;
pub mod vector;
