//! A small recursive ray tracer over spheres, written entirely in 16-bit
//! fixed-point arithmetic so that every geometric and shading computation
//! carries an exact contract.
//!
//! A scalar is an `i128` holding the value times 65536 (`fixed::FX_ONE`).
//! Vectors, rays, spheres, materials, the scene aggregate and the shading
//! integrator all work on such scalars; the driving program converts to and
//! from floating point at its own edge.

pub mod fixed;
pub mod geometry;
pub mod material;
pub mod tracing;
pub mod utils;
