//! A Monte Carlo path tracer over spherical surfaces, with the numeric core
//! carried out in fixed-point arithmetic (signed 64-bit values scaled by
//! `fixed::SCALE`) so that every geometric and radiometric computation has an
//! exact, machine-checked contract.

pub mod camera;
pub mod fixed;
pub mod hit;
pub mod material;
pub mod ray;
pub mod rng;
pub mod sphere;
pub mod tracer;
pub mod vec;
