//! Magnetic-pendulum fractal simulation over fixed-point plane coordinates.
//!
//! A virtual particle is released at rest at every point of a sampling grid
//! and pulled by a fixed set of attractors ("magnets") under an inverse-square
//! force law with damping, until it settles near one attractor or a step
//! budget runs out. Settled particles are rasterized to a pixel buffer by the
//! color of the attractor they settled at.
//!
//! All plane coordinates, velocities and forces are fixed-point numbers: an
//! `i64` raw value denotes `raw / SCALE` plane units.

pub mod vec2;
pub mod sim;
pub mod raster;

pub use vec2::Vec2;
