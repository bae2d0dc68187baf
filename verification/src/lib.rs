//! Spheres that collide in a square viewport.
//!
//! The library generates a grid of equal spheres and advances it tick by
//! tick: the spheres move, the walls of the viewport and the other spheres
//! turn them round, and what overlaps is pushed apart. All of it is done in
//! fixed-point arithmetic on `i32`, so that every result is determined to
//! the last digit, and all of it is verified: `engine` holds the functions
//! with their contracts, and `laws` what follows from them.

pub mod algebra;
pub mod engine;
pub mod geometry;
pub mod laws;
pub mod object;
pub mod operations;
pub mod settings;
