//! A falling-sand simulation grid.
//!
//! The library owns the logical cell grid, the pixel buffer that mirrors it
//! for display, the probabilistic initial fill, and the per-tick settling
//! rule. Randomness is injected as a [`rng::RandSource`], so the simulation
//! can be driven deterministically or from an entropy source.

pub mod grid;
pub mod rng;
pub mod sim;
