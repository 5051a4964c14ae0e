//! Rules core of a dice-driven territory conquest game on a hexagonal
//! lattice: procedural board generation, dice combat, and turn bookkeeping.

pub mod board;
pub mod gen;
pub mod grid;
pub mod hex;
mod rng;
