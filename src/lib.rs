//! Seeded maze levels with line-of-sight perception for the actors inside them.

pub mod geometry;
pub mod line;
pub mod grid;
pub mod visibility;
pub mod carve;
pub mod minotaur;
pub mod maze;
mod random;
pub mod power_up;
pub mod utils;
