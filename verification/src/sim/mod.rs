//! The authoritative Bomberman simulation.
//!
//! No I/O and no sockets: a pure step over an explicit state. Given the same
//! seed and the same per-tick inputs, the same match plays out.
pub mod game;
pub mod map;
pub mod reach;
pub mod rng;
