//! A simulation of ants wandering a directed graph of colonies.
//!
//! Each tick every ant moves through a random tunnel; colonies that then host two or more
//! ants are destroyed together with those ants, and the tunnels that led to them are severed.
//! The simulation ends when no ant is left, or after ten thousand ticks.
//!
//! The executable functions are verified against the contracts that they carry. What is
//! taken on trust is the behaviour of the string interner, of the random choice, and of two
//! functions of the standard library; each such item says so where it stands.

pub mod errors;
pub mod symbols;
pub mod directions;
pub mod graph;
pub mod agents;
pub mod movement;
pub mod collision;
pub mod laws;
pub mod driver;
pub mod loader;
pub mod map_text;
pub mod report;
