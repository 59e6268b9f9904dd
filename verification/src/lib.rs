//! A battleship board, its random generator, and a verifier that checks a
//! hidden board against a public inventory of ship sizes and counts.
//!
//! The counting rules are stated as spec functions in [`counting`], and
//! what it means to hold an inventory in [`inventory`]. The verifier in
//! [`zk_system`] lifts the board into an arithmetic constraint system; on
//! the contracts stated there for the calls into that system, its result is
//! proved to be the one that the rules give. [`laws`] and [`fleet`] prove
//! what the verifier finds on boards of a known shape, among them every
//! board that [`battlefield`] sets up.
pub mod battlefield;
pub mod counting;
pub mod error;
pub mod fleet;
pub mod game;
pub mod input;
pub mod inventory;
pub mod laws;
pub mod ship;
pub mod zk_system;
