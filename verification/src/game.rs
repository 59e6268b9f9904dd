//! The plain game data: cells, coordinates and the board itself.
pub mod field;
