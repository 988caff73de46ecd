//! The move engine of a sliding-tile merge puzzle: an N-by-N grid holds
//! numbered tiles, a directional move compacts and merges them toward one
//! edge, a fresh tile spawns after any change, and the game ends when a full
//! board admits no further merge.

pub mod board;
pub mod game;
pub mod shift;
pub mod spawn;
pub mod tile;
