//! Four-player chess on a 14x14 cross-shaped board: the starting position, attack and
//! check detection, and move generation, each with its rules stated and proved.

pub mod analyzer;
pub mod game;
