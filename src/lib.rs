//! A bot for the two-player territory game Filler: each turn it reads the
//! board and a piece, enumerates the legal placements and picks one by a
//! weighted heuristic.

pub mod filler_ai;
pub mod laws;
pub mod model;
pub mod piece;
pub mod player;
pub mod utils;
pub mod visualizer;
pub mod weights;
