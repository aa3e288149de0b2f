//! A verified rules engine for the tile-drafting board game Azul, together
//! with a generic depth-bounded minimax search (alpha-beta pruning) that
//! drives play over any conforming game state.

pub mod rng;
pub mod tile;
pub mod wall;
pub mod grid;
pub mod player;
pub mod state;
pub mod minmax;
pub mod move_detection;
