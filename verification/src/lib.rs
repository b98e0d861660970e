//! Core logic of a tile-grid colony simulation: agents (dwellers and mobs)
//! pick up tasks, navigate the grid, and wander, while chunk streaming is
//! derived from agent positions.

pub mod dwellers;
pub mod grid;
pub mod movement;
pub mod objects;
pub mod pathfind;
pub mod mobs;
pub mod rng;
pub mod streaming;
pub mod tasks;
pub mod utils;

pub use grid::CellIndex;
