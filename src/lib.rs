//! Shortest routes on a grid of open and solid cells, found by A* search.

pub mod consts;
pub mod grid;
pub mod pathfinding;
pub mod style;

pub use grid::{Cell, GameData};
