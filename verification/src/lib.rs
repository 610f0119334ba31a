//! Zoned perfect mazes on a rectangular grid: geometry, spanning forests,
//! zone borders, gateways and the hierarchical solver.
pub mod edge;
pub mod node;
pub mod error;
pub mod rng;
pub mod count;
pub mod space;
pub mod space_square;
pub mod space_meta;
pub mod reach;
pub mod way;
pub mod zones;
pub mod cells;
pub mod maze;
pub mod render;
pub mod graph;

pub use crate::maze::maze_square;
