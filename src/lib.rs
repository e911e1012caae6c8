//! Tiled image generation: an adjacency model learned from a tiled image, a grid of
//! per-cell domains narrowed by collapse, an exhaustive backtracking search over such
//! grids, and direct enumeration of every legal 3x3 fragment around a seed tile.
pub mod backtrack;
pub mod fragment;
pub mod tiling;
pub mod matrix;
pub mod model;
pub mod node;

pub use backtrack::search;
pub use fragment::{center, corner, side};
pub use tiling::{neighborhoods_of, Image, Pixels, TIS};
pub use matrix::{Matrix, Neighbors};
pub use model::{Direction, Neighborhood, TID};
pub use node::{IDMatrix, Node, Tile};
