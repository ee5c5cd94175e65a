//! Incremental generation of perfect mazes on a rectangular grid.
//!
//! A `Maze` owns a `width x height` grid of cells and advances a randomized
//! depth-first traversal one step at a time, carving walls as it goes, so a
//! caller can drive generation from a render loop. When the traversal has
//! visited every cell, the carved-open walls form a spanning tree of the grid.

pub mod cell;
pub mod laws;
pub mod maze;
pub mod model;

pub use cell::Cell;
pub use maze::Maze;
pub use maze::MazeError;
pub use model::MazeView;
