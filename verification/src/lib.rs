//! A maze core: procedural generation of a perfect maze on an odd-sized
//! square grid, and shortest-path solving between its entrance and exit.
#![verifier::loop_isolation(false)]

pub mod grid;
pub mod matrix;
pub mod maze;
mod rng;
pub mod solver;

pub use grid::adjacent;
pub use grid::grid_square;
pub use grid::in_grid;
pub use grid::is_passage;
pub use grid::is_path;
pub use grid::is_shortest_path;
pub use grid::reachable;
pub use maze::Maze;
pub use solver::dijkstra;
