//! Maze solving on occupancy grids: the grid model, the graph built from it,
//! four traversal algorithms with a shortest-path variant, the small
//! containers they use, and the bridge between grids and images.

pub mod algorithms;
pub mod constants;
pub mod data_structures;
pub mod error;
pub mod graph;
pub mod grid;
pub mod mask;
pub mod picture;

pub use graph::{add_node, maze_to_adjacency_list, AdjacencyList};
pub use picture::{img_to_vec, mark_solution, render_img, render_maze_solution};
