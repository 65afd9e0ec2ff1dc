//! The traversal algorithms and the move predicates they share.

pub mod always_left;
pub mod breadth_first;
pub mod corridor;
pub mod depth_first;
pub mod moves;
pub mod shortest;
pub mod wall_follower;

pub use always_left::simple_always_left;
pub use breadth_first::{backtracking_breadth_first, breadth_first};
pub use depth_first::depth_first;
pub use moves::{path_down, path_left, path_right, path_up};
pub use wall_follower::{check_visit_later, wall_follower};
