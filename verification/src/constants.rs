//! Cell states and image thresholds.

use vstd::prelude::*;

verus! {

/// State of an impassable cell.
pub const WALL: u8 = 0;

/// State of a traversable cell.
pub const PATH: u8 = 1;

/// A pixel whose red, green and blue channels all lie below this level is
/// dark enough to be a wall.
pub const WALL_LIMIT: u8 = 50;

/// The colour, as red, green, blue and alpha, that marks a cell of the
/// solution in an image.
pub const SOLVED_COLOR: (u8, u8, u8, u8) = (255, 0, 0, 0);

} // verus!
