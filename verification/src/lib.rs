//! Decision engine for a grid-confined snake agent.
//!
//! Once per game tick the engine decides which of the four cardinal
//! directions the snake should move, given its own body, one or more food
//! cells, and a set of obstacles (static barriers, rival bodies and the
//! rivals' predicted next head positions).  The result is a single
//! direction code (0 = up, 1 = left, 2 = down, 3 = right) or the sentinel
//! `-1` meaning that no safe move exists.
//!
//! Three engines share the same geometry and search core:
//! [`greedy_snake_move`] (greedy chase on the fixed 8x8 board),
//! [`greedy_snake_move_barriers`] (breadth-first ranking with barriers
//! and a survival fallback) and [`greedy_snake_step`] (multi-rival,
//! variable board, cost-guided search with a defensive fallback).

use vstd::prelude::*;

pub mod barriers;
pub mod cellset;
pub mod grid;
pub mod reach;
pub mod search;
pub mod simple;
pub mod step;

pub use barriers::greedy_snake_move_barriers;
pub use cellset::ObstacleSet;
pub use grid::Cell;
pub use simple::greedy_snake_move;
pub use step::greedy_snake_step;

verus! {

} // verus!
