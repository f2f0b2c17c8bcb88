//! An 8-puzzle solver: puzzle states, the moves of the blank, a min-heap
//! frontier and an A* search that finds a move sequence to the solved state.

pub mod puzzle;
pub mod moves;
pub mod frontier;
pub mod search;
pub mod parity;

pub use puzzle::{Dir, Puzzle, legal};
pub use moves::PuzzleIter;
pub use frontier::{Entry, Frontier, precedes};
pub use search::{QueueElt, solve};
