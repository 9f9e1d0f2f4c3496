//! A guard walks a square grid, turning right at every obstacle, until it
//! either leaves the grid or repeats a state.

pub mod direction;
pub mod guard;
pub mod obstacles;
pub mod index;
pub mod grid;
pub mod counting;
pub mod bitset;
pub mod guard_set;
pub mod path;
pub mod simulation;
pub mod lightweight;
pub mod search;
pub mod laws;
pub mod load;
