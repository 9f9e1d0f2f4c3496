//! A guard's patrol over a square grid, with the search for the cells on
//! which one more obstacle makes the guard walk in a loop, and beside it
//! the other puzzle solvers of the collection with the helpers for text,
//! lists and numbers that they share.

pub mod antenna;
pub mod disk;
pub mod equation;
pub mod instruction;
pub mod lists;
pub mod mul_instruction;
pub mod num_wrapper;
pub mod number_list;
pub mod page_ordering;
pub mod patrol;
pub mod regions;
pub mod report;
pub mod stones;
pub mod text;
pub mod trail;
pub mod utilities;
pub mod wordsearch;
