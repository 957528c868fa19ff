//! Constraint propagation for 9x9 Sudoku: every cell keeps a set of candidate
//! digits, and naked-single and naked-subset elimination over the rows,
//! columns and boxes narrow those sets until a round removes nothing.

pub mod cell;
pub mod puzzle;
pub mod engine;
pub mod render;
pub mod parse;
pub mod theorems;
