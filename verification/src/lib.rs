//! A 9×9 Sudoku solver: constraint propagation over per-cell candidate sets,
//! with depth-first search on the cell that has the fewest candidates left.
//!
//! A puzzle is a [`Sudoku`], a grid of optional digits. Solving lowers it to a
//! [`SudokuSolver`], a board that holds for every cell the digits still
//! possible there, searches on that board, and shows the board found as a
//! grid again.

pub mod board;
pub mod candidates;
pub mod field;
pub mod grid;
pub mod laws;
pub mod parse;
pub mod render;
pub mod search;
pub mod single;
pub mod solver;
pub mod ui;

pub use field::SudokuField;
pub use grid::Sudoku;
pub use parse::SudokuParseError;
pub use single::Single;
pub use solver::{SudokuSolver, ValueSet};
