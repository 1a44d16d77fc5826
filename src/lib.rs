pub mod bf_solver;
pub mod board;
pub mod grid;
pub mod grid_text;
pub mod laws;
pub mod order;
pub mod search;
pub mod stats;
pub mod sudoku;
pub mod timing;
