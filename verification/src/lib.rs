//! A 9x9 Sudoku board that tracks the candidates of every cell, a solver
//! that enumerates all completions of a board, a generator of puzzles with
//! exactly one solution, and the state of an interactive game on such a board.

pub mod annotations;
pub mod board;
pub mod errors;
pub mod game;
pub mod generate;
pub mod solver;
pub mod sudoku;
pub mod text;
pub mod tui;
pub mod util;

pub use annotations::Annotations;
pub use sudoku::Sudoku;
