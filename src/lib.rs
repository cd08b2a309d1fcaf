//! Rule engine of a single-player Minesweeper game: a board of cells, a hidden
//! set of mines, and the operations that open and flag cells.

pub mod board;
mod random;

pub use board::{BoardError, BoardModel, Minesweeper, OpenResult, Position};
