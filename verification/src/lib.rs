//! A verified 9x9 Sudoku solver.
//!
//! A board is a row-major grid of 81 cells, each either a fixed clue or a
//! free cell that the solver may fill.  The solver runs an exhaustive
//! backtracking search over the free cells, pruning with a full-board
//! validity check, and returns the first solution in cell-major,
//! digit-ascending order.  Parsing, serialization and a batch mode that
//! solves a list of puzzle lines in order complete the library.

pub mod batch;
pub mod board;
pub mod codec;
pub mod solver;
