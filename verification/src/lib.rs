//! Solver for 4x4 Sudoku puzzles by constraint propagation over a packed
//! bitboard, settling the most constrained cell first.

mod partial_sudoku;
mod solver;
mod sudoku;
mod sudoku_problem;

pub use partial_sudoku::PartialSudoku;
pub use solver::cell_node::CellNode;
pub use solver::grid::Grid;
pub use solver::queue::PendingQueue;
pub use solver::solve;
pub use sudoku::Sudoku;
pub use sudoku_problem::SudokuProblem;
