use sudoku::CellNode;
use sudoku::PartialSudoku;
use sudoku::PendingQueue;
use sudoku::Sudoku;
use sudoku::SudokuProblem;
use sudoku::solve;

#[test]
fn test_cell_node_ordering() {
    let mut heap = PendingQueue::new();

    heap.push(CellNode::new(0, 3));
    heap.push(CellNode::new(1, 1));
    heap.push(CellNode::new(2, 2));

    assert_eq!(heap.pop_min().index, 1);
    assert_eq!(heap.pop_min().index, 2);
    assert_eq!(heap.pop_min().index, 0);
}

#[test]
fn test_queue_len_and_fifo_on_ties() {
    let mut queue = PendingQueue::new();
    assert_eq!(queue.len(), 0);

    queue.push(CellNode::new(3, 2));
    queue.push(CellNode::new(9, 2));
    queue.push(CellNode::new(11, 4));
    assert_eq!(queue.len(), 3);

    let first = queue.pop_min();
    assert_eq!(first.popcount, 2);
    let second = queue.pop_min();
    assert_eq!(second.popcount, 2);
    assert_eq!(queue.pop_min().index, 11);
    assert_eq!(queue.len(), 0);
}

#[test]
fn test_cell_node_new() {
    let node = CellNode::new(7, 3);
    assert_eq!(node.index, 7);
    assert_eq!(node.popcount, 3);
}

/// Checks that a solved grid is fully filled with 1..=4 and that no row,
/// column or 2x2 box repeats a value.
fn assert_valid_solution(g: &[[u8; 4]; 4]) {
    for y in 0..4 {
        for x in 0..4 {
            assert!((1..=4).contains(&g[y][x]));
        }
    }
    for a in 0..16usize {
        for b in 0..16usize {
            if a == b {
                continue;
            }
            let (ya, xa) = (a / 4, a % 4);
            let (yb, xb) = (b / 4, b % 4);
            let same_row = ya == yb;
            let same_col = xa == xb;
            let same_box = (ya / 2, xa / 2) == (yb / 2, xb / 2);
            if same_row || same_col || same_box {
                assert_ne!(g[ya][xa], g[yb][xb], "cells {a} and {b} collide");
            }
        }
    }
}

#[test]
fn test_solve_blank_grid() {
    let problem = SudokuProblem::new([[None; 4]; 4]);
    let answer = solve(problem).expect("a blank grid must be solvable");
    assert_valid_solution(&answer);
}

#[test]
fn test_solve_blank_grid_deterministic() {
    let a = solve(SudokuProblem::new([[None; 4]; 4]));
    let b = solve(SudokuProblem::new([[None; 4]; 4]));
    assert_eq!(a, b);
}

#[test]
fn test_solve_partial_grid() {
    let problem = SudokuProblem::new([
        [Some(1), None, Some(3), Some(4)],
        [None, Some(4), None, Some(1)],
        [None, None, None, None],
        [Some(4), None, Some(1), None],
    ]);
    let answer = solve(problem);
    assert_eq!(
        answer,
        Some([[1, 2, 3, 4], [3, 4, 2, 1], [2, 1, 4, 3], [4, 3, 1, 2]])
    );
}

#[test]
fn test_solve_conflicting_row() {
    let problem = SudokuProblem::new([
        [Some(1), Some(1), None, None],
        [None; 4],
        [None; 4],
        [None; 4],
    ]);
    assert_eq!(solve(problem), None);
}

#[test]
fn test_solve_completed_grid_identity() {
    let full = [[1, 2, 3, 4], [3, 4, 1, 2], [2, 1, 4, 3], [4, 3, 2, 1]];
    let problem = SudokuProblem::from_completed(full);
    assert_eq!(solve(problem), Some(full));
}

#[test]
fn test_solve_unique_deductions() {
    // every blank here is forced by propagation alone
    let problem = SudokuProblem::new([
        [Some(1), Some(2), Some(3), Some(4)],
        [Some(3), Some(4), Some(1), Some(2)],
        [Some(2), Some(1), None, None],
        [Some(4), Some(3), None, None],
    ]);
    let answer = solve(problem);
    assert_eq!(
        answer,
        Some([[1, 2, 3, 4], [3, 4, 1, 2], [2, 1, 4, 3], [4, 3, 2, 1]])
    );
}

#[test]
fn test_solve_conflicting_box() {
    let problem = SudokuProblem::new([
        [Some(2), None, None, None],
        [None, Some(2), None, None],
        [None; 4],
        [None; 4],
    ]);
    assert_eq!(solve(problem), None);
}

#[test]
fn test_sudoku_problem_round_trip() {
    // from_completed stores the same cells that new stores for a full grid
    let full = [[2, 1, 4, 3], [4, 3, 2, 1], [1, 2, 3, 4], [3, 4, 1, 2]];
    let via_new = SudokuProblem::new(full.map(|row| row.map(Some)));
    let via_completed = SudokuProblem::from_completed(full);
    assert_eq!(solve(via_new), Some(full));
    assert_eq!(solve(via_completed), Some(full));
}

#[test]
fn test_partial_sudoku_new_decrements() {
    let partial = PartialSudoku::new([
        [Some(1), None, Some(3), Some(4)],
        [None, Some(4), None, Some(1)],
        [None, None, None, None],
        [Some(4), None, Some(1), None],
    ]);
    assert_eq!(partial.cells[0], [Some(0), None, Some(2), Some(3)]);
    assert_eq!(partial.cells[1], [None, Some(3), None, Some(0)]);
    assert_eq!(partial.cells[2], [None; 4]);
    assert_eq!(partial.cells[3], [Some(3), None, Some(0), None]);
}

#[test]
fn test_sudoku_new_decrements() {
    let grid = Sudoku::new([[1, 2, 3, 4], [3, 4, 1, 2], [2, 1, 4, 3], [4, 3, 2, 1]]);
    assert_eq!(grid.cells[0], [0, 1, 2, 3]);
    assert_eq!(grid.cells[1], [2, 3, 0, 1]);
    assert_eq!(grid.cells[2], [1, 0, 3, 2]);
    assert_eq!(grid.cells[3], [3, 2, 1, 0]);
}
