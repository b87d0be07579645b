pub mod cell_node;
pub mod grid;
pub mod queue;

use vstd::prelude::*;

use crate::solver::cell_node::CellNode;
use crate::solver::grid::{
    Grid, block_of, cells_bounded, col_of, elim_mask, has_bit, lemma_and_bits,
    lemma_and_preserves_empty, lemma_elim_mask, lemma_low_val, lemma_masked_low, lemma_pop_facts,
    lemma_sub_singleton, low_val, pop_of, row_of,
};
use crate::solver::queue::PendingQueue;
use crate::sudoku_problem::SudokuProblem;

verus! {

/// Two cell indices share a row, a column or a 2x2 box.
pub open spec fn peers(i: int, j: int) -> bool {
    row_of(i) == row_of(j) || col_of(i) == col_of(j) || block_of(i) == block_of(j)
}

/// Cell `i` of a solved output array (1-indexed display values).
pub open spec fn out_val(g: [[u8; 4]; 4], i: int) -> u8 {
    g@[i / 4]@[i % 4]
}

/// The output is fully filled with values 1..=4 and no two distinct peer
/// cells hold the same value.
pub open spec fn valid_solution(g: [[u8; 4]; 4]) -> bool {
    &&& forall|i: int| 0 <= i < 16 ==> 1 <= #[trigger] out_val(g, i) <= 4
    &&& forall|i: int, j: int|
        0 <= i < 16 && 0 <= j < 16 && i != j && peers(i, j) ==> #[trigger] out_val(g, i)
            != #[trigger] out_val(g, j)
}

/// The output repeats every given of the puzzle (1-indexed output against
/// 0-indexed givens).
pub open spec fn respects_givens(s: SudokuProblem, g: [[u8; 4]; 4]) -> bool {
    forall|i: int| 0 <= i < 16 ==> (#[trigger] s@[i] matches Some(v) ==> out_val(g, i) == v + 1)
}

/// Two distinct peer cells are given the same value.
pub open spec fn contradictory_givens(s: SudokuProblem) -> bool {
    exists|i: int, j: int|
        0 <= i < 16 && 0 <= j < 16 && i != j && peers(i, j) && (#[trigger] s@[i]) is Some && s@[i]
            == #[trigger] s@[j]
}

/// Every cell is given and no two peer givens collide.
pub open spec fn complete_valid(s: SudokuProblem) -> bool {
    &&& forall|i: int| 0 <= i < 16 ==> (#[trigger] s@[i]) is Some
    &&& !contradictory_givens(s)
}

/// The given value of cell `i`, as a candidate index.
pub open spec fn gval(s: SudokuProblem, i: int) -> u64 {
    match s@[i] {
        Some(v) => v as u64,
        None => 4,
    }
}

/// A given cell's candidate set never strays outside its given value.
pub open spec fn given_ok(s: SudokuProblem, gs: Seq<u64>, i: int) -> bool {
    s@[i] matches Some(v) ==> gs[i] & elim_mask(v as u64) == 0
}

/// The solve-loop invariant over the candidate sets `gs` and the settlement
/// flags `st`: settled cells are non-empty, settled peers disagree on their
/// lowest (hence final) candidate, a settled cell's value is eliminated from
/// its unsettled peers, givens are never widened, and on a complete valid
/// puzzle every cell keeps its given candidate.
pub open spec fn solver_inv(s: SudokuProblem, gs: Seq<u64>, st: Seq<bool>) -> bool {
    &&& gs.len() == 16
    &&& st.len() == 16
    &&& cells_bounded(gs)
    &&& forall|i: int| 0 <= i < 16 && #[trigger] st[i] ==> gs[i] != 0
    &&& forall|i: int, j: int|
        #![trigger st[i], st[j]]
        0 <= i < 16 && 0 <= j < 16 && i != j && peers(i, j) && st[i] && st[j] ==> low_val(gs[i])
            != low_val(gs[j])
    &&& forall|i: int, j: int|
        #![trigger st[i], st[j]]
        0 <= i < 16 && 0 <= j < 16 && i != j && peers(i, j) && st[i] && !st[j] ==> !has_bit(
            gs[j],
            low_val(gs[i]),
        )
    &&& forall|i: int| 0 <= i < 16 ==> #[trigger] given_ok(s, gs, i)
    &&& (complete_valid(s) ==> forall|i: int|
        0 <= i < 16 ==> has_bit(#[trigger] gs[i], gval(s, i)))
}

/// Number of cells not yet settled.
pub open spec fn num_unsettled(st: Seq<bool>) -> nat
    decreases st.len(),
{
    if st.len() == 0 {
        0
    } else {
        num_unsettled(st.drop_last()) + (if st.last() {
            0nat
        } else {
            1nat
        })
    }
}

/// Each settlement event turns exactly one flag from false to true and so
/// lowers the number of unsettled cells by one.
pub proof fn lemma_num_unsettled_update(st: Seq<bool>, i: int)
    requires
        0 <= i < st.len(),
        !st[i],
    ensures
        num_unsettled(st) == num_unsettled(st.update(i, true)) + 1,
    decreases st.len(),
{
    if i == st.len() - 1 {
        assert(st.update(i, true).drop_last() =~= st.drop_last());
    } else {
        lemma_num_unsettled_update(st.drop_last(), i);
        assert(st.update(i, true).drop_last() =~= st.drop_last().update(i, true));
    }
}

/// With sixteen settlement flags there are at most sixteen settlement
/// events in a solve: the count of unsettled cells never exceeds the flag
/// count, and each event lowers it by one.
pub proof fn lemma_settlement_bound(st: Seq<bool>)
    ensures
        num_unsettled(st) <= st.len(),
    decreases st.len(),
{
    if st.len() > 0 {
        lemma_settlement_bound(st.drop_last());
    }
}

/// Settling cell `idx` — eliminating its lowest candidate from every peer
/// while the cell itself is unchanged — preserves the solver invariant and
/// never grows any cell's candidate count.
pub proof fn lemma_settle_preserves(
    s: SudokuProblem,
    g0: Seq<u64>,
    g1: Seq<u64>,
    st0: Seq<bool>,
    st1: Seq<bool>,
    idx: int,
)
    requires
        s.wf(),
        solver_inv(s, g0, st0),
        0 <= idx < 16,
        !st0[idx],
        st1 == st0.update(idx, true),
        g0[idx] != 0,
        g1.len() == 16,
        forall|j: int|
            0 <= j < 16 ==> #[trigger] g1[j] == (if j == idx {
                g0[j]
            } else if peers(idx, j) {
                g0[j] & elim_mask(low_val(g0[idx]))
            } else {
                g0[j]
            }),
    ensures
        solver_inv(s, g1, st1),
        forall|j: int| 0 <= j < 16 ==> pop_of(g1[j]) <= pop_of(#[trigger] g0[j]),
{
    let v = low_val(g0[idx]);
    let m = elim_mask(v);
    lemma_low_val(g0[idx]);
    lemma_elim_mask(v);

    // every cell stays a bounded, possibly shrunk candidate set
    assert forall|j: int| 0 <= j < 16 implies g1[j] < 16 && pop_of(g1[j]) <= pop_of(g0[j]) && (
    forall|b: u64| b < 4 && has_bit(#[trigger] g1[j], b) ==> has_bit(g0[j], b)) by {
        lemma_and_bits(g0[j], m);
    }

    // settled cells stay non-empty and keep their lowest candidate
    assert forall|i: int| 0 <= i < 16 && #[trigger] st1[i] implies g1[i] != 0 && low_val(g1[i])
        == low_val(g0[i]) by {
        if i != idx {
            assert(st0[i]);
            if peers(idx, i) {
                assert(!has_bit(g0[idx], low_val(g0[i])));
                assert(low_val(g0[i]) != v);
                lemma_low_val(g0[i]);
                lemma_masked_low(g0[i], v);
            }
        }
    }

    // settled peers still disagree
    assert forall|i: int, j: int|
        #![trigger st1[i], st1[j]]
        0 <= i < 16 && 0 <= j < 16 && i != j && peers(i, j) && st1[i] && st1[j] implies low_val(
        g1[i],
    ) != low_val(g1[j]) by {
        if i == idx {
            assert(st0[j]);
            assert(!has_bit(g0[idx], low_val(g0[j])));
        } else if j == idx {
            assert(st0[i]);
            assert(!has_bit(g0[idx], low_val(g0[i])));
        } else {
            assert(st0[i] && st0[j]);
        }
    }

    // a settled cell's value is still absent from its unsettled peers
    assert forall|i: int, j: int|
        #![trigger st1[i], st1[j]]
        0 <= i < 16 && 0 <= j < 16 && i != j && peers(i, j) && st1[i] && !st1[j] implies !has_bit(
        g1[j],
        low_val(g1[i]),
    ) by {
        if i == idx {
            lemma_and_bits(g0[j], m);
        } else {
            assert(st0[i] && !st0[j]);
            assert(!has_bit(g0[j], low_val(g0[i])));
            lemma_low_val(g0[i]);
        }
    }

    // givens are still never widened
    assert forall|i: int| 0 <= i < 16 implies #[trigger] given_ok(s, g1, i) by {
        match s@[i] {
            Some(w) => {
                assert(given_ok(s, g0, i));
                if i != idx && peers(idx, i) {
                    lemma_and_preserves_empty(g0[i], m, elim_mask(w as u64));
                }
            },
            None => {},
        }
    }

    // on a complete valid puzzle, every cell keeps its given candidate
    if complete_valid(s) {
        assert forall|i: int| 0 <= i < 16 implies has_bit(#[trigger] g1[i], gval(s, i)) by {
            if i != idx && peers(idx, i) {
                assert(given_ok(s, g0, idx));
                lemma_sub_singleton(g0[idx], gval(s, idx));
                assert(v == gval(s, idx));
                if s@[i] == s@[idx] {
                    assert(contradictory_givens(s));
                }
                assert(gval(s, i) != v);
                lemma_and_bits(g0[i], m);
            }
        }
    }
}

/// A fully given, conflict-free puzzle pins its own output: any output that
/// respects its givens repeats them exactly, so the solver acts as an
/// identity on such puzzles.
pub proof fn lemma_complete_valid_pins_output(s: SudokuProblem, g: [[u8; 4]; 4])
    requires
        complete_valid(s),
        respects_givens(s, g),
    ensures
        forall|i: int| 0 <= i < 16 ==> #[trigger] out_val(g, i) == gval(s, i) + 1,
{
}

/// Candidate count of a 4-bit candidate set.
fn popcount4(c: u64) -> (r: usize)
    requires
        c < 16,
    ensures
        r == pop_of(c),
        r <= 4,
{
    let mut r: usize = 0;
    if c & 1 != 0 {
        r += 1;
    }
    if c & 2 != 0 {
        r += 1;
    }
    if c & 4 != 0 {
        r += 1;
    }
    if c & 8 != 0 {
        r += 1;
    }
    proof {
        assert(pop_of(c) == (if c & 1 != 0 {
            1u64
        } else {
            0u64
        }) + (if c & 2 != 0 {
            1u64
        } else {
            0u64
        }) + (if c & 4 != 0 {
            1u64
        } else {
            0u64
        }) + (if c & 8 != 0 {
            1u64
        } else {
            0u64
        })) by (bit_vector)
            requires
                c < 16,
        ;
    }
    r
}

/// Lowest candidate of a candidate set; 3 when the set is empty above bit 2.
fn lowest_bit4(c: u64) -> (r: u64)
    ensures
        r == low_val(c),
        r < 4,
{
    if c & 1 != 0 {
        0
    } else if c & 2 != 0 {
        1
    } else if c & 4 != 0 {
        2
    } else {
        3
    }
}

/// The twelve peer entries of a cell: its column, its row and its 2x2 box,
/// in that order. The cell itself appears in each of the three groups, and
/// no peer is left out.
fn adjacent_cells(index: usize) -> (r: Vec<usize>)
    requires
        index < 16,
    ensures
        r@.len() == 12,
        forall|k: int| 0 <= k < 4 ==> #[trigger] r@[k] == col_of(index as int) + 4 * k,
        forall|k: int| 0 <= k < 4 ==> #[trigger] r@[4 + k] == 4 * row_of(index as int) + k,
        forall|k: int|
            0 <= k < 4 ==> #[trigger] r@[8 + k] == 2 * (col_of(index as int) / 2) + k % 2 + 4 * (2
                * (row_of(index as int) / 2) + k / 2),
        forall|k: int| 0 <= k < 12 ==> #[trigger] r@[k] < 16 && peers(index as int, r@[k] as int),
        forall|j: int| 0 <= j < 16 && peers(index as int, j) ==> r@.contains(j as usize),
{
    let x = index % 4;
    let y = index / 4;
    let bx = x / 2;
    let by = y / 2;
    let mut r: Vec<usize> = Vec::new();
    let mut i: usize = 0;
    while i < 4
        invariant
            index < 16,
            x == index % 4,
            i <= 4,
            r@.len() == i,
            forall|k: int| 0 <= k < i ==> #[trigger] r@[k] == col_of(index as int) + 4 * k,
            forall|k: int| 0 <= k < i ==> #[trigger] r@[k] < 16 && peers(index as int, r@[k] as int),
        decreases 4 - i,
    {
        let c = x + i * 4;
        proof {
            assert(col_of(c as int) == col_of(index as int));
        }
        r.push(c);
        i += 1;
    }
    let mut i: usize = 0;
    while i < 4
        invariant
            index < 16,
            x == index % 4,
            y == index / 4,
            i <= 4,
            r@.len() == 4 + i,
            forall|k: int| 0 <= k < 4 ==> #[trigger] r@[k] == col_of(index as int) + 4 * k,
            forall|k: int| 0 <= k < i ==> #[trigger] r@[4 + k] == 4 * row_of(index as int) + k,
            forall|k: int|
                0 <= k < 4 + i ==> #[trigger] r@[k] < 16 && peers(index as int, r@[k] as int),
        decreases 4 - i,
    {
        let c = i + y * 4;
        proof {
            assert(row_of(c as int) == row_of(index as int));
        }
        r.push(c);
        i += 1;
    }
    let mut i: usize = 0;
    while i < 4
        invariant
            index < 16,
            x == index % 4,
            y == index / 4,
            bx == (index % 4) / 2,
            by == (index / 4) / 2,
            i <= 4,
            r@.len() == 8 + i,
            forall|k: int| 0 <= k < 4 ==> #[trigger] r@[k] == col_of(index as int) + 4 * k,
            forall|k: int| 0 <= k < 4 ==> #[trigger] r@[4 + k] == 4 * row_of(index as int) + k,
            forall|k: int|
                0 <= k < i ==> #[trigger] r@[8 + k] == 2 * (bx as int) + k % 2 + 4 * (2 * (
                by as int) + k / 2),
            forall|k: int|
                0 <= k < 8 + i ==> #[trigger] r@[k] < 16 && peers(index as int, r@[k] as int),
        decreases 4 - i,
    {
        let c = (bx * 2 + i % 2) + (by * 2 + i / 2) * 4;
        proof {
            let ci = c as int;
            assert(ci % 4 == 2 * (bx as int) + (i as int) % 2 && ci / 4 == 2 * (by as int) + (
            i as int) / 2);
            assert(block_of(ci) == block_of(index as int));
        }
        r.push(c);
        i += 1;
    }
    proof {
        assert forall|j: int| 0 <= j < 16 && peers(index as int, j) implies r@.contains(
            j as usize,
        ) by {
            let ji = index as int;
            if col_of(j) == col_of(ji) {
                assert(r@[row_of(j)] == j);
            } else if row_of(j) == row_of(ji) {
                assert(r@[4 + col_of(j)] == j);
            } else {
                assert(block_of(j) == block_of(ji));
                assert(col_of(j) / 2 == bx as int && row_of(j) / 2 == by as int);
                let k = (col_of(j) - 2 * (bx as int)) + 2 * (row_of(j) - 2 * (by as int));
                assert(0 <= k < 4);
                assert(r@[8 + k] == j);
            }
        }
    }
    r
}

/// Read one settled cell as a 1-indexed display value.
fn value_of(c: u64) -> (r: u8)
    requires
        c < 16,
    ensures
        r == low_val(c) + 1,
{
    (lowest_bit4(c) + 1) as u8
}

/// Read row `y` of the settled grid as 1-indexed display values.
fn read_row(grid: &Grid, y: usize) -> (r: [u8; 4])
    requires
        y < 4,
    ensures
        forall|x: int| 0 <= x < 4 ==> #[trigger] r@[x] == low_val(grid@[4 * (y as int) + x]) + 1,
{
    let r = [
        value_of(grid.get_cell(y * 4)),
        value_of(grid.get_cell(y * 4 + 1)),
        value_of(grid.get_cell(y * 4 + 2)),
        value_of(grid.get_cell(y * 4 + 3)),
    ];
    r
}

/// Solve the puzzle by constraint propagation with lowest-candidate
/// guessing: most constrained cells settle first, their value is removed
/// from every row, column and box peer, and an empty candidate set aborts
/// with `None`. A `Some` result is a complete valid grid extending the
/// givens; contradictory givens always yield `None`; a completely given
/// valid grid comes back unchanged.
pub fn solve(sudoku: SudokuProblem) -> (r: Option<[[u8; 4]; 4]>)
    requires
        sudoku.wf(),
    ensures
        r matches Some(g) ==> valid_solution(g) && respects_givens(sudoku, g),
        contradictory_givens(sudoku) ==> r is None,
        complete_valid(sudoku) ==> r is Some,
{
    let mut grid = Grid::full();
    let mut queue = PendingQueue::new();
    let mut settled: Vec<bool> = Vec::new();
    let mut i: usize = 0;
    while i < 16
        invariant
            settled@.len() == i,
            i <= 16,
            forall|k: int| 0 <= k < i ==> !(#[trigger] settled@[k]),
        decreases 16 - i,
    {
        settled.push(false);
        i += 1;
    }

    // initialize the grid with the given puzzle
    let mut i: usize = 0;
    while i < 16
        invariant
            sudoku.wf(),
            i <= 16,
            settled@.len() == 16,
            forall|k: int| 0 <= k < 16 ==> !(#[trigger] settled@[k]),
            cells_bounded(grid@),
            forall|j: int|
                0 <= j < i ==> #[trigger] grid@[j] == (match sudoku@[j] {
                    Some(v) => 1u64 << (v as u64),
                    None => 0xfu64,
                }),
            forall|j: int| i <= j < 16 ==> #[trigger] grid@[j] == 0xf,
            forall|k: int| 0 <= k < queue@.len() ==> (#[trigger] queue@[k]).index < 16,
        decreases 16 - i,
    {
        let x = i % 4;
        let y = i / 4;
        if let Some(value) = sudoku.get(y, x) {
            proof {
                assert(y * 4 + x == i);
                assert(sudoku@[i as int] matches Some(v) ==> v < 4);
                lemma_elim_mask(value as u64);
            }
            grid.mask_cell(i, 1u64 << (value as u64));
            queue.push(CellNode::new(i, 1));
        }
        i += 1;
    }

    proof {
        assert forall|i: int| 0 <= i < 16 implies #[trigger] given_ok(sudoku, grid@, i) by {
            match sudoku@[i] {
                Some(w) => {
                    lemma_elim_mask(w as u64);
                },
                None => {},
            }
        }
        if complete_valid(sudoku) {
            assert forall|i: int| 0 <= i < 16 implies has_bit(#[trigger] grid@[i], gval(
                sudoku,
                i,
            )) by {
                lemma_elim_mask(gval(sudoku, i));
            }
        }
    }

    proof {
        if queue@.len() > 0 {
            assert(!settled@[queue@[0].index as int]);
        }
    }

    let mut done = false;
    while !done
        invariant
            sudoku.wf(),
            solver_inv(sudoku, grid@, settled@),
            forall|k: int| 0 <= k < queue@.len() ==> (#[trigger] queue@[k]).index < 16,
            queue@.len() > 0 ==> exists|k: int|
                0 <= k < queue@.len() && !settled@[(#[trigger] queue@[k]).index as int],
            done ==> forall|j: int| 0 <= j < 16 ==> #[trigger] settled@[j],
        decreases
                num_unsettled(settled@),
                (if queue@.len() == 0 {
                    1int
                } else {
                    0int
                }),
                (if done {
                    0int
                } else {
                    1int
                }),
    {
        let ghost n0 = num_unsettled(settled@);
        let ghost q_was_empty = queue@.len() == 0;
        while queue.len() > 0
            invariant
                sudoku.wf(),
                solver_inv(sudoku, grid@, settled@),
                forall|k: int| 0 <= k < queue@.len() ==> (#[trigger] queue@[k]).index < 16,
                num_unsettled(settled@) <= n0,
                q_was_empty || num_unsettled(settled@) < n0 || (exists|k: int|
                    0 <= k < queue@.len() && !settled@[(#[trigger] queue@[k]).index as int]),
            decreases num_unsettled(settled@), queue@.len(),
        {
            let ghost q0 = queue@;
            let node = queue.pop_min();
            let idx = node.index;

            if !settled[idx] {
                let ghost st0 = settled@;
                settled[idx] = true;
                proof {
                    lemma_num_unsettled_update(st0, idx as int);
                }

                let c = grid.get_cell(idx);
                let pc = popcount4(c);
                if pc == 0 {
                    // the cell can take no value: the puzzle is unsolvable
                    proof {
                        if complete_valid(sudoku) {
                            lemma_pop_facts(c);
                            lemma_elim_mask(gval(sudoku, idx as int));
                        }
                    }
                    return None;
                }
                let mask = if pc == 1 {
                    // the settled value is forced
                    !c & 0xf
                } else {
                    // multiple candidates remain: guess the lowest one
                    let v = lowest_bit4(c);
                    !(1u64 << v) & 0xf
                };
                proof {
                    lemma_pop_facts(c);
                    lemma_low_val(c);
                    lemma_elim_mask(low_val(c));
                    assert(mask == elim_mask(low_val(c)));
                }

                let x = idx % 4;
                let y = idx / 4;
                let block = (y / 2) * 2 + (x / 2);
                let ghost g0 = grid@;
                grid.mask_column(x, mask);
                grid.mask_row(y, mask);
                grid.mask_block(block, mask);
                let ghost gc = grid@;
                grid.unmask_cell(idx, !mask);

                proof {
                    let v = low_val(g0[idx as int]);
                    let m = elim_mask(v);
                    assert forall|j: int| 0 <= j < 16 implies #[trigger] grid@[j] == (if j
                        == idx as int {
                        g0[j]
                    } else if peers(idx as int, j) {
                        g0[j] & m
                    } else {
                        g0[j]
                    }) by {
                        lemma_and_bits(g0[j], m);
                        if j == idx as int {
                            assert(col_of(j) == x as int && row_of(j) == y as int && block_of(j)
                                == block as int);
                            assert(gc[j] == g0[j] & m);
                            assert(grid@[j] == (g0[j] & m) | (!mask & 0xf));
                        }
                    }
                    lemma_settle_preserves(
                        sudoku,
                        g0,
                        grid@,
                        st0,
                        settled@,
                        idx as int,
                    );
                }

                // refresh the pending entries of every peer not yet settled
                let adj = adjacent_cells(idx);
                let mut t: usize = 0;
                while t < adj.len()
                    invariant
                        sudoku.wf(),
                        solver_inv(sudoku, grid@, settled@),
                        adj@.len() == 12,
                        forall|k: int| 0 <= k < 12 ==> (#[trigger] adj@[k]) < 16,
                        t <= 12,
                        forall|k: int| 0 <= k < queue@.len() ==> (#[trigger] queue@[k]).index < 16,
                        num_unsettled(settled@) < n0,
                    decreases 12 - t,
                {
                    let a = adj[t];
                    if !settled[a] {
                        let pc2 = popcount4(grid.get_cell(a));
                        queue.push(CellNode::new(a, pc2));
                    }
                    t += 1;
                }
            } else {
                // stale entry for an already settled cell: discard it
                proof {
                    if !q_was_empty && num_unsettled(settled@) == n0 {
                        let k = choose|k: int|
                            0 <= k < q0.len() && !settled@[(#[trigger] q0[k]).index as int];
                        let i0 = choose|i0: int|
                            0 <= i0 < q0.len() && node == q0[i0] && queue@ == q0.remove(i0);
                        q0.remove_ensures(i0);
                        if k < i0 {
                            assert(queue@[k] == q0[k]);
                        } else {
                            assert(k > i0);
                            assert(queue@[k - 1] == q0[k]);
                        }
                    }
                }
            }
        }

        // all queued work is done; look for a cell the propagation missed
        let mut k: usize = 0;
        while k < 16 && settled[k]
            invariant
                settled@.len() == 16,
                k <= 16,
                forall|j: int| 0 <= j < k ==> #[trigger] settled@[j],
            decreases 16 - k,
        {
            k += 1;
        }
        if k < 16 {
            let pc = popcount4(grid.get_cell(k));
            queue.push(CellNode::new(k, pc));
            proof {
                assert(!settled@[queue@[queue@.len() - 1].index as int]);
            }
        } else {
            done = true;
        }
    }

    // read out the settled grid
    let mut i: usize = 0;
    while i < 16
        invariant
            sudoku.wf(),
            solver_inv(sudoku, grid@, settled@),
            forall|j: int| 0 <= j < 16 ==> #[trigger] settled@[j],
            i <= 16,
        decreases 16 - i,
    {
        let value = grid.get_cell(i);
        if value == 0 {
            proof {
                assert(settled@[i as int]);
                assert(grid@[i as int] != 0);
            }
            return None;
        }
        i += 1;
    }

    let result = [
        read_row(&grid, 0),
        read_row(&grid, 1),
        read_row(&grid, 2),
        read_row(&grid, 3),
    ];

    proof {
        assert forall|i: int| 0 <= i < 16 implies #[trigger] out_val(result, i) == low_val(
            grid@[i],
        ) + 1 by {
            assert(result@[i / 4]@[i % 4] == low_val(grid@[4 * (i / 4) + i % 4]) + 1);
        }
        assert forall|i: int| 0 <= i < 16 implies 1 <= #[trigger] out_val(result, i) <= 4 by {
            assert(settled@[i]);
            assert(grid@[i] != 0);
            lemma_low_val(grid@[i]);
        }
        assert forall|i: int| 0 <= i < 16 implies (#[trigger] sudoku@[i] matches Some(v)
            ==> out_val(result, i) == v + 1) by {
            match sudoku@[i] {
                Some(v) => {
                    assert(settled@[i]);
                    assert(grid@[i] != 0);
                    assert(given_ok(sudoku, grid@, i));
                    lemma_sub_singleton(grid@[i], v as u64);
                },
                None => {},
            }
        }
        assert forall|i: int, j: int|
            0 <= i < 16 && 0 <= j < 16 && i != j && peers(i, j) implies #[trigger] out_val(
            result,
            i,
        ) != #[trigger] out_val(result, j) by {
            assert(settled@[i] && settled@[j]);
        }
        if contradictory_givens(sudoku) {
            let (i, j) = choose|i: int, j: int|
                0 <= i < 16 && 0 <= j < 16 && i != j && peers(i, j) && (#[trigger] sudoku@[i])
                    is Some && sudoku@[i] == #[trigger] sudoku@[j];
            assert(out_val(result, i) == out_val(result, j));
            assert(false);
        }
    }

    Some(result)
}

} // verus!
