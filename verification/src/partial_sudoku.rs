use vstd::prelude::*;

use crate::sudoku_problem::dec_opt;
use crate::sudoku_problem::dec_row;

verus! {

/// A partially filled 4x4 Sudoku, cell values stored 0-indexed with `None`
/// marking a blank; `new` takes 1-indexed display values.
#[derive(Debug, Clone, PartialEq, Eq)]
pub struct PartialSudoku {
    pub cells: [[Option<u8>; 4]; 4],
}

impl PartialSudoku {
    pub fn new(cells: [[Option<u8>; 4]; 4]) -> (r: Self)
        requires
            forall|y: int, x: int|
                0 <= y < 4 && 0 <= x < 4 ==> (#[trigger] cells@[y]@[x] matches Some(v) ==> 1 <= v
                    <= 4),
        ensures
            forall|y: int, x: int|
                0 <= y < 4 && 0 <= x < 4 ==> #[trigger] r.cells@[y]@[x] == dec_opt(cells@[y]@[x]),
    {
        let r = Self {
            cells: [dec_row(cells[0]), dec_row(cells[1]), dec_row(cells[2]), dec_row(cells[3])],
        };
        r
    }
}

} // verus!
