use vstd::prelude::*;

verus! {

/// A fully filled 4x4 Sudoku, cell values stored 0-indexed; `new` takes
/// 1-indexed display values.
#[derive(Debug, Clone, PartialEq, Eq)]
pub struct Sudoku {
    pub cells: [[u8; 4]; 4],
}

impl Sudoku {
    pub fn new(cells: [[u8; 4]; 4]) -> (r: Self)
        requires
            forall|y: int, x: int| 0 <= y < 4 && 0 <= x < 4 ==> 1 <= #[trigger] cells@[y]@[x] <= 4,
        ensures
            forall|y: int, x: int|
                0 <= y < 4 && 0 <= x < 4 ==> #[trigger] r.cells@[y]@[x] == cells@[y]@[x] - 1,
    {
        let r = Self {
            cells: [
                dec_value_row(cells[0]),
                dec_value_row(cells[1]),
                dec_value_row(cells[2]),
                dec_value_row(cells[3]),
            ],
        };
        r
    }
}

fn dec_value_row(row: [u8; 4]) -> (r: [u8; 4])
    requires
        forall|x: int| 0 <= x < 4 ==> 1 <= #[trigger] row@[x],
    ensures
        forall|x: int| 0 <= x < 4 ==> #[trigger] r@[x] == row@[x] - 1,
{
    let r = [row[0] - 1, row[1] - 1, row[2] - 1, row[3] - 1];
    r
}

} // verus!
