use vstd::prelude::*;

verus! {

/// Shift a 1-indexed optional cell value down to its 0-indexed form.
pub open spec fn dec_opt(c: Option<u8>) -> Option<u8> {
    match c {
        Some(v) => Some((v - 1) as u8),
        None => None,
    }
}

fn dec_cell(c: Option<u8>) -> (r: Option<u8>)
    requires
        c matches Some(v) ==> 1 <= v,
    ensures
        r == dec_opt(c),
{
    match c {
        Some(v) => Some(v - 1),
        None => None,
    }
}

pub(crate) fn dec_row(row: [Option<u8>; 4]) -> (r: [Option<u8>; 4])
    requires
        forall|x: int| 0 <= x < 4 ==> (#[trigger] row@[x] matches Some(v) ==> 1 <= v),
    ensures
        forall|x: int| 0 <= x < 4 ==> #[trigger] r@[x] == dec_opt(row@[x]),
{
    let r = [dec_cell(row[0]), dec_cell(row[1]), dec_cell(row[2]), dec_cell(row[3])];
    r
}

/// A 4x4 puzzle handed to the solver: optional cell values stored 0-indexed
/// (internal value `v` stands for displayed digit `v + 1`), `None` marking a
/// blank. The view is the sequence of the 16 cells in linear order
/// `x + y*4`.
pub struct SudokuProblem {
    grid: [[Option<u8>; 4]; 4],
}

impl View for SudokuProblem {
    type V = Seq<Option<u8>>;

    closed spec fn view(&self) -> Seq<Option<u8>> {
        Seq::new(16, |i: int| self.grid@[i / 4]@[i % 4])
    }
}

impl SudokuProblem {
    /// Every given value is a legal 0-indexed cell value.
    pub open spec fn wf(&self) -> bool {
        forall|i: int| 0 <= i < 16 ==> (#[trigger] self@[i] matches Some(v) ==> v < 4)
    }

    /// Build a problem from 1-indexed display values.
    pub fn new(grid: [[Option<u8>; 4]; 4]) -> (r: Self)
        requires
            forall|y: int, x: int|
                0 <= y < 4 && 0 <= x < 4 ==> (#[trigger] grid@[y]@[x] matches Some(v) ==> 1 <= v
                    <= 4),
        ensures
            forall|i: int| 0 <= i < 16 ==> #[trigger] r@[i] == dec_opt(grid@[i / 4]@[i % 4]),
            r.wf(),
    {
        let g = [dec_row(grid[0]), dec_row(grid[1]), dec_row(grid[2]), dec_row(grid[3])];
        let r = Self { grid: g };
        proof {
            assert forall|i: int| 0 <= i < 16 implies #[trigger] r@[i] == dec_opt(
                grid@[i / 4]@[i % 4],
            ) by {
                assert(r@[i] == g@[i / 4]@[i % 4]);
            }
        }
        r
    }

    /// Build a problem whose every cell is given, from 1-indexed display
    /// values.
    pub fn from_completed(grid: [[u8; 4]; 4]) -> (r: Self)
        requires
            forall|y: int, x: int| 0 <= y < 4 && 0 <= x < 4 ==> 1 <= #[trigger] grid@[y]@[x] <= 4,
        ensures
            forall|i: int|
                0 <= i < 16 ==> #[trigger] r@[i] == Some((grid@[i / 4]@[i % 4] - 1) as u8),
            r.wf(),
    {
        let g = [
            full_row(grid[0]),
            full_row(grid[1]),
            full_row(grid[2]),
            full_row(grid[3]),
        ];
        let r = Self { grid: g };
        proof {
            assert forall|i: int| 0 <= i < 16 implies #[trigger] r@[i] == Some(
                (grid@[i / 4]@[i % 4] - 1) as u8,
            ) by {
                assert(r@[i] == g@[i / 4]@[i % 4]);
            }
        }
        r
    }

    /// Read the given value of the cell in row `y`, column `x`.
    pub fn get(&self, y: usize, x: usize) -> (r: Option<u8>)
        requires
            y < 4,
            x < 4,
        ensures
            r == self@[y * 4 + x],
    {
        self.grid[y][x]
    }
}

fn full_row(row: [u8; 4]) -> (r: [Option<u8>; 4])
    requires
        forall|x: int| 0 <= x < 4 ==> 1 <= #[trigger] row@[x],
    ensures
        forall|x: int| 0 <= x < 4 ==> #[trigger] r@[x] == Some((row@[x] - 1) as u8),
{
    let r = [
        Some(row[0] - 1),
        Some(row[1] - 1),
        Some(row[2] - 1),
        Some(row[3] - 1),
    ];
    r
}

} // verus!
