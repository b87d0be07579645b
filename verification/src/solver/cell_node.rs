use vstd::prelude::*;

verus! {

/// A pending queue entry: a cell index paired with the candidate popcount
/// the cell had when it was enqueued. Entries with smaller popcount are
/// served first; stale entries for already settled cells are discarded at
/// pop time.
#[derive(Debug, Clone, PartialEq, Eq, Structural)]
pub struct CellNode {
    pub index: usize,
    pub popcount: usize,
}

impl CellNode {
    pub fn new(index: usize, popcount: usize) -> (r: Self)
        ensures
            r.index == index,
            r.popcount == popcount,
    {
        Self { index, popcount }
    }
}

} // verus!
