use vstd::prelude::*;

use crate::solver::cell_node::CellNode;

verus! {

/// Min-priority queue of pending cells, ordered by ascending popcount.
/// Entries are not deduplicated; `pop_min` always yields an entry whose
/// popcount is minimal among the queued entries.
pub struct PendingQueue {
    nodes: Vec<CellNode>,
}

impl View for PendingQueue {
    type V = Seq<CellNode>;

    closed spec fn view(&self) -> Seq<CellNode> {
        self.nodes@
    }
}

impl PendingQueue {
    pub fn new() -> (r: Self)
        ensures
            r@.len() == 0,
    {
        Self { nodes: Vec::new() }
    }

    pub fn len(&self) -> (r: usize)
        ensures
            r == self@.len(),
    {
        self.nodes.len()
    }

    pub fn push(&mut self, node: CellNode)
        ensures
            final(self)@ == old(self)@.push(node),
    {
        self.nodes.push(node);
    }

    /// Remove and return an entry with the smallest popcount.
    pub fn pop_min(&mut self) -> (r: CellNode)
        requires
            old(self)@.len() > 0,
        ensures
            exists|i: int|
                0 <= i < old(self)@.len() && r == old(self)@[i] && final(self)@ == old(
                    self,
                )@.remove(i),
            forall|k: int| 0 <= k < old(self)@.len() ==> r.popcount <= old(self)@[k].popcount,
    {
        let mut best: usize = 0;
        let mut i: usize = 1;
        while i < self.nodes.len()
            invariant
                self == old(self),
                1 <= i <= self.nodes.len(),
                best < i,
                forall|k: int|
                    0 <= k < i ==> self.nodes@[best as int].popcount <= self.nodes@[k].popcount,
            decreases self.nodes@.len() - i,
        {
            if self.nodes[i].popcount < self.nodes[best].popcount {
                best = i;
            }
            i += 1;
        }
        let node = self.nodes.remove(best);
        proof {
            assert(node == old(self)@[best as int] && self@ == old(self)@.remove(best as int));
        }
        node
    }
}

} // verus!
