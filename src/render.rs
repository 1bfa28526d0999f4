use crate::cell::SimpleCell;
use vstd::prelude::*;

verus! {

/// The states of the cells, in order.
pub open spec fn states_of(cells: Seq<SimpleCell>) -> Seq<u8> {
    Seq::new(cells.len(), |i: int| cells[i].state)
}

/// The neighbour counts of the cells, in order.
pub open spec fn counts_of(cells: Seq<SimpleCell>) -> Seq<u8> {
    Seq::new(cells.len(), |i: int| cells[i].neighbours)
}

/// Per-cell data handed to whatever draws the grid: the state and the neighbour count of
/// each cell, by flat index.
pub struct CellRenderer {
    pub values: Vec<u8>,
    pub neighbours: Vec<u8>,
}

impl CellRenderer {
    pub fn new() -> (r: CellRenderer)
        ensures
            r.values@.len() == 0,
            r.neighbours@.len() == 0,
    {
        CellRenderer { values: Vec::new(), neighbours: Vec::new() }
    }

    /// Number of cells reported.
    pub fn cell_count(&self) -> (r: usize)
        ensures
            r == self.values@.len(),
    {
        self.values.len()
    }
}

} // verus!
