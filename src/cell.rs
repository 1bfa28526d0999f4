use vstd::prelude::*;

verus! {

/// One cell of the grid: its vitality and how many fully alive neighbours it has.
#[derive(Clone, Copy, Debug, PartialEq, Eq, Structural)]
pub struct SimpleCell {
    /// 0 is dead; the rule's `states` is fully alive; values in between are decaying.
    pub state: u8,
    /// Number of fully alive cells in the neighbourhood.
    pub neighbours: u8,
}

impl SimpleCell {
    pub open spec fn new_spec() -> SimpleCell {
        SimpleCell { state: 0, neighbours: 0 }
    }

    /// A dead cell with no live neighbours.
    pub fn new() -> (r: SimpleCell)
        ensures
            r == SimpleCell::new_spec(),
    {
        SimpleCell { state: 0, neighbours: 0 }
    }

    /// Whether the cell is dead.
    pub fn is_dead(&self) -> (r: bool)
        ensures
            r == (self.state == 0),
    {
        self.state == 0
    }

    /// Whether the cell is dead.
    pub fn dead(self) -> (r: bool)
        ensures
            r == (self.state == 0),
    {
        self.state == 0
    }
}

/// Whether a cell state is dead.
pub fn is_dead(value: u8) -> (r: bool)
    ensures
        r == (value == 0),
{
    value == 0
}

} // verus!
