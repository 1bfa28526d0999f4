use vstd::prelude::*;

verus! {

/// How the cells are coloured when drawn.
#[derive(Clone, Copy, Debug, PartialEq, Eq, Structural)]
pub enum ColourMethod {
    Colour1,
    Colour2,
    State,
    DistToCenter,
    Neighbour,
    Index,
}

} // verus!
