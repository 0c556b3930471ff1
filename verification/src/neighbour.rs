//! A move the generator may make next.

use vstd::prelude::*;
use crate::utils::Side;

verus! {

/// A cell next to the current one, together with the side of the current
/// cell that has to be crossed to reach it.
#[derive(Clone, Copy, Debug, PartialEq, Eq)]
pub struct Neighbour {
    /// Index of the cell to move to.
    pub index: usize,
    /// The side of the current cell that the move crosses.
    pub side: Side,
}

impl Neighbour {
    pub fn new(index: usize, side: Side) -> (r: Self)
        ensures
            r == (Neighbour { index, side }),
    {
        Self { index, side }
    }
}

} // verus!
