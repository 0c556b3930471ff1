//! The four sides of a cell.

use vstd::prelude::*;

verus! {

/// One side of a cell, named as it appears on screen: `TOP` faces the row
/// above, `LEFT` the column before.
#[derive(Clone, Copy, Debug, PartialEq, Eq, Structural)]
pub enum Side {
    TOP,
    RIGHT,
    BOTTOM,
    LEFT,
}

impl Side {
    /// The side that faces this one across a shared wall.
    pub open spec fn spec_opposite(self) -> Side {
        match self {
            Side::TOP => Side::BOTTOM,
            Side::RIGHT => Side::LEFT,
            Side::BOTTOM => Side::TOP,
            Side::LEFT => Side::RIGHT,
        }
    }

    /// The side that faces this one across a shared wall.
    #[verifier::when_used_as_spec(spec_opposite)]
    pub fn opposite(self) -> (r: Side)
        ensures
            r == self.spec_opposite(),
    {
        match self {
            Side::TOP => Side::BOTTOM,
            Side::RIGHT => Side::LEFT,
            Side::BOTTOM => Side::TOP,
            Side::LEFT => Side::RIGHT,
        }
    }

    /// Where the wall on this side starts, as a corner of the unit square
    /// whose origin is the cell's top left corner: `(x, y)`, `x` growing to
    /// the right and `y` downwards.
    pub open spec fn spec_start(self) -> (u8, u8) {
        match self {
            Side::TOP => (0u8, 0u8),
            Side::RIGHT => (1u8, 0u8),
            Side::BOTTOM => (1u8, 1u8),
            Side::LEFT => (0u8, 1u8),
        }
    }

    /// Where the wall on this side ends: the four walls run clockwise round
    /// the cell, each ending where the next one starts.
    pub open spec fn spec_end(self) -> (u8, u8) {
        match self {
            Side::TOP => Side::RIGHT.spec_start(),
            Side::RIGHT => Side::BOTTOM.spec_start(),
            Side::BOTTOM => Side::LEFT.spec_start(),
            Side::LEFT => Side::TOP.spec_start(),
        }
    }

    /// The two corners between which the wall on this side is drawn, on the
    /// unit square. A renderer scales them by the cell's edge length and
    /// moves them to the cell's position.
    pub fn ends(self) -> (r: ((u8, u8), (u8, u8)))
        ensures
            r.0 == self.spec_start(),
            r.1 == self.spec_end(),
    {
        match self {
            Side::TOP => ((0, 0), (1, 0)),
            Side::RIGHT => ((1, 0), (1, 1)),
            Side::BOTTOM => ((1, 1), (0, 1)),
            Side::LEFT => ((0, 1), (0, 0)),
        }
    }
}

} // verus!
