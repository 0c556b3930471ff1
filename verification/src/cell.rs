//! One unit of the grid: four walls, and two marks that the generator sets.

use vstd::prelude::*;
use crate::utils::Side;

verus! {

/// The four wall flags of a cell; `true` means that the wall stands.
#[derive(Clone, Copy, Debug, PartialEq, Eq)]
pub struct Walls {
    pub top: bool,
    pub right: bool,
    pub bottom: bool,
    pub left: bool,
}

impl Walls {
    /// All four walls standing.
    pub open spec fn intact() -> Walls {
        Walls { top: true, right: true, bottom: true, left: true }
    }

    /// Whether the wall on `side` stands.
    pub open spec fn has(self, side: Side) -> bool {
        match side {
            Side::TOP => self.top,
            Side::RIGHT => self.right,
            Side::BOTTOM => self.bottom,
            Side::LEFT => self.left,
        }
    }

    /// Whether every wall that stands here stands in `other` too.
    pub open spec fn within(self, other: Walls) -> bool {
        &&& self.top ==> other.top
        &&& self.right ==> other.right
        &&& self.bottom ==> other.bottom
        &&& self.left ==> other.left
    }

    /// These walls with the one on `side` taken down.
    pub open spec fn without(self, side: Side) -> Walls {
        match side {
            Side::TOP => Walls { top: false, ..self },
            Side::RIGHT => Walls { right: false, ..self },
            Side::BOTTOM => Walls { bottom: false, ..self },
            Side::LEFT => Walls { left: false, ..self },
        }
    }
}

/// The colour class a cell is filled with.
#[derive(Clone, Copy, Debug, PartialEq, Eq, Structural)]
pub enum Fill {
    /// Not reached yet.
    Untouched,
    /// Reached at some earlier step.
    Visited,
    /// The generator stands here.
    Current,
}

/// What a renderer has to paint for one cell: the fill of its square, and
/// the sides along which a wall is stroked, in the order top, right, bottom,
/// left.
#[derive(Debug, PartialEq, Eq)]
pub struct Sketch {
    pub fill: Fill,
    pub edges: Vec<Side>,
}

/// One cell of the grid.
#[derive(Clone, Copy, Debug, PartialEq, Eq)]
pub struct Cell {
    /// Row and column in the grid.
    pub coord: (usize, usize),
    /// Whether the generator has been here.
    pub visited: bool,
    /// Whether the generator stands here.
    pub current: bool,
    /// The walls that stand; they are taken down and never put up again.
    pub walls: Walls,
}

impl Cell {
    /// The cell at `coord` as it is before generation starts.
    pub open spec fn blank(coord: (usize, usize)) -> Cell {
        Cell { coord, visited: false, current: false, walls: Walls::intact() }
    }

    /// Whether the wall on `side` stands.
    pub open spec fn wall(self, side: Side) -> bool {
        self.walls.has(side)
    }

    /// The side of this cell that loses its wall when a move across `side`
    /// is made: `side` itself in the cell that is left, the side facing it
    /// in the cell that is entered (`inverse`).
    pub open spec fn crossed(side: Side, inverse: bool) -> Side {
        if inverse {
            side.opposite()
        } else {
            side
        }
    }

    /// This cell after `remove_wall(side, inverse)`.
    pub open spec fn without_wall(self, side: Side, inverse: bool) -> Cell {
        Cell { walls: self.walls.without(Self::crossed(side, inverse)), ..self }
    }

    /// This cell after the generator has left it across `side`.
    pub open spec fn departed(self, side: Side) -> Cell {
        Cell { current: false, ..self.without_wall(side, false) }
    }

    /// This cell after the generator has entered it by a move across `side`
    /// of the cell it came from.
    pub open spec fn entered(self, side: Side) -> Cell {
        Cell { visited: true, current: true, ..self.without_wall(side, true) }
    }

    /// The fill of this cell: the current position wins over the visited
    /// mark, which wins over the plain fill.
    pub open spec fn spec_fill(self) -> Fill {
        if self.current {
            Fill::Current
        } else if self.visited {
            Fill::Visited
        } else {
            Fill::Untouched
        }
    }

    /// `[side]` if the wall on `side` stands, nothing otherwise.
    pub open spec fn edge(self, side: Side) -> Seq<Side> {
        if self.wall(side) {
            seq![side]
        } else {
            Seq::empty()
        }
    }

    /// The sides whose wall stands, in the order top, right, bottom, left.
    pub open spec fn edges(self) -> Seq<Side> {
        self.edge(Side::TOP) + self.edge(Side::RIGHT) + self.edge(Side::BOTTOM) + self.edge(
            Side::LEFT,
        )
    }

    pub fn new(coord: (usize, usize)) -> (r: Self)
        ensures
            r == Cell::blank(coord),
    {
        Self {
            walls: Walls { top: true, right: true, bottom: true, left: true },
            visited: false,
            current: false,
            coord,
        }
    }

    /// Takes down one wall. `side` is seen from the cell that the move
    /// starts in: with `inverse` unset this is that cell, and the wall on
    /// `side` goes; with `inverse` set this is the cell that the move ends
    /// in, and the wall facing `side` goes. Nothing else changes, and a wall
    /// that is down stays down.
    pub fn remove_wall(&mut self, side: &Side, inverse: bool)
        ensures
            *final(self) == old(self).without_wall(*side, inverse),
    {
        if inverse {
            match side {
                Side::BOTTOM => self.walls.top = false,
                Side::LEFT => self.walls.right = false,
                Side::TOP => self.walls.bottom = false,
                Side::RIGHT => self.walls.left = false,
            }
            return ;
        }
        match side {
            Side::TOP => self.walls.top = false,
            Side::RIGHT => self.walls.right = false,
            Side::BOTTOM => self.walls.bottom = false,
            Side::LEFT => self.walls.left = false,
        }
    }

    /// Whether the wall on `side` stands.
    pub fn has_wall(&self, side: Side) -> (r: bool)
        ensures
            r == self.wall(side),
    {
        match side {
            Side::TOP => self.walls.top,
            Side::RIGHT => self.walls.right,
            Side::BOTTOM => self.walls.bottom,
            Side::LEFT => self.walls.left,
        }
    }

    /// What to paint for this cell. The square is filled first and the walls
    /// are stroked over it; [`Side::ends`] gives the corners of each.
    pub fn draw(&self) -> (r: Sketch)
        ensures
            r.fill == self.spec_fill(),
            r.edges@ == self.edges(),
    {
        let mut fill = Fill::Untouched;
        if self.visited {
            fill = Fill::Visited;
        }
        if self.current {
            fill = Fill::Current;
        }
        let mut edges: Vec<Side> = Vec::new();
        if self.walls.top {
            edges.push(Side::TOP);
        }
        if self.walls.right {
            edges.push(Side::RIGHT);
        }
        if self.walls.bottom {
            edges.push(Side::BOTTOM);
        }
        if self.walls.left {
            edges.push(Side::LEFT);
        }
        assert(edges@ =~= self.edges());
        Sketch { fill, edges }
    }
}

} // verus!
