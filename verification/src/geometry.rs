//! Where the cells of a well-formed grid lie, and which cells are next to
//! which.

use vstd::prelude::*;
use vstd::arithmetic::div_mod::{lemma_fundamental_div_mod, lemma_fundamental_div_mod_converse};
use crate::maze::Maze;
use crate::utils::Side;

verus! {

impl Maze {
    /// The distance in index from a cell to the cell across `side`.
    pub open spec fn offset(self, side: Side) -> int {
        match side {
            Side::TOP => -(self.cols as int),
            Side::LEFT => -1,
            Side::RIGHT => 1,
            Side::BOTTOM => self.cols as int,
        }
    }

    /// The place that cell `i` records is inside the grid, and is the place
    /// of index `i`.
    pub proof fn lemma_place(self, i: int)
        requires
            self.wf(),
            self.has(i),
        ensures
            self.cells[i].coord.0 < self.rows,
            self.cells[i].coord.1 < self.cols,
            self.index_of(self.cells[i].coord.0 as int, self.cells[i].coord.1 as int) == i,
    {
        let c = self.cols as int;
        let n = self.rows as int;
        lemma_fundamental_div_mod(i, c);
        assert(0 <= i % c < c) by (nonlinear_arith)
            requires
                c > 0,
        ;
        assert(0 <= i / c < n) by (nonlinear_arith)
            requires
                c > 0,
                0 <= i < n * c,
        ;
    }

    /// The cell in row `row` and column `col` of the grid records that
    /// place.
    pub proof fn lemma_index(self, row: int, col: int)
        requires
            self.wf(),
            0 <= row < self.rows,
            0 <= col < self.cols,
        ensures
            self.has(self.index_of(row, col)),
            self.cells[self.index_of(row, col)].coord.0 == row,
            self.cells[self.index_of(row, col)].coord.1 == col,
    {
        let c = self.cols as int;
        let n = self.rows as int;
        let i = self.index_of(row, col);
        assert(0 <= row * c && row * c + c <= n * c) by (nonlinear_arith)
            requires
                0 <= row < n,
                c > 0,
        ;
        lemma_fundamental_div_mod_converse(i, c, row, col);
    }

    /// The cell across `side` of cell `i`, where there is one, is a cell of
    /// the grid other than `i`, lies at the distance of that side, and has
    /// cell `i` across the side facing it.
    pub proof fn lemma_neighbour(self, i: int, side: Side)
        requires
            self.wf(),
            self.has(i),
        ensures
            self.neighbour(i, side) matches Some(j) ==> {
                &&& self.has(j)
                &&& j == i + self.offset(side)
                &&& j != i
                &&& self.neighbour(j, side.opposite()) == Some(i)
                &&& (side == Side::LEFT || side == Side::RIGHT) ==> self.cols > 1
            },
    {
        self.lemma_place(i);
        let c = self.cols as int;
        let row = self.cells[i].coord.0 as int;
        let col = self.cells[i].coord.1 as int;
        match side {
            Side::TOP => {
                if row > 0 {
                    self.lemma_index(row - 1, col);
                    assert((row - 1) * c == row * c - c) by (nonlinear_arith);
                }
            },
            Side::LEFT => {
                if col > 0 {
                    self.lemma_index(row, col - 1);
                }
            },
            Side::RIGHT => {
                if col + 1 < self.cols {
                    self.lemma_index(row, col + 1);
                }
            },
            Side::BOTTOM => {
                if row + 1 < self.rows {
                    self.lemma_index(row + 1, col);
                    assert((row + 1) * c == row * c + c) by (nonlinear_arith);
                }
            },
        }
    }
}

} // verus!
