//! The maze under construction as a mathematical value: the grid's state,
//! the moves of the generator on it, and the graph that the removed walls
//! form.

use vstd::prelude::*;
use crate::cell::{Cell, Walls};
use crate::neighbour::Neighbour;
use crate::utils::Side;

verus! {

/// The state of a grid: what [`crate::grid::Grid`] holds, with its cells and
/// its stack as sequences.
pub struct Maze {
    pub rows: usize,
    pub cols: usize,
    /// Row after row: the cell in row `r` and column `c` is at `c + r * cols`.
    pub cells: Seq<Cell>,
    /// Index of the cell the generator stands on.
    pub current: usize,
    /// The move chosen for the step under way, if any.
    pub next: Option<Neighbour>,
    /// The cells to go back to, the latest last.
    pub stack: Seq<usize>,
}

/// Where generation stands.
#[derive(Clone, Copy, Debug, PartialEq, Eq, Structural)]
pub enum Phase {
    /// A cell next to the current one is not visited: the next step moves
    /// forward.
    Advancing,
    /// Every cell next to the current one is visited and the stack is not
    /// empty: the next step goes back.
    Backtracking,
    /// Every cell next to the current one is visited and the stack is
    /// empty: no step changes anything any more.
    Done,
}

/// How many of `cells` are visited.
pub open spec fn count_visited(cells: Seq<Cell>) -> nat
    decreases cells.len(),
{
    if cells.len() == 0 {
        0
    } else {
        count_visited(cells.drop_last()) + if cells.last().visited {
            1nat
        } else {
            0nat
        }
    }
}

/// How many passages start at `cell` when each passage is counted at its
/// left or upper end: one for a missing right wall, one for a missing bottom
/// wall.
pub open spec fn passages_from(cell: Cell) -> nat {
    (if cell.wall(Side::RIGHT) {
        0nat
    } else {
        1nat
    }) + (if cell.wall(Side::BOTTOM) {
        0nat
    } else {
        1nat
    })
}

/// How many passages `cells` hold, each counted at its left or upper end.
pub open spec fn count_passages(cells: Seq<Cell>) -> nat
    decreases cells.len(),
{
    if cells.len() == 0 {
        0
    } else {
        count_passages(cells.drop_last()) + passages_from(cells.last())
    }
}

/// How many of the four walls of `cell` are gone.
pub open spec fn gaps_in(cell: Cell) -> nat {
    (if cell.wall(Side::TOP) {
        0nat
    } else {
        1nat
    }) + (if cell.wall(Side::RIGHT) {
        0nat
    } else {
        1nat
    }) + (if cell.wall(Side::BOTTOM) {
        0nat
    } else {
        1nat
    }) + (if cell.wall(Side::LEFT) {
        0nat
    } else {
        1nat
    })
}

/// How many walls of `cells` are gone, each cell's own walls counted.
pub open spec fn count_gaps(cells: Seq<Cell>) -> nat
    decreases cells.len(),
{
    if cells.len() == 0 {
        0
    } else {
        count_gaps(cells.drop_last()) + gaps_in(cells.last())
    }
}

impl Maze {
    // ----- the grid -----
    /// The grid of `rows` by `cols` cells before generation: every wall
    /// standing, no cell visited, the generator on cell 0 with nothing to go
    /// back to.
    pub open spec fn blank(rows: usize, cols: usize) -> Maze {
        Maze {
            rows,
            cols,
            cells: Seq::new(
                (rows * cols) as nat,
                |i: int| Cell::blank(((i / cols as int) as usize, (i % cols as int) as usize)),
            ),
            current: 0,
            next: None,
            stack: Seq::empty(),
        }
    }

    /// Whether `i` is the index of a cell.
    pub open spec fn has(self, i: int) -> bool {
        0 <= i < self.cells.len()
    }

    /// The index of the cell in row `row` and column `col`.
    pub open spec fn index_of(self, row: int, col: int) -> int {
        col + row * self.cols
    }

    /// The cell next to cell `i` across `side`, if the grid has one there.
    pub open spec fn neighbour(self, i: int, side: Side) -> Option<int> {
        let row = self.cells[i].coord.0 as int;
        let col = self.cells[i].coord.1 as int;
        match side {
            Side::TOP => if row > 0 {
                Some(self.index_of(row - 1, col))
            } else {
                None
            },
            Side::LEFT => if col > 0 {
                Some(self.index_of(row, col - 1))
            } else {
                None
            },
            Side::RIGHT => if col + 1 < self.cols {
                Some(self.index_of(row, col + 1))
            } else {
                None
            },
            Side::BOTTOM => if row + 1 < self.rows {
                Some(self.index_of(row + 1, col))
            } else {
                None
            },
        }
    }

    /// Whether `n` is a move the generator may make: it leads across
    /// `n.side` from the current cell to cell `n.index`, which is not
    /// visited.
    pub open spec fn is_candidate(self, n: Neighbour) -> bool {
        &&& self.neighbour(self.current as int, n.side) == Some(n.index as int)
        &&& !self.cells[n.index as int].visited
    }

    /// The state is well formed: the grid is not empty and its cells can be
    /// counted in a `usize`, each cell knows its place, every index held is
    /// the index of a cell, and a pending move is one the generator may make.
    pub open spec fn wf(self) -> bool {
        &&& self.rows >= 1
        &&& self.cols >= 1
        &&& self.cells.len() == self.rows * self.cols
        &&& self.cells.len() <= usize::MAX
        &&& forall|i: int|
            self.has(i) ==> (#[trigger] self.cells[i]).coord.0 == i / (self.cols as int)
                && self.cells[i].coord.1 == i % (self.cols as int)
        &&& self.has(self.current as int)
        &&& forall|k: int| 0 <= k < self.stack.len() ==> self.has(#[trigger] self.stack[k] as int)
        &&& self.next matches Some(n) ==> self.is_candidate(n)
    }

    // ----- the moves -----
    /// The move across `side`, where the cell there exists and is not
    /// visited.
    pub open spec fn probe(self, side: Side) -> Seq<Neighbour> {
        match self.neighbour(self.current as int, side) {
            Some(j) => if self.cells[j].visited {
                Seq::empty()
            } else {
                seq![Neighbour { index: j as usize, side }]
            },
            None => Seq::empty(),
        }
    }

    /// The moves the generator may make from the current cell, in the order
    /// in which it looks for them: up, left, right, down.
    pub open spec fn candidates(self) -> Seq<Neighbour> {
        self.probe(Side::TOP) + self.probe(Side::LEFT) + self.probe(Side::RIGHT) + self.probe(
            Side::BOTTOM,
        )
    }

    /// The state after `setup`: the current cell is visited and marked.
    pub open spec fn setup(self) -> Maze {
        let a = self.current as int;
        Maze {
            cells: self.cells.update(a, Cell { visited: true, current: true, ..self.cells[a] }),
            ..self
        }
    }

    /// The state after the move `n`: the wall between the two cells is gone
    /// on both sides, the cell moved to is visited and current, and the cell
    /// left is on top of the stack.
    pub open spec fn advance(self, n: Neighbour) -> Maze {
        let a = self.current as int;
        let b = n.index as int;
        Maze {
            cells: self.cells.update(a, self.cells[a].departed(n.side)).update(
                b,
                self.cells[b].entered(n.side),
            ),
            current: n.index,
            next: None,
            stack: self.stack.push(self.current),
            ..self
        }
    }

    /// The state after one step back: the cell on top of the stack is taken
    /// off and becomes current.
    pub open spec fn backtrack(self) -> Maze {
        let a = self.current as int;
        let b = self.stack.last() as int;
        let unmarked = self.cells.update(a, Cell { current: false, ..self.cells[a] });
        Maze {
            cells: unmarked.update(b, Cell { current: true, ..unmarked[b] }),
            current: self.stack.last(),
            stack: self.stack.drop_last(),
            ..self
        }
    }

    /// Generation is over: there is no move to make and no cell to go back
    /// to.
    pub open spec fn is_done(self) -> bool {
        self.candidates().len() == 0 && self.stack.len() == 0
    }

    /// Where generation stands.
    pub open spec fn phase(self) -> Phase {
        if self.candidates().len() > 0 {
            Phase::Advancing
        } else if self.stack.len() > 0 {
            Phase::Backtracking
        } else {
            Phase::Done
        }
    }

    /// The state after following the pending move: forward if there is one,
    /// else one step back, else no change.
    pub open spec fn follow(self) -> Maze {
        match self.next {
            Some(n) => self.advance(n),
            None => if self.stack.len() > 0 {
                self.backtrack()
            } else {
                self
            },
        }
    }

    /// The pending move that the draw `pick` selects: the candidate at that
    /// position, or none where there is no candidate.
    pub open spec fn choice(self, pick: int) -> Option<Neighbour> {
        if self.candidates().len() > 0 {
            Some(self.candidates()[pick])
        } else {
            None
        }
    }

    /// The state with the move that the draw `pick` selects pending.
    pub open spec fn chosen(self, pick: int) -> Maze {
        Maze { next: self.choice(pick), ..self }
    }

    /// The state after one step in which `pick` selects among the
    /// candidates.
    pub open spec fn step(self, pick: int) -> Maze {
        self.chosen(pick).follow()
    }

    /// Whether `pick` is a draw that a step may be made with: the position
    /// of a candidate, or anything where there is no candidate.
    pub open spec fn may_pick(self, pick: int) -> bool {
        self.candidates().len() > 0 ==> 0 <= pick < self.candidates().len()
    }

    /// Whether `after` is the outcome of one step from this state, for one
    /// of the draws that a step may be made with.
    pub open spec fn steps_to(self, after: Maze) -> bool {
        exists|pick: int| self.may_pick(pick) && after == #[trigger] self.step(pick)
    }

    /// The state after one step for each draw of `picks`, in their order.
    pub open spec fn run(self, picks: Seq<int>) -> Maze
        decreases picks.len(),
    {
        if picks.len() == 0 {
            self
        } else {
            self.step(picks[0]).run(picks.drop_first())
        }
    }

    /// Whether each draw of `picks` is one that the step it is used for may
    /// be made with.
    pub open spec fn may_run(self, picks: Seq<int>) -> bool
        decreases picks.len(),
    {
        picks.len() > 0 ==> self.may_pick(picks[0]) && self.step(picks[0]).may_run(
            picks.drop_first(),
        )
    }

    /// Nothing is undone between this state and `later`: the grid is the
    /// same, a visited cell is still visited, and a wall that is gone is
    /// still gone.
    pub open spec fn grows_to(self, later: Maze) -> bool {
        &&& later.rows == self.rows
        &&& later.cols == self.cols
        &&& later.cells.len() == self.cells.len()
        &&& forall|i: int|
            self.has(i) ==> {
                &&& (#[trigger] later.cells[i]).coord == self.cells[i].coord
                &&& self.cells[i].visited ==> later.cells[i].visited
                &&& later.cells[i].walls.within(self.cells[i].walls)
            }
    }

    // ----- the graph of passages -----
    /// Whether the wall of cell `a` on `side` is gone and cell `b` lies
    /// behind it.
    pub open spec fn passage(self, a: int, side: Side, b: int) -> bool {
        self.neighbour(a, side) == Some(b) && !self.cells[a].wall(side)
    }

    /// Whether a passage leads from cell `a` to cell `b`.
    pub open spec fn linked(self, a: int, b: int) -> bool {
        ||| self.passage(a, Side::TOP, b)
        ||| self.passage(a, Side::RIGHT, b)
        ||| self.passage(a, Side::BOTTOM, b)
        ||| self.passage(a, Side::LEFT, b)
    }

    /// Whether a passage leads from the cell at position `k` of `p` to the
    /// one after it.
    pub open spec fn hop(self, p: Seq<int>, k: int) -> bool {
        self.linked(p[k], p[k + 1])
    }

    /// Whether `p` is a walk through passages: a sequence of cells with a
    /// passage from each to the one after it.
    pub open spec fn is_path(self, p: Seq<int>) -> bool {
        &&& p.len() >= 1
        &&& forall|k: int| 0 <= k < p.len() ==> self.has(#[trigger] p[k])
        &&& forall|k: int| 0 <= k < p.len() - 1 ==> #[trigger] self.hop(p, k)
    }

    /// Whether `p` is a walk through passages from cell `a` to cell `b`.
    pub open spec fn connects(self, p: Seq<int>, a: int, b: int) -> bool {
        self.is_path(p) && p[0] == a && p[p.len() - 1] == b
    }

    /// Whether cell `b` can be reached from cell `a` through passages.
    pub open spec fn reachable(self, a: int, b: int) -> bool {
        exists|p: Seq<int>| self.connects(p, a, b)
    }

    /// Every visited cell can be reached through passages from cell 0.
    pub open spec fn connected(self) -> bool {
        forall|v: int| self.has(v) && self.cells[v].visited ==> #[trigger] self.reachable(0, v)
    }

    /// Whether `p` is a cycle: a walk through passages over three or more
    /// cells, no cell twice, with a passage from the last back to the first.
    pub open spec fn is_cycle(self, p: Seq<int>) -> bool {
        &&& p.len() >= 3
        &&& self.is_path(p)
        &&& p.no_duplicates()
        &&& self.linked(p[p.len() - 1], p[0])
    }

    /// The passages form no cycle.
    pub open spec fn acyclic(self) -> bool {
        forall|p: Seq<int>| !#[trigger] self.is_cycle(p)
    }

    /// The walls of cell `i` on `side` and of the cell behind it agree: both
    /// stand or both are gone; on the rim of the grid the wall stands.
    pub open spec fn mirrored(self, i: int, side: Side) -> bool {
        match self.neighbour(i, side) {
            Some(j) => self.cells[i].wall(side) == self.cells[j].wall(side.opposite()),
            None => self.cells[i].wall(side),
        }
    }

    /// Every wall agrees with the wall on its other side.
    pub open spec fn symmetric(self) -> bool {
        forall|i: int, side: Side| self.has(i) ==> #[trigger] self.mirrored(i, side)
    }

    /// How many cells are visited.
    pub open spec fn visited_count(self) -> nat {
        count_visited(self.cells)
    }

    /// How many passages there are.
    pub open spec fn passages(self) -> nat {
        count_passages(self.cells)
    }

    /// How many walls are gone when each cell's own walls are counted: a
    /// passage takes one from each of the two cells it joins.
    pub open spec fn gaps(self) -> nat {
        count_gaps(self.cells)
    }

    // ----- the search -----
    /// Whether the cell across `side` of cell `v`, if there is one, is
    /// visited.
    pub open spec fn seen(self, v: int, side: Side) -> bool {
        self.neighbour(v, side) matches Some(w) ==> self.cells[w].visited
    }

    /// Whether every cell next to cell `v` is visited.
    pub open spec fn settled(self, v: int) -> bool {
        &&& self.seen(v, Side::TOP)
        &&& self.seen(v, Side::LEFT)
        &&& self.seen(v, Side::RIGHT)
        &&& self.seen(v, Side::BOTTOM)
    }

    /// Whether cell `v` is the current cell or on the stack.
    pub open spec fn on_trail(self, v: int) -> bool {
        v == self.current || exists|k: int|
            0 <= k < self.stack.len() && #[trigger] self.stack[k] == v
    }

    /// The way the search has come: the cells on the stack, then the
    /// current cell.
    pub open spec fn trail(self) -> Seq<usize> {
        self.stack.push(self.current)
    }

    /// Whether a passage leads from the cell at position `k` of the trail
    /// to the one after it.
    pub open spec fn trail_hop(self, k: int) -> bool {
        self.linked(self.trail()[k] as int, self.trail()[k + 1] as int)
    }

    /// The trail is a walk through passages that starts at cell 0 and
    /// passes no cell twice.
    pub open spec fn trail_is_walk(self) -> bool {
        &&& self.trail()[0] == 0
        &&& self.trail().no_duplicates()
        &&& forall|k: int| 0 <= k < self.stack.len() ==> #[trigger] self.trail_hop(k)
    }

    /// How many steps are left until generation is over: two for each cell
    /// not visited yet (one to reach it, one to go back from it), and one
    /// for each cell on the stack.
    pub open spec fn steps_left(self) -> int {
        2 * (self.cells.len() - self.visited_count()) + self.stack.len()
    }

    /// What holds between any two steps once `setup` has been called: the
    /// passages are a tree over the visited cells, and the search knows
    /// where it still has to look.
    pub open spec fn inv(self) -> bool {
        &&& self.wf()
        // No move is pending.
        &&& self.next is None
        // The first cell, the current cell and the cells on the stack are
        // visited.
        &&& self.cells[0].visited
        &&& self.cells[self.current as int].visited
        &&& forall|k: int|
            0 <= k < self.stack.len() ==> self.cells[#[trigger] self.stack[k] as int].visited
        // The current cell, and no other, is marked current.
        &&& forall|i: int|
            self.has(i) ==> ((#[trigger] self.cells[i]).current <==> i == self.current)
        // A cell that is not visited has all its walls.
        &&& forall|i: int|
            self.has(i) && !(#[trigger] self.cells[i]).visited ==> self.cells[i].walls
                == Walls::intact()
        // A visited cell with an unvisited cell next to it is the current
        // cell or on the stack: the search comes back to it.
        &&& forall|v: int|
            self.has(v) && self.cells[v].visited ==> self.on_trail(v) || #[trigger] self.settled(v)
        // The stack holds the way from the first cell to the current one.
        &&& self.trail_is_walk()
        // The passages are a tree over the visited cells: walls agree on
        // their two sides, every visited cell is reached, there is no
        // cycle, and there is one passage less than there are visited
        // cells, each with a wall gone on either side.
        &&& self.symmetric()
        &&& self.connected()
        &&& self.acyclic()
        &&& self.passages() + 1 == self.visited_count()
        &&& self.gaps() == 2 * self.passages()
    }
}

} // verus!
