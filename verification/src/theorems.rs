//! What generation guarantees: the passages are a tree over the visited
//! cells at every step, nothing is ever undone, the number of steps is
//! fixed by the size of the grid, and at the end the tree spans the grid.

use vstd::prelude::*;
use crate::cell::Cell;
use crate::counting::{
    lemma_count_walls_none,
    lemma_count_visited_all,
    lemma_count_visited_none,
    lemma_count_visited_update,
};
use crate::maze::{Maze, Phase};
use crate::utils::Side;

verus! {

impl Cell {
    /// Taking down the wall of a move on both of its sides opens the side
    /// crossed in the cell that is left, and the side facing it in the cell
    /// that is entered, and no other wall of either.
    pub proof fn lemma_remove_wall_pair(left: Cell, entered: Cell, side: Side)
        ensures
            !left.without_wall(side, false).wall(side),
            !entered.without_wall(side, true).wall(side.opposite()),
            forall|other: Side|
                other != side ==> left.without_wall(side, false).wall(other) == left.wall(other),
            forall|other: Side|
                other != side.opposite() ==> entered.without_wall(side, true).wall(other)
                    == entered.wall(other),
    {
    }

    /// Taking down a wall that is down changes nothing.
    pub proof fn lemma_remove_wall_twice(cell: Cell, side: Side, inverse: bool)
        ensures
            cell.without_wall(side, inverse).without_wall(side, inverse) == cell.without_wall(
                side,
                inverse,
            ),
    {
    }
}

impl Maze {
    /// Setting up a blank grid gives a state in which everything holds that
    /// holds between steps; twice the number of cells less two steps are
    /// left from there.
    pub proof fn lemma_start(rows: usize, cols: usize)
        requires
            rows >= 1,
            cols >= 1,
            rows * cols <= usize::MAX,
        ensures
            Maze::blank(rows, cols).setup().inv(),
            Maze::blank(rows, cols).setup().steps_left() == 2 * (rows * cols) - 2,
    {
        let blank = Maze::blank(rows, cols);
        let m = blank.setup();
        Maze::lemma_blank(rows, cols);
        blank.lemma_setup_wf();
        assert forall|i: int, side: Side| m.has(i) implies #[trigger] m.mirrored(i, side) by {
            m.lemma_neighbour(i, side);
        }
        assert forall|v: int| m.has(v) && m.cells[v].visited implies #[trigger] m.reachable(
            0,
            v,
        ) by {
            let p = seq![0int];
            assert(m.connects(p, 0, v));
        }
        assert forall|p: Seq<int>| !#[trigger] m.is_cycle(p) by {
            // A cycle needs a passage, and every wall stands.
            if m.is_cycle(p) {
                assert(m.linked(p[p.len() - 1], p[0]));
            }
        }
        lemma_count_visited_none(blank.cells);
        lemma_count_visited_update(blank.cells, 0, m.cells[0]);
        lemma_count_walls_none(m.cells);
    }

    /// Once generation has started, setting up again changes nothing.
    pub proof fn lemma_setup_again(self)
        requires
            self.inv(),
        ensures
            self.setup() == self,
    {
        assert(self.setup().cells =~= self.cells);
    }

    /// Setting up undoes nothing.
    pub proof fn lemma_setup_grows(self)
        requires
            self.wf(),
        ensures
            self.grows_to(self.setup()),
    {
    }

    /// A step with the draw `pick` takes the move that the draw selects;
    /// without a candidate it goes one cell back, and without a cell to go
    /// back to it changes nothing.
    pub proof fn lemma_step(self, pick: int)
        requires
            self.wf(),
            self.may_pick(pick),
        ensures
            self.step(pick) == match self.phase() {
                Phase::Advancing => self.advance(self.candidates()[pick]),
                Phase::Backtracking => self.backtrack(),
                Phase::Done => self,
            },
    {
        self.lemma_candidates();
    }

    /// A step keeps what holds between steps.
    pub proof fn lemma_step_inv(self, pick: int)
        requires
            self.inv(),
            self.may_pick(pick),
        ensures
            self.step(pick).inv(),
    {
        self.lemma_step(pick);
        self.lemma_candidates();
        match self.phase() {
            Phase::Advancing => self.lemma_advance_inv(self.candidates()[pick]),
            Phase::Backtracking => self.lemma_backtrack_inv(),
            Phase::Done => {},
        }
    }

    /// A step undoes nothing: every visited cell is still visited, and every
    /// wall that was down is still down.
    pub proof fn lemma_step_grows(self, pick: int)
        requires
            self.wf(),
            self.may_pick(pick),
        ensures
            self.grows_to(self.step(pick)),
    {
        let chosen = self.chosen(pick);
        self.lemma_chosen_wf(pick);
        self.lemma_candidates();
        match chosen.next {
            Some(n) => {
                chosen.lemma_advance_frame(n);
            },
            None => {
                if chosen.stack.len() > 0 {
                    chosen.lemma_backtrack_frame();
                }
            },
        }
    }

    /// A step back makes the cell pushed last the current one and takes it
    /// off the stack, which gets shorter by one.
    pub proof fn lemma_step_back(self, pick: int)
        requires
            self.wf(),
            self.phase() == Phase::Backtracking,
        ensures
            self.step(pick).current == self.stack.last(),
            self.step(pick).stack == self.stack.drop_last(),
            self.step(pick).stack.len() == self.stack.len() - 1,
    {
        self.lemma_candidates();
    }

    /// A step forward adds exactly one passage: the one between the current
    /// cell, which is visited, and the cell moved to, which was not and now
    /// is; each of the two cells loses one wall for it. A step back adds
    /// none.
    pub proof fn lemma_step_passages(self, pick: int)
        requires
            self.inv(),
            self.may_pick(pick),
        ensures
            self.phase() == Phase::Advancing ==> {
                let to = self.candidates()[pick].index as int;
                &&& self.cells[self.current as int].visited
                &&& !self.cells[to].visited
                &&& self.step(pick).cells[to].visited
                &&& !self.linked(self.current as int, to)
                &&& self.step(pick).linked(self.current as int, to)
                &&& self.step(pick).passages() == self.passages() + 1
                &&& self.step(pick).gaps() == self.gaps() + 2
                &&& self.step(pick).visited_count() == self.visited_count() + 1
            },
            self.phase() != Phase::Advancing ==> {
                &&& self.step(pick).passages() == self.passages()
                &&& self.step(pick).gaps() == self.gaps()
                &&& self.step(pick).visited_count() == self.visited_count()
            },
    {
        self.lemma_step(pick);
        self.lemma_candidates();
        match self.phase() {
            Phase::Advancing => {
                let n = self.candidates()[pick];
                let a = self.current as int;
                self.lemma_advance_frame(n);
                self.lemma_advance_counts(n);
                assert(self.advance(n).passage(a, n.side, n.index as int));
                // Before the move the wall stood: the cell behind it had all
                // its walls.
                assert(self.mirrored(a, n.side));
                self.lemma_neighbour(a, Side::TOP);
                self.lemma_neighbour(a, Side::RIGHT);
                self.lemma_neighbour(a, Side::BOTTOM);
                self.lemma_neighbour(a, Side::LEFT);
            },
            Phase::Backtracking => self.lemma_backtrack_counts(),
            Phase::Done => {},
        }
    }

    /// Every step before the end takes one off the number of steps left,
    /// which is never negative; at the end a step changes nothing.
    pub proof fn lemma_step_counts_down(self, pick: int)
        requires
            self.inv(),
            self.may_pick(pick),
        ensures
            self.steps_left() >= 0,
            !self.is_done() ==> self.step(pick).steps_left() == self.steps_left() - 1,
            self.is_done() ==> self.step(pick) == self,
    {
        self.lemma_step(pick);
        self.lemma_step_passages(pick);
        lemma_count_visited_all(self.cells);
        match self.phase() {
            Phase::Advancing => {
                self.lemma_candidates();
                self.lemma_advance_frame(self.candidates()[pick]);
            },
            Phase::Backtracking => {
                self.lemma_backtrack_frame();
            },
            Phase::Done => {},
        }
    }

    /// Where nothing is undone from a first state to a second and from the
    /// second to a third, nothing is undone from the first to the third.
    pub proof fn lemma_grows_on(self, second: Maze, third: Maze)
        requires
            self.grows_to(second),
            second.grows_to(third),
        ensures
            self.grows_to(third),
    {
        assert forall|i: int| self.has(i) implies {
            &&& (#[trigger] third.cells[i]).coord == self.cells[i].coord
            &&& self.cells[i].visited ==> third.cells[i].visited
            &&& third.cells[i].walls.within(self.cells[i].walls)
        } by {
            assert(second.cells[i].coord == self.cells[i].coord);
        }
    }

    /// However the draws fall, generation ends, and after a number of steps
    /// that the state fixes: each step before the end takes one off the
    /// steps left, so a run of that many steps or more ends with generation
    /// over, and no shorter run does. All along, what holds between steps
    /// holds, and nothing is undone.
    pub proof fn lemma_run(self, picks: Seq<int>)
        requires
            self.inv(),
            self.may_run(picks),
        ensures
            self.run(picks).inv(),
            self.grows_to(self.run(picks)),
            picks.len() <= self.steps_left() ==> self.run(picks).steps_left() == self.steps_left()
                - picks.len(),
            self.run(picks).is_done() <==> picks.len() >= self.steps_left(),
        decreases picks.len(),
    {
        self.lemma_done_when_no_steps_left();
        if picks.len() > 0 {
            let next = self.step(picks[0]);
            let rest = picks.drop_first();
            self.lemma_step_inv(picks[0]);
            self.lemma_step_grows(picks[0]);
            self.lemma_step_counts_down(picks[0]);
            next.lemma_run(rest);
            self.lemma_grows_on(next, next.run(rest));
        }
    }

    /// Generation on a grid of `rows` by `cols` cells, from the blank grid
    /// set up and whatever the draws: it is over after twice the number of
    /// cells less two steps and not before, and when it is over the
    /// generator is back on cell 0 and the passages are a spanning tree of
    /// the grid.
    pub proof fn lemma_generation(rows: usize, cols: usize, picks: Seq<int>)
        requires
            rows >= 1,
            cols >= 1,
            rows * cols <= usize::MAX,
            Maze::blank(rows, cols).setup().may_run(picks),
        ensures
            ({
                let end = Maze::blank(rows, cols).setup().run(picks);
                &&& end.inv()
                &&& end.is_done() <==> picks.len() >= 2 * (rows * cols) - 2
                &&& end.is_done() ==> {
                    &&& forall|i: int| end.has(i) ==> (#[trigger] end.cells[i]).visited
                    &&& forall|a: int, b: int|
                        end.has(a) && end.has(b) ==> #[trigger] end.reachable(a, b)
                    &&& end.acyclic()
                    &&& end.passages() == rows * cols - 1
                    &&& end.gaps() == 2 * (rows * cols - 1)
                    &&& end.current == 0
                }
            }),
    {
        let start = Maze::blank(rows, cols).setup();
        Maze::lemma_start(rows, cols);
        start.lemma_run(picks);
        let end = start.run(picks);
        if end.is_done() {
            end.lemma_done_spanning_tree();
            end.lemma_done_at_start();
        }
    }

    /// Generation is over exactly when no steps are left.
    pub proof fn lemma_done_when_no_steps_left(self)
        requires
            self.inv(),
        ensures
            self.steps_left() >= 0,
            self.is_done() <==> self.steps_left() == 0,
    {
        lemma_count_visited_all(self.cells);
        self.lemma_candidates();
        if self.is_done() {
            assert forall|i: int| 0 <= i < self.cells.len() implies (#[trigger] self.cells[i]).visited
            by {
                self.lemma_done_visited(i);
            }
        }
        if self.steps_left() == 0 {
            // Every cell is visited, so no cell next to the current one is
            // left to move to.
            self.lemma_neighbour(self.current as int, Side::BOTTOM);
        }
    }

    /// Generation ends where it started, on cell 0.
    pub proof fn lemma_done_at_start(self)
        requires
            self.inv(),
            self.is_done(),
        ensures
            self.current == 0,
    {
        assert(self.trail()[0] == self.current);
    }

    /// When generation is over, cell `i` is visited: the cell before it in
    /// its row is, or the cell above it, and neither has an unvisited cell
    /// next to it.
    pub proof fn lemma_done_visited(self, i: int)
        requires
            self.inv(),
            self.is_done(),
            self.has(i),
        ensures
            self.cells[i].visited,
        decreases i,
    {
        if i != 0 {
            self.lemma_candidates();
            self.lemma_place(i);
            let side = if self.cells[i].coord.1 > 0 {
                Side::LEFT
            } else {
                Side::TOP
            };
            self.lemma_neighbour(i, side);
            let j = self.neighbour(i, side).unwrap();
            self.lemma_done_visited(j);
            assert(self.settled(j));
            assert(self.seen(j, side.opposite()));
        }
    }

    /// A walk can be taken backwards.
    pub proof fn lemma_path_back(self, p: Seq<int>)
        requires
            self.wf(),
            self.symmetric(),
            self.is_path(p),
        ensures
            self.is_path(p.reverse()),
            p.reverse()[0] == p[p.len() - 1],
            p.reverse()[p.len() - 1] == p[0],
    {
        let q = p.reverse();
        assert forall|k: int| 0 <= k < q.len() - 1 implies #[trigger] self.hop(q, k) by {
            let j = p.len() - 2 - k;
            assert(self.hop(p, j));
            self.lemma_link_back(p[j], p[j + 1]);
        }
    }

    /// Two walks, the second starting where the first ends, make one.
    pub proof fn lemma_path_join(self, p: Seq<int>, q: Seq<int>)
        requires
            self.is_path(p),
            self.is_path(q),
            p[p.len() - 1] == q[0],
        ensures
            self.is_path(p + q.drop_first()),
            (p + q.drop_first())[0] == p[0],
            (p + q.drop_first())[p.len() + q.len() - 2] == q[q.len() - 1],
    {
        let r = p + q.drop_first();
        assert forall|k: int| 0 <= k < r.len() - 1 implies #[trigger] self.hop(r, k) by {
            if k < p.len() - 1 {
                assert(self.hop(p, k));
            } else {
                assert(self.hop(q, k - p.len() + 1));
            }
        }
    }

    /// Between steps any visited cell can be reached from any other.
    pub proof fn lemma_reach(self, a: int, b: int)
        requires
            self.inv(),
            self.has(a),
            self.has(b),
            self.cells[a].visited,
            self.cells[b].visited,
        ensures
            self.reachable(a, b),
    {
        assert(self.reachable(0, a));
        assert(self.reachable(0, b));
        let p = choose|p: Seq<int>| self.connects(p, 0, a);
        let q = choose|q: Seq<int>| self.connects(q, 0, b);
        self.lemma_path_back(p);
        self.lemma_path_join(p.reverse(), q);
        assert(self.connects(p.reverse() + q.drop_first(), a, b));
    }

    /// When generation is over the passages are a spanning tree of the
    /// grid: every cell is visited, any cell can be reached from any other,
    /// there is no cycle, and there is one passage less than there are
    /// cells, with one wall gone on each of its two sides.
    pub proof fn lemma_done_spanning_tree(self)
        requires
            self.inv(),
            self.is_done(),
        ensures
            forall|i: int| self.has(i) ==> (#[trigger] self.cells[i]).visited,
            forall|a: int, b: int| self.has(a) && self.has(b) ==> #[trigger] self.reachable(a, b),
            self.acyclic(),
            self.passages() == self.rows * self.cols - 1,
            self.gaps() == 2 * (self.rows * self.cols - 1),
    {
        assert forall|i: int| self.has(i) implies (#[trigger] self.cells[i]).visited by {
            self.lemma_done_visited(i);
        }
        assert forall|a: int, b: int| self.has(a) && self.has(b) implies #[trigger] self.reachable(
            a,
            b,
        ) by {
            self.lemma_reach(a, b);
        }
        lemma_count_visited_all(self.cells);
    }
}

} // verus!
