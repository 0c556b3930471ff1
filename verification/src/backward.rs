//! A step back keeps what holds between steps.

use vstd::prelude::*;
use crate::cell::{Cell, Walls};
use crate::counting::{
    lemma_count_gaps_update,
    lemma_count_passages_update,
    lemma_count_visited_update,
};
use crate::maze::Maze;
use crate::utils::Side;

verus! {

impl Maze {
    /// What a step back changes: which cell is marked current, and nothing
    /// else; no wall and no visit is touched.
    pub proof fn lemma_backtrack_frame(self)
        requires
            self.wf(),
            self.next is None,
            self.stack.len() > 0,
        ensures
            ({
                let m = self.backtrack();
                &&& m.wf()
                &&& self.has(m.current as int)
                &&& forall|i: int|
                    self.has(i) ==> #[trigger] m.cells[i] == (Cell {
                        current: if i == m.current {
                            true
                        } else if i == self.current {
                            false
                        } else {
                            self.cells[i].current
                        },
                        ..self.cells[i]
                    })
                &&& forall|i: int, side: Side|
                    self.has(i) ==> #[trigger] m.neighbour(i, side) == self.neighbour(i, side)
                &&& self.grows_to(m)
                &&& m.grows_to(self)
            }),
    {
        self.lemma_backtrack_wf();
    }

    /// After a step back the marks are in order.
    pub proof fn lemma_backtrack_marks(self)
        requires
            self.inv(),
            self.settled(self.current as int),
            self.stack.len() > 0,
        ensures
            ({
                let m = self.backtrack();
                &&& m.cells[0].visited
                &&& m.cells[m.current as int].visited
                &&& forall|i: int|
                    m.has(i) ==> ((#[trigger] m.cells[i]).current <==> i == m.current)
                &&& forall|i: int|
                    m.has(i) && !(#[trigger] m.cells[i]).visited ==> m.cells[i].walls
                        == Walls::intact()
                &&& forall|k: int|
                    0 <= k < m.stack.len() ==> m.cells[#[trigger] m.stack[k] as int].visited
                &&& forall|v: int|
                    m.has(v) && m.cells[v].visited ==> m.on_trail(v) || #[trigger] m.settled(v)
            }),
    {
        let m = self.backtrack();
        let a = self.current as int;
        let last = self.stack.len() - 1;
        self.lemma_backtrack_frame();
        assert(self.cells[self.stack[last] as int].visited);
        assert forall|k: int| 0 <= k < m.stack.len() implies m.cells[#[trigger] m.stack[k]
            as int].visited by {
            assert(self.cells[self.stack[k] as int].visited);
        }
        assert forall|v: int| m.has(v) && m.cells[v].visited implies m.on_trail(v)
            || #[trigger] m.settled(v) by {
            if v != a && self.on_trail(v) {
                // On the stack: still there, or the cell gone back to.
                let k = choose|k: int| 0 <= k < self.stack.len() && #[trigger] self.stack[k] == v;
                if k < last {
                    assert(m.stack[k] == v);
                }
            } else {
                assert(self.settled(v));
                self.lemma_seen_kept(m, v, Side::TOP);
                self.lemma_seen_kept(m, v, Side::LEFT);
                self.lemma_seen_kept(m, v, Side::RIGHT);
                self.lemma_seen_kept(m, v, Side::BOTTOM);
            }
        }
    }

    /// After a step back the trail is the way it was, less its last cell.
    pub proof fn lemma_backtrack_trail(self)
        requires
            self.inv(),
            self.stack.len() > 0,
        ensures
            self.backtrack().trail_is_walk(),
    {
        let m = self.backtrack();
        self.lemma_backtrack_frame();
        assert(m.trail() =~= self.trail().drop_last());
        assert forall|k: int| 0 <= k < m.stack.len() implies #[trigger] m.trail_hop(k) by {
            assert(self.trail_hop(k));
            self.lemma_link_kept(m, self.trail()[k] as int, self.trail()[k + 1] as int);
        }
    }

    /// After a step back the graph of passages is what it was: the two
    /// sides of every wall agree, every visited cell can be reached from
    /// cell 0, and there is no cycle.
    pub proof fn lemma_backtrack_graph(self)
        requires
            self.inv(),
            self.stack.len() > 0,
        ensures
            self.backtrack().symmetric(),
            self.backtrack().connected(),
            self.backtrack().acyclic(),
    {
        let m = self.backtrack();
        self.lemma_backtrack_frame();
        assert forall|i: int, side: Side| m.has(i) implies #[trigger] m.mirrored(i, side) by {
            self.lemma_neighbour(i, side);
            assert(self.mirrored(i, side));
        }
        assert forall|v: int| m.has(v) && m.cells[v].visited implies #[trigger] m.reachable(
            0,
            v,
        ) by {
            assert(self.reachable(0, v));
            let p = choose|p: Seq<int>| self.connects(p, 0, v);
            self.lemma_path_kept(m, p);
            assert(m.connects(p, 0, v));
        }
        assert forall|p: Seq<int>| !#[trigger] m.is_cycle(p) by {
            if m.is_cycle(p) {
                m.lemma_cycle_kept(self, p);
            }
        }
    }

    /// A step back leaves the numbers of visited cells, of passages and of
    /// walls that are gone as they are.
    pub proof fn lemma_backtrack_counts(self)
        requires
            self.wf(),
            self.next is None,
            self.stack.len() > 0,
        ensures
            self.backtrack().visited_count() == self.visited_count(),
            self.backtrack().passages() == self.passages(),
            self.backtrack().gaps() == self.gaps(),
    {
        let a = self.current as int;
        let b = self.stack[self.stack.len() - 1] as int;
        let left = Cell { current: false, ..self.cells[a] };
        let unmarked = self.cells.update(a, left);
        let entered = Cell { current: true, ..unmarked[b] };
        lemma_count_visited_update(self.cells, a, left);
        lemma_count_visited_update(unmarked, b, entered);
        lemma_count_passages_update(self.cells, a, left);
        lemma_count_passages_update(unmarked, b, entered);
        lemma_count_gaps_update(self.cells, a, left);
        lemma_count_gaps_update(unmarked, b, entered);
    }

    /// A step back from a cell with no unvisited cell next to it keeps what
    /// holds between steps.
    pub proof fn lemma_backtrack_inv(self)
        requires
            self.inv(),
            self.settled(self.current as int),
            self.stack.len() > 0,
        ensures
            self.backtrack().inv(),
    {
        self.lemma_backtrack_frame();
        self.lemma_backtrack_marks();
        self.lemma_backtrack_trail();
        self.lemma_backtrack_graph();
        self.lemma_backtrack_counts();
    }
}

} // verus!
