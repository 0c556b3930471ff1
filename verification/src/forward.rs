//! A move forward keeps what holds between steps.

use vstd::prelude::*;
use crate::cell::Walls;
use crate::counting::{
    lemma_count_gaps_update,
    lemma_count_passages_update,
    lemma_count_visited_update,
};
use crate::maze::Maze;
use crate::neighbour::Neighbour;
use crate::utils::Side;

verus! {

impl Maze {
    /// What a move forward changes: the cell left and the cell entered, and
    /// nothing else; no cell changes its place, and nothing is undone.
    pub proof fn lemma_advance_frame(self, n: Neighbour)
        requires
            self.wf(),
            self.is_candidate(n),
        ensures
            ({
                let m = self.advance(n);
                let a = self.current as int;
                let b = n.index as int;
                &&& self.has(b)
                &&& a != b
                &&& self.neighbour(b, n.side.opposite()) == Some(a)
                &&& m.wf()
                &&& m.cells[a] == self.cells[a].departed(n.side)
                &&& m.cells[b] == self.cells[b].entered(n.side)
                &&& forall|i: int|
                    self.has(i) && i != a && i != b ==> #[trigger] m.cells[i] == self.cells[i]
                &&& forall|i: int, side: Side|
                    self.has(i) ==> #[trigger] m.neighbour(i, side) == self.neighbour(i, side)
                &&& self.grows_to(m)
            }),
    {
        self.lemma_neighbour(self.current as int, n.side);
        self.lemma_advance_wf(n);
    }

    /// After a move forward the two sides of every wall still agree.
    pub proof fn lemma_advance_symmetric(self, n: Neighbour)
        requires
            self.wf(),
            self.symmetric(),
            self.is_candidate(n),
        ensures
            self.advance(n).symmetric(),
    {
        let m = self.advance(n);
        self.lemma_advance_frame(n);
        assert forall|i: int, side: Side| m.has(i) implies #[trigger] m.mirrored(i, side) by {
            // The wall of the move is gone on both of its sides; any other
            // wall and the wall behind it are as they were.
            self.lemma_neighbour(i, side);
            assert(self.mirrored(i, side));
        }
    }

    /// After a move forward the marks are in order: the cell entered is the
    /// one marked current, unvisited cells have all their walls, the stack
    /// holds visited cells, and a visited cell off the trail has no
    /// unvisited cell next to it.
    pub proof fn lemma_advance_marks(self, n: Neighbour)
        requires
            self.inv(),
            self.is_candidate(n),
        ensures
            ({
                let m = self.advance(n);
                &&& m.cells[0].visited
                &&& m.cells[m.current as int].visited
                &&& forall|i: int|
                    m.has(i) ==> ((#[trigger] m.cells[i]).current <==> i == m.current)
                &&& forall|i: int|
                    m.has(i) && !(#[trigger] m.cells[i]).visited ==> m.cells[i].walls
                        == Walls::intact()
                &&& forall|k: int|
                    0 <= k < m.stack.len() ==> m.cells[#[trigger] m.stack[k] as int].visited
                &&& forall|v: int|
                    m.has(v) && m.cells[v].visited ==> m.on_trail(v) || #[trigger] m.settled(v)
            }),
    {
        let m = self.advance(n);
        let a = self.current as int;
        let b = n.index as int;
        self.lemma_advance_frame(n);
        assert forall|k: int| 0 <= k < m.stack.len() implies m.cells[#[trigger] m.stack[k]
            as int].visited by {
            if k < self.stack.len() {
                assert(self.cells[self.stack[k] as int].visited);
            }
        }
        assert forall|v: int| m.has(v) && m.cells[v].visited implies m.on_trail(v)
            || #[trigger] m.settled(v) by {
            if v == b {
                // The cell entered is the current one.
            } else if v == a {
                // The cell left is on top of the stack.
                assert(m.stack[self.stack.len() as int] == v);
            } else if self.on_trail(v) {
                let k = choose|k: int| 0 <= k < self.stack.len() && #[trigger] self.stack[k] == v;
                assert(m.stack[k] == v);
            } else {
                assert(self.settled(v));
                self.lemma_seen_kept(m, v, Side::TOP);
                self.lemma_seen_kept(m, v, Side::LEFT);
                self.lemma_seen_kept(m, v, Side::RIGHT);
                self.lemma_seen_kept(m, v, Side::BOTTOM);
            }
        }
    }

    /// After a move forward the trail is the way it was, with the cell
    /// entered at its end.
    pub proof fn lemma_advance_trail(self, n: Neighbour)
        requires
            self.inv(),
            self.is_candidate(n),
        ensures
            self.advance(n).trail_is_walk(),
    {
        let m = self.advance(n);
        let a = self.current as int;
        let b = n.index as int;
        self.lemma_advance_frame(n);
        assert(m.trail() =~= self.trail().push(n.index));
        assert forall|i: int, j: int|
            0 <= i < m.trail().len() && 0 <= j < m.trail().len() && i != j implies m.trail()[i]
            != m.trail()[j] by {
            // The cells of the old trail are visited; the cell entered was
            // not.
            if i < self.trail().len() {
                assert(self.cells[self.trail()[i] as int].visited);
            }
            if j < self.trail().len() {
                assert(self.cells[self.trail()[j] as int].visited);
            }
        }
        assert forall|k: int| 0 <= k < m.stack.len() implies #[trigger] m.trail_hop(k) by {
            if k < self.stack.len() {
                assert(self.trail_hop(k));
                self.lemma_link_kept(m, self.trail()[k] as int, self.trail()[k + 1] as int);
            } else {
                assert(m.passage(a, n.side, b));
            }
        }
    }

    /// A visited cell next to cell `v` is still there, and still visited,
    /// while nothing is undone.
    pub proof fn lemma_seen_kept(self, later: Maze, v: int, side: Side)
        requires
            self.wf(),
            self.grows_to(later),
            self.has(v),
            self.seen(v, side),
        ensures
            later.seen(v, side),
    {
        self.lemma_neighbour(v, side);
    }

    /// After a move forward every visited cell can still be reached from
    /// cell 0: the cell entered through the cell left, the others as before.
    pub proof fn lemma_advance_connected(self, n: Neighbour)
        requires
            self.inv(),
            self.is_candidate(n),
        ensures
            self.advance(n).connected(),
    {
        let m = self.advance(n);
        let a = self.current as int;
        let b = n.index as int;
        self.lemma_advance_frame(n);
        assert forall|v: int| m.has(v) && m.cells[v].visited implies #[trigger] m.reachable(
            0,
            v,
        ) by {
            if v == b {
                assert(self.reachable(0, a));
                let p = choose|p: Seq<int>| self.connects(p, 0, a);
                self.lemma_path_kept(m, p);
                let q = p.push(b);
                assert(m.passage(a, n.side, b));
                assert forall|k: int| 0 <= k < q.len() - 1 implies #[trigger] m.hop(q, k) by {
                    if k < p.len() - 1 {
                        assert(m.hop(p, k));
                    }
                }
                assert(m.connects(q, 0, v));
            } else {
                assert(self.reachable(0, v));
                let p = choose|p: Seq<int>| self.connects(p, 0, v);
                self.lemma_path_kept(m, p);
                assert(m.connects(p, 0, v));
            }
        }
    }

    /// After a move forward the cell entered has one passage only, the one
    /// to the cell left.
    pub proof fn lemma_advance_door(self, n: Neighbour, x: int)
        requires
            self.inv(),
            self.is_candidate(n),
            self.has(x),
            self.advance(n).linked(n.index as int, x) || self.advance(n).linked(x, n.index as int),
        ensures
            x == self.current,
    {
        let m = self.advance(n);
        let a = self.current as int;
        let b = n.index as int;
        self.lemma_advance_frame(n);
        self.lemma_advance_symmetric(n);
        assert(self.cells[b].walls == Walls::intact());
        if !m.linked(b, x) {
            m.lemma_link_back(x, b);
        }
    }

    /// A passage that is there after a move forward and does not touch the
    /// cell entered was there before.
    pub proof fn lemma_advance_old_link(self, n: Neighbour, x: int, y: int)
        requires
            self.wf(),
            self.is_candidate(n),
            self.has(x),
            x != n.index,
            y != n.index,
            self.advance(n).linked(x, y),
        ensures
            self.linked(x, y),
    {
        self.lemma_advance_frame(n);
    }

    /// After a move forward the passages still form no cycle: a cycle
    /// through the cell entered would need two passages there, and any
    /// other cycle would have been one before.
    pub proof fn lemma_advance_acyclic(self, n: Neighbour)
        requires
            self.inv(),
            self.is_candidate(n),
        ensures
            self.advance(n).acyclic(),
    {
        let m = self.advance(n);
        let a = self.current as int;
        let b = n.index as int;
        self.lemma_advance_frame(n);
        assert forall|p: Seq<int>| !#[trigger] m.is_cycle(p) by {
            if m.is_cycle(p) {
                let len = p.len() as int;
                if exists|k: int| 0 <= k < len && p[k] == b {
                    let k = choose|k: int| 0 <= k < len && p[k] == b;
                    let before = if k == 0 {
                        len - 1
                    } else {
                        k - 1
                    };
                    let after = if k == len - 1 {
                        0
                    } else {
                        k + 1
                    };
                    assert(m.linked(p[before], b)) by {
                        if k > 0 {
                            assert(m.hop(p, k - 1));
                        }
                    }
                    assert(m.linked(b, p[after])) by {
                        if k < len - 1 {
                            assert(m.hop(p, k));
                        }
                    }
                    self.lemma_advance_door(n, p[before]);
                    self.lemma_advance_door(n, p[after]);
                    assert(p[before] == p[after] && before != after);
                } else {
                    assert forall|k: int| 0 <= k < len - 1 implies #[trigger] self.hop(p, k) by {
                        assert(m.hop(p, k));
                        self.lemma_advance_old_link(n, p[k], p[k + 1]);
                    }
                    self.lemma_advance_old_link(n, p[len - 1], p[0]);
                    assert(self.is_cycle(p));
                }
            }
        }
    }

    /// A move forward adds one visited cell and one passage, for which two
    /// walls go: one of the cell left and one of the cell entered.
    pub proof fn lemma_advance_counts(self, n: Neighbour)
        requires
            self.inv(),
            self.is_candidate(n),
        ensures
            self.advance(n).visited_count() == self.visited_count() + 1,
            self.advance(n).passages() == self.passages() + 1,
            self.advance(n).gaps() == self.gaps() + 2,
    {
        let a = self.current as int;
        let b = n.index as int;
        self.lemma_advance_frame(n);
        let left = self.cells[a].departed(n.side);
        let entered = self.cells[b].entered(n.side);
        let half = self.cells.update(a, left);
        lemma_count_visited_update(self.cells, a, left);
        lemma_count_visited_update(half, b, entered);
        lemma_count_passages_update(self.cells, a, left);
        lemma_count_passages_update(half, b, entered);
        lemma_count_gaps_update(self.cells, a, left);
        lemma_count_gaps_update(half, b, entered);
        // The wall of the move stood on both sides: the cell entered had
        // all its walls.
        assert(self.mirrored(a, n.side));
    }

    /// A move forward keeps what holds between steps.
    pub proof fn lemma_advance_inv(self, n: Neighbour)
        requires
            self.inv(),
            self.is_candidate(n),
        ensures
            self.advance(n).inv(),
    {
        self.lemma_advance_frame(n);
        self.lemma_advance_symmetric(n);
        self.lemma_advance_marks(n);
        self.lemma_advance_trail(n);
        self.lemma_advance_connected(n);
        self.lemma_advance_acyclic(n);
        self.lemma_advance_counts(n);
    }
}

} // verus!
