//! Passages and walks: what is kept while walls only come down, and what
//! the agreement of the two sides of each wall gives.

use vstd::prelude::*;
use crate::maze::Maze;
use crate::utils::Side;

verus! {

impl Maze {
    /// A passage stays a passage while nothing is undone.
    pub proof fn lemma_link_kept(self, later: Maze, a: int, b: int)
        requires
            self.grows_to(later),
            self.has(a),
            self.linked(a, b),
        ensures
            later.linked(a, b),
    {
        assert(later.cells[a].coord == self.cells[a].coord);
    }

    /// A walk stays a walk while nothing is undone.
    pub proof fn lemma_path_kept(self, later: Maze, p: Seq<int>)
        requires
            self.grows_to(later),
            self.is_path(p),
        ensures
            later.is_path(p),
    {
        assert forall|k: int| 0 <= k < p.len() - 1 implies #[trigger] later.hop(p, k) by {
            assert(self.hop(p, k));
            self.lemma_link_kept(later, p[k], p[k + 1]);
        }
    }

    /// A cycle stays a cycle while nothing is undone.
    pub proof fn lemma_cycle_kept(self, later: Maze, p: Seq<int>)
        requires
            self.grows_to(later),
            self.is_cycle(p),
        ensures
            later.is_cycle(p),
    {
        self.lemma_path_kept(later, p);
        self.lemma_link_kept(later, p[p.len() - 1], p[0]);
    }

    /// Where the two sides of every wall agree, a passage can be taken both
    /// ways.
    pub proof fn lemma_link_back(self, a: int, b: int)
        requires
            self.wf(),
            self.symmetric(),
            self.has(a),
            self.linked(a, b),
        ensures
            self.has(b),
            self.linked(b, a),
    {
        let side = if self.passage(a, Side::TOP, b) {
            Side::TOP
        } else if self.passage(a, Side::RIGHT, b) {
            Side::RIGHT
        } else if self.passage(a, Side::BOTTOM, b) {
            Side::BOTTOM
        } else {
            Side::LEFT
        };
        self.lemma_neighbour(a, side);
        assert(self.mirrored(a, side));
        assert(self.passage(b, side.opposite(), a));
    }
}

} // verus!
