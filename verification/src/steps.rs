//! Every move leads from a well-formed state to a well-formed state.

use vstd::prelude::*;
use crate::maze::Maze;
use crate::neighbour::Neighbour;
use crate::utils::Side;

verus! {

impl Maze {
    /// A blank grid is well formed.
    pub proof fn lemma_blank(rows: usize, cols: usize)
        requires
            rows >= 1,
            cols >= 1,
            rows * cols <= usize::MAX,
        ensures
            Maze::blank(rows, cols).wf(),
    {
        let m = Maze::blank(rows, cols);
        assert(rows * cols >= 1) by (nonlinear_arith)
            requires
                rows >= 1,
                cols >= 1,
        ;
        assert forall|i: int| m.has(i) implies (#[trigger] m.cells[i]).coord.0 == i / (cols as int)
            && m.cells[i].coord.1 == i % (cols as int) by {
            let c = cols as int;
            assert(0 <= i % c < c) by (nonlinear_arith)
                requires
                    c > 0,
            ;
            assert(0 <= i / c <= i) by (nonlinear_arith)
                requires
                    c > 0,
                    0 <= i,
            ;
        }
    }

    /// The candidates are moves that the generator may make, at most one
    /// for each side, and there is none exactly if every cell next to the
    /// current one is visited; a pending move is one of them.
    pub proof fn lemma_candidates(self)
        requires
            self.wf(),
        ensures
            self.candidates().len() <= 4,
            forall|k: int|
                0 <= k < self.candidates().len() ==> self.is_candidate(
                    #[trigger] self.candidates()[k],
                ),
            self.candidates().len() == 0 <==> self.settled(self.current as int),
            self.next is Some ==> self.candidates().len() > 0,
    {
        let a = self.current as int;
        self.lemma_neighbour(a, Side::TOP);
        self.lemma_neighbour(a, Side::LEFT);
        self.lemma_neighbour(a, Side::RIGHT);
        self.lemma_neighbour(a, Side::BOTTOM);
        let top = self.probe(Side::TOP);
        let left = self.probe(Side::LEFT);
        let right = self.probe(Side::RIGHT);
        let bottom = self.probe(Side::BOTTOM);
        assert forall|k: int| 0 <= k < self.candidates().len() implies self.is_candidate(
            #[trigger] self.candidates()[k],
        ) by {
            let n = self.candidates()[k];
            if k < top.len() {
                assert(n == top[k]);
            } else if k < top.len() + left.len() {
                assert(n == left[k - top.len()]);
            } else if k < top.len() + left.len() + right.len() {
                assert(n == right[k - top.len() - left.len()]);
            } else {
                assert(n == bottom[k - top.len() - left.len() - right.len()]);
            }
        }
    }

    /// Setting up keeps the state well formed.
    pub proof fn lemma_setup_wf(self)
        requires
            self.wf(),
        ensures
            self.setup().wf(),
    {
        if let Some(n) = self.next {
            self.lemma_neighbour(self.current as int, n.side);
        }
    }

    /// Choosing a move keeps the state well formed.
    pub proof fn lemma_chosen_wf(self, pick: int)
        requires
            self.wf(),
            self.may_pick(pick),
        ensures
            self.chosen(pick).wf(),
    {
        self.lemma_candidates();
    }

    /// A move forward keeps the state well formed.
    pub proof fn lemma_advance_wf(self, n: Neighbour)
        requires
            self.wf(),
            self.is_candidate(n),
        ensures
            self.advance(n).wf(),
    {
        self.lemma_neighbour(self.current as int, n.side);
    }

    /// A step back keeps the state well formed.
    pub proof fn lemma_backtrack_wf(self)
        requires
            self.wf(),
            self.next is None,
            self.stack.len() > 0,
        ensures
            self.backtrack().wf(),
    {
        assert(self.has(self.stack[self.stack.len() - 1] as int));
    }

    /// Following the pending move keeps the state well formed.
    pub proof fn lemma_follow_wf(self)
        requires
            self.wf(),
        ensures
            self.follow().wf(),
    {
        match self.next {
            Some(n) => self.lemma_advance_wf(n),
            None => if self.stack.len() > 0 {
                self.lemma_backtrack_wf()
            },
        }
    }
}

} // verus!
