//! The grid and the generator that carves a maze into it, one step per call.

use vstd::prelude::*;
use vstd::arithmetic::div_mod::lemma_fundamental_div_mod_converse;
use crate::cell::{Cell, Sketch};
use crate::maze::{Maze, Phase};
use crate::neighbour::Neighbour;
use crate::random::random_index;
use crate::utils::Side;

verus! {

/// A rectangular grid of cells and the state of the generator on it: where
/// it stands, the move it has chosen, and the cells it can go back to.
pub struct Grid {
    cells: Vec<Cell>,
    current: usize,
    next: Option<Neighbour>,
    cols: usize,
    rows: usize,
    stack: Vec<usize>,
}

impl View for Grid {
    type V = Maze;

    closed spec fn view(&self) -> Maze {
        Maze {
            rows: self.rows,
            cols: self.cols,
            cells: self.cells@,
            current: self.current,
            next: self.next,
            stack: self.stack@,
        }
    }
}

impl Grid {
    /// A grid of `rows` by `cols` cells with every wall standing. The
    /// generator stands on cell 0; [`Grid::setup`] has to be called before
    /// the first step.
    pub fn new(rows: usize, cols: usize) -> (r: Self)
        requires
            rows >= 1,
            cols >= 1,
            rows * cols <= usize::MAX,
        ensures
            r@ == Maze::blank(rows, cols),
            r@.wf(),
    {
        let mut cells: Vec<Cell> = Vec::new();
        let mut i: usize = 0;
        while i < rows
            invariant
                cols >= 1,
                i <= rows,
                cells@.len() == i * cols,
                forall|k: int|
                    0 <= k < cells@.len() ==> #[trigger] cells@[k] == Cell::blank(
                        ((k / cols as int) as usize, (k % cols as int) as usize),
                    ),
            decreases rows - i,
        {
            let mut j: usize = 0;
            while j < cols
                invariant
                    cols >= 1,
                    i < rows,
                    j <= cols,
                    cells@.len() == i * cols + j,
                    forall|k: int|
                        0 <= k < cells@.len() ==> #[trigger] cells@[k] == Cell::blank(
                            ((k / cols as int) as usize, (k % cols as int) as usize),
                        ),
                decreases cols - j,
            {
                proof {
                    lemma_fundamental_div_mod_converse(
                        i * cols + j,
                        cols as int,
                        i as int,
                        j as int,
                    );
                }
                let cell = Cell::new((i, j));
                cells.push(cell);
                j += 1;
            }
            assert((i + 1) * cols == i * cols + cols) by (nonlinear_arith);
            i += 1;
        }
        let r = Self { cells, current: 0, next: None, cols, rows, stack: Vec::new() };
        proof {
            assert(r@.cells =~= Maze::blank(rows, cols).cells);
            Maze::lemma_blank(rows, cols);
        }
        r
    }

    /// Marks the cell the generator stands on as visited and current.
    /// Called once on a new grid, this starts generation at cell 0; what
    /// [`Maze::inv`] states then holds, and every step keeps it.
    pub fn setup(&mut self)
        requires
            old(self)@.wf(),
        ensures
            final(self)@ == old(self)@.setup(),
            final(self)@.wf(),
            old(self)@.grows_to(final(self)@),
            old(self)@ == Maze::blank(old(self)@.rows, old(self)@.cols) ==> final(self)@.inv(),
            old(self)@.inv() ==> final(self)@ == old(self)@,
    {
        self.cells[self.current].current = true;
        self.cells[self.current].visited = true;
        proof {
            assert(self@.cells =~= old(self)@.setup().cells);
            old(self)@.lemma_setup_wf();
            old(self)@.lemma_setup_grows();
            if old(self)@ == Maze::blank(self.rows, self.cols) {
                Maze::lemma_start(self.rows, self.cols);
            }
            if old(self)@.inv() {
                old(self)@.lemma_setup_again();
            }
        }
    }

    /// One step of generation. Among the cells next to the current one that
    /// are not visited, one is drawn at random and the generator moves
    /// there, taking down the wall between the two. Where there is none, it
    /// goes back to the cell it came from; where there is none of those
    /// either, generation is over and nothing changes.
    pub fn update(&mut self)
        requires
            old(self)@.wf(),
        ensures
            old(self)@.steps_to(final(self)@),
            final(self)@.wf(),
            old(self)@.grows_to(final(self)@),
            old(self)@.inv() ==> final(self)@.inv(),
            old(self)@.phase() == Phase::Backtracking ==> final(self)@.current
                == old(self)@.stack.last() && final(self)@.stack == old(self)@.stack.drop_last(),
            old(self)@.phase() == Phase::Done ==> final(self)@ == old(self)@,
            old(self)@.inv() && old(self)@.phase() != Phase::Done ==> final(self)@.steps_left()
                == old(self)@.steps_left() - 1,
    {
        self.setup_next();
        let ghost chosen = self@;
        self.follow_next();
        proof {
            let pick = choose|pick: int|
                old(self)@.may_pick(pick) && chosen == old(self)@.chosen(pick);
            old(self)@.lemma_step(pick);
            old(self)@.lemma_step_grows(pick);
            if old(self)@.inv() {
                old(self)@.lemma_step_inv(pick);
                old(self)@.lemma_step_counts_down(pick);
            }
        }
    }

    /// One step of generation with the draw given: the generator moves to
    /// the candidate at position `draw` of [`Grid::candidates`]. Without a
    /// candidate the draw is not looked at.
    pub fn step(&mut self, draw: usize)
        requires
            old(self)@.wf(),
            old(self)@.may_pick(draw as int),
        ensures
            final(self)@ == old(self)@.step(draw as int),
            final(self)@.wf(),
            old(self)@.grows_to(final(self)@),
            old(self)@.inv() ==> final(self)@.inv(),
            old(self)@.inv() && old(self)@.phase() != Phase::Done ==> final(self)@.steps_left()
                == old(self)@.steps_left() - 1,
    {
        let mut neighbours = self.candidates();
        if neighbours.len() > 0 {
            self.next = Some(neighbours.remove(draw));
        }
        proof {
            old(self)@.lemma_candidates();
            old(self)@.lemma_chosen_wf(draw as int);
            old(self)@.lemma_step_grows(draw as int);
            if old(self)@.inv() {
                old(self)@.lemma_step_inv(draw as int);
                old(self)@.lemma_step_counts_down(draw as int);
            }
        }
        self.follow_next();
    }

    /// What to paint: the sketch of every cell, in the order of the cells.
    pub fn draw(&self) -> (r: Vec<Sketch>)
        ensures
            r@.len() == self@.cells.len(),
            forall|i: int|
                0 <= i < r@.len() ==> (#[trigger] r@[i]).fill == self@.cells[i].spec_fill()
                    && r@[i].edges@ == self@.cells[i].edges(),
    {
        let mut sketches: Vec<Sketch> = Vec::new();
        for k in 0..self.cells.len()
            invariant
                sketches@.len() == k,
                forall|i: int|
                    0 <= i < k ==> (#[trigger] sketches@[i]).fill == self.cells@[i].spec_fill()
                        && sketches@[i].edges@ == self.cells@[i].edges(),
        {
            let sketch = self.cells[k].draw();
            sketches.push(sketch);
        }
        sketches
    }

    /// Chooses the move for this step: draws one of the candidates at
    /// random and makes it the pending move. Without a candidate no move is
    /// pending afterwards.
    fn setup_next(&mut self)
        requires
            old(self)@.wf(),
        ensures
            exists|pick: int|
                old(self)@.may_pick(pick) && final(self)@ == #[trigger] old(self)@.chosen(pick),
            final(self)@.wf(),
    {
        let mut neighbours = self.candidates();
        if neighbours.len() > 0 {
            let random_num = random_index(neighbours.len());
            self.next = Some(neighbours.remove(random_num));
            proof {
                old(self)@.lemma_chosen_wf(random_num as int);
            }
            return ;
        }
        proof {
            old(self)@.lemma_candidates();
        }
    }

    /// Makes the pending move, or goes one step back where none is pending
    /// and the stack is not empty.
    fn follow_next(&mut self)
        requires
            old(self)@.wf(),
        ensures
            final(self)@ == old(self)@.follow(),
            final(self)@.wf(),
    {
        proof {
            old(self)@.lemma_follow_wf();
        }
        match self.next {
            Some(neighbour) => {
                proof {
                    self@.lemma_neighbour(self.current as int, neighbour.side);
                }
                self.cells[self.current].current = false;

                self.cells[neighbour.index].current = true;
                self.cells[neighbour.index].visited = true;

                self.cells[self.current].remove_wall(&neighbour.side, false);
                self.cells[neighbour.index].remove_wall(&neighbour.side, true);

                self.stack.push(self.current);

                self.current = neighbour.index;
                self.next = None;
                assert(self@.cells =~= old(self)@.follow().cells);
            },
            None => {
                if self.stack.is_empty() {
                    return ;
                }
                self.cells[self.current].current = false;

                self.current = self.stack.pop().unwrap();

                self.cells[self.current].current = true;
            },
        }
    }

    /// The index of the cell in column `i` and row `j`, if the grid has
    /// such a cell.
    fn neighbour_index(&self, i: usize, j: usize) -> (r: Option<usize>)
        requires
            self@.wf(),
        ensures
            r == if i < self@.cols && j < self@.rows {
                Some(self@.index_of(j as int, i as int) as usize)
            } else {
                None
            },
            r matches Some(index) ==> index == self@.index_of(j as int, i as int) && self@.has(
                index as int,
            ),
    {
        if i > self.cols - 1 || j > self.rows - 1 {
            return None;
        }
        proof {
            self@.lemma_index(j as int, i as int);
        }
        Some(i + j * self.cols)
    }

    /// The moves open to the generator: the cells next to the current one
    /// that are not visited, each with the side to cross, in the order up,
    /// left, right, down.
    pub fn candidates(&self) -> (r: Vec<Neighbour>)
        requires
            self@.wf(),
        ensures
            r@ == self@.candidates(),
    {
        let mut neighbours: Vec<Neighbour> = Vec::new();

        let coord = self.cells[self.current].coord;
        proof {
            self@.lemma_place(self.current as int);
        }

        if coord.0 > 0 {
            match self.neighbour_index(coord.1, coord.0 - 1) {
                Some(index) => {
                    if !self.cells[index].visited {
                        let neighbour = Neighbour::new(index, Side::TOP);
                        neighbours.push(neighbour)
                    }
                },
                None => {},
            }
        }

        if coord.1 > 0 {
            match self.neighbour_index(coord.1 - 1, coord.0) {
                Some(index) => {
                    if !self.cells[index].visited {
                        let neighbour = Neighbour::new(index, Side::LEFT);
                        neighbours.push(neighbour)
                    }
                },
                None => {},
            }
        }

        match self.neighbour_index(coord.1 + 1, coord.0) {
            Some(index) => {
                if !self.cells[index].visited {
                    let neighbour = Neighbour::new(index, Side::RIGHT);
                    neighbours.push(neighbour)
                }
            },
            None => {},
        }

        match self.neighbour_index(coord.1, coord.0 + 1) {
            Some(index) => {
                if !self.cells[index].visited {
                    let neighbour = Neighbour::new(index, Side::BOTTOM);
                    neighbours.push(neighbour)
                }
            },
            None => {},
        }
        neighbours
    }

    /// Where generation stands.
    pub fn phase(&self) -> (r: Phase)
        requires
            self@.wf(),
        ensures
            r == self@.phase(),
    {
        if self.candidates().len() > 0 {
            Phase::Advancing
        } else if !self.stack.is_empty() {
            Phase::Backtracking
        } else {
            Phase::Done
        }
    }

    pub fn rows(&self) -> (r: usize)
        ensures
            r == self@.rows,
    {
        self.rows
    }

    pub fn cols(&self) -> (r: usize)
        ensures
            r == self@.cols,
    {
        self.cols
    }

    /// The index of the cell the generator stands on.
    pub fn current(&self) -> (r: usize)
        ensures
            r == self@.current,
    {
        self.current
    }

    /// The cells, row after row.
    pub fn cells(&self) -> (r: &Vec<Cell>)
        ensures
            r@ == self@.cells,
    {
        &self.cells
    }

    /// The cells to go back to, the latest last.
    pub fn stack(&self) -> (r: &Vec<usize>)
        ensures
            r@ == self@.stack,
    {
        &self.stack
    }
}

} // verus!
