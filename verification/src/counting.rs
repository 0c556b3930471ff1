//! How the two counts of a maze, visited cells and passages, change when a
//! cell changes.

use vstd::prelude::*;
use crate::cell::{Cell, Walls};
use crate::maze::{count_gaps, count_passages, count_visited, gaps_in, passages_from};

verus! {

/// One for a visited cell, nothing for another.
pub open spec fn visited_one(cell: Cell) -> nat {
    if cell.visited {
        1
    } else {
        0
    }
}

/// Replacing one cell changes the count of visited cells by what the new
/// cell counts more than the old one.
pub proof fn lemma_count_visited_update(cells: Seq<Cell>, i: int, cell: Cell)
    requires
        0 <= i < cells.len(),
    ensures
        count_visited(cells.update(i, cell)) + visited_one(cells[i]) == count_visited(cells)
            + visited_one(cell),
    decreases cells.len(),
{
    if i == cells.len() - 1 {
        assert(cells.update(i, cell).drop_last() =~= cells.drop_last());
    } else {
        assert(cells.update(i, cell).drop_last() =~= cells.drop_last().update(i, cell));
        lemma_count_visited_update(cells.drop_last(), i, cell);
    }
}

/// Replacing one cell changes the count of passages by what the new cell
/// counts more than the old one.
pub proof fn lemma_count_passages_update(cells: Seq<Cell>, i: int, cell: Cell)
    requires
        0 <= i < cells.len(),
    ensures
        count_passages(cells.update(i, cell)) + passages_from(cells[i]) == count_passages(cells)
            + passages_from(cell),
    decreases cells.len(),
{
    if i == cells.len() - 1 {
        assert(cells.update(i, cell).drop_last() =~= cells.drop_last());
    } else {
        assert(cells.update(i, cell).drop_last() =~= cells.drop_last().update(i, cell));
        lemma_count_passages_update(cells.drop_last(), i, cell);
    }
}

/// Replacing one cell changes the count of walls that are gone by what the
/// new cell counts more than the old one.
pub proof fn lemma_count_gaps_update(cells: Seq<Cell>, i: int, cell: Cell)
    requires
        0 <= i < cells.len(),
    ensures
        count_gaps(cells.update(i, cell)) + gaps_in(cells[i]) == count_gaps(cells) + gaps_in(cell),
    decreases cells.len(),
{
    if i == cells.len() - 1 {
        assert(cells.update(i, cell).drop_last() =~= cells.drop_last());
    } else {
        assert(cells.update(i, cell).drop_last() =~= cells.drop_last().update(i, cell));
        lemma_count_gaps_update(cells.drop_last(), i, cell);
    }
}

/// No more cells are visited than there are, and all are counted exactly
/// if every cell is visited.
pub proof fn lemma_count_visited_all(cells: Seq<Cell>)
    ensures
        count_visited(cells) <= cells.len(),
        count_visited(cells) == cells.len() <==> forall|i: int|
            0 <= i < cells.len() ==> (#[trigger] cells[i]).visited,
    decreases cells.len(),
{
    if cells.len() > 0 {
        let front = cells.drop_last();
        lemma_count_visited_all(front);
        if count_visited(cells) == cells.len() {
            assert forall|i: int| 0 <= i < cells.len() implies (#[trigger] cells[i]).visited by {
                if i < front.len() {
                    assert(front[i].visited);
                }
            }
        }
        if forall|i: int| 0 <= i < cells.len() ==> (#[trigger] cells[i]).visited {
            assert forall|i: int| 0 <= i < front.len() implies (#[trigger] front[i]).visited by {}
        }
    }
}

/// Where no cell is visited, none is counted.
pub proof fn lemma_count_visited_none(cells: Seq<Cell>)
    requires
        forall|i: int| 0 <= i < cells.len() ==> !(#[trigger] cells[i]).visited,
    ensures
        count_visited(cells) == 0,
    decreases cells.len(),
{
    if cells.len() > 0 {
        let front = cells.drop_last();
        assert forall|i: int| 0 <= i < front.len() implies !(#[trigger] front[i]).visited by {}
        lemma_count_visited_none(front);
    }
}

/// Where every wall stands, no passage and no wall that is gone is counted.
pub proof fn lemma_count_walls_none(cells: Seq<Cell>)
    requires
        forall|i: int| 0 <= i < cells.len() ==> (#[trigger] cells[i]).walls == Walls::intact(),
    ensures
        count_passages(cells) == 0,
        count_gaps(cells) == 0,
    decreases cells.len(),
{
    if cells.len() > 0 {
        let front = cells.drop_last();
        assert forall|i: int| 0 <= i < front.len() implies (#[trigger] front[i]).walls
            == Walls::intact() by {}
        lemma_count_walls_none(front);
    }
}

} // verus!
