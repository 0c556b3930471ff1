use maze_generator::cell::{Cell, Fill, Walls};
use maze_generator::grid::Grid;
use maze_generator::maze::Phase;
use maze_generator::utils::Side;

const SIDES: [Side; 4] = [Side::TOP, Side::RIGHT, Side::BOTTOM, Side::LEFT];

const INTACT: Walls = Walls { top: true, right: true, bottom: true, left: true };

/// The cell across `side` of the cell in row `row` and column `col`.
fn across(grid: &Grid, row: usize, col: usize, side: Side) -> Option<usize> {
    let (rows, cols) = (grid.rows(), grid.cols());
    match side {
        Side::TOP if row > 0 => Some(col + (row - 1) * cols),
        Side::LEFT if col > 0 => Some(col - 1 + row * cols),
        Side::RIGHT if col + 1 < cols => Some(col + 1 + row * cols),
        Side::BOTTOM if row + 1 < rows => Some(col + (row + 1) * cols),
        _ => None,
    }
}

fn removed_walls(cells: &[Cell]) -> usize {
    cells.iter().map(|c| SIDES.iter().filter(|s| !c.has_wall(**s)).count()).sum()
}

/// The passages as pairs of cell indices, the smaller first.
fn passages(grid: &Grid) -> Vec<(usize, usize)> {
    let mut found = Vec::new();
    for (i, cell) in grid.cells().iter().enumerate() {
        for side in [Side::RIGHT, Side::BOTTOM] {
            if !cell.has_wall(side) {
                let j = across(grid, cell.coord.0, cell.coord.1, side).unwrap();
                found.push((i, j));
            }
        }
    }
    found
}

/// How many cells can be reached from cell 0 through passages.
fn reached_from_start(grid: &Grid) -> usize {
    let cells = grid.cells();
    let mut seen = vec![false; cells.len()];
    let mut open_ends = vec![0usize];
    seen[0] = true;
    let mut count = 0;
    while let Some(i) = open_ends.pop() {
        count += 1;
        for side in SIDES {
            if !cells[i].has_wall(side) {
                let j = across(grid, cells[i].coord.0, cells[i].coord.1, side).unwrap();
                if !seen[j] {
                    seen[j] = true;
                    open_ends.push(j);
                }
            }
        }
    }
    count
}

/// Asserts what has to hold between any two steps.
fn assert_between_steps(grid: &Grid) {
    let cells = grid.cells();
    assert_eq!(cells.len(), grid.rows() * grid.cols());
    assert!(grid.current() < cells.len());
    let mut visited = 0;
    for (i, cell) in cells.iter().enumerate() {
        assert_eq!(cell.coord, (i / grid.cols(), i % grid.cols()));
        assert_eq!(cell.current, i == grid.current());
        if cell.visited {
            visited += 1;
        } else {
            assert_eq!(cell.walls, INTACT);
        }
        for side in SIDES {
            match across(grid, cell.coord.0, cell.coord.1, side) {
                Some(j) => assert_eq!(cell.has_wall(side), cells[j].has_wall(side.opposite())),
                None => assert!(cell.has_wall(side)),
            }
        }
    }
    assert!(cells[0].visited);
    assert!(cells[grid.current()].visited);
    for k in grid.stack() {
        assert!(cells[*k].visited);
    }
    assert_eq!(passages(grid).len() + 1, visited);
    assert_eq!(removed_walls(cells), 2 * (visited - 1));
    assert_eq!(reached_from_start(grid), visited);
}

/// Runs a seeded generation to its end, asserting at every step what has to
/// hold there, and gives the number of steps taken.
fn run_to_the_end(rows: usize, cols: usize, seed: u64) -> (Grid, usize) {
    macroquad::rand::srand(seed);
    let mut grid = Grid::new(rows, cols);
    grid.setup();
    assert_between_steps(&grid);
    let mut steps = 0;
    while grid.phase() != Phase::Done {
        let before: Vec<Cell> = grid.cells().clone();
        let stack_before: Vec<usize> = grid.stack().clone();
        let phase = grid.phase();
        let options = grid.candidates();
        grid.update();
        steps += 1;
        assert!(steps <= 2 * rows * cols - 2);
        assert_between_steps(&grid);
        for (old, new) in before.iter().zip(grid.cells()) {
            assert!(!old.visited || new.visited);
            for side in SIDES {
                assert!(old.has_wall(side) || !new.has_wall(side));
            }
        }
        match phase {
            Phase::Advancing => {
                assert!(options.iter().any(|n| n.index == grid.current()));
                assert!(!before[grid.current()].visited);
                assert_eq!(grid.stack().len(), stack_before.len() + 1);
                assert_eq!(&grid.stack()[..stack_before.len()], &stack_before[..]);
                assert_eq!(removed_walls(grid.cells()), removed_walls(&before) + 2);
            },
            Phase::Backtracking => {
                assert_eq!(grid.current(), *stack_before.last().unwrap());
                assert_eq!(grid.stack().len(), stack_before.len() - 1);
                assert_eq!(&grid.stack()[..], &stack_before[..stack_before.len() - 1]);
                assert_eq!(removed_walls(grid.cells()), removed_walls(&before));
            },
            Phase::Done => unreachable!(),
        }
    }
    (grid, steps)
}

#[test]
fn new_grid_is_blank() {
    let grid = Grid::new(3, 4);
    assert_eq!(grid.rows(), 3);
    assert_eq!(grid.cols(), 4);
    assert_eq!(grid.current(), 0);
    assert!(grid.stack().is_empty());
    assert_eq!(grid.cells().len(), 12);
    for row in 0..3 {
        for col in 0..4 {
            let cell = grid.cells()[col + row * 4];
            assert_eq!(cell, Cell::new((row, col)));
        }
    }
}

#[test]
fn setup_marks_the_first_cell() {
    let mut grid = Grid::new(2, 3);
    grid.setup();
    assert_eq!(grid.current(), 0);
    assert!(grid.cells()[0].visited);
    assert!(grid.cells()[0].current);
    assert_eq!(grid.cells()[0].walls, INTACT);
    for cell in &grid.cells()[1..] {
        assert!(!cell.visited);
        assert!(!cell.current);
        assert_eq!(cell.walls, INTACT);
    }
    assert!(grid.stack().is_empty());
    assert_eq!(grid.phase(), Phase::Advancing);
}

#[test]
fn setup_again_changes_nothing() {
    let mut grid = Grid::new(3, 3);
    grid.setup();
    grid.step(1);
    grid.step(0);
    let cells = grid.cells().clone();
    let stack = grid.stack().clone();
    let current = grid.current();
    grid.setup();
    assert_eq!(grid.cells(), &cells);
    assert_eq!(grid.stack(), &stack);
    assert_eq!(grid.current(), current);
}

#[test]
fn single_cell_is_done_after_setup() {
    let mut grid = Grid::new(1, 1);
    grid.setup();
    assert_eq!(grid.phase(), Phase::Done);
    assert!(grid.stack().is_empty());
    assert_eq!(removed_walls(grid.cells()), 0);
    assert!(grid.cells()[0].visited);
    assert!(grid.cells()[0].current);
    assert!(grid.candidates().is_empty());
    grid.update();
    assert_eq!(grid.phase(), Phase::Done);
    assert_eq!(grid.current(), 0);
    assert!(grid.stack().is_empty());
    assert_eq!(grid.cells()[0].walls, INTACT);
}

#[test]
fn two_by_two_becomes_a_tree() {
    for seed in 0..40u64 {
        let (grid, steps) = run_to_the_end(2, 2, seed);
        assert_eq!(steps, 6);
        assert!(grid.cells().iter().all(|c| c.visited));
        assert_eq!(passages(&grid).len(), 3);
        assert_eq!(removed_walls(grid.cells()), 6);
        assert_eq!(reached_from_start(&grid), 4);
        assert_eq!(grid.current(), 0);
        assert!(grid.stack().is_empty());
    }
}

#[test]
fn two_by_two_along_the_first_candidates() {
    let mut grid = Grid::new(2, 2);
    grid.setup();
    let first = grid.candidates();
    assert_eq!(first.len(), 2);
    assert_eq!((first[0].index, first[0].side), (1, Side::RIGHT));
    assert_eq!((first[1].index, first[1].side), (2, Side::BOTTOM));

    grid.step(0);
    assert_eq!(grid.current(), 1);
    assert_eq!(grid.stack(), &vec![0]);
    assert_eq!(grid.cells()[0].walls, Walls { right: false, ..INTACT });
    assert_eq!(grid.cells()[1].walls, Walls { left: false, ..INTACT });
    assert!(!grid.cells()[0].current);
    assert!(grid.cells()[1].current && grid.cells()[1].visited);

    let second = grid.candidates();
    assert_eq!(second.len(), 1);
    assert_eq!((second[0].index, second[0].side), (3, Side::BOTTOM));
    grid.step(0);
    assert_eq!(grid.current(), 3);
    assert_eq!(grid.stack(), &vec![0, 1]);
    assert_eq!(grid.cells()[1].walls, Walls { left: false, bottom: false, ..INTACT });
    assert_eq!(grid.cells()[3].walls, Walls { top: false, ..INTACT });

    let third = grid.candidates();
    assert_eq!(third.len(), 1);
    assert_eq!((third[0].index, third[0].side), (2, Side::LEFT));
    grid.step(0);
    assert_eq!(grid.current(), 2);
    assert_eq!(grid.stack(), &vec![0, 1, 3]);
    assert_eq!(grid.cells()[3].walls, Walls { top: false, left: false, ..INTACT });
    assert_eq!(grid.cells()[2].walls, Walls { right: false, ..INTACT });
    assert!(grid.cells().iter().all(|c| c.visited));
    assert_eq!(grid.phase(), Phase::Backtracking);
    assert!(grid.candidates().is_empty());

    let carved = grid.cells().iter().map(|c| c.walls).collect::<Vec<_>>();
    for (back_to, left) in [(3, vec![0, 1]), (1, vec![0]), (0, vec![])] {
        assert_eq!(grid.phase(), Phase::Backtracking);
        grid.step(0);
        assert_eq!(grid.current(), back_to);
        assert_eq!(grid.stack(), &left);
        assert!(grid.cells()[back_to].current);
        assert_eq!(grid.cells().iter().filter(|c| c.current).count(), 1);
        assert_eq!(grid.cells().iter().map(|c| c.walls).collect::<Vec<_>>(), carved);
    }
    assert_eq!(grid.phase(), Phase::Done);
    assert_eq!(passages(&grid), vec![(0, 1), (1, 3), (2, 3)]);
    assert!(grid.cells()[0].has_wall(Side::BOTTOM));
    assert!(grid.cells()[2].has_wall(Side::TOP));
    assert_between_steps(&grid);
}

#[test]
fn two_by_two_along_the_last_candidates() {
    let mut grid = Grid::new(2, 2);
    grid.setup();
    let mut steps = 0;
    while grid.phase() != Phase::Done {
        let n = grid.candidates().len();
        grid.step(if n > 0 { n - 1 } else { 0 });
        steps += 1;
    }
    assert_eq!(steps, 6);
    assert_eq!(passages(&grid), vec![(0, 2), (1, 3), (2, 3)]);
    assert!(grid.cells()[0].has_wall(Side::RIGHT));
    assert_between_steps(&grid);
}

#[test]
fn candidates_come_in_the_order_up_left_right_down() {
    let mut grid = Grid::new(3, 3);
    grid.setup();
    grid.step(1);
    assert_eq!(grid.current(), 3);
    let at_left_rim = grid.candidates();
    assert_eq!(
        at_left_rim.iter().map(|n| (n.index, n.side)).collect::<Vec<_>>(),
        vec![(4, Side::RIGHT), (6, Side::BOTTOM)]
    );
    grid.step(0);
    assert_eq!(grid.current(), 4);
    let in_the_middle = grid.candidates();
    assert_eq!(
        in_the_middle.iter().map(|n| (n.index, n.side)).collect::<Vec<_>>(),
        vec![(1, Side::TOP), (5, Side::RIGHT), (7, Side::BOTTOM)]
    );
    grid.step(2);
    assert_eq!(grid.current(), 7);
    assert_eq!(
        grid.candidates().iter().map(|n| (n.index, n.side)).collect::<Vec<_>>(),
        vec![(6, Side::LEFT), (8, Side::RIGHT)]
    );
    grid.step(0);
    assert_eq!(grid.current(), 6);
    assert!(grid.candidates().is_empty());
    assert_eq!(grid.phase(), Phase::Backtracking);
}

#[test]
fn update_moves_to_one_of_the_candidates() {
    for seed in 0..20u64 {
        macroquad::rand::srand(seed);
        let mut grid = Grid::new(3, 3);
        grid.setup();
        grid.step(1);
        grid.step(0);
        let options = grid.candidates();
        assert_eq!(options.len(), 3);
        grid.update();
        let taken = options.iter().find(|n| n.index == grid.current()).unwrap();
        assert!(!grid.cells()[4].has_wall(taken.side));
        assert!(!grid.cells()[taken.index].has_wall(taken.side.opposite()));
        assert_eq!(grid.stack(), &vec![0, 3, 4]);
    }
}

#[test]
fn update_goes_back_to_the_cell_pushed_last() {
    let mut grid = Grid::new(1, 3);
    grid.setup();
    grid.update();
    grid.update();
    assert_eq!(grid.current(), 2);
    assert_eq!(grid.stack(), &vec![0, 1]);
    assert_eq!(grid.phase(), Phase::Backtracking);
    grid.update();
    assert_eq!(grid.current(), 1);
    assert_eq!(grid.stack(), &vec![0]);
    assert!(grid.cells()[1].current);
    assert!(!grid.cells()[2].current);
    assert!(grid.cells()[2].visited);
    grid.update();
    assert_eq!(grid.current(), 0);
    assert!(grid.stack().is_empty());
    assert_eq!(grid.phase(), Phase::Done);
}

#[test]
fn update_after_the_end_changes_nothing() {
    let (mut grid, _) = run_to_the_end(3, 4, 7);
    let cells = grid.cells().clone();
    for _ in 0..5 {
        grid.update();
        assert_eq!(grid.phase(), Phase::Done);
        assert_eq!(grid.cells(), &cells);
        assert_eq!(grid.current(), 0);
        assert!(grid.stack().is_empty());
    }
}

#[test]
fn single_row_becomes_a_corridor() {
    let (grid, steps) = run_to_the_end(1, 6, 3);
    assert_eq!(steps, 10);
    assert_eq!(passages(&grid), vec![(0, 1), (1, 2), (2, 3), (3, 4), (4, 5)]);
}

#[test]
fn single_column_becomes_a_corridor() {
    let (grid, steps) = run_to_the_end(5, 1, 3);
    assert_eq!(steps, 8);
    assert_eq!(passages(&grid), vec![(0, 1), (1, 2), (2, 3), (3, 4)]);
}

#[test]
fn larger_grids_become_spanning_trees() {
    for (rows, cols, seed) in [(3, 3, 1u64), (4, 7, 2), (7, 4, 3), (8, 8, 4), (5, 9, 99)] {
        let (grid, steps) = run_to_the_end(rows, cols, seed);
        let n = rows * cols;
        assert_eq!(steps, 2 * n - 2);
        assert!(grid.cells().iter().all(|c| c.visited));
        assert_eq!(passages(&grid).len(), n - 1);
        assert_eq!(reached_from_start(&grid), n);
        assert_eq!(grid.current(), 0);
        assert!(grid.stack().is_empty());
    }
}

#[test]
fn seeds_give_different_mazes() {
    let mut seen: Vec<Vec<(usize, usize)>> = Vec::new();
    for seed in 0..12u64 {
        let (grid, _) = run_to_the_end(4, 4, seed);
        let found = passages(&grid);
        if !seen.contains(&found) {
            seen.push(found);
        }
    }
    assert!(seen.len() > 1);
}

#[test]
fn same_seed_gives_the_same_maze() {
    let (first, _) = run_to_the_end(5, 5, 42);
    let (second, _) = run_to_the_end(5, 5, 42);
    assert_eq!(first.cells(), second.cells());
}

#[test]
fn draw_gives_one_sketch_per_cell() {
    let mut grid = Grid::new(2, 2);
    grid.setup();
    grid.step(0);
    let sketches = grid.draw();
    assert_eq!(sketches.len(), 4);
    assert_eq!(sketches[0].fill, Fill::Visited);
    assert_eq!(sketches[0].edges, vec![Side::TOP, Side::BOTTOM, Side::LEFT]);
    assert_eq!(sketches[1].fill, Fill::Current);
    assert_eq!(sketches[1].edges, vec![Side::TOP, Side::RIGHT, Side::BOTTOM]);
    assert_eq!(sketches[2].fill, Fill::Untouched);
    assert_eq!(sketches[2].edges, vec![Side::TOP, Side::RIGHT, Side::BOTTOM, Side::LEFT]);
    assert_eq!(sketches[3].fill, Fill::Untouched);
    for (sketch, cell) in sketches.iter().zip(grid.cells()) {
        assert_eq!(*sketch, cell.draw());
    }
}

#[test]
fn phases_follow_the_search() {
    let mut grid = Grid::new(1, 2);
    grid.setup();
    assert_eq!(grid.phase(), Phase::Advancing);
    grid.update();
    assert_eq!(grid.current(), 1);
    assert_eq!(grid.phase(), Phase::Backtracking);
    grid.update();
    assert_eq!(grid.current(), 0);
    assert_eq!(grid.phase(), Phase::Done);
}
