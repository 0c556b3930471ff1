use maze_generator::cell::{Cell, Fill, Walls};
use maze_generator::neighbour::Neighbour;
use maze_generator::utils::Side;

const SIDES: [Side; 4] = [Side::TOP, Side::RIGHT, Side::BOTTOM, Side::LEFT];

fn standing(cell: &Cell) -> Vec<Side> {
    SIDES.iter().copied().filter(|s| cell.has_wall(*s)).collect()
}

#[test]
fn new_cell_has_four_walls_and_no_marks() {
    let cell = Cell::new((3, 5));
    assert_eq!(cell.coord, (3, 5));
    assert!(!cell.visited);
    assert!(!cell.current);
    assert_eq!(cell.walls, Walls { top: true, right: true, bottom: true, left: true });
    assert_eq!(standing(&cell), vec![Side::TOP, Side::RIGHT, Side::BOTTOM, Side::LEFT]);
}

#[test]
fn remove_wall_of_the_cell_left_takes_the_side_crossed() {
    for side in SIDES {
        let mut cell = Cell::new((0, 0));
        cell.remove_wall(&side, false);
        for other in SIDES {
            assert_eq!(cell.has_wall(other), other != side);
        }
    }
}

#[test]
fn remove_wall_of_the_cell_entered_takes_the_side_facing() {
    let facing = [
        (Side::TOP, Side::BOTTOM),
        (Side::LEFT, Side::RIGHT),
        (Side::BOTTOM, Side::TOP),
        (Side::RIGHT, Side::LEFT),
    ];
    for (crossed, gone) in facing {
        let mut cell = Cell::new((1, 1));
        cell.remove_wall(&crossed, true);
        for other in SIDES {
            assert_eq!(cell.has_wall(other), other != gone);
        }
    }
}

#[test]
fn remove_wall_changes_nothing_but_the_wall() {
    let mut cell = Cell::new((2, 7));
    cell.visited = true;
    cell.remove_wall(&Side::LEFT, false);
    assert_eq!(cell.coord, (2, 7));
    assert!(cell.visited);
    assert!(!cell.current);
    assert_eq!(cell.walls, Walls { top: true, right: true, bottom: true, left: false });
}

#[test]
fn remove_wall_twice_is_remove_wall_once() {
    for side in SIDES {
        for inverse in [false, true] {
            let mut once = Cell::new((0, 0));
            once.remove_wall(&side, inverse);
            let mut twice = once;
            twice.remove_wall(&side, inverse);
            assert_eq!(once, twice);
        }
    }
}

#[test]
fn walls_of_a_move_go_on_both_sides() {
    for side in SIDES {
        let mut left = Cell::new((4, 4));
        let mut entered = Cell::new((4, 5));
        left.remove_wall(&side, false);
        entered.remove_wall(&side, true);
        assert!(!left.has_wall(side));
        assert!(!entered.has_wall(side.opposite()));
        assert_eq!(standing(&left).len(), 3);
        assert_eq!(standing(&entered).len(), 3);
    }
}

#[test]
fn all_walls_can_go() {
    let mut cell = Cell::new((0, 0));
    for side in SIDES {
        cell.remove_wall(&side, false);
    }
    assert_eq!(cell.walls, Walls { top: false, right: false, bottom: false, left: false });
    assert!(cell.draw().edges.is_empty());
}

#[test]
fn opposite_sides() {
    assert_eq!(Side::TOP.opposite(), Side::BOTTOM);
    assert_eq!(Side::BOTTOM.opposite(), Side::TOP);
    assert_eq!(Side::LEFT.opposite(), Side::RIGHT);
    assert_eq!(Side::RIGHT.opposite(), Side::LEFT);
    for side in SIDES {
        assert_eq!(side.opposite().opposite(), side);
        assert_ne!(side.opposite(), side);
    }
}

#[test]
fn ends_run_clockwise_round_the_unit_square() {
    assert_eq!(Side::TOP.ends(), ((0, 0), (1, 0)));
    assert_eq!(Side::RIGHT.ends(), ((1, 0), (1, 1)));
    assert_eq!(Side::BOTTOM.ends(), ((1, 1), (0, 1)));
    assert_eq!(Side::LEFT.ends(), ((0, 1), (0, 0)));
}

#[test]
fn fill_prefers_current_to_visited_to_untouched() {
    let mut cell = Cell::new((0, 0));
    assert_eq!(cell.draw().fill, Fill::Untouched);
    cell.visited = true;
    assert_eq!(cell.draw().fill, Fill::Visited);
    cell.current = true;
    assert_eq!(cell.draw().fill, Fill::Current);
    cell.visited = false;
    assert_eq!(cell.draw().fill, Fill::Current);
}

#[test]
fn sketch_lists_standing_walls_in_order() {
    let mut cell = Cell::new((0, 0));
    assert_eq!(cell.draw().edges, vec![Side::TOP, Side::RIGHT, Side::BOTTOM, Side::LEFT]);
    cell.remove_wall(&Side::RIGHT, false);
    assert_eq!(cell.draw().edges, vec![Side::TOP, Side::BOTTOM, Side::LEFT]);
    cell.remove_wall(&Side::BOTTOM, true);
    assert_eq!(cell.draw().edges, vec![Side::BOTTOM, Side::LEFT]);
    cell.remove_wall(&Side::LEFT, false);
    assert_eq!(cell.draw().edges, vec![Side::BOTTOM]);
}

#[test]
fn neighbour_keeps_index_and_side() {
    let n = Neighbour::new(17, Side::LEFT);
    assert_eq!(n.index, 17);
    assert_eq!(n.side, Side::LEFT);
    let m = Neighbour::new(0, Side::BOTTOM);
    assert_eq!(m.index, 0);
    assert_eq!(m.side, Side::BOTTOM);
}
