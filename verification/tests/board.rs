use smallbitset::Set16;
use sudoku_solver::candidates::full_set;
use sudoku_solver::grid::Sudoku;
use sudoku_solver::solver::SudokuSolver;
use sudoku_solver::SudokuField;

fn set_of(digits: &[usize]) -> Set16 {
    let mut s = Set16::empty();
    for d in digits {
        s = s.union(Set16::singleton(*d));
    }
    s
}

fn is_peer(x: usize, y: usize, px: usize, py: usize) -> bool {
    (x != px || y != py) && (x == px || y == py || (x / 3 == px / 3 && y / 3 == py / 3))
}

fn same_board(a: &SudokuSolver, b: &SudokuSolver) -> bool {
    (0..9).all(|y| (0..9).all(|x| a.get(x, y) == b.get(x, y)))
}

#[test]
fn field_sizes() {
    assert_eq!(Sudoku::size(), 9);
    assert_eq!(Sudoku::cell_size(), 3);
    assert_eq!(SudokuSolver::size(), 9);
    assert_eq!(Sudoku::values(), 0u8..9u8);
    assert_eq!(Sudoku::values().count(), 9);
}

#[test]
fn set_changes_one_cell_only() {
    let mut grid = Sudoku::empty();
    grid.set(3, 7, Some(5));
    for y in 0..9 {
        for x in 0..9 {
            let expected = if x == 3 && y == 7 { Some(5) } else { None };
            assert_eq!(*grid.get(x, y), expected);
        }
    }
    grid.set(3, 7, None);
    assert_eq!(*grid.get(3, 7), None);
}

#[test]
fn cells_are_stored_row_by_row() {
    let mut cells = [0u8; 81];
    for (i, c) in cells.iter_mut().enumerate() {
        *c = i as u8;
    }
    let field = SudokuField::from_cells(cells);
    assert_eq!(*field.get(0, 0), 0);
    assert_eq!(*field.get(8, 0), 8);
    assert_eq!(*field.get(0, 1), 9);
    assert_eq!(*field.get(4, 6), 58);
    assert_eq!(*field.get(8, 8), 80);
    let copy = field.copied();
    assert_eq!(*copy.get(4, 6), 58);
    let sevens = SudokuField::filled(7u8);
    assert_eq!(*sevens.get(2, 2), 7);
}

#[test]
fn empty_board_is_full_everywhere() {
    let board = SudokuSolver::empty();
    for y in 0..9 {
        for x in 0..9 {
            assert_eq!(*board.get(x, y), full_set());
        }
    }
    assert!(board.is_valid());
    assert_eq!(board.lowest_entropy_field(), Some((0, 0)));
}

#[test]
fn row_column_and_box_lists() {
    assert_eq!(
        SudokuSolver::row(3, 5),
        vec![(0, 5), (1, 5), (2, 5), (4, 5), (5, 5), (6, 5), (7, 5), (8, 5)]
    );
    assert_eq!(
        SudokuSolver::column(3, 5),
        vec![(3, 0), (3, 1), (3, 2), (3, 3), (3, 4), (3, 6), (3, 7), (3, 8)]
    );
    assert_eq!(
        SudokuSolver::cell(4, 7),
        vec![(3, 6), (3, 7), (3, 8), (4, 6), (4, 8), (5, 6), (5, 7), (5, 8)]
    );
    assert_eq!(
        SudokuSolver::cell(0, 0),
        vec![(0, 1), (0, 2), (1, 0), (1, 1), (1, 2), (2, 0), (2, 1), (2, 2)]
    );
    assert_eq!(
        SudokuSolver::cell(8, 8),
        vec![(6, 6), (6, 7), (6, 8), (7, 6), (7, 7), (7, 8), (8, 6), (8, 7)]
    );
}

#[test]
fn assigning_removes_the_digit_from_the_peers_only() {
    let mut board = SudokuSolver::empty();
    board.set_constraint(4, 4, 6);
    for y in 0..9 {
        for x in 0..9 {
            let cell = *board.get(x, y);
            if x == 4 && y == 4 {
                assert_eq!(cell, Set16::singleton(6));
            } else if is_peer(4, 4, x, y) {
                assert_eq!(cell, full_set().remove(6));
            } else {
                assert_eq!(cell, full_set());
            }
        }
    }
    assert!(board.is_valid());
}

#[test]
fn removing_is_idempotent_on_every_cell() {
    for y in 0..9 {
        for x in 0..9 {
            for d in 0..9u8 {
                let mut once = SudokuSolver::empty();
                once.set_constraint(0, 0, 0);
                once.remove(x, y, d);
                let mut twice = once.clone();
                twice.remove(x, y, d);
                assert!(same_board(&once, &twice));
                assert!(!once.get(x, y).contains(d as usize));
            }
        }
    }
}

#[test]
fn removing_an_absent_digit_changes_nothing() {
    let mut board = SudokuSolver::empty();
    board.set_constraint(2, 2, 4);
    let before = board.clone();
    board.remove(2, 3, 4);
    assert!(same_board(&before, &board));
}

#[test]
fn removing_down_to_one_digit_cascades() {
    let mut board = SudokuSolver::empty();
    for d in 0..7u8 {
        board.remove(0, 0, d);
    }
    assert_eq!(*board.get(0, 0), set_of(&[7, 8]));
    assert_eq!(*board.get(1, 0), full_set());
    board.remove(0, 0, 7);
    assert_eq!(*board.get(0, 0), Set16::singleton(8));
    for y in 0..9 {
        for x in 0..9 {
            if is_peer(0, 0, x, y) {
                assert_eq!(*board.get(x, y), full_set().remove(8));
            } else if x != 0 || y != 0 {
                assert_eq!(*board.get(x, y), full_set());
            }
        }
    }
}

#[test]
fn removing_the_last_digit_empties_the_cell_without_a_cascade() {
    let mut board = SudokuSolver::empty();
    board.set_constraint(0, 0, 3);
    let before = board.clone();
    board.remove(0, 0, 3);
    assert!(board.get(0, 0).is_empty());
    assert!(!board.is_valid());
    for y in 0..9 {
        for x in 0..9 {
            if x != 0 || y != 0 {
                assert_eq!(board.get(x, y), before.get(x, y));
            }
        }
    }
}

#[test]
fn propagate_applies_a_decided_cell() {
    let mut board = SudokuSolver::empty();
    board.set(7, 1, Set16::singleton(2));
    board.propagate(7, 1, 2);
    for y in 0..9 {
        for x in 0..9 {
            let cell = *board.get(x, y);
            if x == 7 && y == 1 {
                assert_eq!(cell, Set16::singleton(2));
            } else if is_peer(7, 1, x, y) {
                assert_eq!(cell, full_set().remove(2));
            } else {
                assert_eq!(cell, full_set());
            }
        }
    }
}

#[test]
fn is_valid_is_false_exactly_when_a_cell_is_empty() {
    let mut board = SudokuSolver::empty();
    assert!(board.is_valid());
    board.set_constraint(0, 0, 1);
    board.set_constraint(1, 0, 2);
    board.remove(5, 5, 4);
    let any_empty = (0..9).any(|y| (0..9).any(|x| board.get(x, y).is_empty()));
    assert_eq!(board.is_valid(), !any_empty);
    assert!(board.is_valid());
    board.set_constraint(2, 0, 1);
    let any_empty = (0..9).any(|y| (0..9).any(|x| board.get(x, y).is_empty()));
    assert!(any_empty);
    assert!(!board.is_valid());
    let mut last = SudokuSolver::empty();
    last.set(8, 8, Set16::empty());
    assert!(!last.is_valid());
}

#[test]
fn lowest_entropy_takes_the_first_of_the_smallest() {
    let mut board = SudokuSolver::empty();
    assert_eq!(board.lowest_entropy_field(), Some((0, 0)));
    board.set(5, 3, set_of(&[1, 2, 3]));
    board.set(2, 6, set_of(&[4, 5, 6]));
    assert_eq!(board.lowest_entropy_field(), Some((5, 3)));
    board.set(7, 7, set_of(&[0, 8]));
    assert_eq!(board.lowest_entropy_field(), Some((7, 7)));
    board.set(1, 0, set_of(&[3, 4]));
    assert_eq!(board.lowest_entropy_field(), Some((1, 0)));
    board.set(0, 0, Set16::singleton(3));
    board.set(8, 8, Set16::empty());
    assert_eq!(board.lowest_entropy_field(), Some((1, 0)));
}

#[test]
fn lowest_entropy_is_none_when_nothing_is_open() {
    let mut board = SudokuSolver::filled(Set16::singleton(0));
    assert_eq!(board.lowest_entropy_field(), None);
    board.set(4, 4, Set16::empty());
    assert_eq!(board.lowest_entropy_field(), None);
    board.set(8, 8, set_of(&[1, 2]));
    assert_eq!(board.lowest_entropy_field(), Some((8, 8)));
}

#[test]
fn lowering_applies_every_digit() {
    let mut grid = Sudoku::empty();
    grid.set(0, 0, Some(0));
    grid.set(4, 4, Some(0));
    let board = SudokuSolver::from(&grid);
    assert_eq!(*board.get(0, 0), Set16::singleton(0));
    assert_eq!(*board.get(4, 4), Set16::singleton(0));
    assert_eq!(*board.get(4, 0), full_set().remove(0));
    assert_eq!(*board.get(8, 8), full_set());
    assert!(board.is_valid());
}

#[test]
fn lowering_contradicting_digits_gives_an_invalid_board() {
    let mut grid = Sudoku::empty();
    grid.set(1, 1, Some(8));
    grid.set(2, 2, Some(8));
    let board = SudokuSolver::from(&grid);
    assert!(!board.is_valid());
    assert!(board.solve().is_none());
}

#[test]
fn raising_shows_decided_cells_only() {
    let mut board = SudokuSolver::empty();
    board.set_constraint(3, 2, 7);
    board.set(0, 8, Set16::empty());
    let grid = Sudoku::from(board);
    for y in 0..9 {
        for x in 0..9 {
            let expected = if x == 3 && y == 2 { Some(7) } else { None };
            assert_eq!(*grid.get(x, y), expected);
        }
    }
}

#[test]
fn decided_board_survives_the_round_trip() {
    let solved = SudokuSolver::empty().solve().expect("the empty board can be solved");
    let grid = Sudoku::from(solved.clone());
    let back = SudokuSolver::from(&grid);
    assert!(same_board(&solved, &back));
    for y in 0..9 {
        for x in 0..9 {
            assert_eq!(back.get(x, y).len(), 1);
        }
    }
}

#[test]
fn search_of_an_invalid_board_fails() {
    let mut board = SudokuSolver::empty();
    board.set_constraint(0, 0, 5);
    board.set_constraint(8, 0, 5);
    assert!(board.solve().is_none());
}

#[test]
fn search_keeps_what_is_decided() {
    let mut board = SudokuSolver::empty();
    board.set_constraint(0, 0, 8);
    board.set_constraint(1, 0, 7);
    let found = board.solve().expect("two digits leave solutions");
    assert_eq!(*found.get(0, 0), Set16::singleton(8));
    assert_eq!(*found.get(1, 0), Set16::singleton(7));
    assert_eq!(found.lowest_entropy_field(), None);
    assert!(found.is_valid());
}
