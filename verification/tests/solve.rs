use sudoku_solver::grid::Sudoku;
use sudoku_solver::solver::SudokuSolver;

const SOLVED: [[u8; 9]; 9] = [
    [5, 3, 4, 6, 7, 8, 9, 1, 2],
    [6, 7, 2, 1, 9, 5, 3, 4, 8],
    [1, 9, 8, 3, 4, 2, 5, 6, 7],
    [8, 5, 9, 7, 6, 1, 4, 2, 3],
    [4, 2, 6, 8, 5, 3, 7, 9, 1],
    [7, 1, 3, 9, 2, 4, 8, 5, 6],
    [9, 6, 1, 5, 3, 7, 2, 8, 4],
    [2, 8, 7, 4, 1, 9, 6, 3, 5],
    [3, 4, 5, 2, 8, 6, 1, 7, 9],
];

fn solved_grid() -> Sudoku {
    let mut grid = Sudoku::empty();
    for y in 0..9 {
        for x in 0..9 {
            grid.set(x, y, Some(SOLVED[y][x] - 1));
        }
    }
    grid
}

fn assert_complete(grid: &Sudoku) {
    for u in 0..9 {
        let mut row = [false; 9];
        let mut column = [false; 9];
        let mut boxed = [false; 9];
        for k in 0..9 {
            let r = grid.get(k, u).expect("row cell is filled in");
            let c = grid.get(u, k).expect("column cell is filled in");
            let b = grid
                .get(u % 3 * 3 + k % 3, u / 3 * 3 + k / 3)
                .expect("box cell is filled in");
            assert!(!row[r as usize] && !column[c as usize] && !boxed[b as usize]);
            row[r as usize] = true;
            column[c as usize] = true;
            boxed[b as usize] = true;
        }
    }
}

#[test]
fn empty_grid_has_a_solution() {
    let solved = Sudoku::empty().solve().expect("the empty grid can be solved");
    assert_complete(&solved);
}

#[test]
fn one_blank_is_filled_with_the_missing_digit() {
    let mut grid = solved_grid();
    grid.set(4, 4, None);
    let solved = grid.solve().expect("one blank cell can be filled");
    assert_eq!(*solved.get(4, 4), Some(SOLVED[4][4] - 1));
    for y in 0..9 {
        for x in 0..9 {
            assert_eq!(*solved.get(x, y), Some(SOLVED[y][x] - 1));
        }
    }
}

#[test]
fn equal_digits_in_one_row_have_no_solution() {
    let mut grid = Sudoku::empty();
    grid.set(0, 0, Some(4));
    grid.set(5, 0, Some(4));
    assert!(grid.solve().is_none());
    let board = SudokuSolver::from(&grid);
    assert!(!board.is_valid());
}

#[test]
fn solving_twice_gives_the_same_grid() {
    let mut grid = Sudoku::empty();
    grid.set(0, 0, Some(8));
    grid.set(4, 4, Some(2));
    grid.set(7, 2, Some(5));
    let first = grid.solve().expect("three digits leave solutions");
    let second = grid.solve().expect("three digits leave solutions");
    for y in 0..9 {
        for x in 0..9 {
            assert_eq!(first.get(x, y), second.get(x, y));
        }
    }
    let empty_first = Sudoku::empty().solve().expect("the empty grid can be solved");
    let empty_second = Sudoku::empty().solve().expect("the empty grid can be solved");
    for y in 0..9 {
        for x in 0..9 {
            assert_eq!(empty_first.get(x, y), empty_second.get(x, y));
        }
    }
}

#[test]
fn solution_keeps_the_digits_of_the_puzzle() {
    let mut grid = Sudoku::empty();
    grid.set(0, 0, Some(8));
    grid.set(4, 4, Some(2));
    grid.set(7, 2, Some(5));
    let solved = grid.solve().expect("three digits leave solutions");
    assert_eq!(*solved.get(0, 0), Some(8));
    assert_eq!(*solved.get(4, 4), Some(2));
    assert_eq!(*solved.get(7, 2), Some(5));
    assert_complete(&solved);
}

#[test]
fn solved_grid_is_its_own_solution() {
    let grid = solved_grid();
    let solved = grid.solve().expect("a solved grid is solved");
    for y in 0..9 {
        for x in 0..9 {
            assert_eq!(solved.get(x, y), grid.get(x, y));
        }
    }
}

#[test]
fn search_has_to_go_back() {
    let rows = [
        "_ _ _ _ _ _ _ 1 2",
        "_ _ _ _ 3 5 _ _ _",
        "_ _ _ 6 _ _ _ 7 _",
        "7 _ _ _ _ _ 3 _ _",
        "_ _ _ 4 _ _ 8 _ _",
        "1 _ _ _ _ _ _ _ _",
        "_ _ _ 1 2 _ _ _ _",
        "_ 8 _ _ _ _ _ 4 _",
        "_ 5 _ _ _ _ 6 _ _",
    ];
    let grid = Sudoku::from_str(&rows.join("\n")).expect("nine rows of nine cells");
    let solved = grid.solve().expect("the puzzle has a solution");
    assert_complete(&solved);
    for y in 0..9 {
        for x in 0..9 {
            if grid.get(x, y).is_some() {
                assert_eq!(solved.get(x, y), grid.get(x, y));
            }
        }
    }
}

#[test]
fn equal_digits_in_one_column_or_box_have_no_solution() {
    let mut column = Sudoku::empty();
    column.set(3, 0, Some(0));
    column.set(3, 8, Some(0));
    assert!(column.solve().is_none());
    let mut boxed = Sudoku::empty();
    boxed.set(6, 6, Some(7));
    boxed.set(8, 7, Some(7));
    assert!(boxed.solve().is_none());
}

#[test]
fn puzzle_without_a_solution_that_propagation_does_not_see() {
    let mut grid = Sudoku::empty();
    for x in 0..8 {
        grid.set(x, 0, Some(x as u8));
    }
    grid.set(8, 1, Some(8));
    assert!(grid.solve().is_none());
}
