use sudoku_solver::grid::Sudoku;
use sudoku_solver::parse::{read_token, SudokuParseError};

const PUZZLE: &str = "\
5 3 _ _ 7 _ _ _ _
6 _ _ 1 9 5 _ _ _
_ 9 8 _ _ _ _ 6 _
8 _ _ _ 6 _ _ _ 3
4 _ _ 8 _ 3 _ _ 1
7 _ _ _ 2 _ _ _ 6
_ 6 _ _ _ _ 2 8 _
_ _ _ 4 1 9 _ _ 5
_ _ _ _ 8 _ _ 7 9
";

const ANSWER: &str = "\
┌───────┬───────┬───────┐
│ 5 3 4 │ 6 7 8 │ 9 1 2 │
│ 6 7 2 │ 1 9 5 │ 3 4 8 │
│ 1 9 8 │ 3 4 2 │ 5 6 7 │
├───────┼───────┼───────┤
│ 8 5 9 │ 7 6 1 │ 4 2 3 │
│ 4 2 6 │ 8 5 3 │ 7 9 1 │
│ 7 1 3 │ 9 2 4 │ 8 5 6 │
├───────┼───────┼───────┤
│ 9 6 1 │ 5 3 7 │ 2 8 4 │
│ 2 8 7 │ 4 1 9 │ 6 3 5 │
│ 3 4 5 │ 2 8 6 │ 1 7 9 │
└───────┴───────┴───────┘";

const SHOWN: &str = "\
┌───────┬───────┬───────┐
│ 5 3   │   7   │       │
│ 6     │ 1 9 5 │       │
│   9 8 │       │   6   │
├───────┼───────┼───────┤
│ 8     │   6   │     3 │
│ 4     │ 8   3 │     1 │
│ 7     │   2   │     6 │
├───────┼───────┼───────┤
│   6   │       │ 2 8   │
│       │ 4 1 9 │     5 │
│       │   8   │   7 9 │
└───────┴───────┴───────┘";

fn tokens_of(n: usize) -> String {
    let mut text = String::new();
    for i in 0..n {
        text.push_str(if i % 2 == 0 { "_ " } else { "7 " });
    }
    text
}

#[test]
fn reads_the_cells_in_row_major_order() {
    let grid = Sudoku::from_str(PUZZLE).expect("the puzzle has 81 cells");
    assert_eq!(*grid.get(0, 0), Some(4));
    assert_eq!(*grid.get(1, 0), Some(2));
    assert_eq!(*grid.get(2, 0), None);
    assert_eq!(*grid.get(4, 0), Some(6));
    assert_eq!(*grid.get(0, 1), Some(5));
    assert_eq!(*grid.get(8, 8), Some(8));
    assert_eq!(*grid.get(7, 8), Some(6));
    assert_eq!(*grid.get(0, 8), None);
}

#[test]
fn reads_through_the_parse_method() {
    let grid = PUZZLE.parse::<Sudoku>().expect("the puzzle has 81 cells");
    assert_eq!(*grid.get(3, 1), Some(0));
    assert_eq!(*grid.get(8, 3), Some(2));
}

#[test]
fn passes_over_other_characters() {
    let mut text = String::from("a0 -x\n\t");
    text.push_str(&tokens_of(81));
    text.push_str("0 zero ä ٣");
    let grid = Sudoku::from_str(&text).expect("81 cells among other characters");
    assert_eq!(*grid.get(0, 0), None);
    assert_eq!(*grid.get(1, 0), Some(6));
    assert_eq!(*grid.get(8, 8), None);
}

#[test]
fn reads_a_stream_without_separators() {
    let text = "123456789".repeat(9);
    let grid = Sudoku::from_str(&text).expect("81 digits");
    for y in 0..9 {
        for x in 0..9 {
            assert_eq!(*grid.get(x, y), Some(x as u8));
        }
    }
}

#[test]
fn eighty_tokens_are_too_few() {
    let result = Sudoku::from_str(&tokens_of(80));
    assert_eq!(result.err(), Some(SudokuParseError::TooFewValues));
}

#[test]
fn eighty_two_tokens_are_too_many() {
    let result = Sudoku::from_str(&tokens_of(82));
    assert_eq!(result.err(), Some(SudokuParseError::TooManyValues));
}

#[test]
fn eighty_one_tokens_are_a_grid() {
    assert!(Sudoku::from_str(&tokens_of(81)).is_ok());
}

#[test]
fn empty_text_is_too_few() {
    assert_eq!(Sudoku::from_str("").err(), Some(SudokuParseError::TooFewValues));
    assert_eq!(Sudoku::from_str("0000 abc").err(), Some(SudokuParseError::TooFewValues));
}

#[test]
fn error_messages() {
    assert_eq!(
        SudokuParseError::TooFewValues.message(),
        "Got fewer than 81 valid characters ('_', 1-9)"
    );
    assert_eq!(
        SudokuParseError::TooManyValues.message(),
        "Got more than 81 valid characters ('_', 1-9)"
    );
}

#[test]
fn tokens_of_single_characters() {
    assert_eq!(read_token('_'), Some(None));
    assert_eq!(read_token('1'), Some(Some(0)));
    assert_eq!(read_token('9'), Some(Some(8)));
    assert_eq!(read_token('0'), None);
    assert_eq!(read_token(' '), None);
    assert_eq!(read_token(':'), None);
    assert_eq!(read_token('/'), None);
    assert_eq!(read_token('a'), None);
}

#[test]
fn shows_a_puzzle_in_its_frame() {
    let grid = Sudoku::from_str(PUZZLE).expect("the puzzle has 81 cells");
    assert_eq!(grid.to_string(), SHOWN);
}

#[test]
fn shows_the_empty_grid() {
    let text = Sudoku::empty().to_string();
    assert_eq!(text.lines().count(), 13);
    assert_eq!(text.lines().nth(1), Some("│       │       │       │"));
    assert!(!text.ends_with('\n'));
}

#[test]
fn solves_a_puzzle_read_from_text() {
    let grid = Sudoku::from_str(PUZZLE).expect("the puzzle has 81 cells");
    let solved = grid.solve().expect("the puzzle has a solution");
    assert_eq!(solved.to_string(), ANSWER);
}

#[test]
fn what_is_shown_can_be_read_again() {
    let grid = Sudoku::from_str(PUZZLE).expect("the puzzle has 81 cells");
    let solved = grid.solve().expect("the puzzle has a solution");
    let again = Sudoku::from_str(&solved.to_string()).expect("81 digits in the frame");
    for y in 0..9 {
        for x in 0..9 {
            assert_eq!(again.get(x, y), solved.get(x, y));
        }
    }
}

#[test]
fn parse_method_reports_the_same_errors() {
    assert_eq!(tokens_of(80).parse::<Sudoku>().err(), Some(SudokuParseError::TooFewValues));
    assert_eq!(tokens_of(82).parse::<Sudoku>().err(), Some(SudokuParseError::TooManyValues));
    let read = "123456789".repeat(9).parse::<Sudoku>().expect("81 digits");
    for y in 0..9 {
        for x in 0..9 {
            assert_eq!(*read.get(x, y), Some(x as u8));
        }
    }
}
