use sudoku_solver::grid::Sudoku;
use sudoku_solver::ui::{cell_to_pxl, draw, hold, pixel_for, Color, Editor, Key, Pixel};

#[test]
fn cells_on_the_screen() {
    assert_eq!(cell_to_pxl(0, 0), (2, 1));
    assert_eq!(cell_to_pxl(1, 1), (4, 2));
    assert_eq!(cell_to_pxl(2, 2), (6, 3));
    assert_eq!(cell_to_pxl(3, 3), (10, 5));
    assert_eq!(cell_to_pxl(5, 4), (14, 6));
    assert_eq!(cell_to_pxl(6, 6), (18, 9));
    assert_eq!(cell_to_pxl(8, 8), (22, 11));
    assert_eq!(cell_to_pxl(3, 4), (10, 6));
}

#[test]
fn cells_left_of_the_screen() {
    assert_eq!(cell_to_pxl(-1, -1), (0, 0));
    assert_eq!(cell_to_pxl(-4, -3), (-8, -3));
}

#[test]
fn hold_keeps_to_the_grid() {
    assert_eq!(hold(0), 0);
    assert_eq!(hold(8), 8);
    assert_eq!(hold(9), 8);
    assert_eq!(hold(usize::MAX), 8);
}

#[test]
fn entered_digit_is_white() {
    let plain = pixel_for(Some(4), Some(4), false);
    assert_eq!(plain, Pixel { bg: Color::Black, fg: Color::White, chr: '5' });
    let other = pixel_for(Some(0), None, false);
    assert_eq!(other, Pixel { bg: Color::Black, fg: Color::White, chr: '1' });
}

#[test]
fn found_digit_is_grey() {
    let found = pixel_for(None, Some(8), false);
    assert_eq!(found, Pixel { bg: Color::Black, fg: Color::DarkGrey, chr: '9' });
}

#[test]
fn open_cell_is_blank() {
    let blank = pixel_for(None, None, false);
    assert_eq!(blank, Pixel { bg: Color::Black, fg: Color::White, chr: ' ' });
}

#[test]
fn selected_cell_has_its_colours_swapped() {
    assert_eq!(
        pixel_for(Some(2), None, true),
        Pixel { bg: Color::White, fg: Color::Black, chr: '3' }
    );
    assert_eq!(
        pixel_for(None, Some(2), true),
        Pixel { bg: Color::DarkGrey, fg: Color::Black, chr: '3' }
    );
    assert_eq!(
        pixel_for(None, None, true),
        Pixel { bg: Color::White, fg: Color::Black, chr: ' ' }
    );
}

#[test]
fn picture_goes_column_by_column() {
    let mut grid = Sudoku::empty();
    grid.set(0, 1, Some(6));
    let mut solved = Sudoku::empty();
    solved.set(0, 1, Some(6));
    solved.set(1, 0, Some(3));
    let picture = draw(&grid, &Some(solved), (1, 0));
    assert_eq!(picture.len(), 81);
    assert_eq!(picture[0], (2, 1, Pixel { bg: Color::Black, fg: Color::White, chr: ' ' }));
    assert_eq!(picture[1], (2, 2, Pixel { bg: Color::Black, fg: Color::White, chr: '7' }));
    assert_eq!(picture[9], (4, 1, Pixel { bg: Color::DarkGrey, fg: Color::Black, chr: '4' }));
    assert_eq!(picture[80], (22, 11, Pixel { bg: Color::Black, fg: Color::White, chr: ' ' }));
    for (k, placed) in picture.iter().enumerate() {
        assert_eq!((placed.0, placed.1), cell_to_pxl((k / 9) as i32, (k % 9) as i32));
    }
}

#[test]
fn picture_without_a_solution() {
    let mut grid = Sudoku::empty();
    grid.set(8, 8, Some(0));
    let picture = draw(&grid, &None, (8, 8));
    assert_eq!(picture[80], (22, 11, Pixel { bg: Color::White, fg: Color::Black, chr: '1' }));
    assert_eq!(picture[79], (22, 10, Pixel { bg: Color::Black, fg: Color::White, chr: ' ' }));
}

#[test]
fn editor_starts_with_a_solved_empty_grid() {
    let editor = Editor::new();
    assert_eq!(editor.selected, (0, 0));
    for y in 0..9 {
        for x in 0..9 {
            assert_eq!(*editor.sudoku.get(x, y), None);
        }
    }
    assert!(editor.solved.is_some());
}

#[test]
fn arrows_move_the_selection_and_stop_at_the_end() {
    let mut editor = Editor::new();
    assert!(editor.press(Key::Right));
    assert_eq!(editor.selected, (1, 0));
    assert!(editor.press(Key::Down));
    assert_eq!(editor.selected, (1, 1));
    assert!(editor.press(Key::Left));
    assert_eq!(editor.selected, (0, 1));
    assert!(editor.press(Key::Up));
    assert_eq!(editor.selected, (0, 0));
    for _ in 0..12 {
        assert!(editor.press(Key::Right));
        assert!(editor.press(Key::Down));
    }
    assert_eq!(editor.selected, (8, 8));
}

#[test]
fn digit_is_entered_and_the_grid_solved_anew() {
    let mut editor = Editor::new();
    editor.press(Key::Right);
    assert!(editor.press(Key::Digit(4)));
    assert_eq!(*editor.sudoku.get(1, 0), Some(4));
    let solved = editor.solved.as_ref().expect("one digit leaves solutions");
    assert_eq!(*solved.get(1, 0), Some(4));
    editor.press(Key::Right);
    assert!(editor.press(Key::Digit(4)));
    assert!(editor.solved.is_none());
    assert!(editor.press(Key::Clear));
    assert_eq!(*editor.sudoku.get(2, 0), None);
    assert_eq!(*editor.sudoku.get(1, 0), Some(4));
    assert!(editor.solved.is_some());
}

#[test]
fn new_grid_keeps_the_old_solution_until_the_next_change() {
    let mut editor = Editor::new();
    editor.press(Key::Digit(2));
    editor.press(Key::Right);
    editor.press(Key::Digit(2));
    assert!(editor.solved.is_none());
    assert!(editor.press(Key::New));
    assert_eq!(*editor.sudoku.get(0, 0), None);
    assert_eq!(*editor.sudoku.get(1, 0), None);
    assert!(editor.solved.is_none());
    assert_eq!(editor.selected, (1, 0));
    editor.press(Key::Clear);
    assert!(editor.solved.is_some());
}

#[test]
fn quit_and_other_keys_change_nothing() {
    let mut editor = Editor::new();
    editor.press(Key::Down);
    editor.press(Key::Digit(0));
    assert!(editor.press(Key::Other));
    assert!(!editor.press(Key::Quit));
    assert_eq!(editor.selected, (0, 1));
    assert_eq!(*editor.sudoku.get(0, 1), Some(0));
    assert!(editor.solved.is_some());
}
