//! What the interactive editor shows and how it answers a key: the
//! decisions, without the terminal.

use crate::field::cell_index;
use crate::grid::{digits_in_range, extends, is_solution, solution_of, Sudoku};
use crate::render::cell_char;
use vstd::prelude::*;

verus! {

/// A third of `n`, rounded towards zero.
pub open spec fn third(n: int) -> int {
    if n >= 0 {
        n / 3
    } else {
        -((-n) / 3)
    }
}

/// The screen column of the cells in column `x` of the grid.
pub open spec fn pxl_column(x: int) -> int {
    2 * (1 + x + third(x))
}

/// The screen line of the cells in row `y` of the grid.
pub open spec fn pxl_line(y: int) -> int {
    1 + y + third(y)
}

/// Where cell `(x, y)` stands on the screen: every cell takes two columns
/// and one line, and a frame line comes before every third cell.
pub fn cell_to_pxl(x: i32, y: i32) -> (r: (i32, i32))
    requires
        i32::MIN <= pxl_column(x as int) <= i32::MAX,
        i32::MIN <= pxl_line(y as int) <= i32::MAX,
    ensures
        r.0 == pxl_column(x as int),
        r.1 == pxl_line(y as int),
{
    let x = 2 * (1 + x + (x / 3));
    let y = 1 + y + (y / 3);
    (x, y)
}

/// The colours that the editor draws with.
#[derive(Clone, Copy, Debug, PartialEq, Eq, Structural)]
pub enum Color {
    Black,
    White,
    DarkGrey,
}

/// One character on the screen with its colours.
#[derive(Clone, Copy, Debug, PartialEq, Eq, Structural)]
pub struct Pixel {
    pub bg: Color,
    pub fg: Color,
    pub chr: char,
}

/// How a cell is drawn. A digit that was entered is white; a digit that
/// only the solution has is grey; a cell that neither has is blank. The
/// selected cell has its two colours swapped.
pub open spec fn cell_pixel(entered: Option<u8>, found: Option<u8>, selected: bool) -> Pixel {
    let plain = match entered {
        Some(v) => Pixel { bg: Color::Black, fg: Color::White, chr: cell_char(entered) },
        None => match found {
            Some(v) => Pixel { bg: Color::Black, fg: Color::DarkGrey, chr: cell_char(found) },
            None => Pixel { bg: Color::Black, fg: Color::White, chr: ' ' },
        },
    };
    if selected {
        Pixel { bg: plain.fg, fg: plain.bg, chr: plain.chr }
    } else {
        plain
    }
}

/// What the solution, if there is one, has in cell `i`.
pub open spec fn found_at(solved: Option<Sudoku>, i: int) -> Option<u8> {
    match solved {
        Some(s) => s@[i],
        None => None,
    }
}

/// The picture of the grid: for each cell, column by column, its place on
/// the screen and how it is drawn there.
pub open spec fn picture(
    sudoku: Seq<Option<u8>>,
    solved: Option<Sudoku>,
    selected: (usize, usize),
) -> Seq<(i32, i32, Pixel)> {
    Seq::new(
        81,
        |k: int|
            {
                let x = k / 9;
                let y = k % 9;
                (
                    pxl_column(x) as i32,
                    pxl_line(y) as i32,
                    cell_pixel(
                        sudoku[cell_index(x, y)],
                        found_at(solved, cell_index(x, y)),
                        x == selected.0 && y == selected.1,
                    ),
                )
            },
    )
}

/// The printed digit of the value `v`.
pub fn digit_chr(v: u8) -> (r: char)
    requires
        v < 9,
    ensures
        r == cell_char(Some(v)),
{
    (v + 49) as char
}

/// How a cell is drawn, from what was entered in it, what the solution has
/// there, and whether it is selected.
pub fn pixel_for(entered: Option<u8>, found: Option<u8>, selected: bool) -> (r: Pixel)
    requires
        entered matches Some(v) ==> v < 9,
        found matches Some(v) ==> v < 9,
    ensures
        r == cell_pixel(entered, found, selected),
{
    let mut pxl = match entered {
        None => match found {
            None => Pixel { bg: Color::Black, fg: Color::White, chr: ' ' },
            Some(i) => Pixel { bg: Color::Black, fg: Color::DarkGrey, chr: digit_chr(i) },
        },
        Some(i) => Pixel { bg: Color::Black, fg: Color::White, chr: digit_chr(i) },
    };
    if selected {
        let tmp = pxl.fg;
        pxl.fg = pxl.bg;
        pxl.bg = tmp;
    }
    pxl
}

/// The picture of the grid and of what the solution adds to it.
pub fn draw(sudoku: &Sudoku, solved: &Option<Sudoku>, selected: (usize, usize)) -> (r: Vec<
    (i32, i32, Pixel),
>)
    requires
        digits_in_range(sudoku@),
        solved matches Some(s) ==> digits_in_range(s@),
    ensures
        r@ == picture(sudoku@, *solved, selected),
{
    let mut out: Vec<(i32, i32, Pixel)> = Vec::new();
    let mut x: usize = 0;
    while x < Sudoku::size()
        invariant
            x <= 9,
            digits_in_range(sudoku@),
            solved matches Some(s) ==> digits_in_range(s@),
            out@.len() == x * 9,
            forall|k: int|
                0 <= k < x * 9 ==> out@[k] == #[trigger] picture(sudoku@, *solved, selected)[k],
        decreases 9 - x,
    {
        let mut y: usize = 0;
        while y < Sudoku::size()
            invariant
                x < 9,
                y <= 9,
                digits_in_range(sudoku@),
                solved matches Some(s) ==> digits_in_range(s@),
                out@.len() == x * 9 + y,
                forall|k: int|
                    0 <= k < x * 9 + y ==> out@[k] == #[trigger] picture(sudoku@, *solved, selected)[k],
            decreases 9 - y,
        {
            let (px, py) = cell_to_pxl(x as i32, y as i32);
            let found = match solved {
                Some(s) => *s.get(x, y),
                None => None,
            };
            let pxl = pixel_for(*sudoku.get(x, y), found, x == selected.0 && y == selected.1);
            proof {
                let k = x * 9 + y;
                assert(k / 9 == x && k % 9 == y);
            }
            out.push((px, py, pxl));
            y += 1;
        }
        x += 1;
    }
    assert(out@ =~= picture(sudoku@, *solved, selected));
    out
}

/// The keys that the editor answers.
#[derive(Clone, Copy, Debug, PartialEq, Eq, Structural)]
pub enum Key {
    /// Leave the editor.
    Quit,
    /// Start again with an empty grid.
    New,
    Left,
    Right,
    Up,
    Down,
    /// Enter a digit in the selected cell; the value is the digit less one.
    Digit(u8),
    /// Clear the selected cell.
    Clear,
    /// Any other key.
    Other,
}

/// The editor's state: the selected cell, the grid as entered, and its
/// solution as far as one was found.
pub struct Editor {
    pub selected: (usize, usize),
    pub sudoku: Sudoku,
    pub solved: Option<Sudoku>,
}

/// `solved` is the answer to `puzzle`: the solution that solving it gives,
/// or `None` where it has none.
pub open spec fn answers(puzzle: Seq<Option<u8>>, solved: Option<Sudoku>) -> bool {
    match solved {
        Some(g) => solution_of(puzzle) == Some(g@) && is_solution(g@) && extends(g@, puzzle),
        None => solution_of(puzzle) is None && forall|g: Seq<Option<u8>>|
            !(is_solution(g) && extends(g, puzzle)),
    }
}

/// `n`, held between 0 and 8.
pub open spec fn held(n: int) -> int {
    if n < 0 {
        0
    } else if n > 8 {
        8
    } else {
        n
    }
}

impl Editor {
    /// The selected cell lies on the grid, and the grids hold digits only.
    pub open spec fn well_formed(&self) -> bool {
        &&& self.selected.0 < 9
        &&& self.selected.1 < 9
        &&& digits_in_range(self.sudoku@)
        &&& self.solved matches Some(s) ==> digits_in_range(s@)
    }

    /// The editor as it starts: the first cell selected, an empty grid,
    /// and a solution of it.
    pub fn new() -> (r: Self)
        ensures
            r.well_formed(),
            r.selected == (0usize, 0usize),
            r.sudoku@ == Seq::new(81, |i: int| None::<u8>),
            answers(r.sudoku@, r.solved),
    {
        let sudoku = Sudoku::empty();
        let solved = sudoku.solve();
        Editor { selected: (0, 0), sudoku, solved }
    }

    /// Enters `v` in the selected cell and solves the grid anew.
    fn enter(&mut self, v: Option<u8>)
        requires
            old(self).well_formed(),
            v matches Some(d) ==> d < 9,
        ensures
            final(self).well_formed(),
            final(self).selected == old(self).selected,
            final(self).sudoku@ == old(self).sudoku@.update(
                cell_index(old(self).selected.0 as int, old(self).selected.1 as int),
                v,
            ),
            answers(final(self).sudoku@, final(self).solved),
    {
        self.sudoku.set(self.selected.0, self.selected.1, v);
        self.solved = self.sudoku.solve();
    }

    /// Answers a key. The result says whether the editor goes on; where it
    /// does, the picture is to be drawn anew.
    ///
    /// An arrow key moves the selection by one cell and stops at the last
    /// row and column. A digit or the clear key changes the selected cell,
    /// and the grid is solved anew. A new grid leaves the solution of the
    /// old one in place until the next change.
    pub fn press(&mut self, key: Key) -> (go_on: bool)
        requires
            old(self).well_formed(),
            key is Left ==> old(self).selected.0 > 0,
            key is Up ==> old(self).selected.1 > 0,
            key matches Key::Digit(d) ==> d < 9,
        ensures
            final(self).well_formed(),
            go_on <==> !(key is Quit),
            final(self).selected == match key {
                Key::Left => (held(old(self).selected.0 - 1) as usize, old(self).selected.1),
                Key::Right => (held(old(self).selected.0 + 1) as usize, old(self).selected.1),
                Key::Up => (old(self).selected.0, held(old(self).selected.1 - 1) as usize),
                Key::Down => (old(self).selected.0, held(old(self).selected.1 + 1) as usize),
                _ => old(self).selected,
            },
            final(self).sudoku@ == match key {
                Key::New => Seq::new(81, |i: int| None::<u8>),
                Key::Digit(d) => old(self).sudoku@.update(
                    cell_index(old(self).selected.0 as int, old(self).selected.1 as int),
                    Some(d),
                ),
                Key::Clear => old(self).sudoku@.update(
                    cell_index(old(self).selected.0 as int, old(self).selected.1 as int),
                    None,
                ),
                _ => old(self).sudoku@,
            },
            match key {
                Key::Digit(_) | Key::Clear => answers(final(self).sudoku@, final(self).solved),
                _ => final(self).solved == old(self).solved,
            },
    {
        match key {
            Key::Quit => {
                return false;
            },
            Key::New => {
                self.sudoku = Sudoku::empty();
            },
            Key::Left => {
                self.selected.0 = hold(self.selected.0 - 1);
            },
            Key::Right => {
                self.selected.0 = hold(self.selected.0 + 1);
            },
            Key::Up => {
                self.selected.1 = hold(self.selected.1 - 1);
            },
            Key::Down => {
                self.selected.1 = hold(self.selected.1 + 1);
            },
            Key::Digit(d) => {
                self.enter(Some(d));
            },
            Key::Clear => {
                self.enter(None);
            },
            Key::Other => {},
        }
        true
    }
}

/// `n`, held between 0 and 8.
pub fn hold(n: usize) -> (r: usize)
    ensures
        r == held(n as int),
{
    if n > 8 {
        8
    } else {
        n
    }
}

} // verus!
