//! Writing a grid as text: the 81 cells in a frame that sets the nine boxes
//! apart.

use crate::grid::{digits_in_range, Sudoku};
use vstd::prelude::*;
use vstd::string::StringExecFns;

verus! {

/// The character that shows a cell: a blank where it is not filled in, its
/// printed digit where it is.
pub open spec fn cell_char(c: Option<u8>) -> char {
    match c {
        None => ' ',
        Some(v) => (v + 49) as char,
    }
}

/// Three cells of a row, each after a blank.
pub open spec fn group_text(g: Seq<Option<u8>>, first: int) -> Seq<char> {
    Seq::empty().push(' ').push(cell_char(g[first])).push(' ').push(cell_char(g[first + 1])).push(
        ' ',
    ).push(cell_char(g[first + 2]))
}

/// One row of the grid between the frame's bars.
pub open spec fn row_text(g: Seq<Option<u8>>, y: int) -> Seq<char> {
    "│"@ + group_text(g, y * 9) + " │"@ + group_text(g, y * 9 + 3) + " │"@ + group_text(
        g,
        y * 9 + 6,
    ) + " │\n"@
}

/// Three rows of the grid.
pub open spec fn band_text(g: Seq<Option<u8>>, y: int) -> Seq<char> {
    row_text(g, y) + row_text(g, y + 1) + row_text(g, y + 2)
}

/// The whole grid in its frame.
pub open spec fn grid_text(g: Seq<Option<u8>>) -> Seq<char> {
    "┌───────┬───────┬───────┐\n"@ + band_text(g, 0) + "├───────┼───────┼───────┤\n"@ + band_text(
        g,
        3,
    ) + "├───────┼───────┼───────┤\n"@ + band_text(g, 6) + "└───────┴───────┴───────┘"@
}

/// The text that shows a cell.
pub fn cell_str(c: Option<u8>) -> (r: &'static str)
    requires
        c matches Some(v) ==> v < 9,
    ensures
        r@ == Seq::empty().push(cell_char(c)),
{
    proof {
        reveal_strlit(" ");
        reveal_strlit("1");
        reveal_strlit("2");
        reveal_strlit("3");
        reveal_strlit("4");
        reveal_strlit("5");
        reveal_strlit("6");
        reveal_strlit("7");
        reveal_strlit("8");
        reveal_strlit("9");
    }
    let r = match c {
        None => " ",
        Some(0) => "1",
        Some(1) => "2",
        Some(2) => "3",
        Some(3) => "4",
        Some(4) => "5",
        Some(5) => "6",
        Some(6) => "7",
        Some(7) => "8",
        Some(_) => "9",
    };
    assert(r@ =~= Seq::empty().push(cell_char(c)));
    r
}

impl Sudoku {
    /// Appends three cells of a row, each after a blank.
    fn write_group(&self, out: &mut String, x: usize, y: usize)
        requires
            digits_in_range(self@),
            x <= 6,
            y < 9,
        ensures
            final(out)@ == old(out)@ + group_text(self@, y * 9 + x),
    {
        let ghost start = out@;
        proof {
            reveal_strlit(" ");
        }
        out.append(" ");
        out.append(cell_str(*self.get(x, y)));
        out.append(" ");
        out.append(cell_str(*self.get(x + 1, y)));
        out.append(" ");
        out.append(cell_str(*self.get(x + 2, y)));
        assert(out@ =~= start + group_text(self@, y * 9 + x));
    }

    /// Appends one row of the grid between the frame's bars.
    fn write_row(&self, out: &mut String, y: usize)
        requires
            digits_in_range(self@),
            y < 9,
        ensures
            final(out)@ == old(out)@ + row_text(self@, y as int),
    {
        let ghost start = out@;
        out.append("│");
        self.write_group(out, 0, y);
        out.append(" │");
        self.write_group(out, 3, y);
        out.append(" │");
        self.write_group(out, 6, y);
        out.append(" │\n");
        assert(out@ =~= start + row_text(self@, y as int));
    }

    /// Appends three rows of the grid.
    fn write_band(&self, out: &mut String, y: usize)
        requires
            digits_in_range(self@),
            y <= 6,
        ensures
            final(out)@ == old(out)@ + band_text(self@, y as int),
    {
        let ghost start = out@;
        self.write_row(out, y);
        self.write_row(out, y + 1);
        self.write_row(out, y + 2);
        assert(out@ =~= start + band_text(self@, y as int));
    }

    /// The grid as text, in its frame.
    pub fn to_string(&self) -> (r: String)
        requires
            digits_in_range(self@),
        ensures
            r@ == grid_text(self@),
    {
        let mut out = String::from_str("┌───────┬───────┬───────┐\n");
        self.write_band(&mut out, 0);
        out.append("├───────┼───────┼───────┤\n");
        self.write_band(&mut out, 3);
        out.append("├───────┼───────┼───────┤\n");
        self.write_band(&mut out, 6);
        out.append("└───────┴───────┴───────┘");
        assert(out@ =~= grid_text(self@));
        out
    }
}

} // verus!
