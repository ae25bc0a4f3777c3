//! The 9×9 field that both the puzzle grid and the candidate board are made of.

use std::ops::Range;
use vstd::prelude::*;

verus! {

/// Number of cells on one side of the field.
pub const SIDE: usize = 9;

/// Number of cells of the whole field.
pub const CELLS: usize = 81;

/// The position of cell `(x, y)` in row-major order.
pub open spec fn cell_index(x: int, y: int) -> int {
    y * 9 + x
}

/// A 9×9 field of values, stored row by row.
#[derive(Debug, Clone)]
pub struct SudokuField<T> {
    elements: [T; 81],
}

impl<T> View for SudokuField<T> {
    type V = Seq<T>;

    /// The 81 cells in row-major order.
    closed spec fn view(&self) -> Seq<T> {
        self.elements@
    }
}

impl<T> SudokuField<T> {
    /// Every field has exactly 81 cells.
    pub broadcast proof fn lemma_len(&self)
        ensures
            #[trigger] self@.len() == 81,
    {
    }

    /// Builds a field from its cells in row-major order.
    pub fn from_cells(elements: [T; 81]) -> (r: Self)
        ensures
            r@ == elements@,
    {
        SudokuField { elements }
    }

    /// The values a cell can take: `0..9`.
    pub fn values() -> (r: Range<u8>)
        ensures
            r.start == 0,
            r.end == 9,
    {
        0u8..9u8
    }

    /// The side length of the field.
    pub fn size() -> (r: usize)
        ensures
            r == 9,
    {
        Self::cell_size() * Self::cell_size()
    }

    /// The side length of one box.
    pub fn cell_size() -> (r: usize)
        ensures
            r == 3,
    {
        3
    }

    /// The value of cell `(x, y)`.
    pub fn get(&self, x: usize, y: usize) -> (r: &T)
        requires
            x < 9,
            y < 9,
        ensures
            *r == self@[cell_index(x as int, y as int)],
    {
        &self.elements[y * Self::size() + x]
    }

    /// Replaces the value of cell `(x, y)` and leaves every other cell alone.
    pub fn set(&mut self, x: usize, y: usize, v: T)
        requires
            x < 9,
            y < 9,
        ensures
            final(self)@ == old(self)@.update(cell_index(x as int, y as int), v),
    {
        self.elements[y * Self::size() + x] = v;
    }
}

impl<T: Copy> SudokuField<T> {
    /// A field filled with one value.
    pub fn filled(v: T) -> (r: Self)
        ensures
            r@ == Seq::new(81, |i: int| v),
    {
        let r = SudokuField { elements: [v;81] };
        assert(r@ =~= Seq::new(81, |i: int| v));
        r
    }

    /// An independent copy of the field.
    pub fn copied(&self) -> (r: Self)
        ensures
            r@ == self@,
    {
        SudokuField { elements: self.elements }
    }
}

} // verus!
