//! Reading a grid from text.
//!
//! Of the text only the characters `_` and `1` to `9` count: `_` is a cell
//! that is not filled in, and a digit is a cell filled with it. Every other
//! character is passed over. The 81 cells are read in row-major order.

use crate::grid::{digits_in_range, Sudoku};
use vstd::prelude::*;
use vstd::std_specs::iter::IteratorSpec;
use vstd::string::StringExecFns;

verus! {

/// Why a text is not a grid.
#[derive(Copy, Clone, Eq, PartialEq, Debug, Structural)]
pub enum SudokuParseError {
    /// The text holds fewer than 81 cells.
    TooFewValues,
    /// The text holds more than 81 cells.
    TooManyValues,
}

impl SudokuParseError {
    /// The error in words.
    pub fn message(&self) -> (r: String)
        ensures
            r@ == match *self {
                SudokuParseError::TooFewValues => "Got fewer than 81 valid characters ('_', 1-9)"@,
                SudokuParseError::TooManyValues => "Got more than 81 valid characters ('_', 1-9)"@,
            },
    {
        match self {
            SudokuParseError::TooFewValues => String::from_str(
                "Got fewer than 81 valid characters ('_', 1-9)",
            ),
            SudokuParseError::TooManyValues => String::from_str(
                "Got more than 81 valid characters ('_', 1-9)",
            ),
        }
    }
}

/// The cell that a character stands for, if it stands for one.
pub open spec fn token(c: char) -> Option<Option<u8>> {
    if c == '_' {
        Some(None)
    } else if '1' <= c <= '9' {
        Some(Some((c as u32 - '1' as u32) as u8))
    } else {
        None
    }
}

/// The cells that a text holds, in the order of the text.
pub open spec fn tokens(s: Seq<char>) -> Seq<Option<u8>>
    decreases s.len(),
{
    if s.len() == 0 {
        Seq::empty()
    } else {
        match token(s[0]) {
            Some(t) => Seq::empty().push(t) + tokens(s.drop_first()),
            None => tokens(s.drop_first()),
        }
    }
}

/// What reading a text gives: the grid of its 81 cells, or the reason why
/// it has none.
pub open spec fn parsed(s: Seq<char>) -> Result<Seq<Option<u8>>, SudokuParseError> {
    let cells = tokens(s);
    if cells.len() < 81 {
        Err(SudokuParseError::TooFewValues)
    } else if cells.len() > 81 {
        Err(SudokuParseError::TooManyValues)
    } else {
        Ok(cells)
    }
}

/// The cell that a character stands for, if it stands for one.
pub fn read_token(c: char) -> (r: Option<Option<u8>>)
    ensures
        r == token(c),
{
    if c == '_' {
        Some(None)
    } else if '1' <= c && c <= '9' {
        Some(Some((c as u32 - '1' as u32) as u8))
    } else {
        None
    }
}

/// Every cell read from a text holds a digit or nothing.
pub proof fn lemma_tokens_in_range(s: Seq<char>)
    ensures
        forall|i: int|
            0 <= i < tokens(s).len() ==> (#[trigger] tokens(s)[i] matches Some(v) ==> v < 9),
    decreases s.len(),
{
    if s.len() > 0 {
        lemma_tokens_in_range(s.drop_first());
    }
}

impl Sudoku {
    /// Reads a grid from text.
    pub fn from_str(s: &str) -> (r: Result<Sudoku, SudokuParseError>)
        ensures
            match r {
                Ok(grid) => parsed(s@) == Ok::<Seq<Option<u8>>, SudokuParseError>(grid@),
                Err(e) => parsed(s@) == Err::<Seq<Option<u8>>, SudokuParseError>(e),
            },
            r matches Ok(grid) ==> digits_in_range(grid@),
    {
        let mut result = Sudoku::empty();
        let mut chars = s.chars();
        let mut n: usize = 0;
        proof {
            broadcast use vstd::string::axiom_spec_iter;
            broadcast use vstd::string::next_postcondition;
            result.lemma_len();
            assert(result@.take(0) =~= Seq::empty());
        }
        loop
            invariant
                n <= 81,
                result@.len() == 81,
                chars.obeys_prophetic_iter_laws(),
                chars.decrease() is Some,
                tokens(s@) == result@.take(n as int) + tokens(chars.remaining()),
            ensures
                tokens(s@) == result@.take(n as int),
            decreases chars.decrease()->0,
        {
            let ghost rest = chars.remaining();
            match chars.next() {
                None => {
                    proof {
                        assert(tokens(rest) =~= Seq::empty());
                        assert(tokens(s@) =~= result@.take(n as int));
                    }
                    break ;
                },
                Some(c) => {
                    proof {
                        assert(rest.len() > 0 && c == rest[0]);
                        assert(chars.remaining() == rest.drop_first());
                    }
                    match read_token(c) {
                        None => {},
                        Some(t) => {
                            if n == 81 {
                                proof {
                                    assert(tokens(rest).len() >= 1);
                                }
                                return Err(SudokuParseError::TooManyValues);
                            }
                            let ghost before = result@;
                            result.set(n % 9, n / 9, t);
                            proof {
                                result.lemma_len();
                                assert(result@.take(n + 1) =~= before.take(n as int).push(t));
                                assert(before.take(n as int) + (Seq::empty().push(t) + tokens(
                                    rest.drop_first(),
                                )) =~= before.take(n as int).push(t) + tokens(rest.drop_first()));
                            }
                            n += 1;
                        },
                    }
                },
            }
        }
        if n < 81 {
            Err(SudokuParseError::TooFewValues)
        } else {
            proof {
                assert(result@.take(81) =~= result@);
                lemma_tokens_in_range(s@);
            }
            Ok(result)
        }
    }
}

impl std::str::FromStr for Sudoku {
    type Err = SudokuParseError;

    /// Reads a grid from text, as `Sudoku::from_str` does: the grid of the
    /// text's 81 cells, or the reason why the text has none.
    fn from_str(s: &str) -> (r: Result<Self, Self::Err>)
        ensures
            match r {
                Ok(grid) => parsed(s@) == Ok::<Seq<Option<u8>>, SudokuParseError>(grid@),
                Err(e) => parsed(s@) == Err::<Seq<Option<u8>>, SudokuParseError>(e),
            },
            r matches Ok(grid) ==> digits_in_range(grid@),
    {
        Sudoku::from_str(s)
    }
}

} // verus!
