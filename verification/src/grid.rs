//! The puzzle grid, what a solution of it is, and the way between grids and
//! candidate boards.
//!
//! A cell of a grid is `None` where it is not filled in, and `Some(v)` with
//! `v` in `0..9` where it is: `v` stands for the printed digit `v + 1`.

use crate::board::{
    below, closure, decided, lemma_all_digits, lemma_closure_above, lemma_closure_below,
    lemma_closure_stable, lemma_settles_closure, lemma_source_settled, peers, propagated, settled,
    settles, solves, stable, valid, well_formed,
};
use crate::search::{lemma_search, lemma_valid_closure, search};
use crate::candidates::{all_digits, inhabited, members, only_holds, single, sole};
use crate::field::{cell_index, SudokuField};
use crate::solver::SudokuSolver;
use vstd::prelude::*;

verus! {

/// A 9×9 grid of optional digits.
pub type Sudoku = SudokuField<Option<u8>>;

/// The grid has 81 cells, and every cell that is filled in holds a digit.
pub open spec fn digits_in_range(g: Seq<Option<u8>>) -> bool {
    &&& g.len() == 81
    &&& forall|i: int| 0 <= i < 81 ==> (#[trigger] g[i] matches Some(v) ==> v < 9)
}

/// The position of the `k`-th cell of unit `u`. Units `0..9` are the rows,
/// `9..18` the columns and `18..27` the boxes.
pub open spec fn unit_cell(u: int, k: int) -> int {
    if u < 9 {
        u * 9 + k
    } else if u < 18 {
        k * 9 + (u - 9)
    } else {
        ((u - 18) / 3 * 3 + k / 3) * 9 + ((u - 18) % 3 * 3 + k % 3)
    }
}

/// What the `k`-th cell of unit `u` holds.
pub open spec fn at(g: Seq<Option<u8>>, u: int, k: int) -> Option<u8> {
    g[unit_cell(u, k)]
}

/// Unit `u` holds the digit `d` in exactly one of its nine cells.
pub open spec fn once(g: Seq<Option<u8>>, u: int, d: u8) -> bool {
    exists|k: int|
        0 <= k < 9 && #[trigger] at(g, u, k) == Some(d) && forall|m: int|
            0 <= m < 9 && m != k ==> #[trigger] at(g, u, m) != Some(d)
}

/// Every cell is filled in, and every row, column and box holds each of the
/// nine digits exactly once.
pub open spec fn is_solution(g: Seq<Option<u8>>) -> bool {
    &&& digits_in_range(g)
    &&& forall|i: int| 0 <= i < 81 ==> (#[trigger] g[i]) is Some
    &&& forall|u: int, d: u8| 0 <= u < 27 && d < 9 ==> #[trigger] once(g, u, d)
}

/// `g` keeps every digit that `puzzle` has filled in.
pub open spec fn extends(g: Seq<Option<u8>>, puzzle: Seq<Option<u8>>) -> bool {
    &&& g.len() == 81
    &&& puzzle.len() == 81
    &&& forall|i: int| 0 <= i < 81 && (#[trigger] puzzle[i]) is Some ==> g[i] == puzzle[i]
}

/// The candidates that a grid cell leaves open by itself: its digit where
/// it is filled in, every digit where it is not.
pub open spec fn cell_board(c: Option<u8>) -> Set<int> {
    match c {
        Some(v) => Set::<int>::empty().insert(v as int),
        None => all_digits(),
    }
}

/// The grid as a board, before any propagation.
pub open spec fn board_of(g: Seq<Option<u8>>) -> Seq<Set<int>> {
    Seq::new(81, |i: int| cell_board(g[i]))
}

/// The one digit of a single set.
pub open spec fn the(s: Set<int>) -> int {
    choose|d: int| only_holds(s, d)
}

/// What a board cell shows in a grid: its digit where it is decided, nothing
/// where it is not.
pub open spec fn cell_grid(s: Set<int>) -> Option<u8> {
    if single(s) {
        Some(the(s) as u8)
    } else {
        None
    }
}

/// The board as a grid.
pub open spec fn raised(b: Seq<Set<int>>) -> Seq<Option<u8>> {
    Seq::new(81, |i: int| cell_grid(b[i]))
}

/// `b` is what lowering the grid `g` gives: a propagated board below the
/// grid's own board that is above every stable board below it. Where `b` is
/// valid this pins it down: it is the largest stable board below the grid.
pub open spec fn lowered(g: Seq<Option<u8>>, b: Seq<Set<int>>) -> bool {
    settles(board_of(g), b)
}

/// The solution that solving the puzzle `g` gives, or `None` where it gives
/// none: what the search finds from the largest stable board below the
/// puzzle, shown as a grid.
pub open spec fn solution_of(g: Seq<Option<u8>>) -> Option<Seq<Option<u8>>> {
    match search(closure(board_of(g))) {
        Some(t) => Some(raised(t)),
        None => None,
    }
}

/// The cells of a unit lie on the field, and two different ones are peers.
pub proof fn lemma_unit_peers(u: int, k1: int, k2: int)
    requires
        0 <= u < 27,
        0 <= k1 < 9,
        0 <= k2 < 9,
    ensures
        0 <= unit_cell(u, k1) < 81,
        k1 != k2 ==> peers(unit_cell(u, k1), unit_cell(u, k2)),
{
    if u >= 18 {
        let b = u - 18;
        let r1 = b / 3 * 3 + k1 / 3;
        let c1 = b % 3 * 3 + k1 % 3;
        let r2 = b / 3 * 3 + k2 / 3;
        let c2 = b % 3 * 3 + k2 % 3;
        assert(0 <= r1 < 9 && 0 <= c1 < 9 && 0 <= r2 < 9 && 0 <= c2 < 9);
        assert((r1 * 9 + c1) / 9 == r1 && (r1 * 9 + c1) % 9 == c1);
        assert((r2 * 9 + c2) / 9 == r2 && (r2 * 9 + c2) % 9 == c2);
        assert(r1 / 3 == b / 3 && r2 / 3 == b / 3);
        assert(c1 / 3 == b % 3 && c2 / 3 == b % 3);
        if k1 != k2 {
            assert(r1 != r2 || c1 != c2);
        }
    }
}

/// Two peers are two different cells of one unit.
pub proof fn lemma_peers_unit(i: int, j: int) -> (r: (int, int, int))
    requires
        peers(i, j),
    ensures
        0 <= r.0 < 27,
        0 <= r.1 < 9,
        0 <= r.2 < 9,
        r.1 != r.2,
        unit_cell(r.0, r.1) == i,
        unit_cell(r.0, r.2) == j,
{
    if i / 9 == j / 9 {
        (i / 9, i % 9, j % 9)
    } else if i % 9 == j % 9 {
        (9 + i % 9, i / 9, j / 9)
    } else {
        let iy = i / 9;
        let ix = i % 9;
        let jy = j / 9;
        let jx = j % 9;
        let b = iy / 3 * 3 + ix / 3;
        assert(b / 3 == iy / 3 && b % 3 == ix / 3);
        let k1 = iy % 3 * 3 + ix % 3;
        let k2 = jy % 3 * 3 + jx % 3;
        assert(k1 / 3 == iy % 3 && k1 % 3 == ix % 3);
        assert(k2 / 3 == jy % 3 && k2 % 3 == jx % 3);
        (18 + b, k1, k2)
    }
}

/// A single set shows its digit.
pub proof fn lemma_the(s: Set<int>, d: int)
    requires
        only_holds(s, d),
    ensures
        single(s),
        the(s) == d,
{
}

/// On a decided stable board, two peers hold different digits.
pub proof fn lemma_peers_differ(b: Seq<Set<int>>, i: int, j: int)
    requires
        stable(b),
        decided(b),
        peers(i, j),
    ensures
        the(b[i]) != the(b[j]),
        0 <= the(b[i]) < 9,
{
    assert(single(b[i]));
    assert(single(b[j]));
    assert(settled(b, i));
    assert(b[j].contains(the(b[j])));
    assert(b[i].subset_of(all_digits()));
    assert(all_digits().contains(the(b[i])));
}

/// A decided stable board shows a solution.
pub proof fn lemma_decided_solution(b: Seq<Set<int>>)
    requires
        stable(b),
        decided(b),
    ensures
        is_solution(raised(b)),
{
    let g = raised(b);
    assert forall|i: int| 0 <= i < 81 implies (#[trigger] g[i]) is Some && g[i]->0 < 9 by {
        assert(single(b[i]));
        assert(b[i].subset_of(all_digits()));
        assert(all_digits().contains(the(b[i])));
    }
    assert forall|u: int, d: u8| 0 <= u < 27 && d < 9 implies #[trigger] once(g, u, d) by {
        let vals = Seq::new(9, |k: int| the(b[unit_cell(u, k)]));
        assert forall|k1: int, k2: int|
            0 <= k1 < 9 && 0 <= k2 < 9 && k1 != k2 implies vals[k1] != vals[k2] by {
            lemma_unit_peers(u, k1, k2);
            lemma_peers_differ(b, unit_cell(u, k1), unit_cell(u, k2));
        }
        assert(vals.no_duplicates());
        vals.unique_seq_to_set();
        vstd::seq_lib::seq_to_set_is_finite(vals);
        lemma_all_digits();
        assert(vals.to_set().subset_of(all_digits())) by {
            assert forall|e: int| vals.to_set().contains(e) implies all_digits().contains(e) by {
                let k = choose|k: int| 0 <= k < vals.len() && vals[k] == e;
                lemma_unit_peers(u, k, k);
                let c = unit_cell(u, k);
                assert(single(b[c]));
                assert(b[c].subset_of(all_digits()));
                assert(b[c].contains(the(b[c])));
            }
        }
        vstd::set_lib::lemma_subset_equality(vals.to_set(), all_digits());
        assert(all_digits().contains(d as int));
        assert(vals.to_set().contains(d as int));
        let k = choose|k: int| 0 <= k < vals.len() && vals[k] == d as int;
        lemma_unit_peers(u, k, k);
        assert(single(b[unit_cell(u, k)]));
        assert(at(g, u, k) == Some(d));
        assert forall|m: int| 0 <= m < 9 && m != k implies #[trigger] at(g, u, m) != Some(d) by {
            lemma_unit_peers(u, m, m);
            assert(single(b[unit_cell(u, m)]));
            assert(vals[m] != vals[k]);
            assert(b[unit_cell(u, m)].subset_of(all_digits()));
            assert(all_digits().contains(vals[m]));
        }
    }
}

/// The board of a solution is stable and decided, and shows the solution.
pub proof fn lemma_solution_board(g: Seq<Option<u8>>)
    requires
        is_solution(g),
    ensures
        stable(board_of(g)),
        decided(board_of(g)),
        raised(board_of(g)) == g,
{
    let t = board_of(g);
    assert forall|i: int| 0 <= i < 81 implies only_holds(#[trigger] t[i], g[i]->0 as int) by {
        assert(g[i] is Some);
    }
    assert forall|i: int| 0 <= i < 81 implies (#[trigger] t[i]).subset_of(all_digits()) by {
        assert(only_holds(t[i], g[i]->0 as int));
    }
    assert forall|i: int| 0 <= i < 81 implies inhabited(#[trigger] t[i]) by {
        assert(only_holds(t[i], g[i]->0 as int));
    }
    assert forall|i: int| 0 <= i < 81 implies single(#[trigger] t[i]) by {
        assert(only_holds(t[i], g[i]->0 as int));
    }
    assert forall|i: int| 0 <= i < 81 implies #[trigger] settled(t, i) by {
        assert forall|j: int, d: int|
            only_holds(t[i], d) && peers(i, j) implies !(#[trigger] t[j].contains(d)) by {
            let (u, k1, k2) = lemma_peers_unit(i, j);
            assert(only_holds(t[i], g[i]->0 as int));
            assert(only_holds(t[j], g[j]->0 as int));
            if t[j].contains(d) {
                let v = g[i]->0;
                assert(g[i] == Some(v) && g[j] == Some(v));
                assert(once(g, u, v));
                let k = choose|k: int|
                    0 <= k < 9 && #[trigger] at(g, u, k) == Some(v) && forall|m: int|
                        0 <= m < 9 && m != k ==> #[trigger] at(g, u, m) != Some(v);
                assert(at(g, u, k1) == Some(v));
                assert(at(g, u, k2) == Some(v));
            }
        }
    }
    assert forall|i: int| 0 <= i < 81 implies #[trigger] raised(t)[i] == g[i] by {
        lemma_the(t[i], g[i]->0 as int);
    }
    assert(raised(t) =~= g);
}

/// Solving is sound and complete: the solution that it gives is a solution
/// that keeps every digit of the puzzle, and it gives none only where the
/// puzzle has none.
pub proof fn lemma_solution_of(puzzle: Seq<Option<u8>>)
    requires
        puzzle.len() == 81,
    ensures
        match solution_of(puzzle) {
            Some(g) => is_solution(g) && extends(g, puzzle),
            None => forall|g: Seq<Option<u8>>| !(is_solution(g) && extends(g, puzzle)),
        },
{
    let top = board_of(puzzle);
    let low = closure(top);
    lemma_closure_below(top);
    if valid(low) {
        lemma_valid_closure(top);
        lemma_search(low);
    }
    match search(low) {
        Some(t) => {
            lemma_decided_solution(t);
            let g = raised(t);
            assert forall|i: int| 0 <= i < 81 && (#[trigger] puzzle[i]) is Some implies g[i]
                == puzzle[i] by {
                assert(single(t[i]));
                let d = the(t[i]);
                assert(t[i].contains(d));
                assert(low[i].contains(d));
                assert(top[i].contains(d));
            }
        },
        None => {
            assert forall|g: Seq<Option<u8>>| !(is_solution(g) && extends(g, puzzle)) by {
                if is_solution(g) && extends(g, puzzle) {
                    lemma_solution_board(g);
                    let t = board_of(g);
                    assert(below(t, top)) by {
                        assert forall|i: int, d: int|
                            0 <= i < 81 && #[trigger] t[i].contains(d) implies top[i].contains(d) by {
                            assert(g[i] is Some);
                        }
                    }
                    lemma_closure_above(top, t);
                    lemma_closure_stable(top, t);
                    assert(solves(t, low));
                }
            }
        },
    }
}

impl Sudoku {
    /// The grid with no cell filled in.
    pub fn empty() -> (r: Self)
        ensures
            r@ == Seq::new(81, |i: int| None::<u8>),
    {
        Self::filled(None)
    }

    /// The board as a grid: a cell shows its digit where the board has
    /// decided it, and nothing where it has not.
    pub fn from(solver: SudokuSolver) -> (r: Self)
        requires
            well_formed(solver.cands()),
        ensures
            r@ == raised(solver.cands()),
    {
        let mut sudoku = Self::empty();
        proof {
            solver.lemma_len();
            sudoku.lemma_len();
        }
        let mut y: usize = 0;
        while y < 9
            invariant
                y <= 9,
                well_formed(solver.cands()),
                solver@.len() == 81,
                sudoku@.len() == 81,
                forall|i: int|
                    0 <= i < y * 9 ==> #[trigger] sudoku@[i] == raised(solver.cands())[i],
            decreases 9 - y,
        {
            let mut x: usize = 0;
            while x < 9
                invariant
                    x <= 9,
                    y < 9,
                    well_formed(solver.cands()),
                    solver@.len() == 81,
                    sudoku@.len() == 81,
                    forall|i: int|
                        0 <= i < y * 9 + x ==> #[trigger] sudoku@[i] == raised(solver.cands())[i],
                decreases 9 - x,
            {
                let ghost i = cell_index(x as int, y as int);
                let shown = match sole(*solver.get(x, y)) {
                    Some(d) => {
                        proof {
                            assert(solver.cands()[i] == members(solver@[i]));
                            assert(solver.cands()[i].subset_of(all_digits()));
                            assert(all_digits().contains(d as int));
                            lemma_the(solver.cands()[i], d as int);
                        }
                        Some(d as u8)
                    },
                    None => None,
                };
                sudoku.set(x, y, shown);
                proof {
                    sudoku.lemma_len();
                }
                x += 1;
            }
            y += 1;
        }
        assert(sudoku@ =~= raised(solver.cands()));
        sudoku
    }

    /// Solves the puzzle: a solution that keeps every digit filled in, or
    /// `None` where the puzzle has none. Of several solutions it is the one
    /// that the search comes to first.
    pub fn solve(&self) -> (r: Option<Sudoku>)
        requires
            digits_in_range(self@),
        ensures
            match r {
                Some(g) => solution_of(self@) == Some(g@),
                None => solution_of(self@) is None,
            },
            match r {
                Some(g) => is_solution(g@) && extends(g@, self@),
                None => forall|g: Seq<Option<u8>>| !(is_solution(g) && extends(g, self@)),
            },
    {
        let board = SudokuSolver::from(self);
        proof {
            lemma_settles_closure(board_of(self@), board.cands());
            lemma_solution_of(self@);
        }
        match board.solve() {
            Some(found) => Some(Sudoku::from(found)),
            None => None,
        }
    }
}

impl SudokuSolver {
    /// Lowers a grid to a board: starts with every digit open in every cell
    /// and forces each digit that is filled in, cell by cell in row-major
    /// order. Digits that contradict each other leave a board that is not
    /// valid.
    pub fn from(sudoku: &Sudoku) -> (r: Self)
        requires
            digits_in_range(sudoku@),
        ensures
            lowered(sudoku@, r.cands()),
    {
        let mut solver = SudokuSolver::empty();
        let ghost top = board_of(sudoku@);
        proof {
            lemma_all_digits();
        }
        let mut y: usize = 0;
        while y < 9
            invariant
                y <= 9,
                digits_in_range(sudoku@),
                top == board_of(sudoku@),
                propagated(solver.cands()),
                forall|i: int, d: int|
                    0 <= i < y * 9 && #[trigger] solver.cands()[i].contains(d) ==> top[i].contains(d),
                forall|t: Seq<Set<int>>|
                    #[trigger] stable(t) && below(t, top) ==> below(t, solver.cands()),
            decreases 9 - y,
        {
            let mut x: usize = 0;
            while x < 9
                invariant
                    x <= 9,
                    y < 9,
                    digits_in_range(sudoku@),
                    top == board_of(sudoku@),
                    propagated(solver.cands()),
                    forall|i: int, d: int|
                        0 <= i < y * 9 + x && #[trigger] solver.cands()[i].contains(d)
                            ==> top[i].contains(d),
                    forall|t: Seq<Set<int>>| #[trigger]
                        stable(t) && below(t, top) ==> below(t, solver.cands()),
                decreases 9 - x,
            {
                let ghost i = cell_index(x as int, y as int);
                let ghost before = solver.cands();
                match *sudoku.get(x, y) {
                    Some(v) => {
                        solver.set_constraint(x, y, v);
                        proof {
                            let one = Set::<int>::empty().insert(v as int);
                            let mid = before.update(i, one);
                            assert(only_holds(mid[i], v as int));
                            lemma_source_settled(mid, i, v as int, solver.cands());
                            assert forall|t: Seq<Set<int>>| #[trigger]
                                stable(t) && below(t, top) implies below(t, solver.cands()) by {
                                assert(below(t, before));
                                assert forall|k: int, d: int|
                                    0 <= k < 81 && #[trigger] t[k].contains(d) implies mid[k].contains(d) by {
                                    assert(before[k].contains(d));
                                    if k == i {
                                        assert(top[i].contains(d));
                                    }
                                }
                                assert(below(t, mid));
                            }
                            assert forall|k: int, d: int|
                                0 <= k < y * 9 + x + 1 && #[trigger] solver.cands()[k].contains(
                                    d,
                                ) implies top[k].contains(d) by {
                                assert(mid[k].contains(d));
                            }
                        }
                    },
                    None => {
                        proof {
                            assert forall|d: int| #[trigger]
                                solver.cands()[i].contains(d) implies top[i].contains(d) by {
                                assert(solver.cands()[i].subset_of(all_digits()));
                            }
                        }
                    },
                }
                x += 1;
            }
            y += 1;
        }
        solver
    }
}

} // verus!
