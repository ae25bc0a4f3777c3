//! The candidate board and the search on it.

use crate::board::{
    assigned, avoids, below, eliminated, first_least_open, lemma_all_digits,
    lemma_assigned_settles, lemma_below_well_formed, lemma_cascade, lemma_cell_finite,
    lemma_eliminated_settles, lemma_no_cascade, lemma_propagated_settles, lemma_pruned_chain,
    lemma_pruned_nothing, lemma_settles_closure, lemma_weight_below, lemma_weight_strict, none_open,
    peer_set, peers, propagated, pruned, settled, settles, solves, stable, valid, weight,
    well_formed,
};
use crate::candidates::{
    all_digits, digits, full_set, inhabited, lists, members, only_holds, same, sole,
};
use crate::field::{cell_index, SudokuField};
use crate::search::{branch, lemma_first_open, lemma_search, lemma_try_skip, search, try_from};
use smallbitset::Set16;
use vstd::prelude::*;

verus! {

/// The set of digits that one cell can still take.
pub type ValueSet = Set16;

/// A board of candidate sets, one per cell.
pub type SudokuSolver = SudokuField<ValueSet>;

/// `k`, counted so that `at` is left out.
pub open spec fn skip(k: int, at: int) -> int {
    if k < at {
        k
    } else {
        k + 1
    }
}

/// The eight other cells of the row of `(x, y)`, from left to right.
pub open spec fn row_peers(x: int, y: int) -> Seq<(usize, usize)> {
    Seq::new(8, |k: int| (skip(k, x) as usize, y as usize))
}

/// The eight other cells of the column of `(x, y)`, from top to bottom.
pub open spec fn column_peers(x: int, y: int) -> Seq<(usize, usize)> {
    Seq::new(8, |k: int| (x as usize, skip(k, y) as usize))
}

/// The eight other cells of the box of `(x, y)`, column by column.
pub open spec fn box_peers(x: int, y: int) -> Seq<(usize, usize)> {
    Seq::new(
        8,
        |k: int|
            {
                let m = skip(k, (x % 3) * 3 + y % 3);
                ((x / 3 * 3 + m / 3) as usize, (y / 3 * 3 + m % 3) as usize)
            },
    )
}

/// All coordinates in the list lie on the field.
pub open spec fn on_field(cells: Seq<(usize, usize)>) -> bool {
    forall|k: int| 0 <= k < cells.len() ==> (#[trigger] cells[k]).0 < 9 && cells[k].1 < 9
}

/// The positions of the first `n` cells of the list.
pub open spec fn positions(cells: Seq<(usize, usize)>, n: int) -> Set<int> {
    Set::new(
        |j: int|
            exists|k: int|
                0 <= k < n && k < cells.len() && cell_index(
                    (#[trigger] cells[k]).0 as int,
                    cells[k].1 as int,
                ) == j,
    )
}

/// The position of `(x, y)` gives `x` and `y` back.
pub proof fn lemma_cell_index(x: int, y: int)
    requires
        0 <= x < 9,
        0 <= y < 9,
    ensures
        0 <= cell_index(x, y) < 81,
        cell_index(x, y) / 9 == y,
        cell_index(x, y) % 9 == x,
{
}

/// Every cell of the row list lies on the field and is a peer of `(x, y)`.
proof fn lemma_row_peer(x: int, y: int, k: int)
    requires
        0 <= x < 9,
        0 <= y < 9,
        0 <= k < 8,
    ensures
        row_peers(x, y)[k].0 < 9,
        row_peers(x, y)[k].1 < 9,
        peers(
            cell_index(x, y),
            cell_index(row_peers(x, y)[k].0 as int, row_peers(x, y)[k].1 as int),
        ),
{
    let px = skip(k, x);
    lemma_cell_index(x, y);
    lemma_cell_index(px, y);
}

/// Every cell of the column list lies on the field and is a peer of `(x, y)`.
proof fn lemma_column_peer(x: int, y: int, k: int)
    requires
        0 <= x < 9,
        0 <= y < 9,
        0 <= k < 8,
    ensures
        column_peers(x, y)[k].0 < 9,
        column_peers(x, y)[k].1 < 9,
        peers(
            cell_index(x, y),
            cell_index(column_peers(x, y)[k].0 as int, column_peers(x, y)[k].1 as int),
        ),
{
    let py = skip(k, y);
    lemma_cell_index(x, y);
    lemma_cell_index(x, py);
}

/// Every cell of the box list lies on the field and is a peer of `(x, y)`.
proof fn lemma_box_peer(x: int, y: int, k: int)
    requires
        0 <= x < 9,
        0 <= y < 9,
        0 <= k < 8,
    ensures
        box_peers(x, y)[k].0 < 9,
        box_peers(x, y)[k].1 < 9,
        peers(
            cell_index(x, y),
            cell_index(box_peers(x, y)[k].0 as int, box_peers(x, y)[k].1 as int),
        ),
{
    let at = (x % 3) * 3 + y % 3;
    let m = skip(k, at);
    let px = x / 3 * 3 + m / 3;
    let py = y / 3 * 3 + m % 3;
    assert(0 <= m < 9);
    assert(0 <= px < 9 && 0 <= py < 9);
    assert(px / 3 == x / 3 && py / 3 == y / 3);
    assert(px != x || py != y) by {
        if px == x && py == y {
            assert(m / 3 == x % 3);
            assert(m % 3 == y % 3);
            assert(m == at);
        }
    }
    lemma_cell_index(x, y);
    lemma_cell_index(px, py);
    assert(box_peers(x, y)[k] == (px as usize, py as usize));
}

/// Every peer of `(x, y)` is in its row, column or box list.
proof fn lemma_peer_listed(x: int, y: int, j: int)
    requires
        0 <= x < 9,
        0 <= y < 9,
        peers(cell_index(x, y), j),
    ensures
        positions(row_peers(x, y), 8).contains(j) || positions(column_peers(x, y), 8).contains(j)
            || positions(box_peers(x, y), 8).contains(j),
{
    let rows = row_peers(x, y);
    let cols = column_peers(x, y);
    let boxes = box_peers(x, y);
    let jx = j % 9;
    let jy = j / 9;
    lemma_cell_index(x, y);
    lemma_cell_index(jx, jy);
    if jy == y {
        let k = if jx < x { jx } else { jx - 1 };
        assert(rows[k] == (jx as usize, jy as usize));
        assert(cell_index(rows[k].0 as int, rows[k].1 as int) == j);
    } else if jx == x {
        let k = if jy < y { jy } else { jy - 1 };
        assert(cols[k] == (jx as usize, jy as usize));
        assert(cell_index(cols[k].0 as int, cols[k].1 as int) == j);
    } else {
        let m = (jx % 3) * 3 + jy % 3;
        let at = (x % 3) * 3 + y % 3;
        assert(jx / 3 == x / 3 && jy / 3 == y / 3);
        assert(m != at) by {
            if m == at {
                assert(jx % 3 == x % 3);
                assert(jy % 3 == y % 3);
            }
        }
        let k = if m < at { m } else { m - 1 };
        assert(skip(k, at) == m);
        assert(m / 3 == jx % 3 && m % 3 == jy % 3);
        assert(boxes[k] == (jx as usize, jy as usize));
        assert(cell_index(boxes[k].0 as int, boxes[k].1 as int) == j);
    }
}

/// Row, column and box together are the peers of a cell, and nothing else.
pub proof fn lemma_peer_lists(x: int, y: int)
    requires
        0 <= x < 9,
        0 <= y < 9,
    ensures
        on_field(row_peers(x, y)),
        on_field(column_peers(x, y)),
        on_field(box_peers(x, y)),
        positions(row_peers(x, y), 8).union(positions(column_peers(x, y), 8)).union(
            positions(box_peers(x, y), 8),
        ) == peer_set(cell_index(x, y)),
{
    let i = cell_index(x, y);
    let rows = row_peers(x, y);
    let cols = column_peers(x, y);
    let boxes = box_peers(x, y);
    let all = positions(rows, 8).union(positions(cols, 8)).union(positions(boxes, 8));
    assert forall|k: int| 0 <= k < 8 implies (#[trigger] rows[k]).0 < 9 && rows[k].1 < 9 by {
        lemma_row_peer(x, y, k);
    }
    assert forall|k: int| 0 <= k < 8 implies (#[trigger] cols[k]).0 < 9 && cols[k].1 < 9 by {
        lemma_column_peer(x, y, k);
    }
    assert forall|k: int| 0 <= k < 8 implies (#[trigger] boxes[k]).0 < 9 && boxes[k].1 < 9 by {
        lemma_box_peer(x, y, k);
    }
    assert forall|j: int| all.contains(j) implies peer_set(i).contains(j) by {
        if positions(rows, 8).contains(j) {
            let k = choose|k: int|
                0 <= k < 8 && k < rows.len() && cell_index(
                    (#[trigger] rows[k]).0 as int,
                    rows[k].1 as int,
                ) == j;
            lemma_row_peer(x, y, k);
        } else if positions(cols, 8).contains(j) {
            let k = choose|k: int|
                0 <= k < 8 && k < cols.len() && cell_index(
                    (#[trigger] cols[k]).0 as int,
                    cols[k].1 as int,
                ) == j;
            lemma_column_peer(x, y, k);
        } else {
            let k = choose|k: int|
                0 <= k < 8 && k < boxes.len() && cell_index(
                    (#[trigger] boxes[k]).0 as int,
                    boxes[k].1 as int,
                ) == j;
            lemma_box_peer(x, y, k);
        }
    }
    assert forall|j: int| peer_set(i).contains(j) implies all.contains(j) by {
        lemma_peer_listed(x, y, j);
    }
    assert(all =~= peer_set(i));
}

impl SudokuSolver {
    /// The board as the solver's model sees it: the digits held by each cell.
    pub open spec fn cands(&self) -> Seq<Set<int>> {
        Seq::new(81, |i: int| members(self@[i]))
    }

    /// The board on which every cell can still take every digit.
    pub fn empty() -> (r: Self)
        ensures
            r.cands() == Seq::new(81, |i: int| all_digits()),
            propagated(r.cands()),
    {
        let r = Self::filled(full_set());
        proof {
            assert(r.cands() =~= Seq::new(81, |i: int| all_digits()));
            lemma_all_digits();
            assert forall|i: int| 0 <= i < 81 implies #[trigger] settled(r.cands(), i) by {
                assert forall|j: int, d: int|
                    only_holds(r.cands()[i], d) && peers(i, j) implies
                    !(#[trigger] r.cands()[j].contains(d)) by {
                    assert(r.cands()[i].contains(0));
                    assert(r.cands()[i].contains(1));
                }
            }
        }
        r
    }

    /// The other cells of the row of `(x, y)`.
    pub fn row(x: usize, y: usize) -> (r: Vec<(usize, usize)>)
        requires
            x < 9,
            y < 9,
        ensures
            r@ == row_peers(x as int, y as int),
    {
        let mut out: Vec<(usize, usize)> = Vec::new();
        let mut i: usize = 0;
        while i < 9
            invariant
                i <= 9,
                x < 9,
                out@.len() == (if i <= x { i as int } else { i - 1 }),
                forall|k: int| 0 <= k < out@.len() ==> out@[k] == (skip(k, x as int) as usize, y),
            decreases 9 - i,
        {
            if i != x {
                out.push((i, y));
            }
            i += 1;
        }
        assert(out@ =~= row_peers(x as int, y as int));
        out
    }

    /// The other cells of the column of `(x, y)`.
    pub fn column(x: usize, y: usize) -> (r: Vec<(usize, usize)>)
        requires
            x < 9,
            y < 9,
        ensures
            r@ == column_peers(x as int, y as int),
    {
        let mut out: Vec<(usize, usize)> = Vec::new();
        let mut i: usize = 0;
        while i < 9
            invariant
                i <= 9,
                y < 9,
                out@.len() == (if i <= y { i as int } else { i - 1 }),
                forall|k: int| 0 <= k < out@.len() ==> out@[k] == (x, skip(k, y as int) as usize),
            decreases 9 - i,
        {
            if i != y {
                out.push((x, i));
            }
            i += 1;
        }
        assert(out@ =~= column_peers(x as int, y as int));
        out
    }

    /// The other cells of the 3×3 box of `(x, y)`.
    pub fn cell(x: usize, y: usize) -> (r: Vec<(usize, usize)>)
        requires
            x < 9,
            y < 9,
        ensures
            r@ == box_peers(x as int, y as int),
    {
        let cell_x = (x / Self::cell_size()) * Self::cell_size();
        let cell_y = (y / Self::cell_size()) * Self::cell_size();
        let ghost at = (x % 3) * 3 + y % 3;
        let mut out: Vec<(usize, usize)> = Vec::new();
        let mut m: usize = 0;
        while m < 9
            invariant
                m <= 9,
                x < 9,
                y < 9,
                cell_x == x / 3 * 3,
                cell_y == y / 3 * 3,
                at == (x % 3) * 3 + y % 3,
                out@.len() == (if m <= at { m as int } else { m - 1 }),
                forall|k: int| 0 <= k < out@.len() ==> out@[k] == (
                    (cell_x + skip(k, at as int) / 3) as usize,
                    (cell_y + skip(k, at as int) % 3) as usize,
                ),
            decreases 9 - m,
        {
            let cx = cell_x + m / 3;
            let cy = cell_y + m % 3;
            if cx != x || cy != y {
                out.push((cx, cy));
            }
            m += 1;
        }
        assert(out@ =~= box_peers(x as int, y as int));
        out
    }

    /// The model of a board after one cell was overwritten.
    proof fn lemma_cands_update(before: Self, after: Self, i: int, v: Set16)
        requires
            0 <= i < 81,
            after@ == before@.update(i, v),
        ensures
            after.cands() == before.cands().update(i, members(v)),
    {
        before.lemma_len();
        after.lemma_len();
        assert(after.cands() =~= before.cands().update(i, members(v)));
    }

    /// Forces cell `(x, y)` to the digit `v` and applies that to its peers.
    pub fn set_constraint(&mut self, x: usize, y: usize, v: u8)
        requires
            x < 9,
            y < 9,
            v < 9,
            well_formed(old(self).cands()),
        ensures
            assigned(
                old(self).cands(),
                cell_index(x as int, y as int),
                v as int,
                final(self).cands(),
            ),
            propagated(old(self).cands()) ==> settles(
                old(self).cands().update(
                    cell_index(x as int, y as int),
                    Set::<int>::empty().insert(v as int),
                ),
                final(self).cands(),
            ),
    {
        let ghost start = *self;
        let ghost i = cell_index(x as int, y as int);
        let one = Set16::singleton(v as usize);
        self.set(x, y, one);
        proof {
            Self::lemma_cands_update(start, *self, i, one);
            let mid = self.cands();
            assert(mid[i] =~= Set::<int>::empty().insert(v as int));
            assert(well_formed(mid)) by {
                assert forall|k: int|
                    0 <= k < 81 implies (#[trigger] mid[k]).subset_of(all_digits()) by {
                    assert(start.cands()[k].subset_of(all_digits()));
                }
            }
        }
        self.propagate(x, y, v);
        proof {
            if propagated(start.cands()) {
                lemma_assigned_settles(start.cands(), i, v as int, self.cands());
            }
        }
    }

    /// Removes `v` from each listed cell, with the cascade that follows.
    fn sweep(&mut self, cells: &Vec<(usize, usize)>, v: u8)
        requires
            v < 9,
            well_formed(old(self).cands()),
            on_field(cells@),
        ensures
            pruned(
                old(self).cands(),
                positions(cells@, cells@.len() as int),
                v as int,
                final(self).cands(),
            ),
        decreases weight(old(self).cands()), 1int,
    {
        let ghost start = self.cands();
        let mut k: usize = 0;
        proof {
            lemma_pruned_nothing(start, v as int);
            assert(positions(cells@, 0) =~= Set::<int>::empty());
        }
        while k < cells.len()
            invariant
                k <= cells.len(),
                v < 9,
                on_field(cells@),
                well_formed(start),
                start == old(self).cands(),
                pruned(start, positions(cells@, k as int), v as int, self.cands()),
            decreases cells.len() - k,
        {
            let (px, py) = cells[k];
            let ghost before = self.cands();
            proof {
                lemma_weight_below(before, start, 81);
            }
            self.remove(px, py, v);
            proof {
                let one = Set::<int>::empty().insert(cell_index(px as int, py as int));
                lemma_pruned_chain(
                    start,
                    positions(cells@, k as int),
                    before,
                    one,
                    self.cands(),
                    v as int,
                );
                assert(positions(cells@, k as int).union(one) =~= positions(cells@, k + 1)) by {
                    assert forall|j: int| positions(cells@, k + 1).contains(j) implies positions(
                        cells@,
                        k as int,
                    ).union(one).contains(j) by {
                        let m = choose|m: int|
                            0 <= m < k + 1 && m < cells@.len() && cell_index(
                                (#[trigger] cells@[m]).0 as int,
                                cells@[m].1 as int,
                            ) == j;
                        if m < k {
                            assert(positions(cells@, k as int).contains(j));
                        }
                    }
                    assert forall|j: int| positions(cells@, k as int).union(one).contains(
                        j,
                    ) implies positions(cells@, k + 1).contains(j) by {
                        if one.contains(j) {
                            assert(cell_index(cells@[k as int].0 as int, cells@[k as int].1 as int)
                                == j);
                        } else {
                            let m = choose|m: int|
                                0 <= m < k && m < cells@.len() && cell_index(
                                    (#[trigger] cells@[m]).0 as int,
                                    cells@[m].1 as int,
                                ) == j;
                        }
                    }
                }
            }
            k += 1;
        }
    }

    /// Applies the decided cell `(x, y)`, which holds only `v`, to its peers:
    /// removes `v` from every cell of its row, its column and its box.
    pub fn propagate(&mut self, x: usize, y: usize, v: u8)
        requires
            x < 9,
            y < 9,
            v < 9,
            well_formed(old(self).cands()),
            only_holds(old(self).cands()[cell_index(x as int, y as int)], v as int),
        ensures
            pruned(
                old(self).cands(),
                peer_set(cell_index(x as int, y as int)),
                v as int,
                final(self).cands(),
            ),
            (forall|c: int|
                0 <= c < 81 && c != cell_index(x as int, y as int) ==> #[trigger] settled(
                    old(self).cands(),
                    c,
                )) ==> settles(old(self).cands(), final(self).cands()),
        decreases weight(old(self).cands()), 2int,
    {
        let ghost start = self.cands();
        proof {
            lemma_peer_lists(x as int, y as int);
        }
        let row = Self::row(x, y);
        self.sweep(&row, v);
        let ghost after_row = self.cands();
        proof {
            lemma_weight_below(after_row, start, 81);
        }
        let column = Self::column(x, y);
        self.sweep(&column, v);
        let ghost after_column = self.cands();
        proof {
            lemma_pruned_chain(
                start,
                positions(row@, 8),
                after_row,
                positions(column@, 8),
                after_column,
                v as int,
            );
            lemma_weight_below(after_column, start, 81);
        }
        let cell = Self::cell(x, y);
        self.sweep(&cell, v);
        proof {
            lemma_pruned_chain(
                start,
                positions(row@, 8).union(positions(column@, 8)),
                after_column,
                positions(cell@, 8),
                self.cands(),
                v as int,
            );
            if forall|c: int|
                0 <= c < 81 && c != cell_index(x as int, y as int) ==> #[trigger] settled(
                    start,
                    c,
                ) {
                lemma_cell_index(x as int, y as int);
                lemma_propagated_settles(
                    start,
                    cell_index(x as int, y as int),
                    v as int,
                    self.cands(),
                );
            }
        }
    }

    /// Removes `v` from the candidates of cell `(x, y)`. Where that leaves the
    /// cell with a single candidate, the cell is applied to its peers.
    pub fn remove(&mut self, x: usize, y: usize, v: u8)
        requires
            x < 9,
            y < 9,
            v < 9,
            well_formed(old(self).cands()),
        ensures
            eliminated(
                old(self).cands(),
                cell_index(x as int, y as int),
                v as int,
                final(self).cands(),
            ),
            pruned(
                old(self).cands(),
                Set::<int>::empty().insert(cell_index(x as int, y as int)),
                v as int,
                final(self).cands(),
            ),
            propagated(old(self).cands()) ==> settles(
                old(self).cands().update(
                    cell_index(x as int, y as int),
                    old(self).cands()[cell_index(x as int, y as int)].remove(v as int),
                ),
                final(self).cands(),
            ),
        decreases weight(old(self).cands()), 0int,
    {
        let ghost start = *self;
        let ghost i = cell_index(x as int, y as int);
        proof {
            start.lemma_len();
        }
        let old_set = *self.get(x, y);
        let new_set = old_set.remove(v as usize);
        if !same(new_set, old_set) {
            self.set(x, y, new_set);
            proof {
                Self::lemma_cands_update(start, *self, i, new_set);
                assert(start.cands()[i].contains(v as int)) by {
                    if !start.cands()[i].contains(v as int) {
                        assert(members(new_set) =~= members(old_set));
                    }
                }
                lemma_cell_finite(start.cands(), i);
                lemma_below_well_formed(self.cands(), start.cands());
                lemma_weight_strict(self.cands(), start.cands(), i, 81);
            }
            match sole(new_set) {
                Some(w) => {
                    let ghost mid = self.cands();
                    self.propagate(x, y, w as u8);
                    proof {
                        lemma_cascade(start.cands(), i, v as int, w as int, self.cands());
                        assert forall|u: int| only_holds(mid[i], u) implies pruned(
                            mid,
                            peer_set(i),
                            u,
                            self.cands(),
                        ) by {
                            assert(u == w);
                        }
                    }
                },
                None => {
                    proof {
                        lemma_no_cascade(start.cands(), i, v as int);
                    }
                },
            }
        } else {
            proof {
                assert(!start.cands()[i].contains(v as int));
                lemma_pruned_nothing(start.cands(), v as int);
                assert forall|t: Seq<Set<int>>|
                    #[trigger] stable(t) && below(t, start.cands()) && avoids(
                        t,
                        Set::<int>::empty().insert(i),
                        v as int,
                    ) implies below(t, start.cands()) by {}
            }
        }
        proof {
            if propagated(start.cands()) {
                lemma_eliminated_settles(start.cands(), i, v as int, self.cands());
            }
        }
    }

    /// Whether no cell has run out of candidates.
    pub fn is_valid(&self) -> (r: bool)
        ensures
            r <==> valid(self.cands()),
    {
        proof {
            self.lemma_len();
        }
        let mut i: usize = 0;
        while i < 81
            invariant
                i <= 81,
                self@.len() == 81,
                forall|k: int| 0 <= k < i ==> inhabited(#[trigger] self.cands()[k]),
            decreases 81 - i,
        {
            let cell = *self.get(i % 9, i / 9);
            if cell.is_empty() {
                proof {
                    assert(self.cands()[i as int] == members(cell));
                    assert(!inhabited(self.cands()[i as int]));
                }
                return false;
            }
            proof {
                assert(self.cands()[i as int] == members(cell));
                if !inhabited(members(cell)) {
                    assert(members(cell) =~= Set::<int>::empty());
                }
            }
            i += 1;
        }
        true
    }

    /// The first cell, in row-major order, with the fewest candidates among
    /// the cells that still have more than one; `None` where no cell has
    /// more than one.
    pub fn lowest_entropy_field(&self) -> (r: Option<(usize, usize)>)
        ensures
            match r {
                None => none_open(self.cands()),
                Some((x, y)) => x < 9 && y < 9 && first_least_open(
                    self.cands(),
                    cell_index(x as int, y as int),
                ),
            },
    {
        proof {
            self.lemma_len();
        }
        let mut best: Option<(usize, usize)> = None;
        let mut i: usize = 0;
        while i < 81
            invariant
                i <= 81,
                self@.len() == 81,
                match best {
                    None => forall|k: int| 0 <= k < i ==> (#[trigger] self.cands()[k]).len() <= 1,
                    Some((m, n)) => {
                        &&& m < i
                        &&& n == self.cands()[m as int].len()
                        &&& n > 1
                        &&& forall|j: int|
                            0 <= j < i && (#[trigger] self.cands()[j]).len() > 1 ==> n
                                <= self.cands()[j].len() && (j < m ==> n < self.cands()[j].len())
                    },
                },
            decreases 81 - i,
        {
            let n = self.get(i % 9, i / 9).len();
            proof {
                assert(self.cands()[i as int] == members(self@[i as int]));
            }
            if n > 1 {
                best = match best {
                    None => Some((i, n)),
                    Some((m, least)) => if n < least {
                        Some((i, n))
                    } else {
                        Some((m, least))
                    },
                };
            }
            i += 1;
        }
        match best {
            None => None,
            Some((m, _)) => Some((m % Self::size(), m / Self::size())),
        }
    }

    /// Searches for a decided board below this one: takes the first open
    /// cell with the fewest candidates, tries its digits in ascending order,
    /// each on a copy of the board, and hands back the first board found.
    ///
    /// The result is a decided stable board below this one, and `None` only
    /// where there is no such board.
    pub fn solve(self) -> (r: Option<SudokuSolver>)
        requires
            propagated(self.cands()),
        ensures
            match r {
                Some(found) => search(self.cands()) == Some(found.cands()),
                None => search(self.cands()) is None,
            },
            match r {
                Some(found) => solves(found.cands(), self.cands()),
                None => forall|t: Seq<Set<int>>| !solves(t, self.cands()),
            },
        decreases weight(self.cands()),
    {
        let ghost start = self.cands();
        proof {
            lemma_search(start);
        }
        if !self.is_valid() {
            return None;
        }
        match self.lowest_entropy_field() {
            None => Some(self),
            Some((x, y)) => {
                let ghost i = cell_index(x as int, y as int);
                let open = digits(*self.get(x, y));
                proof {
                    self.lemma_len();
                    assert(start[i] == members(self@[i]));
                    lemma_cell_finite(start, i);
                    lemma_first_open(start, i);
                }
                let ghost mut lo: int = 0;
                let mut k: usize = 0;
                while k < open.len()
                    invariant
                        k <= open.len(),
                        0 <= lo <= 9,
                        x < 9,
                        y < 9,
                        i == cell_index(x as int, y as int),
                        start == self.cands(),
                        propagated(start),
                        first_least_open(start, i),
                        lists(open@, start[i]),
                        search(start) == try_from(start, i, lo),
                        forall|m: int| 0 <= m < k ==> (#[trigger] open@[m]) < lo,
                        forall|m: int| k <= m < open@.len() ==> lo <= #[trigger] open@[m],
                    decreases open.len() - k,
                {
                    let v = open[k];
                    let mut step = self.copied();
                    proof {
                        assert(step.cands() =~= start);
                        assert(start[i].contains(v as int));
                        lemma_cell_finite(start, i);
                    }
                    step.set_constraint(x, y, v as u8);
                    proof {
                        let mid = start.update(i, Set::<int>::empty().insert(v as int));
                        assert forall|d: int| lo <= d < v implies !start[i].contains(d) by {
                            if start[i].contains(d) {
                                let j = choose|j: int|
                                    0 <= j < open@.len() && #[trigger] open@[j] as int == d;
                                if j > k {
                                    assert(open@[k as int] < open@[j]);
                                }
                            }
                        }
                        lemma_try_skip(start, i, lo, v as int);
                        lemma_settles_closure(mid, step.cands());
                        assert(search(step.cands()) == search(branch(start, i, v as int)));
                        assert(below(mid, start));
                        assert(mid[i].len() == 1);
                        lemma_weight_strict(mid, start, i, 81);
                        lemma_below_well_formed(mid, start);
                        lemma_weight_below(step.cands(), mid, 81);
                    }
                    match step.solve() {
                        Some(found) => {
                            return Some(found);
                        },
                        None => {},
                    }
                    proof {
                        assert forall|m: int| k + 1 <= m < open@.len() implies v + 1
                            <= #[trigger] open@[m] by {
                            assert(open@[k as int] < open@[m]);
                        }
                        lo = v + 1;
                    }
                    k += 1;
                }
                proof {
                    assert forall|d: int| lo <= d < 9 implies !start[i].contains(d) by {
                        if start[i].contains(d) {
                            let j = choose|j: int|
                                0 <= j < open@.len() && #[trigger] open@[j] as int == d;
                        }
                    }
                    lemma_try_skip(start, i, lo, 9);
                }
                None
            },
        }
    }
}

} // verus!
