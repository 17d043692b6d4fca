//! The board in executable form: the grid and the marks of every cell, kept
//! in step by the operations that write into a cell or empty it.

use vstd::prelude::*;
use crate::annotations::{annotations_len, count_marks, no_marks};
pub use crate::annotations::Annotations;
pub use crate::solver::Solutions;
use crate::board::{
    conflict_free, in_grid, legal_marks, lemma_min_cell_unique, lemma_placed_tidy,
    lemma_placed_wf, lemma_removed_tidy, lemma_removed_wf, marks_of, peers, solved, valid_at,
    with_cell, Board,
};
use crate::errors::Error;

verus! {

/// The grid that a 9x9 array holds, row by row.
pub open spec fn rows(a: [[u8; 9]; 9]) -> Seq<Seq<u8>> {
    Seq::new(9, |r: int| a[r]@)
}

/// A Sudoku board: a 9x9 grid of cells, 0 for an empty one, and for every
/// cell the marks of the digits it may still take.
#[derive(Debug, PartialEq, Eq)]
pub struct Sudoku {
    grid: [[u8; 9]; 9],
    hints: [[Annotations; 9]; 9],
}

impl View for Sudoku {
    type V = Board;

    closed spec fn view(&self) -> Board {
        Board {
            cells: rows(self.grid),
            marks: Seq::new(9, |r: int| Seq::new(9, |c: int| self.hints[r][c]@)),
        }
    }
}

/// The view of a board has nine rows of nine cells with nine marks each.
pub broadcast proof fn sudoku_shaped(s: Sudoku)
    ensures
        (#[trigger] s@).shaped(),
{
    broadcast use annotations_len;

}

impl Clone for Sudoku {
    /// Returns a board with the same cells and marks, which shares nothing
    /// with this one.
    fn clone(&self) -> (s: Sudoku)
        ensures
            s == *self,
    {
        Sudoku { grid: self.grid, hints: self.hints }
    }
}

impl Sudoku {
    /// Whether the marks are those that belong to the grid.
    pub open spec fn wf(&self) -> bool {
        self@.wf()
    }

    /// Returns what the cell (`row`, `col`) holds, 0 if it is empty.
    pub fn get(&self, row: usize, col: usize) -> (v: u8)
        requires
            row < 9,
            col < 9,
        ensures
            v == self@.cells[row as int][col as int],
    {
        self.grid[row][col]
    }

    /// Returns the nine cells of the row `index`.
    pub fn row(&self, index: usize) -> (r: [u8; 9])
        requires
            index < 9,
        ensures
            r@ == self@.cells[index as int],
    {
        self.grid[index]
    }

    /// Returns the marks of the cell (`row`, `col`).
    pub fn hints(&self, row: usize, col: usize) -> (a: Annotations)
        requires
            row < 9,
            col < 9,
        ensures
            a@ == self@.marks[row as int][col as int],
    {
        self.hints[row][col]
    }

    /// Returns whether `n` is at most 9 and no peer of (`row`, `col`) holds it.
    pub fn is_valid_at(&self, n: u8, row: usize, col: usize) -> (b: bool)
        requires
            row < 9,
            col < 9,
        ensures
            b == (n <= 9 && valid_at(self@.cells, n as int, row as int, col as int)),
    {
        if n > 9 {
            return false;
        }
        let boxrow = row / 3 * 3;
        let boxcol = col / 3 * 3;
        let mut i = boxrow;
        while i < boxrow + 3
            invariant
                row < 9,
                col < 9,
                boxrow == row / 3 * 3,
                boxcol == col / 3 * 3,
                boxrow <= i <= boxrow + 3,
                forall|p: int, q: int|
                    boxrow <= p < i && boxcol <= q < boxcol + 3 && (p != row || q != col)
                        ==> #[trigger] self@.cells[p][q] != n,
            decreases boxrow + 3 - i,
        {
            let mut j = boxcol;
            while j < boxcol + 3
                invariant
                    row < 9,
                    col < 9,
                    boxrow == row / 3 * 3,
                    boxcol == col / 3 * 3,
                    boxrow <= i < boxrow + 3,
                    boxcol <= j <= boxcol + 3,
                    forall|p: int, q: int|
                        boxrow <= p < i && boxcol <= q < boxcol + 3 && (p != row || q != col)
                            ==> #[trigger] self@.cells[p][q] != n,
                    forall|q: int|
                        boxcol <= q < j && (i != row || q != col) ==> #[trigger] self@.cells[i as int][q]
                            != n,
                decreases boxcol + 3 - j,
            {
                if n == self.grid[i][j] && (i != row || j != col) {
                    assert(self@.cells[i as int][j as int] == n);
                    return false;
                }
                j = j + 1;
            }
            i = i + 1;
        }
        let mut k: usize = 0;
        while k < 9
            invariant
                row < 9,
                col < 9,
                k <= 9,
                forall|p: int| 0 <= p < k && p != row ==> #[trigger] self@.cells[p][col as int] != n,
                forall|q: int| 0 <= q < k && q != col ==> #[trigger] self@.cells[row as int][q] != n,
            decreases 9 - k,
        {
            if n == self.grid[k][col] && k != row || n == self.grid[row][k] && k != col {
                assert(self@.cells[k as int][col as int] == n && k != row || self@.cells[row as int][k as int] == n && k != col);
                return false;
            }
            k = k + 1;
        }
        assert forall|p: int, q: int|
            in_grid(p, q) && peers(row as int, col as int, p, q) implies #[trigger] self@.cells[p][q]
            != n by {
            if p == row {
            } else if q == col {
            } else {
                assert(boxrow <= p < boxrow + 3 && boxcol <= q < boxcol + 3);
            }
        }
        true
    }

    /// Sets or clears the mark of `n` on the cell (`row`, `col`).
    fn set_hint(&mut self, n: u8, row: usize, col: usize, value: bool)
        requires
            row < 9,
            col < 9,
            1 <= n <= 9,
        ensures
            final(self)@.cells == old(self)@.cells,
            final(self)@.marks == old(self)@.marks.update(
                row as int,
                old(self)@.marks[row as int].update(
                    col as int,
                    old(self)@.marks[row as int][col as int].update(n - 1, value),
                ),
            ),
    {
        broadcast use annotations_len;

        let mut a = self.hints[row][col];
        a.set(n, value);
        let mut line = self.hints[row];
        line[col] = a;
        self.hints[row] = line;
        assert(self@.marks =~~= old(self)@.marks.update(
            row as int,
            old(self)@.marks[row as int].update(
                col as int,
                old(self)@.marks[row as int][col as int].update(n - 1, value),
            ),
        ));
    }

    /// Replaces the marks of the cell (`row`, `col`).
    fn set_hints(&mut self, row: usize, col: usize, a: Annotations)
        requires
            row < 9,
            col < 9,
        ensures
            final(self)@.cells == old(self)@.cells,
            final(self)@.marks == old(self)@.marks.update(
                row as int,
                old(self)@.marks[row as int].update(col as int, a@),
            ),
    {
        broadcast use annotations_len;

        let mut line = self.hints[row];
        line[col] = a;
        self.hints[row] = line;
        assert(self@.marks =~~= old(self)@.marks.update(
            row as int,
            old(self)@.marks[row as int].update(col as int, a@),
        ));
    }

    /// Writes `v` into the cell (`row`, `col`) and leaves the marks alone.
    fn set_cell(&mut self, row: usize, col: usize, v: u8)
        requires
            row < 9,
            col < 9,
        ensures
            final(self)@.cells == with_cell(old(self)@.cells, row as int, col as int, v),
            final(self)@.marks == old(self)@.marks,
    {
        let mut line = self.grid[row];
        line[col] = v;
        self.grid[row] = line;
        assert(self@.cells =~~= with_cell(old(self)@.cells, row as int, col as int, v));
        assert(self@.marks =~~= old(self)@.marks);
    }

    /// Builds the board of a grid. Fails when a given is not a digit or a
    /// peer of its cell holds the same digit.
    pub fn from_grid(grid: [[u8; 9]; 9]) -> (r: Result<Sudoku, Error>)
        ensures
            match r {
                Ok(s) => conflict_free(rows(grid)) && s.wf() && s@.cells == rows(grid),
                Err(e) => !conflict_free(rows(grid)) && e == Error::InvalidSudoku,
            },
    {
        let blank = Annotations::new();
        let blank_row = [blank;9];
        let mut s = Sudoku { grid, hints: [blank_row;9] };
        let ghost g = rows(grid);
        assert(s@.cells == g);
        let mut i: usize = 0;
        while i < 9
            invariant
                i <= 9,
                s@.cells == g,
                g == rows(grid),
                forall|p: int, q: int|
                    0 <= p < i && 0 <= q < 9 && #[trigger] g[p][q] != 0 ==> g[p][q] <= 9 && valid_at(
                        g,
                        g[p][q] as int,
                        p,
                        q,
                    ),
                forall|p: int, q: int|
                    0 <= p < i && 0 <= q < 9 ==> #[trigger] s@.marks[p][q] == marks_of(g)[p][q],
                forall|p: int, q: int|
                    i <= p < 9 && 0 <= q < 9 ==> #[trigger] s@.marks[p][q] == no_marks(),
            decreases 9 - i,
        {
            let mut j: usize = 0;
            while j < 9
                invariant
                    i < 9,
                    j <= 9,
                    s@.cells == g,
                    g == rows(grid),
                    forall|p: int, q: int|
                        (0 <= p < i && 0 <= q < 9 || p == i && 0 <= q < j) && #[trigger] g[p][q]
                            != 0 ==> g[p][q] <= 9 && valid_at(g, g[p][q] as int, p, q),
                    forall|p: int, q: int|
                        (0 <= p < i && 0 <= q < 9 || p == i && 0 <= q < j)
                            ==> #[trigger] s@.marks[p][q] == marks_of(g)[p][q],
                    forall|p: int, q: int|
                        (i < p < 9 && 0 <= q < 9 || p == i && j <= q < 9)
                            ==> #[trigger] s@.marks[p][q] == no_marks(),
                decreases 9 - j,
            {
                let v = s.grid[i][j];
                if v != 0 {
                    if !s.is_valid_at(v, i, j) {
                        assert(g[i as int][j as int] == v);
                        return Err(Error::InvalidSudoku);
                    }
                } else {
                    let ghost old_marks = s@.marks;
                    let mut n: u8 = 1;
                    while n < 10
                        invariant
                            i < 9,
                            j < 9,
                            1 <= n <= 10,
                            s@.cells == g,
                            g == rows(grid),
                            g[i as int][j as int] == 0,
                            forall|p: int, q: int|
                                in_grid(p, q) && (p != i || q != j) ==> #[trigger] s@.marks[p][q]
                                    == old_marks[p][q],
                            s@.marks[i as int][j as int].len() == 9,
                            forall|k: int|
                                0 <= k < n - 1 ==> s@.marks[i as int][j as int][k] == valid_at(
                                    g,
                                    k + 1,
                                    i as int,
                                    j as int,
                                ),
                            forall|k: int| n - 1 <= k < 9 ==> !s@.marks[i as int][j as int][k],
                        decreases 10 - n,
                    {
                        if s.is_valid_at(n, i, j) {
                            s.set_hint(n, i, j, true);
                        }
                        n = n + 1;
                    }
                    assert(s@.marks[i as int][j as int] =~= legal_marks(g, i as int, j as int));
                }
                j = j + 1;
            }
            i = i + 1;
        }
        assert(s@.marks =~~= marks_of(g)) by {
            broadcast use sudoku_shaped;

        }
        assert(conflict_free(g));
        assert forall|p: int, q: int| in_grid(p, q) implies #[trigger] s@.cells[p][q] <= 9 by {
            if g[p][q] != 0 {
            }
        }
        Ok(s)
    }

    /// Takes the mark of `n` from the cell (`row`, `col`).
    pub(crate) fn clear_hint(&mut self, n: u8, row: usize, col: usize)
        requires
            row < 9,
            col < 9,
            1 <= n <= 9,
        ensures
            final(self)@ == old(self)@.cleared(n, row as int, col as int),
    {
        self.set_hint(n, row, col, false);
    }

    /// Gives the empty cell (`p`, `q`) the mark of `last` back if it is
    /// another cell than (`row`, `col`) and none of its peers holds `last`.
    fn restore_hint(&mut self, last: u8, row: usize, col: usize, p: usize, q: usize)
        requires
            row < 9,
            col < 9,
            p < 9,
            q < 9,
            1 <= last <= 9,
        ensures
            final(self)@.cells == old(self)@.cells,
            final(self)@.marks == if restorable(
                old(self)@.cells,
                last,
                row as int,
                col as int,
                p as int,
                q as int,
            ) {
                old(self)@.marks.update(
                    p as int,
                    old(self)@.marks[p as int].update(
                        q as int,
                        old(self)@.marks[p as int][q as int].update(last - 1, true),
                    ),
                )
            } else {
                old(self)@.marks
            },
    {
        if (p != row || q != col) && self.grid[p][q] == 0 && self.is_valid_at(last, p, q) {
            self.set_hint(last, p, q, true);
        }
    }

    /// Empties the cell (`row`, `col`) and returns what it held, 0 if it was
    /// empty already.
    pub fn remove_at(&mut self, row: usize, col: usize) -> (last: u8)
        requires
            row < 9,
            col < 9,
            old(self)@.tidy(),
        ensures
            last == old(self)@.cells[row as int][col as int],
            final(self)@ == old(self)@.removed(row as int, col as int),
            final(self)@.tidy(),
            old(self).wf() ==> final(self).wf() && final(self)@.cells == with_cell(
                old(self)@.cells,
                row as int,
                col as int,
                0,
            ),
    {
        broadcast use {sudoku_shaped, annotations_len};

        let ghost b0 = self@;
        proof {
            lemma_removed_tidy(b0, row as int, col as int);
            if b0.wf() {
                lemma_removed_wf(b0, row as int, col as int);
            }
        }
        let last = self.grid[row][col];
        if last == 0 {
            return 0;
        }
        self.set_cell(row, col, 0);
        let ghost cells = self@.cells;
        let boxrow = row / 3 * 3;
        let boxcol = col / 3 * 3;
        let mut k: usize = 0;
        while k < 9
            invariant
                row < 9,
                col < 9,
                k <= 9,
                1 <= last <= 9,
                boxrow == row / 3 * 3,
                boxcol == col / 3 * 3,
                b0.shaped(),
                self@.cells == cells,
                cells == with_cell(b0.cells, row as int, col as int, 0),
                forall|i: int, j: int|
                    in_grid(i, j) ==> #[trigger] self@.marks[i][j] == if touched(
                        row as int,
                        col as int,
                        i,
                        j,
                        k as int,
                    ) && restorable(cells, last, row as int, col as int, i, j) {
                        b0.marks[i][j].update(last - 1, true)
                    } else {
                        b0.marks[i][j]
                    },
            decreases 9 - k,
        {
            let ghost m0 = self@.marks;
            self.restore_hint(last, row, col, row, k);
            let ghost m1 = self@.marks;
            self.restore_hint(last, row, col, k, col);
            let ghost m2 = self@.marks;
            self.restore_hint(last, row, col, boxrow + k / 3, boxcol + k % 3);
            proof {
                let r = row as int;
                let c = col as int;
                let bi = boxrow + k / 3;
                let bj = boxcol + k % 3;
                assert forall|i: int, j: int| in_grid(i, j) implies #[trigger] self@.marks[i][j]
                    == if touched(r, c, i, j, k + 1) && restorable(cells, last, r, c, i, j) {
                    b0.marks[i][j].update(last - 1, true)
                } else {
                    b0.marks[i][j]
                } by {
                    let x = b0.marks[i][j];
                    assert(x.update(last - 1, true).update(last - 1, true) =~= x.update(
                        last - 1,
                        true,
                    ));
                    assert(m0[i][j] == x || m0[i][j] == x.update(last - 1, true));
                    assert(m1[i][j] == m0[i][j] || m1[i][j] == m0[i][j].update(last - 1, true));
                    assert(m2[i][j] == m1[i][j] || m2[i][j] == m1[i][j].update(last - 1, true));
                    let now = touched(r, c, i, j, k + 1) && !touched(r, c, i, j, k as int);
                    if now {
                        assert((i == r && j == k) || (i == k && j == c) || (i == bi && j == bj));
                    }
                    if i == r && j == k {
                    } else if i == k && j == c {
                    } else if i == bi && j == bj {
                    } else {
                        assert(!now);
                    }
                }
            }
            k = k + 1;
        }
        let mut a = Annotations::new();
        let mut n: u8 = 1;
        while n < 10
            invariant
                row < 9,
                col < 9,
                1 <= n <= 10,
                self@.cells == cells,
                a@.len() == 9,
                forall|d: int|
                    0 <= d < n - 1 ==> a@[d] == valid_at(cells, d + 1, row as int, col as int),
            decreases 10 - n,
        {
            let ok = self.is_valid_at(n, row, col);
            a.set(n, ok);
            n = n + 1;
        }
        assert(a@ =~= legal_marks(cells, row as int, col as int));
        self.set_hints(row, col, a);
        assert(self@.marks =~~= b0.removed(row as int, col as int).marks) by {
            let r = row as int;
            let c = col as int;
            let want = b0.removed(r, c).marks;
            assert forall|i: int, j: int| in_grid(i, j) implies #[trigger] self@.marks[i][j]
                == want[i][j] by {
                if i == r && j == c {
                } else {
                    assert(touched(r, c, i, j, 9) == (i == r || j == c || (i / 3 == r / 3 && j / 3
                        == c / 3)));
                }
            }
        }
        last
    }

    /// Writes `n` into the cell (`row`, `col`). What the cell held is removed
    /// first; then the cell loses its marks and every peer the mark of `n`.
    pub fn put_at(&mut self, n: u8, row: usize, col: usize)
        requires
            1 <= n <= 9,
            row < 9,
            col < 9,
            old(self)@.tidy(),
        ensures
            final(self)@ == old(self)@.placed(n, row as int, col as int),
            final(self)@.tidy(),
            old(self).wf() ==> final(self).wf() && final(self)@.cells == with_cell(
                old(self)@.cells,
                row as int,
                col as int,
                n,
            ),
    {
        broadcast use {sudoku_shaped, annotations_len};

        let ghost b0 = self@;
        proof {
            lemma_placed_tidy(b0, n, row as int, col as int);
            if b0.wf() {
                lemma_placed_wf(b0, n, row as int, col as int);
            }
        }
        self.remove_at(row, col);
        let ghost b1 = self@;
        self.set_cell(row, col, n);
        self.set_hints(row, col, Annotations::new());
        let ghost cells = self@.cells;
        let boxrow = row / 3 * 3;
        let boxcol = col / 3 * 3;
        let mut k: usize = 0;
        while k < 9
            invariant
                row < 9,
                col < 9,
                k <= 9,
                1 <= n <= 9,
                boxrow == row / 3 * 3,
                boxcol == col / 3 * 3,
                b1.shaped(),
                self@.cells == cells,
                forall|i: int, j: int|
                    in_grid(i, j) ==> #[trigger] self@.marks[i][j] == if i == row && j == col {
                        no_marks()
                    } else if touched(row as int, col as int, i, j, k as int) {
                        b1.marks[i][j].update(n - 1, false)
                    } else {
                        b1.marks[i][j]
                    },
            decreases 9 - k,
        {
            let ghost m0 = self@.marks;
            self.set_hint(n, row, k, false);
            let ghost m1 = self@.marks;
            self.set_hint(n, k, col, false);
            let ghost m2 = self@.marks;
            self.set_hint(n, boxrow + k / 3, boxcol + k % 3, false);
            proof {
                let r = row as int;
                let c = col as int;
                let bi = boxrow + k / 3;
                let bj = boxcol + k % 3;
                assert(no_marks().update(n - 1, false) =~= no_marks());
                assert forall|i: int, j: int| in_grid(i, j) implies #[trigger] self@.marks[i][j]
                    == if i == r && j == c {
                    no_marks()
                } else if touched(r, c, i, j, k + 1) {
                    b1.marks[i][j].update(n - 1, false)
                } else {
                    b1.marks[i][j]
                } by {
                    let x = b1.marks[i][j];
                    assert(x.update(n - 1, false).update(n - 1, false) =~= x.update(n - 1, false));
                    assert(m1[i][j] == m0[i][j] || m1[i][j] == m0[i][j].update(n - 1, false));
                    assert(m2[i][j] == m1[i][j] || m2[i][j] == m1[i][j].update(n - 1, false));
                    let now = touched(r, c, i, j, k + 1) && !touched(r, c, i, j, k as int);
                    if now {
                        assert((i == r && j == k) || (i == k && j == c) || (i == bi && j == bj));
                    }
                    if i == r && j == k {
                    } else if i == k && j == c {
                    } else if i == bi && j == bj {
                    } else {
                        assert(!now);
                    }
                }
            }
            k = k + 1;
        }
        assert(self@.marks =~~= b0.placed(n, row as int, col as int).marks) by {
            let r = row as int;
            let c = col as int;
            let want = b0.placed(n, r, c).marks;
            assert forall|i: int, j: int| in_grid(i, j) implies #[trigger] self@.marks[i][j]
                == want[i][j] by {
                if i == r && j == c {
                } else {
                    assert(touched(r, c, i, j, 9) == (i == r || j == c || (i / 3 == r / 3 && j / 3
                        == c / 3)));
                }
            }
        }
    }

    /// Returns the empty cells in row-major order, each as row and column.
    pub fn empty_cells(&self) -> (v: Vec<(usize, usize)>)
        ensures
            v@ == empty_among(self@.cells, 81),
    {
        let mut v: Vec<(usize, usize)> = Vec::new();
        let mut i: usize = 0;
        while i < 9
            invariant
                i <= 9,
                v@ == empty_among(self@.cells, 9 * i),
            decreases 9 - i,
        {
            let mut j: usize = 0;
            while j < 9
                invariant
                    i < 9,
                    j <= 9,
                    v@ == empty_among(self@.cells, 9 * i + j),
                decreases 9 - j,
            {
                let ghost k = 9 * i + j;
                assert(k / 9 == i && k % 9 == j);
                if self.grid[i][j] == 0 {
                    v.push((i, j));
                }
                j = j + 1;
            }
            i = i + 1;
        }
        v
    }

    /// Returns whether every cell holds a digit that no peer of it holds.
    pub fn is_solved(&self) -> (b: bool)
        ensures
            b == solved(self@.cells),
    {
        broadcast use sudoku_shaped;

        let mut i: usize = 0;
        while i < 9
            invariant
                i <= 9,
                forall|p: int, q: int|
                    0 <= p < i && 0 <= q < 9 ==> 1 <= #[trigger] self@.cells[p][q] <= 9 && valid_at(
                        self@.cells,
                        self@.cells[p][q] as int,
                        p,
                        q,
                    ),
            decreases 9 - i,
        {
            let mut j: usize = 0;
            while j < 9
                invariant
                    i < 9,
                    j <= 9,
                    forall|p: int, q: int|
                        (0 <= p < i && 0 <= q < 9 || p == i && 0 <= q < j) ==> 1
                            <= #[trigger] self@.cells[p][q] <= 9 && valid_at(
                            self@.cells,
                            self@.cells[p][q] as int,
                            p,
                            q,
                        ),
                decreases 9 - j,
            {
                let v = self.grid[i][j];
                if v == 0 || !self.is_valid_at(v, i, j) {
                    assert(self@.cells[i as int][j as int] == v);
                    return false;
                }
                j = j + 1;
            }
            i = i + 1;
        }
        true
    }

    /// Returns the empty cell with the fewest marks, the first such cell in
    /// row-major order, or `None` if no cell is empty.
    pub fn find_min_poss(&self) -> (r: Option<(usize, usize)>)
        ensures
            match r {
                Some((row, col)) => self@.is_min_cell(row as int, col as int),
                None => self@.full(),
            },
            r matches Some((row, col)) ==> self@.min_cell() == Some((row as int, col as int)),
            r is None ==> self@.min_cell() is None,
    {
        broadcast use {sudoku_shaped, annotations_len};

        let mut min: i32 = 10;
        let mut row: usize = 0;
        let mut col: usize = 0;
        let mut i: usize = 0;
        while i < 9
            invariant
                i <= 9,
                row < 9,
                col < 9,
                0 <= min <= 10,
                min == 10 ==> forall|p: int, q: int|
                    0 <= p < i && 0 <= q < 9 ==> #[trigger] self@.cells[p][q] != 0,
                min < 10 ==> row < i && best_so_far(self@, row as int, col as int, i as int, 0)
                    && min == count_marks(self@.marks[row as int][col as int]),
            decreases 9 - i,
        {
            let mut j: usize = 0;
            while j < 9
                invariant
                    i < 9,
                    j <= 9,
                    row < 9,
                    col < 9,
                    0 <= min <= 10,
                    min == 10 ==> forall|p: int, q: int|
                        (0 <= p < i && 0 <= q < 9 || p == i && 0 <= q < j)
                            ==> #[trigger] self@.cells[p][q] != 0,
                    min < 10 ==> (row < i || row == i && col < j) && best_so_far(
                        self@,
                        row as int,
                        col as int,
                        i as int,
                        j as int,
                    ) && min == count_marks(self@.marks[row as int][col as int]),
                decreases 9 - j,
            {
                let cnt = self.hints[i][j].count();
                if self.grid[i][j] == 0 && cnt < min {
                    min = cnt;
                    row = i;
                    col = j;
                }
                j = j + 1;
            }
            i = i + 1;
        }
        if min == 10 {
            assert forall|r: int, c: int| !self@.is_min_cell(r, c) by {
                if in_grid(r, c) {
                    assert(self@.cells[r][c] != 0);
                }
            }
            None
        } else {
            proof {
                lemma_min_cell_unique(self@, row as int, col as int);
            }
            Some((row, col))
        }
    }
}

/// Whether (`r`, `c`) is the first empty cell with the fewest marks among
/// the cells before (`i`, `j`) in row-major order.
pub open spec fn best_so_far(b: Board, r: int, c: int, i: int, j: int) -> bool {
    &&& in_grid(r, c)
    &&& b.cells[r][c] == 0
    &&& forall|p: int, q: int|
        (0 <= p < i && 0 <= q < 9 || p == i && 0 <= q < j) && #[trigger] b.cells[p][q] == 0 ==> {
            ||| count_marks(b.marks[r][c]) < count_marks(b.marks[p][q])
            ||| (count_marks(b.marks[r][c]) == count_marks(b.marks[p][q]) && (r < p || (r == p && c
                <= q)))
        }
}

/// Whether the loop over the row, the column and the block of (`r`, `c`)
/// has reached the cell (`i`, `j`) within its first `k` rounds.
pub open spec fn touched(r: int, c: int, i: int, j: int, k: int) -> bool {
    ||| (i == r && j < k)
    ||| (j == c && i < k)
    ||| (i / 3 == r / 3 && j / 3 == c / 3 && (i % 3) * 3 + j % 3 < k)
}

/// Whether the empty cell (`i`, `j`) is another cell than (`r`, `c`) and
/// none of its peers holds `last`.
pub open spec fn restorable(g: Seq<Seq<u8>>, last: u8, r: int, c: int, i: int, j: int) -> bool {
    (i != r || j != c) && g[i][j] == 0 && valid_at(g, last as int, i, j)
}

/// The empty cells among the first `k` cells of a grid in row-major order.
pub open spec fn empty_among(g: Seq<Seq<u8>>, k: int) -> Seq<(usize, usize)>
    decreases k,
{
    if k <= 0 {
        Seq::empty()
    } else if g[(k - 1) / 9][(k - 1) % 9] == 0 {
        empty_among(g, k - 1).push((((k - 1) / 9) as usize, ((k - 1) % 9) as usize))
    } else {
        empty_among(g, k - 1)
    }
}

/// A cell is listed among the empty ones exactly when it is one of the
/// first `k` cells and empty.
pub proof fn lemma_empty_among_contains(g: Seq<Seq<u8>>, k: int, r: usize, c: usize)
    requires
        0 <= k <= 81,
    ensures
        empty_among(g, k).contains((r, c)) <==> r < 9 && c < 9 && 9 * r + c < k && g[r as int][c as int]
            == 0,
    decreases k,
{
    if k > 0 {
        lemma_empty_among_contains(g, k - 1, r, c);
        let prev = empty_among(g, k - 1);
        let i = (k - 1) / 9;
        let j = (k - 1) % 9;
        if g[i][j] == 0 {
            let cur = prev.push((i as usize, j as usize));
            if prev.contains((r, c)) {
                let u = choose|u: int| 0 <= u < prev.len() && prev[u] == (r, c);
                assert(cur[u] == (r, c));
            }
            if r == i && c == j {
                assert(cur[prev.len() as int] == (r, c));
            }
        }
    }
}

} // verus!
