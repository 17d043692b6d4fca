//! The mathematical model of a board: a grid of cells and, for every cell,
//! nine marks for the digits it may still take.

use vstd::prelude::*;
use crate::annotations::{count_marks, no_marks};

verus! {

/// Whether (`r`, `c`) names a cell of the grid.
pub open spec fn in_grid(r: int, c: int) -> bool {
    0 <= r < 9 && 0 <= c < 9
}

/// Whether (`i`, `j`) is another cell in the row, the column or the 3x3 block
/// of (`r`, `c`).
pub open spec fn peers(r: int, c: int, i: int, j: int) -> bool {
    &&& (i != r || j != c)
    &&& (i == r || j == c || (i / 3 == r / 3 && j / 3 == c / 3))
}

/// Whether `g` has nine rows of nine cells.
pub open spec fn grid_shaped(g: Seq<Seq<u8>>) -> bool {
    &&& g.len() == 9
    &&& forall|r: int| 0 <= r < 9 ==> (#[trigger] g[r]).len() == 9
}

/// Whether no peer of (`r`, `c`) holds `n`.
pub open spec fn valid_at(g: Seq<Seq<u8>>, n: int, r: int, c: int) -> bool {
    forall|i: int, j: int| in_grid(i, j) && peers(r, c, i, j) ==> #[trigger] g[i][j] != n
}

/// Whether every given of `g` is a digit that no peer of its cell holds.
pub open spec fn conflict_free(g: Seq<Seq<u8>>) -> bool {
    forall|r: int, c: int|
        in_grid(r, c) && #[trigger] g[r][c] != 0 ==> g[r][c] <= 9 && valid_at(
            g,
            g[r][c] as int,
            r,
            c,
        )
}

/// Whether every cell of `g` holds a digit that no peer of the cell holds.
pub open spec fn solved(g: Seq<Seq<u8>>) -> bool {
    &&& grid_shaped(g)
    &&& forall|r: int, c: int|
        in_grid(r, c) ==> 1 <= #[trigger] g[r][c] <= 9 && valid_at(g, g[r][c] as int, r, c)
}

/// Whether `g` keeps every given of `base`.
pub open spec fn extends(g: Seq<Seq<u8>>, base: Seq<Seq<u8>>) -> bool {
    forall|r: int, c: int|
        in_grid(r, c) && #[trigger] base[r][c] != 0 ==> g[r][c] == base[r][c]
}

/// Whether `g` is a solution of the puzzle `base`.
pub open spec fn completes(g: Seq<Seq<u8>>, base: Seq<Seq<u8>>) -> bool {
    solved(g) && extends(g, base)
}

/// Whether the puzzle `base` has exactly one solution.
pub open spec fn uniquely_solvable(base: Seq<Seq<u8>>) -> bool {
    exists|g: Seq<Seq<u8>>|
        #[trigger] completes(g, base) && forall|h: Seq<Seq<u8>>|
            #[trigger] completes(h, base) ==> h == g
}

/// The grid `g` with `n` written into (`r`, `c`).
pub open spec fn with_cell(g: Seq<Seq<u8>>, r: int, c: int, n: u8) -> Seq<Seq<u8>> {
    g.update(r, g[r].update(c, n))
}

/// The marks of the digits that no peer of (`r`, `c`) holds.
pub open spec fn legal_marks(g: Seq<Seq<u8>>, r: int, c: int) -> Seq<bool> {
    Seq::new(9, |k: int| valid_at(g, k + 1, r, c))
}

/// The marks that belong to the grid `g`: none on an occupied cell, and on an
/// empty cell the digits that no peer holds.
pub open spec fn marks_of(g: Seq<Seq<u8>>) -> Seq<Seq<Seq<bool>>> {
    Seq::new(
        9,
        |r: int| Seq::new(9, |c: int| if g[r][c] == 0 { legal_marks(g, r, c) } else { no_marks() }),
    )
}

/// A board: the cells, 0 for an empty one, and the marks of every cell, that
/// of digit `n` at index `n - 1`.
pub struct Board {
    pub cells: Seq<Seq<u8>>,
    pub marks: Seq<Seq<Seq<bool>>>,
}

impl Board {
    /// Nine rows of nine cells, each with nine marks.
    pub open spec fn shaped(self) -> bool {
        &&& grid_shaped(self.cells)
        &&& self.marks.len() == 9
        &&& forall|r: int| 0 <= r < 9 ==> (#[trigger] self.marks[r]).len() == 9
        &&& forall|r: int, c: int| in_grid(r, c) ==> (#[trigger] self.marks[r][c]).len() == 9
    }

    /// Every cell is empty or a digit, and an occupied cell has no marks.
    pub open spec fn tidy(self) -> bool {
        &&& self.shaped()
        &&& forall|r: int, c: int| in_grid(r, c) ==> #[trigger] self.cells[r][c] <= 9
        &&& forall|r: int, c: int|
            in_grid(r, c) && self.cells[r][c] != 0 ==> #[trigger] self.marks[r][c] == no_marks()
    }

    /// Every cell is empty or a digit, and the marks are those of the grid.
    pub open spec fn wf(self) -> bool {
        &&& grid_shaped(self.cells)
        &&& forall|r: int, c: int| in_grid(r, c) ==> #[trigger] self.cells[r][c] <= 9
        &&& self.marks == marks_of(self.cells)
    }

    /// The board after the cell (`r`, `c`) was emptied. Each empty peer gets
    /// the mark of the digit that left back unless another of its peers
    /// still holds that digit, and the cell gets the marks of the digits that
    /// none of its peers holds.
    pub open spec fn removed(self, r: int, c: int) -> Board {
        let last = self.cells[r][c];
        let cells = with_cell(self.cells, r, c, 0);
        if last == 0 {
            self
        } else {
            Board {
                cells,
                marks: Seq::new(
                    9,
                    |i: int|
                        Seq::new(
                            9,
                            |j: int|
                                if i == r && j == c {
                                    legal_marks(cells, r, c)
                                } else if peers(r, c, i, j) && cells[i][j] == 0 && valid_at(
                                    cells,
                                    last as int,
                                    i,
                                    j,
                                ) {
                                    self.marks[i][j].update(last - 1, true)
                                } else {
                                    self.marks[i][j]
                                },
                        ),
                ),
            }
        }
    }

    /// The board after `n` was written into (`r`, `c`): what the cell held
    /// is removed first, then the cell loses its marks and every peer the
    /// mark of `n`.
    pub open spec fn placed(self, n: u8, r: int, c: int) -> Board {
        let b = self.removed(r, c);
        Board {
            cells: with_cell(b.cells, r, c, n),
            marks: Seq::new(
                9,
                |i: int|
                    Seq::new(
                        9,
                        |j: int|
                            if i == r && j == c {
                                no_marks()
                            } else if peers(r, c, i, j) {
                                b.marks[i][j].update(n - 1, false)
                            } else {
                                b.marks[i][j]
                            },
                    ),
            ),
        }
    }

    /// The board with the mark of `n` taken from (`r`, `c`).
    pub open spec fn cleared(self, n: u8, r: int, c: int) -> Board {
        Board {
            cells: self.cells,
            marks: self.marks.update(r, self.marks[r].update(c, self.marks[r][c].update(n - 1, false))),
        }
    }

    /// Whether (`r`, `c`) is the empty cell with the fewest marks, the first
    /// such cell in row-major order.
    pub open spec fn is_min_cell(self, r: int, c: int) -> bool {
        &&& in_grid(r, c)
        &&& self.cells[r][c] == 0
        &&& forall|i: int, j: int|
            in_grid(i, j) && #[trigger] self.cells[i][j] == 0 ==> {
                ||| count_marks(self.marks[r][c]) < count_marks(self.marks[i][j])
                ||| (count_marks(self.marks[r][c]) == count_marks(self.marks[i][j]) && (r < i || (r
                    == i && c <= j)))
            }
    }

    /// The empty cell with the fewest marks, if any cell is empty.
    pub open spec fn min_cell(self) -> Option<(int, int)> {
        if exists|r: int, c: int| self.is_min_cell(r, c) {
            Some(choose|p: (int, int)| self.is_min_cell(p.0, p.1))
        } else {
            None
        }
    }

    /// Whether no cell is empty.
    pub open spec fn full(self) -> bool {
        forall|r: int, c: int| in_grid(r, c) ==> #[trigger] self.cells[r][c] != 0
    }

    /// The number of marks set among the first `k` cells in row-major order.
    pub open spec fn weight_upto(self, k: int) -> int
        decreases k,
    {
        if k <= 0 {
            0
        } else {
            self.weight_upto(k - 1) + count_marks(self.marks[(k - 1) / 9][(k - 1) % 9])
        }
    }

    /// The number of marks set on the whole board.
    pub open spec fn weight(self) -> int {
        self.weight_upto(81)
    }
}

/// A well-formed board is tidy.
pub proof fn lemma_wf_tidy(b: Board)
    requires
        b.wf(),
    ensures
        b.tidy(),
{
}

/// On a well-formed board an empty cell has the mark of a digit exactly
/// when no cell in its row, its column or its block holds that digit, and an
/// occupied cell has no mark.
pub proof fn lemma_marks_exact(b: Board, r: int, c: int, n: int)
    requires
        b.wf(),
        in_grid(r, c),
        1 <= n <= 9,
    ensures
        b.marks[r][c][n - 1] <==> b.cells[r][c] == 0 && valid_at(b.cells, n, r, c),
{
}

/// Writing into a cell changes what is valid at another cell only for the
/// digit that left and the digit that came, and only at the cell's peers.
pub proof fn lemma_valid_at_with_cell(g: Seq<Seq<u8>>, r: int, c: int, v: u8, n: int, i: int, j: int)
    requires
        grid_shaped(g),
        in_grid(r, c),
        in_grid(i, j),
        peers(i, j, r, c) ==> g[r][c] != n && v != n,
    ensures
        valid_at(with_cell(g, r, c, v), n, i, j) == valid_at(g, n, i, j),
{
    let h = with_cell(g, r, c, v);
    if valid_at(g, n, i, j) {
        assert forall|p: int, q: int| in_grid(p, q) && peers(i, j, p, q) implies #[trigger] h[p][q]
            != n by {
            if p == r && q == c {
            } else {
                assert(h[p][q] == g[p][q]);
            }
        }
    }
    if valid_at(h, n, i, j) {
        assert forall|p: int, q: int| in_grid(p, q) && peers(i, j, p, q) implies #[trigger] g[p][q]
            != n by {
            if p == r && q == c {
            } else {
                assert(h[p][q] == g[p][q]);
            }
        }
    }
}

/// Emptying a cell of a well-formed board gives the well-formed board of the
/// grid without that cell.
pub proof fn lemma_removed_wf(b: Board, r: int, c: int)
    requires
        b.wf(),
        in_grid(r, c),
    ensures
        b.removed(r, c).wf(),
        b.removed(r, c).cells == with_cell(b.cells, r, c, 0),
{
    let last = b.cells[r][c];
    let cells = with_cell(b.cells, r, c, 0);
    let a = b.removed(r, c);
    if last == 0 {
        assert(cells =~~= b.cells);
    } else {
        assert forall|i: int, j: int| in_grid(i, j) implies #[trigger] a.marks[i][j] == marks_of(
            cells,
        )[i][j] by {
            if i == r && j == c {
            } else {
                assert(cells[i][j] == b.cells[i][j]);
                assert(b.marks[i][j] == marks_of(b.cells)[i][j]);
                if cells[i][j] == 0 {
                    assert forall|k: int| 0 <= k < 9 implies a.marks[i][j][k] == legal_marks(
                        cells,
                        i,
                        j,
                    )[k] by {
                        if peers(r, c, i, j) && k == last - 1 {
                            assert(b.cells[r][c] == last);
                            assert(!valid_at(b.cells, last as int, i, j));
                        } else {
                            lemma_valid_at_with_cell(b.cells, r, c, 0, k + 1, i, j);
                        }
                    }
                    assert(a.marks[i][j] =~= legal_marks(cells, i, j));
                }
            }
        }
        assert(a.marks =~~= marks_of(cells));
    }
}

/// Writing a digit into a cell of a well-formed board gives the well-formed
/// board of the grid with that digit.
pub proof fn lemma_placed_wf(b: Board, n: u8, r: int, c: int)
    requires
        b.wf(),
        in_grid(r, c),
        1 <= n <= 9,
    ensures
        b.placed(n, r, c).wf(),
        b.placed(n, r, c).cells == with_cell(b.cells, r, c, n),
{
    lemma_removed_wf(b, r, c);
    let a = b.removed(r, c);
    let p = b.placed(n, r, c);
    let cells = with_cell(b.cells, r, c, n);
    assert(p.cells =~~= cells);
    assert forall|i: int, j: int| in_grid(i, j) implies #[trigger] p.marks[i][j] == marks_of(
        cells,
    )[i][j] by {
        if i == r && j == c {
        } else {
            assert(cells[i][j] == a.cells[i][j]);
            assert(a.marks[i][j] == marks_of(a.cells)[i][j]);
            if cells[i][j] == 0 {
                assert forall|k: int| 0 <= k < 9 implies p.marks[i][j][k] == legal_marks(
                    cells,
                    i,
                    j,
                )[k] by {
                    if peers(r, c, i, j) && k == n - 1 {
                        assert(cells[r][c] == n);
                        assert(!valid_at(cells, n as int, i, j));
                    } else {
                        lemma_valid_at_with_cell(a.cells, r, c, n, k + 1, i, j);
                        assert(with_cell(a.cells, r, c, n) =~~= cells);
                    }
                }
                assert(p.marks[i][j] =~= legal_marks(cells, i, j));
            } else {
                assert(p.marks[i][j] =~= no_marks());
            }
        }
    }
    assert(p.marks =~~= marks_of(cells));
}

/// On a well-formed board with the cell (`r`, `c`) empty, writing a digit
/// into the cell and emptying it again gives the board back.
pub proof fn lemma_place_then_remove(b: Board, n: u8, r: int, c: int)
    requires
        b.wf(),
        in_grid(r, c),
        1 <= n <= 9,
        b.cells[r][c] == 0,
    ensures
        b.placed(n, r, c).removed(r, c) == b,
{
    lemma_placed_wf(b, n, r, c);
    let p = b.placed(n, r, c);
    lemma_removed_wf(p, r, c);
    assert(p.removed(r, c).cells =~~= b.cells);
}

/// On a well-formed board with the cell (`r`, `c`) occupied, emptying the
/// cell and writing the digit back gives the board back.
pub proof fn lemma_remove_then_place(b: Board, r: int, c: int)
    requires
        b.wf(),
        in_grid(r, c),
        b.cells[r][c] != 0,
    ensures
        b.removed(r, c).placed(b.cells[r][c], r, c) == b,
{
    lemma_removed_wf(b, r, c);
    let a = b.removed(r, c);
    lemma_placed_wf(a, b.cells[r][c], r, c);
    assert(a.placed(b.cells[r][c], r, c).cells =~~= b.cells);
}

/// At most one cell is the empty cell with the fewest marks, so it is the
/// one that `min_cell` names.
pub proof fn lemma_min_cell_unique(b: Board, r: int, c: int)
    requires
        b.is_min_cell(r, c),
    ensures
        b.min_cell() == Some((r, c)),
{
    assert(b.is_min_cell((r, c).0, (r, c).1));
    let p = choose|p: (int, int)| b.is_min_cell(p.0, p.1);
    assert(b.is_min_cell(p.0, p.1));
    assert(b.cells[p.0][p.1] == 0);
    assert(b.cells[r][c] == 0);
}

/// Emptying a cell of a tidy board gives a tidy board.
pub proof fn lemma_removed_tidy(b: Board, r: int, c: int)
    requires
        b.tidy(),
        in_grid(r, c),
    ensures
        b.removed(r, c).tidy(),
{
    let a = b.removed(r, c);
    if b.cells[r][c] != 0 {
        assert forall|i: int, j: int| in_grid(i, j) implies #[trigger] a.cells[i][j] <= 9 by {
            if i == r && j == c {
            } else {
                assert(a.cells[i][j] == b.cells[i][j]);
            }
        }
        assert forall|i: int, j: int| in_grid(i, j) && a.cells[i][j] != 0 implies #[trigger] a.marks[i][j]
            == no_marks() by {
            assert(a.cells[i][j] == b.cells[i][j]);
            assert(b.marks[i][j] == no_marks());
        }
    }
}

/// Writing a digit into a cell of a tidy board gives a tidy board.
pub proof fn lemma_placed_tidy(b: Board, n: u8, r: int, c: int)
    requires
        b.tidy(),
        in_grid(r, c),
        1 <= n <= 9,
    ensures
        b.placed(n, r, c).tidy(),
{
    lemma_removed_tidy(b, r, c);
    let a = b.removed(r, c);
    let p = b.placed(n, r, c);
    assert(no_marks().update(n - 1, false) =~= no_marks());
    assert forall|i: int, j: int| in_grid(i, j) implies #[trigger] p.cells[i][j] <= 9 by {
        if i == r && j == c {
        } else {
            assert(p.cells[i][j] == a.cells[i][j]);
        }
    }
    assert forall|i: int, j: int| in_grid(i, j) && p.cells[i][j] != 0 implies #[trigger] p.marks[i][j]
        == no_marks() by {
        if i == r && j == c {
        } else {
            assert(p.cells[i][j] == a.cells[i][j]);
            assert(a.marks[i][j] == no_marks());
        }
    }
}

/// Taking a mark from a cell of a tidy board gives a tidy board.
pub proof fn lemma_cleared_tidy(b: Board, n: u8, r: int, c: int)
    requires
        b.tidy(),
        in_grid(r, c),
        1 <= n <= 9,
    ensures
        b.cleared(n, r, c).tidy(),
{
    let p = b.cleared(n, r, c);
    assert(no_marks().update(n - 1, false) =~= no_marks());
    assert forall|i: int, j: int| in_grid(i, j) && p.cells[i][j] != 0 implies #[trigger] p.marks[i][j]
        == no_marks() by {
        assert(b.marks[i][j] == no_marks());
    }
}

/// A full tidy board is well-formed.
pub proof fn lemma_full_tidy_wf(b: Board)
    requires
        b.tidy(),
        b.full(),
    ensures
        b.wf(),
{
    assert forall|r: int, c: int| in_grid(r, c) implies #[trigger] b.marks[r][c] == marks_of(
        b.cells,
    )[r][c] by {
        assert(b.cells[r][c] != 0);
    }
    assert(b.marks =~~= marks_of(b.cells));
}

} // verus!
