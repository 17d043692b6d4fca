//! The generator: a random full board, dug out cell by cell as long as the
//! puzzle keeps exactly one solution.

use rand::Rng;
use rand::StdRng;
use vstd::prelude::*;
use vstd::seq_lib::to_multiset_contains;
use crate::annotations::lemma_marked_digits_contains;
use crate::board::{
    completes, conflict_free, grid_shaped, in_grid, lemma_place_then_remove, lemma_placed_wf,
    lemma_remove_then_place, lemma_wf_tidy, peers, solved, uniquely_solvable, valid_at,
    with_cell, Board,
};
use crate::solver::{lemma_admits_wf, solvable};
use crate::sudoku::{rows, sudoku_shaped, Sudoku};

verus! {

/// `rand::StdRng`, the random number generator that the library draws from.
/// Nothing is stated of what it holds.
#[verifier::external_type_specification]
#[verifier::external_body]
pub struct ExStdRng(StdRng);

/// Calls `rand::Rng::shuffle` on the items of `values`. The call swaps items
/// of the slice with each other, so the items after it are those before it
/// in some order; which order is not stated.
#[verifier::external_body]
pub(crate) fn shuffle<T>(rng: &mut StdRng, values: &mut Vec<T>)
    ensures
        final(values)@.to_multiset() == old(values)@.to_multiset(),
{
    rng.shuffle(values.as_mut_slice());
}

/// Calls `rand::Rng::choose` on the items of `values`. The call returns
/// nothing for an empty slice and else the item at an index below the
/// length; which index is not stated.
#[verifier::external_body]
pub(crate) fn pick<T: Copy>(rng: &mut StdRng, values: &Vec<T>) -> (r: Option<T>)
    ensures
        match r {
            Some(x) => values@.contains(x),
            None => values@.len() == 0,
        },
{
    rng.choose(values.as_slice()).copied()
}

/// A solved grid: the digits of each row are those of the row above, moved
/// on by three cells, or by one more where a new band of blocks begins.
pub open spec fn pattern() -> Seq<Seq<u8>> {
    Seq::new(9, |r: int| Seq::new(9, |c: int| (((r % 3) * 3 + r / 3 + c) % 9 + 1) as u8))
}

/// The pattern is a solved grid, so the empty grid has a solution.
pub proof fn lemma_pattern_solved()
    ensures
        solved(pattern()),
{
    let g = pattern();
    assert forall|r: int, c: int| in_grid(r, c) implies 1 <= #[trigger] g[r][c] <= 9 && valid_at(
        g,
        g[r][c] as int,
        r,
        c,
    ) by {
        assert forall|i: int, j: int| in_grid(i, j) && peers(r, c, i, j) implies #[trigger] g[i][j]
            != g[r][c] by {
            let a = (r % 3) * 3 + r / 3 + c;
            let b = (i % 3) * 3 + i / 3 + j;
            assert(g[r][c] == a % 9 + 1);
            assert(g[i][j] == b % 9 + 1);
            assert(a % 9 != b % 9);
        }
    }
}

/// Two sequences with the same items in some order contain the same items.
pub proof fn lemma_permuted_contains<T>(a: Seq<T>, b: Seq<T>, x: T)
    requires
        a.to_multiset() == b.to_multiset(),
    ensures
        a.contains(x) <==> b.contains(x),
{
    to_multiset_contains(a, x);
    to_multiset_contains(b, x);
}

/// On an empty cell of a well-formed board, the digit that a solution has
/// there is marked, and the solution still solves the puzzle with that digit
/// written into the cell.
pub proof fn lemma_solution_digit(b: Board, g: Seq<Seq<u8>>, r: int, c: int)
    requires
        b.wf(),
        completes(g, b.cells),
        in_grid(r, c),
        b.cells[r][c] == 0,
    ensures
        1 <= g[r][c] <= 9,
        b.marks[r][c][g[r][c] - 1],
        completes(g, with_cell(b.cells, r, c, g[r][c])),
{
    lemma_admits_wf(b, g);
    let h = with_cell(b.cells, r, c, g[r][c]);
    assert forall|i: int, j: int| in_grid(i, j) && #[trigger] h[i][j] != 0 implies g[i][j]
        == h[i][j] by {
        if i == r && j == c {
        } else {
            assert(h[i][j] == b.cells[i][j]);
        }
    }
}

/// A full grid that has a solution is solved.
pub proof fn lemma_full_solvable(g: Seq<Seq<u8>>)
    requires
        grid_shaped(g),
        forall|r: int, c: int| in_grid(r, c) ==> #[trigger] g[r][c] != 0,
        solvable(g),
    ensures
        solved(g),
{
    let h = choose|h: Seq<Seq<u8>>| #[trigger] completes(h, g);
    assert forall|r: int, c: int| in_grid(r, c) implies h[r][c] == g[r][c] by {
        assert(g[r][c] != 0);
    }
    assert(h =~~= g);
}

/// A solved grid is its own and only solution.
pub proof fn lemma_solved_unique(g: Seq<Seq<u8>>)
    requires
        solved(g),
    ensures
        uniquely_solvable(g),
{
    assert(completes(g, g));
    assert forall|h: Seq<Seq<u8>>| #[trigger] completes(h, g) implies h == g by {
        assert forall|r: int, c: int| in_grid(r, c) implies h[r][c] == g[r][c] by {
            assert(g[r][c] != 0);
        }
        assert(h =~~= g);
    }
}

/// Whether every given of `g` is needed: without any one of them the puzzle
/// has no longer exactly one solution.
pub open spec fn every_given_needed(g: Seq<Seq<u8>>) -> bool {
    forall|r: int, c: int|
        in_grid(r, c) && #[trigger] g[r][c] != 0 ==> !uniquely_solvable(with_cell(g, r, c, 0))
}

/// A puzzle that has a solution and keeps every given of a puzzle with
/// exactly one solution has exactly one solution too.
pub proof fn lemma_unique_with_more_givens(small: Seq<Seq<u8>>, big: Seq<Seq<u8>>)
    requires
        forall|r: int, c: int| in_grid(r, c) && #[trigger] small[r][c] != 0 ==> big[r][c] == small[r][c],
        uniquely_solvable(small),
        solvable(big),
    ensures
        uniquely_solvable(big),
{
    let g = choose|g: Seq<Seq<u8>>|
        #[trigger] completes(g, small) && forall|h: Seq<Seq<u8>>|
            #[trigger] completes(h, small) ==> h == g;
    let k = choose|k: Seq<Seq<u8>>| #[trigger] completes(k, big);
    assert forall|h: Seq<Seq<u8>>| #[trigger] completes(h, big) implies completes(h, small) by {
        assert forall|r: int, c: int| in_grid(r, c) && #[trigger] small[r][c] != 0 implies h[r][c]
            == small[r][c] by {
            assert(big[r][c] == small[r][c]);
        }
    }
    assert(completes(k, small));
    assert(k == g);
    assert(completes(g, big));
}

/// A puzzle that keeps only givens of a puzzle with a solution has a
/// solution too.
pub proof fn lemma_solvable_with_fewer_givens(small: Seq<Seq<u8>>, big: Seq<Seq<u8>>)
    requires
        forall|r: int, c: int| in_grid(r, c) && #[trigger] small[r][c] != 0 ==> big[r][c] == small[r][c],
        solvable(big),
    ensures
        solvable(small),
{
    let k = choose|k: Seq<Seq<u8>>| #[trigger] completes(k, big);
    assert forall|r: int, c: int| in_grid(r, c) && #[trigger] small[r][c] != 0 implies k[r][c]
        == small[r][c] by {
        assert(big[r][c] == small[r][c]);
    }
    assert(completes(k, small));
}

/// Where a given is needed in a puzzle with exactly one solution, it is
/// still needed after another cell was emptied.
pub proof fn lemma_needed_after_removal(g: Seq<Seq<u8>>, r: int, c: int, i: int, j: int)
    requires
        grid_shaped(g),
        in_grid(r, c),
        in_grid(i, j),
        uniquely_solvable(g),
        !uniquely_solvable(with_cell(g, r, c, 0)),
    ensures
        !uniquely_solvable(with_cell(with_cell(g, i, j, 0), r, c, 0)),
{
    let small = with_cell(with_cell(g, i, j, 0), r, c, 0);
    let big = with_cell(g, r, c, 0);
    let k = choose|k: Seq<Seq<u8>>|
        #[trigger] completes(k, g) && forall|h: Seq<Seq<u8>>| #[trigger] completes(h, g) ==> h == k;
    assert(solvable(g));
    assert forall|p: int, q: int| in_grid(p, q) && #[trigger] big[p][q] != 0 implies g[p][q]
        == big[p][q] by {}
    lemma_solvable_with_fewer_givens(big, g);
    if uniquely_solvable(small) {
        assert forall|p: int, q: int| in_grid(p, q) && #[trigger] small[p][q] != 0 implies big[p][q]
            == small[p][q] by {}
        lemma_unique_with_more_givens(small, big);
    }
}

/// The first of `digits`, from the index `k` on, with which the puzzle `g`
/// still has a solution when it is written into the cell (`r`, `c`).
pub open spec fn first_fit(g: Seq<Seq<u8>>, digits: Seq<u8>, r: int, c: int, k: int) -> Option<u8>
    decreases digits.len() - k,
{
    if k < 0 || k >= digits.len() {
        None
    } else if solvable(with_cell(g, r, c, digits[k])) {
        Some(digits[k])
    } else {
        first_fit(g, digits, r, c, k + 1)
    }
}

/// Where one of the digits from the index `k` on fits, there is a first
/// that fits.
pub proof fn lemma_first_fit(g: Seq<Seq<u8>>, digits: Seq<u8>, r: int, c: int, k: int, u: int)
    requires
        0 <= k <= u < digits.len(),
        solvable(with_cell(g, r, c, digits[u])),
    ensures
        first_fit(g, digits, r, c, k) is Some,
    decreases u - k,
{
    if k < u && !solvable(with_cell(g, r, c, digits[k])) {
        lemma_first_fit(g, digits, r, c, k + 1, u);
    }
}

/// The first digit that fits does fit.
pub proof fn lemma_first_fit_fits(g: Seq<Seq<u8>>, digits: Seq<u8>, r: int, c: int, k: int)
    requires
        0 <= k,
    ensures
        first_fit(g, digits, r, c, k) matches Some(d) ==> solvable(with_cell(g, r, c, d)),
    decreases digits.len() - k,
{
    if k < digits.len() && !solvable(with_cell(g, r, c, digits[k])) {
        lemma_first_fit_fits(g, digits, r, c, k + 1);
    }
}

/// The puzzle `g` after the first `k` of the cells `ps` were visited in
/// turn: each was emptied if the puzzle had exactly one solution without
/// it.
pub open spec fn dug(g: Seq<Seq<u8>>, ps: Seq<(usize, usize)>, k: int) -> Seq<Seq<u8>>
    decreases k,
{
    if k <= 0 {
        g
    } else {
        let prev = dug(g, ps, k - 1);
        let without = with_cell(prev, ps[k - 1].0 as int, ps[k - 1].1 as int, 0);
        if uniquely_solvable(without) {
            without
        } else {
            prev
        }
    }
}

/// Digging keeps the shape of the grid, and a puzzle with exactly one
/// solution keeps exactly one.
pub proof fn lemma_dug_unique(g: Seq<Seq<u8>>, ps: Seq<(usize, usize)>, k: int)
    requires
        grid_shaped(g),
        0 <= k <= ps.len(),
        forall|u: int| 0 <= u < ps.len() ==> (#[trigger] ps[u]).0 < 9 && ps[u].1 < 9,
    ensures
        grid_shaped(dug(g, ps, k)),
        uniquely_solvable(g) ==> uniquely_solvable(dug(g, ps, k)),
    decreases k,
{
    if k > 0 {
        lemma_dug_unique(g, ps, k - 1);
        assert(ps[k - 1].0 < 9);
    }
}

/// After a puzzle with exactly one solution was dug, every given that is
/// left in a cell that was visited is needed.
pub proof fn lemma_dug_needed(g: Seq<Seq<u8>>, ps: Seq<(usize, usize)>, k: int, u: int)
    requires
        grid_shaped(g),
        uniquely_solvable(g),
        0 <= u < k <= ps.len(),
        forall|v: int| 0 <= v < ps.len() ==> (#[trigger] ps[v]).0 < 9 && ps[v].1 < 9,
        dug(g, ps, k)[ps[u].0 as int][ps[u].1 as int] != 0,
    ensures
        !uniquely_solvable(with_cell(dug(g, ps, k), ps[u].0 as int, ps[u].1 as int, 0)),
    decreases k,
{
    let prev = dug(g, ps, k - 1);
    let r = ps[u].0 as int;
    let c = ps[u].1 as int;
    let i = ps[k - 1].0 as int;
    let j = ps[k - 1].1 as int;
    assert(ps[u].0 < 9 && ps[k - 1].0 < 9);
    let without = with_cell(prev, i, j, 0);
    lemma_dug_unique(g, ps, k - 1);
    if u < k - 1 {
        if uniquely_solvable(without) {
            assert(prev[r][c] != 0);
            lemma_dug_needed(g, ps, k - 1, u);
            lemma_needed_after_removal(prev, r, c, i, j);
        } else {
            lemma_dug_needed(g, ps, k - 1, u);
        }
    }
}

impl Sudoku {
    /// Returns a random solved board. It fills the empty board cell by cell
    /// in row-major order; in each cell it tries the marked digits in random
    /// order and keeps the first with which the board still has a solution.
    pub fn generate_filled(rng: &mut StdRng) -> (s: Sudoku)
        ensures
            s.wf(),
            solved(s@.cells),
    {
        broadcast use sudoku_shaped;

        let blank = [[0u8;9];9];
        let made = Sudoku::from_grid(blank);
        proof {
            assert forall|r: int, c: int| in_grid(r, c) implies #[trigger] rows(blank)[r][c]
                == 0 by {}
            assert(conflict_free(rows(blank)));
        }
        let mut s = made.unwrap();
        proof {
            lemma_pattern_solved();
            assert(completes(pattern(), s@.cells));
        }
        let mut i: usize = 0;
        while i < 9
            invariant
                i <= 9,
                s.wf(),
                solvable(s@.cells),
                forall|p: int, q: int| 0 <= p < i && 0 <= q < 9 ==> #[trigger] s@.cells[p][q] != 0,
                forall|p: int, q: int| i <= p < 9 && 0 <= q < 9 ==> #[trigger] s@.cells[p][q] == 0,
            decreases 9 - i,
        {
            let mut j: usize = 0;
            while j < 9
                invariant
                    i < 9,
                    j <= 9,
                    s.wf(),
                    solvable(s@.cells),
                    forall|p: int, q: int|
                        (0 <= p < i && 0 <= q < 9 || p == i && 0 <= q < j)
                            ==> #[trigger] s@.cells[p][q] != 0,
                    forall|p: int, q: int|
                        (i < p < 9 && 0 <= q < 9 || p == i && j <= q < 9)
                            ==> #[trigger] s@.cells[p][q] == 0,
                decreases 9 - j,
            {
                s.fill_cell(rng, i, j);
                j = j + 1;
            }
            i = i + 1;
        }
        proof {
            lemma_full_solvable(s@.cells);
        }
        s
    }

    /// Returns a random puzzle with exactly one solution. It takes a random
    /// solved board and visits every cell once, in random order; it empties
    /// the cell and writes the digit back if the puzzle has no longer
    /// exactly one solution without it. So every given that is left is
    /// needed, though fewer givens may do in other places.
    pub fn generate(rng: &mut StdRng) -> (s: Sudoku)
        ensures
            s.wf(),
            uniquely_solvable(s@.cells),
            every_given_needed(s@.cells),
    {
        broadcast use sudoku_shaped;

        let mut s = Sudoku::generate_filled(rng);
        let mut positions: Vec<(usize, usize)> = Vec::new();
        let mut i: usize = 0;
        while i < 9
            invariant
                i <= 9,
                forall|u: int|
                    0 <= u < positions.len() ==> (#[trigger] positions[u]).0 < 9 && positions[u].1
                        < 9,
                forall|p: usize, q: usize| p < i && q < 9 ==> positions@.contains((p, q)),
            decreases 9 - i,
        {
            let mut j: usize = 0;
            while j < 9
                invariant
                    i < 9,
                    j <= 9,
                    forall|u: int|
                        0 <= u < positions.len() ==> (#[trigger] positions[u]).0 < 9
                            && positions[u].1 < 9,
                    forall|p: usize, q: usize|
                        (p < i && q < 9 || p == i && q < j) ==> positions@.contains((p, q)),
                decreases 9 - j,
            {
                let ghost before = positions@;
                positions.push((i, j));
                proof {
                    assert forall|p: usize, q: usize|
                        (p < i && q < 9 || p == i && q < j + 1) implies positions@.contains(
                        (p, q),
                    ) by {
                        if p == i && q == j {
                            assert(positions@[before.len() as int] == (p, q));
                        } else {
                            assert(before.contains((p, q)));
                            let u = choose|u: int| 0 <= u < before.len() && before[u] == (p, q);
                            assert(positions@[u] == (p, q));
                        }
                    }
                }
                j = j + 1;
            }
            i = i + 1;
        }
        let ghost ordered = positions@;
        shuffle(rng, &mut positions);
        proof {
            assert forall|u: int| 0 <= u < positions.len() implies (#[trigger] positions[u]).0 < 9
                && positions[u].1 < 9 by {
                assert(positions@.contains(positions[u]));
                lemma_permuted_contains(positions@, ordered, positions[u]);
                let v = choose|v: int| 0 <= v < ordered.len() && ordered[v] == positions[u];
                assert(ordered[v].0 < 9);
            }
        }
        let ghost filled = s@.cells;
        s.dig(&positions);
        proof {
            let n = positions@.len() as int;
            lemma_solved_unique(filled);
            lemma_dug_unique(filled, positions@, n);
            assert forall|r: int, c: int| in_grid(r, c) && #[trigger] s@.cells[r][c]
                != 0 implies !uniquely_solvable(with_cell(s@.cells, r, c, 0)) by {
                let p = (r as usize, c as usize);
                assert(ordered.contains(p));
                lemma_permuted_contains(positions@, ordered, p);
                let u = choose|u: int| 0 <= u < positions@.len() && positions@[u] == p;
                lemma_dug_needed(filled, positions@, n, u);
            }
        }
        s
    }

    /// Visits the cells `positions` in turn; it empties each and writes the
    /// digit back if the puzzle has not exactly one solution without it.
    pub fn dig(&mut self, positions: &Vec<(usize, usize)>)
        requires
            old(self).wf(),
            forall|u: int|
                0 <= u < positions.len() ==> (#[trigger] positions[u]).0 < 9 && positions[u].1 < 9,
        ensures
            final(self).wf(),
            final(self)@.cells == dug(old(self)@.cells, positions@, positions@.len() as int),
    {
        broadcast use sudoku_shaped;

        let mut t: usize = 0;
        while t < positions.len()
            invariant
                t <= positions.len(),
                self.wf(),
                self@.cells == dug(old(self)@.cells, positions@, t as int),
                forall|u: int|
                    0 <= u < positions.len() ==> (#[trigger] positions[u]).0 < 9 && positions[u].1
                        < 9,
            decreases positions.len() - t,
        {
            let (row, col) = positions[t];
            let ghost b0 = self@;
            proof {
                lemma_wf_tidy(b0);
            }
            let removed = self.remove_at(row, col);
            if removed != 0 && !self.has_unique_solution() {
                proof {
                    lemma_remove_then_place(b0, row as int, col as int);
                    lemma_wf_tidy(self@);
                }
                self.put_at(removed, row, col);
            } else if removed == 0 {
                assert(self@.cells =~~= with_cell(b0.cells, row as int, col as int, 0));
            }
            t = t + 1;
        }
    }

    /// Writes into the empty cell (`row`, `col`) the first of `digits` with
    /// which the board still has a solution, and returns it; if there is
    /// none it leaves the board as it is.
    pub fn try_digits(&mut self, digits: &Vec<u8>, row: usize, col: usize) -> (found: Option<u8>)
        requires
            row < 9,
            col < 9,
            old(self).wf(),
            old(self)@.cells[row as int][col as int] == 0,
            forall|u: int| 0 <= u < digits.len() ==> 1 <= #[trigger] digits[u] <= 9,
        ensures
            found == first_fit(old(self)@.cells, digits@, row as int, col as int, 0),
            found matches Some(d) ==> 1 <= d <= 9,
            final(self)@ == match found {
                Some(d) => old(self)@.placed(d, row as int, col as int),
                None => old(self)@,
            },
            final(self).wf(),
    {
        broadcast use sudoku_shaped;

        let ghost b0 = self@;
        let ghost r = row as int;
        let ghost c = col as int;
        let mut t: usize = 0;
        while t < digits.len()
            invariant
                row < 9,
                col < 9,
                r == row,
                c == col,
                t <= digits.len(),
                self@ == b0,
                b0 == old(self)@,
                b0.wf(),
                b0.cells[r][c] == 0,
                forall|u: int| 0 <= u < digits.len() ==> 1 <= #[trigger] digits[u] <= 9,
                first_fit(b0.cells, digits@, r, c, 0) == first_fit(b0.cells, digits@, r, c, t as int),
            decreases digits.len() - t,
        {
            let n = digits[t];
            proof {
                lemma_wf_tidy(b0);
                lemma_place_then_remove(b0, n, r, c);
            }
            self.put_at(n, row, col);
            if self.has_solution() {
                return Some(n);
            }
            self.remove_at(row, col);
            t = t + 1;
        }
        None
    }

    /// Writes into the empty cell (`row`, `col`) of a board that has a
    /// solution one of its marked digits, the first in a random order with
    /// which the board still has a solution.
    fn fill_cell(&mut self, rng: &mut StdRng, row: usize, col: usize)
        requires
            row < 9,
            col < 9,
            old(self).wf(),
            solvable(old(self)@.cells),
            old(self)@.cells[row as int][col as int] == 0,
        ensures
            final(self).wf(),
            solvable(final(self)@.cells),
            final(self)@.cells == with_cell(
                old(self)@.cells,
                row as int,
                col as int,
                final(self)@.cells[row as int][col as int],
            ),
            final(self)@.cells[row as int][col as int] != 0,
    {
        broadcast use sudoku_shaped;

        let ghost b0 = self@;
        let ghost r = row as int;
        let ghost c = col as int;
        let marks = self.hints(row, col);
        let mut poss = marks.list();
        let ghost listed = poss@;
        shuffle(rng, &mut poss);
        proof {
            assert forall|u: int| 0 <= u < poss.len() implies 1 <= #[trigger] poss[u] <= 9 by {
                assert(poss@.contains(poss[u]));
                lemma_permuted_contains(poss@, listed, poss[u]);
                lemma_marked_digits_contains(marks@, 9, poss[u]);
            }
        }
        let found = self.try_digits(&poss, row, col);
        proof {
            let g = choose|g: Seq<Seq<u8>>| #[trigger] completes(g, b0.cells);
            lemma_solution_digit(b0, g, r, c);
            let d = g[r][c];
            lemma_marked_digits_contains(marks@, 9, d);
            lemma_permuted_contains(poss@, listed, d);
            let u = choose|u: int| 0 <= u < poss@.len() && poss@[u] == d;
            assert(completes(g, with_cell(b0.cells, r, c, poss@[u])));
            lemma_first_fit(b0.cells, poss@, r, c, 0, u);
            lemma_first_fit_fits(b0.cells, poss@, r, c, 0);
            lemma_placed_wf(b0, found->0, r, c);
        }
    }
}

} // verus!
