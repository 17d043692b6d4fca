//! The solver: a depth-first search over boards that yields every solution
//! of a puzzle once, in a fixed order, one call at a time.

use vstd::prelude::*;
use crate::annotations::{annotations_len, count_marks, is_lowest_mark, lowest_mark, no_marks};
use crate::board::{
    completes, in_grid, lemma_cleared_tidy, lemma_full_tidy_wf, lemma_placed_tidy, marks_of,
    peers, solved, uniquely_solvable, valid_at, Board,
};
use crate::sudoku::{sudoku_shaped, Sudoku};

verus! {

/// The solutions that the search finds below the board `b`, in the order in
/// which it finds them. The search branches on the empty cell with the
/// fewest marks; there it first tries the least marked digit, then the
/// board without that mark. A board with an empty cell that has no mark is a
/// dead end.
pub open spec fn search(b: Board) -> Seq<Board>
    decreases b.weight(),
    via search_decreases
{
    if !b.shaped() {
        Seq::empty()
    } else {
        match b.min_cell() {
            None => if solved(b.cells) {
                seq![b]
            } else {
                Seq::empty()
            },
            Some((r, c)) => match lowest_mark(b.marks[r][c]) {
                None => Seq::empty(),
                Some(n) => search(b.placed(n, r, c)) + search(b.cleared(n, r, c)),
            },
        }
    }
}

#[via_fn]
proof fn search_decreases(b: Board) {
    if b.shaped() {
        match b.min_cell() {
            None => {},
            Some((r, c)) => {
                match lowest_mark(b.marks[r][c]) {
                    None => {},
                    Some(n) => {
                        lemma_branch_weights(b, n, r, c);
                    },
                }
            },
        }
    }
}

/// What `min_cell` names is an empty cell of the grid.
pub proof fn lemma_min_cell_is_min(b: Board, r: int, c: int)
    requires
        b.min_cell() == Some((r, c)),
    ensures
        b.is_min_cell(r, c),
{
    let (i, j) = choose|i: int, j: int| b.is_min_cell(i, j);
    let p = (i, j);
    assert(b.is_min_cell(p.0, p.1));
}

/// Where no cell is named by `min_cell`, the board is full.
pub proof fn lemma_no_min_cell_full(b: Board)
    requires
        b.shaped(),
        b.min_cell() is None,
    ensures
        b.full(),
{
    if !b.full() {
        let (r, c) = choose|r: int, c: int| in_grid(r, c) && b.cells[r][c] == 0;
        lemma_some_min_cell(b, 81);
        assert(in_grid(r, c) && r * 9 + c < 81 && b.cells[r][c] == 0);
        let (i, j) = choose|i: int, j: int| min_among(b, i, j, 81);
        assert(b.is_min_cell(i, j));
    }
}

/// Whether (`r`, `c`) is the first empty cell with the fewest marks among the
/// first `k` cells in row-major order.
pub open spec fn min_among(b: Board, r: int, c: int, k: int) -> bool {
    &&& in_grid(r, c)
    &&& r * 9 + c < k
    &&& b.cells[r][c] == 0
    &&& forall|i: int, j: int|
        in_grid(i, j) && i * 9 + j < k && #[trigger] b.cells[i][j] == 0 ==> {
            ||| count_marks(b.marks[r][c]) < count_marks(b.marks[i][j])
            ||| (count_marks(b.marks[r][c]) == count_marks(b.marks[i][j]) && (r < i || (r == i && c
                <= j)))
        }
}

/// Among the first `k` cells, if one is empty then one is the first with the
/// fewest marks.
pub proof fn lemma_some_min_cell(b: Board, k: int)
    requires
        0 <= k <= 81,
    ensures
        (exists|i: int, j: int| in_grid(i, j) && i * 9 + j < k && b.cells[i][j] == 0) ==> (exists|
            r: int,
            c: int,
        | min_among(b, r, c, k)),
        k == 81 ==> forall|r: int, c: int| min_among(b, r, c, k) ==> b.is_min_cell(r, c),
    decreases k,
{
    if k > 0 {
        lemma_some_min_cell(b, k - 1);
        let i0 = (k - 1) / 9;
        let j0 = (k - 1) % 9;
        if exists|i: int, j: int| in_grid(i, j) && i * 9 + j < k && b.cells[i][j] == 0 {
            if exists|i: int, j: int| in_grid(i, j) && i * 9 + j < k - 1 && b.cells[i][j] == 0 {
                let k1 = k - 1;
                let (r, c) = choose|r: int, c: int| min_among(b, r, c, k1);
                if b.cells[i0][j0] == 0 && count_marks(b.marks[i0][j0]) < count_marks(
                    b.marks[r][c],
                ) {
                    assert(min_among(b, i0, j0, k)) by {
                        assert forall|i: int, j: int|
                            in_grid(i, j) && i * 9 + j < k && #[trigger] b.cells[i][j]
                                == 0 implies {
                            ||| count_marks(b.marks[i0][j0]) < count_marks(b.marks[i][j])
                            ||| (count_marks(b.marks[i0][j0]) == count_marks(b.marks[i][j]) && (i0
                                < i || (i0 == i && j0 <= j)))
                        } by {
                            if i * 9 + j < k - 1 {
                            } else {
                                assert(i == i0 && j == j0);
                            }
                        }
                    }
                } else {
                    assert(min_among(b, r, c, k)) by {
                        assert forall|i: int, j: int|
                            in_grid(i, j) && i * 9 + j < k && #[trigger] b.cells[i][j]
                                == 0 implies {
                            ||| count_marks(b.marks[r][c]) < count_marks(b.marks[i][j])
                            ||| (count_marks(b.marks[r][c]) == count_marks(b.marks[i][j]) && (r < i
                                || (r == i && c <= j)))
                        } by {
                            if i * 9 + j < k - 1 {
                            } else {
                                assert(i == i0 && j == j0);
                            }
                        }
                    }
                }
            } else {
                let (i, j) = choose|i: int, j: int|
                    in_grid(i, j) && i * 9 + j < k && b.cells[i][j] == 0;
                assert(i == i0 && j == j0);
                assert(min_among(b, i0, j0, k)) by {
                    assert forall|i: int, j: int|
                        in_grid(i, j) && i * 9 + j < k && #[trigger] b.cells[i][j] == 0 implies {
                        ||| count_marks(b.marks[i0][j0]) < count_marks(b.marks[i][j])
                        ||| (count_marks(b.marks[i0][j0]) == count_marks(b.marks[i][j]) && (i0 < i
                            || (i0 == i && j0 <= j)))
                    } by {
                        if i * 9 + j < k - 1 {
                        } else {
                            assert(i == i0 && j == j0);
                        }
                    }
                }
            }
        }
    }
    if k == 81 {
        assert forall|r: int, c: int| min_among(b, r, c, k) implies b.is_min_cell(r, c) by {
            assert forall|i: int, j: int| in_grid(i, j) && #[trigger] b.cells[i][j] == 0 implies {
                ||| count_marks(b.marks[r][c]) < count_marks(b.marks[i][j])
                ||| (count_marks(b.marks[r][c]) == count_marks(b.marks[i][j]) && (r < i || (r == i
                    && c <= j)))
            } by {
                assert(i * 9 + j < 81);
            }
        }
    }
}

/// The weight of a board is not negative.
pub proof fn lemma_weight_nonneg(b: Board, k: int)
    ensures
        b.weight_upto(k) >= 0,
    decreases k,
{
    if k > 0 {
        lemma_weight_nonneg(b, k - 1);
    }
}

/// A board that has at every cell at most the marks of another, and fewer
/// at (`r`, `c`), weighs less.
pub proof fn lemma_weight_less(a: Board, b: Board, r: int, c: int, k: int)
    requires
        0 <= k <= 81,
        in_grid(r, c),
        forall|i: int, j: int|
            in_grid(i, j) ==> count_marks(#[trigger] a.marks[i][j]) <= count_marks(b.marks[i][j]),
        count_marks(a.marks[r][c]) < count_marks(b.marks[r][c]),
    ensures
        a.weight_upto(k) <= b.weight_upto(k),
        k > r * 9 + c ==> a.weight_upto(k) < b.weight_upto(k),
    decreases k,
{
    if k > 0 {
        lemma_weight_less(a, b, r, c, k - 1);
        let i = (k - 1) / 9;
        let j = (k - 1) % 9;
        assert(in_grid(i, j));
        assert(count_marks(a.marks[i][j]) <= count_marks(b.marks[i][j]));
        if k - 1 == r * 9 + c {
            assert(i == r && j == c);
        }
    }
}

/// Taking a mark away does not add to the count, and lowers it if the mark
/// was set.
pub proof fn lemma_count_without(m: Seq<bool>, k: int)
    requires
        m.len() == 9,
        0 <= k < 9,
    ensures
        count_marks(m.update(k, false)) <= count_marks(m),
        m[k] ==> count_marks(m.update(k, false)) < count_marks(m),
        count_marks(no_marks()) == 0,
        0 <= count_marks(m),
{
}

/// Writing a marked digit into an empty cell lowers the weight of the board.
pub proof fn lemma_placed_weight(b: Board, n: u8, r: int, c: int)
    requires
        b.shaped(),
        in_grid(r, c),
        b.cells[r][c] == 0,
        1 <= n <= 9,
        b.marks[r][c][n - 1],
    ensures
        0 <= b.placed(n, r, c).weight() < b.weight(),
{
    let p = b.placed(n, r, c);
    lemma_weight_nonneg(p, 81);
    assert(b.removed(r, c) == b);
    assert forall|i: int, j: int| in_grid(i, j) implies count_marks(#[trigger] p.marks[i][j])
        <= count_marks(b.marks[i][j]) by {
        lemma_count_without(b.marks[i][j], n - 1);
        if i == r && j == c {
            assert(p.marks[i][j] == no_marks());
        } else if peers(r, c, i, j) {
            assert(p.marks[i][j] == b.marks[i][j].update(n - 1, false));
        } else {
            assert(p.marks[i][j] == b.marks[i][j]);
        }
    }
    assert(count_marks(p.marks[r][c]) < count_marks(b.marks[r][c])) by {
        lemma_count_without(b.marks[r][c], n - 1);
        assert(p.marks[r][c] == no_marks());
    }
    lemma_weight_less(p, b, r, c, 81);
}

/// Taking a set mark from a cell lowers the weight of the board.
pub proof fn lemma_cleared_weight(b: Board, n: u8, r: int, c: int)
    requires
        b.shaped(),
        in_grid(r, c),
        1 <= n <= 9,
        b.marks[r][c][n - 1],
    ensures
        0 <= b.cleared(n, r, c).weight() < b.weight(),
{
    let q = b.cleared(n, r, c);
    lemma_weight_nonneg(q, 81);
    assert forall|i: int, j: int| in_grid(i, j) implies count_marks(#[trigger] q.marks[i][j])
        <= count_marks(b.marks[i][j]) by {
        lemma_count_without(b.marks[i][j], n - 1);
        if i == r && j == c {
            assert(q.marks[i][j] == b.marks[i][j].update(n - 1, false));
        } else {
            assert(q.marks[i][j] == b.marks[i][j]);
        }
    }
    assert(count_marks(q.marks[r][c]) < count_marks(b.marks[r][c])) by {
        lemma_count_without(b.marks[r][c], n - 1);
        assert(q.marks[r][c] == b.marks[r][c].update(n - 1, false));
    }
    lemma_weight_less(q, b, r, c, 81);
}

/// Both branches of the search at the cell (`r`, `c`), an empty cell on
/// which `n` is marked, weigh less than the board they come from.
pub proof fn lemma_branch_weights(b: Board, n: u8, r: int, c: int)
    requires
        b.shaped(),
        b.min_cell() == Some((r, c)),
        lowest_mark(b.marks[r][c]) == Some(n),
    ensures
        0 <= b.placed(n, r, c).weight() < b.weight(),
        0 <= b.cleared(n, r, c).weight() < b.weight(),
        in_grid(r, c),
        b.cells[r][c] == 0,
        is_lowest_mark(b.marks[r][c], n as int),
{
    lemma_min_cell_is_min(b, r, c);
    let d = choose|d: int| is_lowest_mark(b.marks[r][c], d);
    assert(is_lowest_mark(b.marks[r][c], d));
    assert(d == n);
    lemma_placed_weight(b, n, r, c);
    lemma_cleared_weight(b, n, r, c);
}

/// Whether `g` is a solution that the board `b` still admits: it keeps the
/// givens of `b`, and on every empty cell of `b` it has a digit that is
/// marked there.
pub open spec fn admits(b: Board, g: Seq<Seq<u8>>) -> bool {
    &&& solved(g)
    &&& forall|r: int, c: int|
        in_grid(r, c) ==> if #[trigger] b.cells[r][c] != 0 {
            g[r][c] == b.cells[r][c]
        } else {
            b.marks[r][c][g[r][c] - 1]
        }
}

/// A well-formed board admits exactly the solutions of its grid.
pub proof fn lemma_admits_wf(b: Board, g: Seq<Seq<u8>>)
    requires
        b.wf(),
    ensures
        admits(b, g) <==> completes(g, b.cells),
{
    if completes(g, b.cells) {
        assert forall|r: int, c: int| in_grid(r, c) implies if #[trigger] b.cells[r][c] != 0 {
            g[r][c] == b.cells[r][c]
        } else {
            b.marks[r][c][g[r][c] - 1]
        } by {
            if b.cells[r][c] == 0 {
                let d = g[r][c];
                assert(1 <= d <= 9 && valid_at(g, d as int, r, c));
                assert(b.marks[r][c] == marks_of(b.cells)[r][c]);
                assert forall|i: int, j: int| in_grid(i, j) && peers(r, c, i, j) implies #[trigger] b.cells[i][j]
                    != d by {
                    if b.cells[i][j] != 0 {
                        assert(g[i][j] == b.cells[i][j]);
                    }
                }
                assert(valid_at(b.cells, d as int, r, c));
            }
        }
    }
    if admits(b, g) {
        assert forall|r: int, c: int| in_grid(r, c) && #[trigger] b.cells[r][c] != 0 implies g[r][c]
            == b.cells[r][c] by {}
    }
}

/// After a marked digit was written into an empty cell, the board admits
/// the solutions that it admitted before and that have this digit there.
pub proof fn lemma_admits_placed(b: Board, n: u8, r: int, c: int, g: Seq<Seq<u8>>)
    requires
        b.shaped(),
        in_grid(r, c),
        b.cells[r][c] == 0,
        1 <= n <= 9,
        b.marks[r][c][n - 1],
    ensures
        admits(b.placed(n, r, c), g) <==> admits(b, g) && g[r][c] == n,
{
    let p = b.placed(n, r, c);
    assert(b.removed(r, c) == b);
    if admits(p, g) {
        assert(p.cells[r][c] == n);
        assert(g[r][c] == n);
        assert forall|i: int, j: int| in_grid(i, j) implies if #[trigger] b.cells[i][j] != 0 {
            g[i][j] == b.cells[i][j]
        } else {
            b.marks[i][j][g[i][j] - 1]
        } by {
            if i == r && j == c {
            } else {
                assert(p.cells[i][j] == b.cells[i][j]);
                assert(1 <= g[i][j] <= 9);
                if b.cells[i][j] == 0 {
                    assert(p.marks[i][j][g[i][j] - 1]);
                }
            }
        }
    }
    if admits(b, g) && g[r][c] == n {
        assert forall|i: int, j: int| in_grid(i, j) implies if #[trigger] p.cells[i][j] != 0 {
            g[i][j] == p.cells[i][j]
        } else {
            p.marks[i][j][g[i][j] - 1]
        } by {
            if i == r && j == c {
                assert(p.cells[i][j] == n);
            } else {
                assert(p.cells[i][j] == b.cells[i][j]);
                assert(1 <= g[i][j] <= 9);
                if b.cells[i][j] == 0 {
                    assert(b.marks[i][j][g[i][j] - 1]);
                    if peers(r, c, i, j) {
                        assert(valid_at(g, g[r][c] as int, r, c));
                        assert(g[i][j] != n);
                    }
                }
            }
        }
    }
}

/// After a mark was taken from an empty cell, the board admits the solutions
/// that it admitted before and that have another digit there.
pub proof fn lemma_admits_cleared(b: Board, n: u8, r: int, c: int, g: Seq<Seq<u8>>)
    requires
        b.shaped(),
        in_grid(r, c),
        b.cells[r][c] == 0,
        1 <= n <= 9,
    ensures
        admits(b.cleared(n, r, c), g) <==> admits(b, g) && g[r][c] != n,
{
    let q = b.cleared(n, r, c);
    if admits(q, g) {
        assert(q.cells[r][c] == 0);
        assert(1 <= g[r][c] <= 9);
        assert(q.marks[r][c][g[r][c] - 1]);
        assert forall|i: int, j: int| in_grid(i, j) implies if #[trigger] b.cells[i][j] != 0 {
            g[i][j] == b.cells[i][j]
        } else {
            b.marks[i][j][g[i][j] - 1]
        } by {
            assert(q.cells[i][j] == b.cells[i][j]);
            assert(1 <= g[i][j] <= 9);
            if b.cells[i][j] == 0 {
                assert(q.marks[i][j][g[i][j] - 1]);
            }
        }
    }
    if admits(b, g) && g[r][c] != n {
        assert forall|i: int, j: int| in_grid(i, j) implies if #[trigger] q.cells[i][j] != 0 {
            g[i][j] == q.cells[i][j]
        } else {
            q.marks[i][j][g[i][j] - 1]
        } by {
            assert(q.cells[i][j] == b.cells[i][j]);
            assert(1 <= g[i][j] <= 9);
            if b.cells[i][j] == 0 {
                assert(b.marks[i][j][g[i][j] - 1]);
            }
        }
    }
}

/// Marks of which one is set have a least set one.
pub proof fn lemma_lowest_exists(m: Seq<bool>, k: int)
    requires
        0 <= k < 9,
        m[k],
    ensures
        lowest_mark(m) is Some,
    decreases k,
{
    if forall|d: int| 0 <= d < k ==> !#[trigger] m[d] {
        assert(is_lowest_mark(m, k + 1));
    } else {
        let d = choose|d: int| 0 <= d < k && #[trigger] m[d];
        lemma_lowest_exists(m, d);
    }
}

/// Every board that the search finds is a well-formed solved board that the
/// board searched admits.
pub proof fn lemma_search_sound(b: Board, i: int)
    requires
        b.tidy(),
        0 <= i < search(b).len(),
    ensures
        search(b)[i].wf(),
        admits(b, search(b)[i].cells),
    decreases b.weight(),
{
    match b.min_cell() {
        None => {
            lemma_no_min_cell_full(b);
            lemma_full_tidy_wf(b);
        },
        Some((r, c)) => {
            match lowest_mark(b.marks[r][c]) {
                None => {},
                Some(n) => {
                    lemma_branch_weights(b, n, r, c);
                    let p = b.placed(n, r, c);
                    let q = b.cleared(n, r, c);
                    lemma_placed_tidy(b, n, r, c);
                    lemma_cleared_tidy(b, n, r, c);
                    if i < search(p).len() {
                        lemma_search_sound(p, i);
                        lemma_admits_placed(b, n, r, c, search(p)[i].cells);
                    } else {
                        let j = i - search(p).len();
                        lemma_search_sound(q, j);
                        lemma_admits_cleared(b, n, r, c, search(q)[j].cells);
                    }
                },
            }
        },
    }
}

/// The search finds every solution that the board admits.
pub proof fn lemma_search_complete(b: Board, g: Seq<Seq<u8>>) -> (i: int)
    requires
        b.tidy(),
        admits(b, g),
    ensures
        0 <= i < search(b).len(),
        search(b)[i].cells == g,
    decreases b.weight(),
{
    match b.min_cell() {
        None => {
            lemma_no_min_cell_full(b);
            assert forall|r: int, c: int| in_grid(r, c) implies g[r][c] == b.cells[r][c] by {
                assert(b.cells[r][c] != 0);
            }
            assert(g =~~= b.cells);
            0
        },
        Some((r, c)) => {
            lemma_min_cell_is_min(b, r, c);
            assert(b.cells[r][c] == 0);
            assert(1 <= g[r][c] <= 9);
            assert(b.marks[r][c][g[r][c] - 1]);
            lemma_lowest_exists(b.marks[r][c], g[r][c] - 1);
            let n = lowest_mark(b.marks[r][c])->0;
            lemma_branch_weights(b, n, r, c);
            let p = b.placed(n, r, c);
            let q = b.cleared(n, r, c);
            lemma_placed_tidy(b, n, r, c);
            lemma_cleared_tidy(b, n, r, c);
            lemma_admits_placed(b, n, r, c, g);
            lemma_admits_cleared(b, n, r, c, g);
            if g[r][c] == n {
                lemma_search_complete(p, g)
            } else {
                let j = lemma_search_complete(q, g);
                search(p).len() + j
            }
        },
    }
}

/// The search finds no solution twice.
pub proof fn lemma_search_distinct(b: Board, i: int, j: int)
    requires
        b.tidy(),
        0 <= i < j < search(b).len(),
    ensures
        search(b)[i].cells != search(b)[j].cells,
    decreases b.weight(),
{
    match b.min_cell() {
        None => {},
        Some((r, c)) => {
            match lowest_mark(b.marks[r][c]) {
                None => {},
                Some(n) => {
                    lemma_branch_weights(b, n, r, c);
                    let p = b.placed(n, r, c);
                    let q = b.cleared(n, r, c);
                    lemma_placed_tidy(b, n, r, c);
                    lemma_cleared_tidy(b, n, r, c);
                    let k = search(p).len() as int;
                    if j < k {
                        lemma_search_distinct(p, i, j);
                    } else if i >= k {
                        lemma_search_distinct(q, i - k, j - k);
                    } else {
                        lemma_search_sound(p, i);
                        lemma_search_sound(q, j - k);
                        lemma_admits_placed(b, n, r, c, search(p)[i].cells);
                        lemma_admits_cleared(b, n, r, c, search(q)[j - k].cells);
                    }
                },
            }
        },
    }
}

/// The solutions that are still to come from a stack of boards, the top of
/// the stack last in `stack`: those below the top board first.
pub open spec fn pending(stack: Seq<Board>) -> Seq<Board>
    decreases stack.len(),
{
    if stack.len() == 0 {
        Seq::empty()
    } else {
        search(stack.last()) + pending(stack.drop_last())
    }
}

/// A bound on the steps that the search takes below a board of weight `w`.
pub open spec fn cost(w: int) -> int
    decreases w,
{
    if w <= 0 {
        1
    } else {
        3 * cost(w - 1)
    }
}

/// A bound on the steps that the search takes on a stack of boards.
pub open spec fn stack_cost(stack: Seq<Board>) -> int
    decreases stack.len(),
{
    if stack.len() == 0 {
        0
    } else {
        cost(stack.last().weight()) + stack_cost(stack.drop_last())
    }
}

/// The bound grows with the weight and is at least 1.
pub proof fn lemma_cost_monotonic(v: int, w: int)
    requires
        v <= w,
    ensures
        1 <= cost(v) <= cost(w),
    decreases w,
{
    if w > 0 {
        if v < w {
            lemma_cost_monotonic(v, w - 1);
        } else {
            lemma_cost_monotonic(v - 1, w - 1);
        }
    }
}

/// The bound of a stack is not negative.
pub proof fn lemma_stack_cost_nonneg(stack: Seq<Board>)
    ensures
        stack_cost(stack) >= 0,
    decreases stack.len(),
{
    if stack.len() > 0 {
        lemma_stack_cost_nonneg(stack.drop_last());
        lemma_cost_monotonic(stack.last().weight(), stack.last().weight());
    }
}

/// The solutions of a board, handed out one at a time.
pub struct Solutions {
    /// The boards that are still to be searched, the next one last.
    stack: Vec<Sudoku>,
}

impl Solutions {
    /// The boards that are still to be searched, the next one last.
    pub closed spec fn boards(&self) -> Seq<Board> {
        self.stack@.map_values(|s: Sudoku| s@)
    }

    /// Every board that is still to be searched is tidy.
    pub open spec fn wf(&self) -> bool {
        forall|i: int| 0 <= i < self.boards().len() ==> (#[trigger] self.boards()[i]).tidy()
    }

    /// The solutions that are still to come, in the order in which they come.
    pub open spec fn remaining(&self) -> Seq<Board> {
        pending(self.boards())
    }

    /// Returns the next solution, or `None` when there is none left.
    pub fn next(&mut self) -> (r: Option<Sudoku>)
        requires
            old(self).wf(),
        ensures
            final(self).wf(),
            match r {
                Some(s) => {
                    &&& old(self).remaining().len() > 0
                    &&& s@ == old(self).remaining()[0]
                    &&& final(self).remaining() == old(self).remaining().skip(1)
                    &&& s.wf()
                    &&& solved(s@.cells)
                },
                None => old(self).remaining().len() == 0 && final(self).remaining().len() == 0,
            },
    {
        broadcast use {sudoku_shaped, annotations_len};

        loop
            invariant
                self.wf(),
                self.remaining() == old(self).remaining(),
            decreases stack_cost(self.boards()),
        {
            let ghost before = self.boards();
            proof {
                lemma_stack_cost_nonneg(before);
            }
            let mut s = match self.stack.pop() {
                None => {
                    return None;
                },
                Some(s) => s,
            };
            let ghost rest = self.boards();
            let ghost b = s@;
            proof {
                assert(rest =~= before.drop_last());
                assert(b == before.last());
                assert(b.tidy());
                lemma_stack_cost_nonneg(rest);
                lemma_cost_monotonic(b.weight(), b.weight());
            }
            match s.find_min_poss() {
                None => {
                    if s.is_solved() {
                        proof {
                            lemma_full_tidy_wf(b);
                            assert(search(b) =~= seq![b]);
                            assert(pending(before) =~= seq![b] + pending(rest));
                            assert(pending(rest) =~= pending(before).skip(1));
                        }
                        return Some(s);
                    }
                    proof {
                        assert(search(b) =~= Seq::<Board>::empty());
                        assert(pending(before) =~= pending(rest));
                    }
                },
                Some((row, col)) => {
                    let marks = s.hints(row, col);
                    match marks.lowest() {
                        None => {
                            proof {
                                assert(search(b) =~= Seq::<Board>::empty());
                                assert(pending(before) =~= pending(rest));
                            }
                        },
                        Some(n) => {
                            let mut tmp = s.clone();
                            s.clear_hint(n, row, col);
                            tmp.put_at(n, row, col);
                            self.stack.push(s);
                            self.stack.push(tmp);
                            proof {
                                let r = row as int;
                                let c = col as int;
                                let q = b.cleared(n, r, c);
                                let p = b.placed(n, r, c);
                                lemma_branch_weights(b, n, r, c);
                                lemma_cleared_tidy(b, n, r, c);
                                let mid = rest.push(q);
                                let after = mid.push(p);
                                assert(self.boards() =~= after);
                                assert(after.drop_last() =~= mid);
                                assert(mid.drop_last() =~= rest);
                                assert(search(b) == search(p) + search(q));
                                assert(mid.last() == q);
                                assert(after.last() == p);
                                assert(pending(mid) == search(q) + pending(rest));
                                assert(pending(after) == search(p) + pending(mid));
                                assert(stack_cost(mid) == cost(q.weight()) + stack_cost(rest));
                                assert(stack_cost(after) == cost(p.weight()) + stack_cost(mid));
                                assert(pending(before) =~= (search(p) + search(q)) + pending(rest));
                                assert(stack_cost(after) == cost(p.weight()) + cost(q.weight())
                                    + stack_cost(rest));
                                lemma_cost_monotonic(p.weight(), b.weight() - 1);
                                lemma_cost_monotonic(q.weight(), b.weight() - 1);
                                assert(cost(b.weight()) == 3 * cost(b.weight() - 1));
                            }
                        },
                    }
                },
            }
        }
    }
}

/// Whether a puzzle has a solution.
pub open spec fn solvable(base: Seq<Seq<u8>>) -> bool {
    exists|g: Seq<Seq<u8>>| #[trigger] completes(g, base)
}

/// The search on a well-formed board finds exactly the solutions of its
/// grid: each board found is a solution, and each solution is found.
pub proof fn lemma_search_exact(b: Board, g: Seq<Seq<u8>>)
    requires
        b.wf(),
    ensures
        completes(g, b.cells) <==> exists|i: int|
            0 <= i < search(b).len() && (#[trigger] search(b)[i]).cells == g,
{
    lemma_admits_wf(b, g);
    if completes(g, b.cells) {
        let i = lemma_search_complete(b, g);
        assert(search(b)[i].cells == g);
    }
    if exists|i: int| 0 <= i < search(b).len() && (#[trigger] search(b)[i]).cells == g {
        let i = choose|i: int| 0 <= i < search(b).len() && (#[trigger] search(b)[i]).cells == g;
        lemma_search_sound(b, i);
    }
}

/// A well-formed board has a solution exactly when the search finds one, and
/// exactly one solution exactly when the search finds one board.
pub proof fn lemma_search_counts(b: Board)
    requires
        b.wf(),
    ensures
        solvable(b.cells) <==> search(b).len() > 0,
        uniquely_solvable(b.cells) <==> search(b).len() == 1,
{
    if solvable(b.cells) {
        let g = choose|g: Seq<Seq<u8>>| #[trigger] completes(g, b.cells);
        lemma_admits_wf(b, g);
        let i = lemma_search_complete(b, g);
    }
    if search(b).len() > 0 {
        lemma_search_sound(b, 0);
        let g = search(b)[0].cells;
        lemma_admits_wf(b, g);
        assert(completes(g, b.cells));
        if search(b).len() == 1 {
            assert forall|h: Seq<Seq<u8>>| #[trigger] completes(h, b.cells) implies h == g by {
                lemma_admits_wf(b, h);
                let i = lemma_search_complete(b, h);
            }
            assert(uniquely_solvable(b.cells));
        }
    }
    if uniquely_solvable(b.cells) {
        let g = choose|g: Seq<Seq<u8>>|
            #[trigger] completes(g, b.cells) && forall|h: Seq<Seq<u8>>|
                #[trigger] completes(h, b.cells) ==> h == g;
        lemma_admits_wf(b, g);
        let i = lemma_search_complete(b, g);
        if search(b).len() >= 2 {
            lemma_search_sound(b, 0);
            lemma_search_sound(b, 1);
            lemma_admits_wf(b, search(b)[0].cells);
            lemma_admits_wf(b, search(b)[1].cells);
            lemma_search_distinct(b, 0, 1);
            assert(completes(search(b)[0].cells, b.cells));
            assert(completes(search(b)[1].cells, b.cells));
        }
    }
}

impl Sudoku {
    /// Returns the solutions of this board, not yet searched for.
    pub fn solutions(&self) -> (r: Solutions)
        requires
            self@.tidy(),
        ensures
            r.wf(),
            r.remaining() == search(self@),
    {
        let mut stack: Vec<Sudoku> = Vec::new();
        stack.push(self.clone());
        let r = Solutions { stack };
        proof {
            assert(r.boards() =~= seq![self@]);
            assert(r.boards().drop_last() =~= Seq::<Board>::empty());
            assert(r.boards().last() == self@);
            assert(pending(r.boards().drop_last()) =~= Seq::<Board>::empty());
            assert(pending(r.boards()) =~= search(self@));
        }
        r
    }

    /// Returns whether the board has a solution.
    pub fn has_solution(&self) -> (b: bool)
        requires
            self.wf(),
        ensures
            b == solvable(self@.cells),
    {
        proof {
            lemma_search_counts(self@);
        }
        let mut all = self.solutions();
        all.next().is_some()
    }

    /// Returns whether the board has exactly one solution.
    pub fn has_unique_solution(&self) -> (b: bool)
        requires
            self.wf(),
        ensures
            b == uniquely_solvable(self@.cells),
    {
        proof {
            lemma_search_counts(self@);
        }
        let mut all = self.solutions();
        let first = all.next();
        if first.is_none() {
            return false;
        }
        let second = all.next();
        second.is_none()
    }
}

} // verus!
