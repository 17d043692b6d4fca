//! The text form of a board: 81 cells in row-major order.

use vstd::prelude::*;
use crate::board::{conflict_free, grid_shaped, in_grid};
use crate::errors::Error;
use crate::sudoku::{rows, Sudoku};

verus! {

/// Whether `c` is a white space character of Unicode.
pub open spec fn is_space(c: char) -> bool {
    ||| '\u{9}' <= c <= '\u{D}'
    ||| c == ' '
    ||| c == '\u{85}'
    ||| c == '\u{A0}'
    ||| c == '\u{1680}'
    ||| '\u{2000}' <= c <= '\u{200A}'
    ||| c == '\u{2028}'
    ||| c == '\u{2029}'
    ||| c == '\u{202F}'
    ||| c == '\u{205F}'
    ||| c == '\u{3000}'
}

/// Whether the parser passes over `c`: white space, and the bar that may
/// stand between blocks.
pub open spec fn ignored(c: char) -> bool {
    is_space(c) || c == '|'
}

/// Whether `c` counts as a character of the grid.
pub open spec fn kept(c: char) -> bool {
    !ignored(c)
}

/// The characters of `text` that the parser does not pass over.
pub open spec fn meaningful(text: Seq<char>) -> Seq<char> {
    text.filter(|c: char| kept(c))
}

/// The cell that `c` stands for: a digit for itself, `.` and `_` for an
/// empty cell like `0`.
pub open spec fn cell_value(c: char) -> Option<u8> {
    if '0' <= c <= '9' {
        Some((c as u32 - 0x30) as u8)
    } else if c == '.' || c == '_' {
        Some(0u8)
    } else {
        None
    }
}

/// Whether each of the first `k` characters of `m` is there and stands for
/// a cell.
pub open spec fn cells_ok(m: Seq<char>, k: int) -> bool {
    forall|j: int| 0 <= j < k ==> j < m.len() && cell_value(#[trigger] m[j]) is Some
}

/// Whether `k` is the first place at which `m` has no character that stands
/// for a cell.
pub open spec fn first_bad(m: Seq<char>, k: int) -> bool {
    &&& 0 <= k < 81
    &&& cells_ok(m, k)
    &&& !(k < m.len() && cell_value(m[k]) is Some)
}

/// The grid that the first 81 characters of `m` stand for.
pub open spec fn grid_of(m: Seq<char>) -> Seq<Seq<u8>> {
    Seq::new(9, |r: int| Seq::new(9, |c: int| cell_value(m[9 * r + c])->0))
}

/// What reading `text` gives: the grid that the 81 characters stand for
/// that are neither white space nor a bar. It fails at the first of them
/// that stands for no cell; where fewer than 81 of them are there; on an
/// 82nd; and on a grid with givens that collide.
pub open spec fn parsed(text: Seq<char>) -> Result<Seq<Seq<u8>>, Error> {
    let m = meaningful(text);
    if cells_ok(m, 81) {
        if m.len() > 81 {
            Err(Error::TrailingInput { found: m[81] })
        } else if conflict_free(grid_of(m)) {
            Ok(grid_of(m))
        } else {
            Err(Error::InvalidSudoku)
        }
    } else {
        let k = choose|k: int| first_bad(m, k);
        if k < m.len() {
            Err(Error::UnexpectedChar { row: (k / 9) as usize, col: (k % 9) as usize, found: m[k] })
        } else {
            Err(Error::UnexpectedEnd { row: (k / 9) as usize, col: (k % 9) as usize })
        }
    }
}

/// At most one place is the first bad one, and where there is one not all
/// of the first 81 characters stand for cells.
pub proof fn lemma_first_bad_unique(m: Seq<char>, k: int)
    requires
        first_bad(m, k),
    ensures
        !cells_ok(m, 81),
        (choose|j: int| first_bad(m, j)) == k,
{
    let j = choose|j: int| first_bad(m, j);
    assert(first_bad(m, j));
    if j < k {
        assert(j < m.len() && cell_value(m[j]) is Some);
    }
    if k < j {
        assert(k < m.len() && cell_value(m[k]) is Some);
    }
    if cells_ok(m, 81) {
        assert(k < m.len() && cell_value(m[k]) is Some);
    }
}

/// Returns whether `c` is a white space character of Unicode.
pub fn is_whitespace(c: char) -> (b: bool)
    ensures
        b == is_space(c),
{
    ('\u{9}' <= c && c <= '\u{D}') || c == ' ' || c == '\u{85}' || c == '\u{A0}' || c
        == '\u{1680}' || ('\u{2000}' <= c && c <= '\u{200A}') || c == '\u{2028}' || c
        == '\u{2029}' || c == '\u{202F}' || c == '\u{205F}' || c == '\u{3000}'
}

/// Returns the cell that `c` stands for, if it stands for one.
pub fn parse_cell(c: char) -> (v: Option<u8>)
    ensures
        v == cell_value(c),
{
    if '0' <= c && c <= '9' {
        Some((c as u32 - 0x30) as u8)
    } else if c == '.' || c == '_' {
        Some(0)
    } else {
        None
    }
}

impl Sudoku {
    /// Reads a board from text: 81 cells in row-major order, a digit for
    /// itself and `0`, `.` or `_` for an empty cell; white space and `|`
    /// between them count for nothing.
    pub fn parse(text: &str) -> (r: Result<Sudoku, Error>)
        ensures
            match r {
                Ok(s) => parsed(text@) == Ok::<Seq<Seq<u8>>, Error>(s@.cells) && s.wf(),
                Err(e) => parsed(text@) == Err::<Seq<Seq<u8>>, Error>(e),
            },
    {
        let mut grid = [[0u8;9];9];
        let mut k: usize = 0;
        let ghost whole = meaningful(text@);
        for c in it: text.chars()
            invariant
                it.seq() == text@,
                whole == meaningful(text@),
                k <= 81,
                k == meaningful(text@.take(it.index() as int)).len(),
                cells_ok(meaningful(text@.take(it.index() as int)), k as int),
                forall|r: int, c: int|
                    in_grid(r, c) && 9 * r + c < k ==> #[trigger] rows(grid)[r][c] == cell_value(
                        meaningful(text@.take(it.index() as int))[9 * r + c],
                    )->0,
        {
            let ghost idx = it.index() as int;
            let ghost before = meaningful(text@.take(idx));
            let ghost after = meaningful(text@.take(idx + 1));
            proof {
                assert(text@.take(idx + 1) =~= text@.take(idx).push(c));
                text@.take(idx).lemma_filter_push(c, |c: char| kept(c));
                assert(text@.take(idx + 1).is_prefix_of(text@));
                text@.take(idx + 1).lemma_filter_monotone(text@, |c: char| kept(c));
                assert(after.is_prefix_of(whole));
            }
            if !(is_whitespace(c) || c == '|') {
                assert(after =~= before.push(c));
                if k == 81 {
                    proof {
                        assert(whole[81] == after[81]);
                        assert forall|j: int| 0 <= j < 81 implies j < whole.len() && cell_value(
                            #[trigger] whole[j],
                        ) is Some by {
                            assert(whole[j] == after[j]);
                            assert(after[j] == before[j]);
                        }
                    }
                    return Err(Error::TrailingInput { found: c });
                }
                match parse_cell(c) {
                    Some(v) => {
                        let ghost g0 = rows(grid);
                        let mut line = grid[k / 9];
                        line[k % 9] = v;
                        grid[k / 9] = line;
                        proof {
                            assert forall|r: int, c: int|
                                in_grid(r, c) && 9 * r + c < k + 1 implies #[trigger] rows(
                                grid,
                            )[r][c] == cell_value(after[9 * r + c])->0 by {
                                if 9 * r + c == k {
                                    assert(r == k / 9 && c == k % 9);
                                } else {
                                    assert(rows(grid)[r][c] == g0[r][c]);
                                    assert(after[9 * r + c] == before[9 * r + c]);
                                }
                            }
                        }
                        k = k + 1;
                    },
                    None => {
                        proof {
                            assert(whole[k as int] == after[k as int]);
                            assert forall|j: int| 0 <= j < k implies j < whole.len() && cell_value(
                                #[trigger] whole[j],
                            ) is Some by {
                                assert(whole[j] == after[j]);
                                assert(after[j] == before[j]);
                            }
                            lemma_first_bad_unique(whole, k as int);
                        }
                        return Err(Error::UnexpectedChar { row: k / 9, col: k % 9, found: c });
                    },
                }
            } else {
                assert(after =~= before);
            }
        }
        proof {
            assert(text@.take(text@.len() as int) =~= text@);
        }
        if k < 81 {
            proof {
                lemma_first_bad_unique(whole, k as int);
            }
            return Err(Error::UnexpectedEnd { row: k / 9, col: k % 9 });
        }
        proof {
            assert(rows(grid) =~~= grid_of(whole)) by {
                assert forall|r: int, c: int| in_grid(r, c) implies rows(grid)[r][c] == grid_of(
                    whole,
                )[r][c] by {

                }
            }
        }
        Sudoku::from_grid(grid)
    }
}

impl core::str::FromStr for Sudoku {
    type Err = Error;

    /// Reads a board from text, as `Sudoku::parse` does.
    fn from_str(text: &str) -> (r: Result<Sudoku, Error>)
        ensures
            match r {
                Ok(s) => parsed(text@) == Ok::<Seq<Seq<u8>>, Error>(s@.cells) && s.wf(),
                Err(e) => parsed(text@) == Err::<Seq<Seq<u8>>, Error>(e),
            },
    {
        Sudoku::parse(text)
    }
}

/// The character that shows the cell `v`: a digit for itself, `0` for an
/// empty cell.
pub open spec fn digit_char(v: u8) -> char {
    ((v + 0x30) as u8) as char
}

/// The plain text of a grid: nine lines of nine digits, a line feed between
/// two lines and none at the end.
pub open spec fn plain_text(g: Seq<Seq<u8>>) -> Seq<char> {
    Seq::new(
        89,
        |i: int|
            if i % 10 == 9 {
                '\n'
            } else {
                digit_char(g[i / 10][i % 10])
            },
    )
}

/// The framed text of a grid: thirteen lines of thirteen characters, a line
/// feed between two lines and none at the end. A line of `+---+---+---+`
/// stands above the grid and below every third row; a row has a `|` before
/// its digits, after every third of them and at its end.
pub open spec fn pretty_text(g: Seq<Seq<u8>>) -> Seq<char> {
    Seq::new(
        181,
        |i: int|
            {
                let line = i / 14;
                let at = i % 14;
                if at == 13 {
                    '\n'
                } else if line % 4 == 0 {
                    if at % 4 == 0 {
                        '+'
                    } else {
                        '-'
                    }
                } else if at % 4 == 0 {
                    '|'
                } else {
                    digit_char(g[line - line / 4 - 1][at - at / 4 - 1])
                }
            },
    )
}

/// Returns the text of one cell.
fn digit_str(v: u8) -> (s: &'static str)
    requires
        v <= 9,
    ensures
        s@ == seq![digit_char(v)],
{
    proof {
        reveal_strlit("0");
        reveal_strlit("1");
        reveal_strlit("2");
        reveal_strlit("3");
        reveal_strlit("4");
        reveal_strlit("5");
        reveal_strlit("6");
        reveal_strlit("7");
        reveal_strlit("8");
        reveal_strlit("9");
    }
    let s = if v == 0 {
        "0"
    } else if v == 1 {
        "1"
    } else if v == 2 {
        "2"
    } else if v == 3 {
        "3"
    } else if v == 4 {
        "4"
    } else if v == 5 {
        "5"
    } else if v == 6 {
        "6"
    } else if v == 7 {
        "7"
    } else if v == 8 {
        "8"
    } else {
        "9"
    };
    assert(s@ =~= seq![digit_char(v)]);
    s
}

impl Sudoku {
    /// Returns the text of the board: the plain text of its grid, or the
    /// framed text if `pretty` is set.
    pub fn render(&self, pretty: bool) -> (out: String)
        requires
            self@.tidy(),
        ensures
            out@ == if pretty {
                pretty_text(self@.cells)
            } else {
                plain_text(self@.cells)
            },
    {
        if pretty {
            self.render_pretty()
        } else {
            self.render_plain()
        }
    }

    /// Returns the plain text of the grid.
    fn render_plain(&self) -> (out: String)
        requires
            self@.tidy(),
        ensures
            out@ == plain_text(self@.cells),
    {
        let ghost want = plain_text(self@.cells);
        let mut out = String::new();
        let mut i: usize = 0;
        assert(out@ =~= want.take(0));
        while i < 9
            invariant
                i <= 9,
                self@.tidy(),
                want == plain_text(self@.cells),
                out@ == want.take(if i == 9 {
                    89
                } else {
                    10 * i as int
                }),
            decreases 9 - i,
        {
            let mut j: usize = 0;
            while j < 9
                invariant
                    i < 9,
                    j <= 9,
                    self@.tidy(),
                    want == plain_text(self@.cells),
                    out@ == want.take(10 * i + j),
                decreases 9 - j,
            {
                let v = self.get(i, j);
                let d = digit_str(v);
                let ghost n = 10 * i + j;
                out.append(d);
                proof {
                    assert(n % 10 == j && n / 10 == i);
                    assert(want[n] == digit_char(v));
                    assert(out@ =~= want.take(n + 1));
                }
                j = j + 1;
            }
            if i != 8 {
                let ghost n = 10 * i + 9;
                out.append("\n");
                proof {
                    reveal_strlit("\n");
                    assert(n % 10 == 9);
                    assert(out@ =~= want.take(n + 1));
                }
            }
            i = i + 1;
        }
        assert(want.take(89) =~= want);
        out
    }

    /// Returns the framed text of the grid.
    fn render_pretty(&self) -> (out: String)
        requires
            self@.tidy(),
        ensures
            out@ == pretty_text(self@.cells),
    {
        let ghost want = pretty_text(self@.cells);
        let mut out = String::new();
        out.append("+---+---+---+\n");
        proof {
            reveal_strlit("+---+---+---+\n");
            assert(out@ =~= want.take(14));
        }
        let mut i: usize = 0;
        while i < 9
            invariant
                i <= 9,
                self@.tidy(),
                want == pretty_text(self@.cells),
                out@ == want.take(if i == 9 {
                    181
                } else {
                    14 * (i + i / 3 + 1)
                }),
            decreases 9 - i,
        {
            let ghost line = (i + i / 3 + 1) as int;
            out.append("|");
            proof {
                reveal_strlit("|");
                assert((14 * line) / 14 == line && (14 * line) % 14 == 0);
                assert(line % 4 != 0);
                assert(out@ =~= want.take(14 * line + 1));
            }
            let mut j: usize = 0;
            while j < 9
                invariant
                    i < 9,
                    j <= 9,
                    self@.tidy(),
                    line == i + i / 3 + 1,
                    want == pretty_text(self@.cells),
                    out@ == want.take(14 * line + 1 + j + j / 3),
                decreases 9 - j,
            {
                let v = self.get(i, j);
                let d = digit_str(v);
                let ghost at = (1 + j + j / 3) as int;
                let ghost n = 14 * line + at;
                out.append(d);
                proof {
                    assert(n / 14 == line && n % 14 == at);
                    assert(line % 4 != 0 && line - line / 4 - 1 == i);
                    assert(at % 4 != 0 && at - at / 4 - 1 == j);
                    assert(want[n] == digit_char(v));
                    assert(out@ =~= want.take(n + 1));
                }
                if j % 3 == 2 {
                    out.append("|");
                    proof {
                        reveal_strlit("|");
                        assert((n + 1) / 14 == line && (n + 1) % 14 == at + 1);
                        assert((at + 1) % 4 == 0);
                        assert(want[n + 1] == '|');
                        assert(out@ =~= want.take(n + 2));
                    }
                }
                j = j + 1;
            }
            if i % 3 == 2 {
                let ghost n = 14 * line + 13;
                out.append("\n+---+---+---+");
                proof {
                    reveal_strlit("\n+---+---+---+");
                    assert((line + 1) % 4 == 0);
                    assert(n / 14 == line && n % 14 == 13);
                    assert((n + 1) / 14 == line + 1 && (n + 1) % 14 == 0);
                    assert(out@ =~= want.take(n + 14));
                }
            }
            if i != 8 {
                let ghost n = out@.len() as int;
                out.append("\n");
                proof {
                    reveal_strlit("\n");
                    assert(n % 14 == 13);
                    assert(out@ =~= want.take(n + 1));
                }
            }
            i = i + 1;
        }
        assert(want.take(181) =~= want);
        out
    }
}

/// The digits of a grid in row-major order, as characters.
pub open spec fn digits_of(g: Seq<Seq<u8>>, k: int) -> Seq<char> {
    Seq::new(k as nat, |j: int| digit_char(g[j / 9][j % 9]))
}

/// Of the first `p` characters of the plain text of a grid, the parser
/// keeps the digits and passes over the line feeds.
pub proof fn lemma_meaningful_plain(g: Seq<Seq<u8>>, p: int)
    requires
        grid_shaped(g),
        forall|r: int, c: int| in_grid(r, c) ==> #[trigger] g[r][c] <= 9,
        0 <= p <= 89,
    ensures
        meaningful(plain_text(g).take(p)) == digits_of(g, p - p / 10),
    decreases p,
{
    let text = plain_text(g);
    if p == 0 {
        reveal(Seq::filter);
        assert(text.take(0) =~= Seq::<char>::empty());
        assert(meaningful(text.take(0)) =~= digits_of(g, 0));
    } else {
        let q = p - 1;
        lemma_meaningful_plain(g, q);
        assert(text.take(p) =~= text.take(q).push(text[q]));
        text.take(q).lemma_filter_push(text[q], |c: char| kept(c));
        if q % 10 == 9 {
            assert(text[q] == '\n');
            assert(!kept('\n'));
        } else {
            let v = g[q / 10][q % 10];
            assert(v <= 9);
            assert(text[q] == digit_char(v));
            assert(kept(digit_char(v)));
            let j = q - q / 10;
            assert(j / 9 == q / 10 && j % 9 == q % 10);
            assert(digits_of(g, j).push(digit_char(v)) =~= digits_of(g, j + 1));
        }
    }
}

/// Reading the plain text of a grid without colliding givens, and so of
/// every solved grid, gives the grid back.
pub proof fn lemma_round_trip(g: Seq<Seq<u8>>)
    requires
        grid_shaped(g),
        forall|r: int, c: int| in_grid(r, c) ==> #[trigger] g[r][c] <= 9,
        conflict_free(g),
    ensures
        parsed(plain_text(g)) == Ok::<Seq<Seq<u8>>, Error>(g),
{
    let text = plain_text(g);
    lemma_meaningful_plain(g, 89);
    assert(text.take(89) =~= text);
    let m = meaningful(text);
    assert(m == digits_of(g, 81));
    assert forall|j: int| 0 <= j < 81 implies j < m.len() && cell_value(#[trigger] m[j])
        == Some(g[j / 9][j % 9]) by {
        assert(in_grid(j / 9, j % 9));
        assert(g[j / 9][j % 9] <= 9);
    }
    assert(cells_ok(m, 81));
    assert(grid_of(m) =~~= g) by {
        assert forall|r: int, c: int| in_grid(r, c) implies grid_of(m)[r][c] == g[r][c] by {
            let j = 9 * r + c;
            assert(j / 9 == r && j % 9 == c);
            assert(cell_value(m[j]) == Some(g[j / 9][j % 9]));
        }
    }
}

} // verus!
