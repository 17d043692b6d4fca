//! The state of an interactive game: the board in play, the puzzle it
//! started from, the player's notes, the selected cell and the history that
//! undo goes back through.

use rand::StdRng;
use vstd::prelude::*;
use crate::annotations::{annotations_len, no_marks, Annotations};
use crate::board::{in_grid, lemma_wf_tidy, solved, uniquely_solvable, Board};
use crate::errors::Error;
use crate::generate::{every_given_needed, pick};
use crate::solver::{lemma_search_counts, search, solvable};
use crate::sudoku::{lemma_empty_among_contains, sudoku_shaped, Sudoku};

verus! {

/// What undo brings back: a board and the notes that went with it.
pub struct Snapshot {
    pub board: Board,
    pub notes: Seq<Seq<Seq<bool>>>,
}

/// The state of a game.
pub struct GameView {
    /// The board in play.
    pub board: Board,
    /// The puzzle as it was given.
    pub given: Board,
    /// The player's notes on every cell, that of digit `n` at index `n - 1`.
    pub notes: Seq<Seq<Seq<bool>>>,
    /// The row of the selected cell.
    pub row: int,
    /// The column of the selected cell.
    pub col: int,
    /// The states that undo goes back to, the latest last.
    pub history: Seq<Snapshot>,
    /// Whether the board in play counts as solved.
    pub solved: bool,
}

impl GameView {
    /// The state with the board and the notes saved to the history.
    pub open spec fn saved(self) -> GameView {
        GameView {
            history: self.history.push(Snapshot { board: self.board, notes: self.notes }),
            ..self
        }
    }

    /// The state with another board in play.
    pub open spec fn with_board(self, board: Board) -> GameView {
        GameView { board, solved: solved(board.cells), ..self }
    }

    /// The state after the note of `n` on the selected cell was flipped.
    pub open spec fn annotated(self, n: u8) -> GameView {
        let cell = self.notes[self.row][self.col];
        GameView {
            notes: self.notes.update(
                self.row,
                self.notes[self.row].update(self.col, cell.update(n - 1, !cell[n - 1])),
            ),
            ..self.saved()
        }
    }

    /// Whether the selected cell was empty in the puzzle as given.
    pub open spec fn editable(self) -> bool {
        self.given.cells[self.row][self.col] == 0
    }

    /// The state after `n` was written into the cell (`row`, `col`).
    pub open spec fn filled(self, n: u8, row: int, col: int) -> GameView {
        self.saved().with_board(self.board.placed(n, row, col))
    }

    /// The state after the selected cell was emptied.
    pub open spec fn emptied(self) -> GameView {
        self.saved().with_board(self.board.removed(self.row, self.col))
    }

    /// The state after the selection moved by `rows` and `cols`; in a
    /// direction in which it would leave the grid it stays.
    pub open spec fn moved(self, rows: int, cols: int) -> GameView {
        GameView {
            row: if 0 <= self.row + rows < 9 {
                self.row + rows
            } else {
                self.row
            },
            col: if 0 <= self.col + cols < 9 {
                self.col + cols
            } else {
                self.col
            },
            ..self
        }
    }

    /// The state that undo goes back to.
    pub open spec fn undone(self) -> GameView {
        let last = self.history.last();
        GameView {
            board: last.board,
            notes: last.notes,
            history: self.history.drop_last(),
            solved: solved(last.board.cells),
            ..self
        }
    }

    /// Both boards are well-formed, as are those of the history; the
    /// selected cell is in the grid; every cell has nine notes; and the
    /// board counts as solved exactly when it is.
    pub open spec fn wf(self) -> bool {
        &&& self.board.wf()
        &&& self.given.wf()
        &&& in_grid(self.row, self.col)
        &&& self.solved == solved(self.board.cells)
        &&& forall|i: int| 0 <= i < self.history.len() ==> (#[trigger] self.history[i]).board.wf()
    }
}

/// The notes that a 9x9 array of marks holds.
pub open spec fn notes_of(a: [[Annotations; 9]; 9]) -> Seq<Seq<Seq<bool>>> {
    Seq::new(9, |r: int| Seq::new(9, |c: int| a[r][c]@))
}

/// What undo brings back.
#[derive(Clone, Debug, PartialEq, Eq)]
struct UndoState {
    board: Sudoku,
    annotations: [[Annotations; 9]; 9],
}

impl View for UndoState {
    type V = Snapshot;

    closed spec fn view(&self) -> Snapshot {
        Snapshot { board: self.board@, notes: notes_of(self.annotations) }
    }
}

/// A game in play.
#[derive(Clone, Debug, PartialEq, Eq)]
pub struct Game {
    /// The board in play.
    board: Sudoku,
    /// The puzzle as it was given.
    given: Sudoku,
    /// The player's notes.
    annotations: [[Annotations; 9]; 9],
    /// The row of the selected cell.
    row: usize,
    /// The column of the selected cell.
    col: usize,
    /// The states that undo goes back to.
    history: Vec<UndoState>,
    /// Whether the board in play has been solved.
    is_solved: bool,
}

impl View for Game {
    type V = GameView;

    closed spec fn view(&self) -> GameView {
        GameView {
            board: self.board@,
            given: self.given@,
            notes: notes_of(self.annotations),
            row: self.row as int,
            col: self.col as int,
            history: self.history@.map_values(|u: UndoState| u@),
            solved: self.is_solved,
        }
    }
}

impl Game {
    /// Whether the state of the game is well-formed.
    pub open spec fn wf(&self) -> bool {
        self@.wf()
    }

    /// The state in which a game on the puzzle `given` starts.
    pub open spec fn start(given: Board) -> GameView {
        GameView {
            board: given,
            given,
            notes: Seq::new(9, |r: int| Seq::new(9, |c: int| no_marks())),
            row: 0,
            col: 0,
            history: Seq::empty(),
            solved: solved(given.cells),
        }
    }

    /// Starts a game on a random puzzle with exactly one solution.
    pub fn new(rng: &mut StdRng) -> (g: Game)
        ensures
            g.wf(),
            g@ == Game::start(g@.given),
            uniquely_solvable(g@.given.cells),
            every_given_needed(g@.given.cells),
    {
        Game::from_sudoku(Sudoku::generate(rng))
    }

    /// Starts a game on the puzzle `given`.
    pub fn from_sudoku(given: Sudoku) -> (g: Game)
        requires
            given.wf(),
        ensures
            g.wf(),
            g@ == Game::start(given@),
    {
        let blank = Annotations::new();
        let blank_row = [blank;9];
        let is_solved = given.is_solved();
        let g = Game {
            board: given.clone(),
            given,
            annotations: [blank_row;9],
            row: 0,
            col: 0,
            history: Vec::new(),
            is_solved,
        };
        proof {
            assert(g@.notes =~~= Game::start(given@).notes);
            assert(g@.history =~= Seq::<Snapshot>::empty());
        }
        g
    }

    /// Returns the player's notes.
    pub fn annotations(&self) -> (a: &[[Annotations; 9]; 9])
        ensures
            notes_of(*a) == self@.notes,
    {
        &self.annotations
    }

    /// Returns whether the player has noted the digit `n` on the cell
    /// (`row`, `col`).
    pub fn note(&self, row: usize, col: usize, n: u8) -> (b: bool)
        requires
            row < 9,
            col < 9,
            1 <= n <= 9,
        ensures
            b == self@.notes[row as int][col as int][n - 1],
    {
        self.annotations[row][col].get(n)
    }

    /// Returns the board in play.
    pub fn board(&self) -> (b: &Sudoku)
        ensures
            b@ == self@.board,
    {
        &self.board
    }

    /// Returns the puzzle as it was given.
    pub fn given(&self) -> (b: &Sudoku)
        ensures
            b@ == self@.given,
    {
        &self.given
    }

    /// Returns whether the board in play has been solved.
    pub fn is_solved(&self) -> (b: bool)
        ensures
            b == self@.solved,
    {
        self.is_solved
    }

    /// Returns the selected cell, as row and column.
    pub fn position(&self) -> (p: (usize, usize))
        ensures
            p.0 == self@.row,
            p.1 == self@.col,
    {
        (self.row, self.col)
    }

    /// Selects the cell (`row`, `col`).
    pub fn set_position(&mut self, row: usize, col: usize)
        requires
            row < 9,
            col < 9,
        ensures
            final(self)@ == (GameView { row: row as int, col: col as int, ..old(self)@ }),
    {
        self.row = row;
        self.col = col;
    }

    /// Moves the selection by `rows` and `cols`. In a direction in which it
    /// would leave the grid it stays where it is.
    pub fn move_by(&mut self, rows: isize, cols: isize)
        requires
            old(self).wf(),
        ensures
            final(self)@ == old(self)@.moved(rows as int, cols as int),
            final(self).wf(),
    {
        let (row, col) = (self.row, self.col);
        let newrow = if -(row as isize) <= rows && rows < 9 - row as isize {
            (row as isize + rows) as usize
        } else {
            row
        };
        let newcol = if -(col as isize) <= cols && cols < 9 - col as isize {
            (col as isize + cols) as usize
        } else {
            col
        };
        self.set_position(newrow, newcol);
    }

    /// Saves the board and the notes to the history.
    fn save_state(&mut self)
        ensures
            final(self)@ == old(self)@.saved(),
    {
        let state = UndoState { board: self.board.clone(), annotations: self.annotations };
        self.history.push(state);
        assert(self@.history =~= old(self)@.saved().history);
    }

    /// Flips the note of `n` on the selected cell.
    pub fn annotate(&mut self, n: u8)
        requires
            1 <= n <= 9,
            old(self).wf(),
        ensures
            final(self)@ == old(self)@.annotated(n),
            final(self).wf(),
    {
        broadcast use annotations_len;

        self.save_state();
        let (row, col) = (self.row, self.col);
        let mut a = self.annotations[row][col];
        a.toggle(n);
        let mut line = self.annotations[row];
        line[col] = a;
        self.annotations[row] = line;
        assert(self@.notes =~~= old(self)@.annotated(n).notes);
    }

    /// Writes `n` into the selected cell, unless the puzzle as given holds a
    /// digit there.
    pub fn put(&mut self, n: u8)
        requires
            1 <= n <= 9,
            old(self).wf(),
        ensures
            final(self)@ == if old(self)@.editable() {
                old(self)@.filled(n, old(self)@.row, old(self)@.col)
            } else {
                old(self)@
            },
            final(self).wf(),
    {
        broadcast use sudoku_shaped;

        let (row, col) = (self.row, self.col);
        if self.given.get(row, col) == 0 {
            self.save_state();
            proof {
                lemma_wf_tidy(self@.board);
            }
            self.board.put_at(n, row, col);
            self.is_solved = self.board.is_solved();
        }
    }

    /// Empties the selected cell, unless the puzzle as given holds a digit
    /// there.
    pub fn remove(&mut self)
        requires
            old(self).wf(),
        ensures
            final(self)@ == if old(self)@.editable() {
                old(self)@.emptied()
            } else {
                old(self)@
            },
            final(self).wf(),
    {
        broadcast use sudoku_shaped;

        let (row, col) = (self.row, self.col);
        if self.given.get(row, col) == 0 {
            self.save_state();
            proof {
                lemma_wf_tidy(self@.board);
            }
            self.board.remove_at(row, col);
            self.is_solved = self.board.is_solved();
        }
    }

    /// Goes back to the latest state of the history. Returns whether there
    /// was one.
    pub fn undo(&mut self) -> (done: bool)
        requires
            old(self).wf(),
        ensures
            done == (old(self)@.history.len() > 0),
            final(self)@ == if done {
                old(self)@.undone()
            } else {
                old(self)@
            },
            final(self).wf(),
    {
        match self.history.pop() {
            None => false,
            Some(state) => {
                let UndoState { board, annotations } = state;
                self.board = board;
                self.annotations = annotations;
                self.is_solved = self.board.is_solved();
                proof {
                    let before = old(self)@;
                    assert(self@.history =~= before.history.drop_last());
                    assert(state@ == before.history.last());
                    assert(before.history[before.history.len() - 1].board.wf());
                    assert forall|i: int| 0 <= i < self@.history.len() implies (#[trigger] self@.history[i]).board.wf() by {
                        assert(self@.history[i] == before.history[i]);
                    }
                }
                true
            },
        }
    }

    /// Puts the first solution of the board in play in its place. Returns
    /// whether the board has a solution; if it has none nothing changes.
    pub fn solve(&mut self) -> (done: bool)
        requires
            old(self).wf(),
        ensures
            done == solvable(old(self)@.board.cells),
            final(self)@ == if done {
                old(self)@.saved().with_board(search(old(self)@.board)[0])
            } else {
                old(self)@
            },
            final(self).wf(),
    {
        proof {
            lemma_wf_tidy(self@.board);
            lemma_search_counts(self@.board);
        }
        let mut all = self.board.solutions();
        match all.next() {
            None => false,
            Some(s) => {
                self.save_state();
                self.board = s;
                self.is_solved = true;
                true
            },
        }
    }

    /// Writes into the cell (`row`, `col`) the digit that `solution` has
    /// there.
    pub fn fill_from(&mut self, solution: &Sudoku, row: usize, col: usize)
        requires
            old(self).wf(),
            row < 9,
            col < 9,
            1 <= solution@.cells[row as int][col as int] <= 9,
        ensures
            final(self)@ == old(self)@.filled(
                solution@.cells[row as int][col as int],
                row as int,
                col as int,
            ),
            final(self).wf(),
    {
        broadcast use sudoku_shaped;

        let d = solution.get(row, col);
        self.save_state();
        proof {
            lemma_wf_tidy(self@.board);
        }
        self.board.put_at(d, row, col);
        self.is_solved = self.board.is_solved();
    }

    /// Fills one empty cell, chosen at random, with the digit that the first
    /// solution of the board in play has there, and returns the cell. If no
    /// cell is empty it returns `None`. It fails if the board has no
    /// solution. In both cases nothing changes.
    pub fn hint(&mut self, rng: &mut StdRng) -> (r: Result<Option<(usize, usize)>, Error>)
        requires
            old(self).wf(),
        ensures
            final(self).wf(),
            match r {
                Err(e) => {
                    &&& e == Error::InvalidSudoku
                    &&& !solvable(old(self)@.board.cells)
                    &&& final(self)@ == old(self)@
                },
                Ok(None) => {
                    &&& solvable(old(self)@.board.cells)
                    &&& old(self)@.board.full()
                    &&& final(self)@ == old(self)@
                },
                Ok(Some((row, col))) => {
                    &&& solvable(old(self)@.board.cells)
                    &&& in_grid(row as int, col as int)
                    &&& old(self)@.board.cells[row as int][col as int] == 0
                    &&& final(self)@ == old(self)@.filled(
                        search(old(self)@.board)[0].cells[row as int][col as int],
                        row as int,
                        col as int,
                    )
                },
            },
    {
        broadcast use sudoku_shaped;

        proof {
            lemma_wf_tidy(self@.board);
            lemma_search_counts(self@.board);
        }
        let mut all = self.board.solutions();
        let s = match all.next() {
            None => {
                return Err(Error::InvalidSudoku);
            },
            Some(s) => s,
        };
        let empty = self.board.empty_cells();
        match pick(rng, &empty) {
            None => {
                proof {
                    let b = self@.board;
                    assert forall|r: int, c: int| in_grid(r, c) implies #[trigger] b.cells[r][c]
                        != 0 by {
                        lemma_empty_among_contains(b.cells, 81, r as usize, c as usize);
                        if b.cells[r][c] == 0 {
                            assert(empty@.contains((r as usize, c as usize)));
                        }
                    }
                }
                Ok(None)
            },
            Some((row, col)) => {
                proof {
                    lemma_empty_among_contains(self@.board.cells, 81, row, col);
                }
                self.fill_from(&s, row, col);
                Ok(Some((row, col)))
            },
        }
    }
}

} // verus!
