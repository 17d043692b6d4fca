//! What the terminal front end decides without touching the terminal: the
//! outline of the grid, where things go on the screen, and what a key or a
//! command means.

use vstd::prelude::*;
use crate::game::{Game, GameView};
use crate::util::same_text;

verus! {

/// The least width of a terminal on which the game is drawn.
pub const MIN_WIDTH: u16 = 72;

/// The least height of a terminal on which the game is drawn.
pub const MIN_HEIGHT: u16 = 20;

/// The width of a cell of the grid on the screen.
pub const CELL_WIDTH: u16 = 3;

/// The height of a cell of the grid on the screen.
pub const CELL_HEIGHT: u16 = 1;

/// The outline of a grid on the screen: the width in columns and the height
/// in rows of one cell.
#[derive(Clone, Copy, Debug, PartialEq, Eq)]
pub struct Grid(pub u16, pub u16);

impl Grid {
    /// Returns the height of the outline in rows.
    pub fn height(&self) -> (h: u16)
        requires
            4 + 9 * self.1 <= u16::MAX,
        ensures
            h == 4 + 9 * self.1,
    {
        4 + 9 * self.1
    }

    /// Returns the width of the outline in columns.
    pub fn width(&self) -> (w: u16)
        requires
            4 + 9 * self.0 <= u16::MAX,
        ensures
            w == 4 + 9 * self.0,
    {
        4 + 9 * self.0
    }
}

/// The text that moves the cursor of the terminal `n` columns to the left.
pub uninterp spec fn left_text(n: u16) -> Seq<char>;

/// The text that moves the cursor of the terminal `n` columns to the right.
pub uninterp spec fn right_text(n: u16) -> Seq<char>;

/// The text that moves the cursor of the terminal `n` rows down.
pub uninterp spec fn down_text(n: u16) -> Seq<char>;

/// Formats `termion::cursor::Left`. The result is the escape sequence that
/// termion writes for a move of `n` columns to the left; the contract
/// names it and says nothing of what it holds.
#[verifier::external_body]
fn cursor_left(n: u16) -> (s: String)
    ensures
        s@ == left_text(n),
{
    format!("{}", termion::cursor::Left(n))
}

/// Formats `termion::cursor::Right`. The result is the escape sequence that
/// termion writes for a move of `n` columns to the right; the contract
/// names it and says nothing of what it holds.
#[verifier::external_body]
fn cursor_right(n: u16) -> (s: String)
    ensures
        s@ == right_text(n),
{
    format!("{}", termion::cursor::Right(n))
}

/// Formats `termion::cursor::Down`. The result is the escape sequence that
/// termion writes for a move of `n` rows down; the contract names it and
/// says nothing of what it holds.
#[verifier::external_body]
fn cursor_down(n: u16) -> (s: String)
    ensures
        s@ == down_text(n),
{
    format!("{}", termion::cursor::Down(n))
}

/// The text `s` written `k` times.
pub open spec fn repeat(s: Seq<char>, k: nat) -> Seq<char>
    decreases k,
{
    if k == 0 {
        Seq::empty()
    } else {
        repeat(s, (k - 1) as nat) + s
    }
}

/// Appends `s` to `out`, `k` times.
fn append_times(out: &mut String, s: &str, k: u16)
    ensures
        final(out)@ == old(out)@ + repeat(s@, k as nat),
{
    let mut i: u16 = 0;
    assert(out@ =~= old(out)@ + repeat(s@, 0));
    while i < k
        invariant
            i <= k,
            out@ == old(out)@ + repeat(s@, i as nat),
        decreases k - i,
    {
        out.append(s);
        i = i + 1;
        assert(out@ =~= old(out)@ + repeat(s@, i as nat));
    }
}

impl Grid {
    /// Whether the width and the height of the outline fit a `u16`.
    pub open spec fn fits(self) -> bool {
        4 + 9 * self.0 <= u16::MAX && 4 + 9 * self.1 <= u16::MAX
    }

    /// A line of the outline that is drawn all through: a corner, then
    /// three stretches of `line` with `mid` between them, then a corner.
    pub open spec fn border(self, left: Seq<char>, line: Seq<char>, mid: Seq<char>, right: Seq<char>) -> Seq<char> {
        let stretch = repeat(line, (3 * self.0) as nat);
        left + stretch + mid + stretch + mid + stretch + right
    }

    /// A line of the outline that crosses cells: the bars at the sides and
    /// between the blocks, with `skip` to move the cursor over the cells
    /// between them, and then `back` to move it to the start of the next
    /// line.
    pub open spec fn cells_line(self, back: Seq<char>, skip: Seq<char>) -> Seq<char> {
        "\u{2551}"@ + skip + "\u{2502}"@ + skip + "\u{2502}"@ + skip + "\u{2551}"@ + back
    }

    /// The lines of one band of three rows of cells.
    pub open spec fn band(self, back: Seq<char>, skip: Seq<char>) -> Seq<char> {
        repeat(self.cells_line(back, skip), (3 * self.1) as nat)
    }

    /// The line between two bands, and the move to the next line.
    pub open spec fn divider(self, back: Seq<char>) -> Seq<char> {
        self.border("\u{255F}"@, "\u{2500}"@, "\u{253C}"@, "\u{2562}"@) + back
    }

    /// The outline drawn with `back` to move the cursor from the end of a
    /// line to the start of the next and `skip` to move it over the cells
    /// of a block: the top line, three bands with a divider between them,
    /// and the bottom line. The cursor ends behind the bottom line.
    pub open spec fn outline_with(self, back: Seq<char>, skip: Seq<char>) -> Seq<char> {
        self.border("\u{2554}"@, "\u{2550}"@, "\u{2564}"@, "\u{2557}"@) + back + self.band(back, skip)
            + self.divider(back) + self.band(back, skip) + self.divider(back) + self.band(
            back,
            skip,
        ) + self.border("\u{255A}"@, "\u{2550}"@, "\u{2567}"@, "\u{255D}"@)
    }

    /// The outline as the terminal takes it: the cursor goes one row down
    /// and the width of the outline to the left from the end of a line to
    /// the start of the next, and the width of three cells to the right over
    /// the cells of a block.
    pub open spec fn outline(self) -> Seq<char> {
        self.outline_with(
            down_text(1) + left_text((4 + 9 * self.0) as u16),
            right_text((3 * self.0) as u16),
        )
    }

    /// Appends a line that is drawn all through.
    fn push_border(&self, out: &mut String, left: &str, line: &str, mid: &str, right: &str)
        requires
            self.fits(),
        ensures
            final(out)@ == old(out)@ + self.border(left@, line@, mid@, right@),
    {
        out.append(left);
        append_times(out, line, 3 * self.0);
        out.append(mid);
        append_times(out, line, 3 * self.0);
        out.append(mid);
        append_times(out, line, 3 * self.0);
        out.append(right);
        assert(out@ =~= old(out)@ + self.border(left@, line@, mid@, right@));
    }

    /// Appends the lines of one band.
    fn push_band(&self, out: &mut String, back: &str, skip: &str)
        requires
            self.fits(),
        ensures
            final(out)@ == old(out)@ + self.band(back@, skip@),
    {
        let ghost line = self.cells_line(back@, skip@);
        let mut i: u16 = 0;
        assert(out@ =~= old(out)@ + repeat(line, 0));
        while i < 3 * self.1
            invariant
                self.fits(),
                i <= 3 * self.1,
                line == self.cells_line(back@, skip@),
                out@ == old(out)@ + repeat(line, i as nat),
            decreases 3 * self.1 - i,
        {
            let ghost before = out@;
            out.append("\u{2551}");
            out.append(skip);
            out.append("\u{2502}");
            out.append(skip);
            out.append("\u{2502}");
            out.append(skip);
            out.append("\u{2551}");
            out.append(back);
            i = i + 1;
            assert(out@ =~= before + line);
            assert(out@ =~= old(out)@ + repeat(line, i as nat));
        }
    }

    /// Returns the text of the outline drawn with `back` to move the cursor
    /// from the end of a line to the start of the next and `skip` to move
    /// it over the cells of a block.
    pub fn render_with(&self, back: &str, skip: &str) -> (out: String)
        requires
            self.fits(),
        ensures
            out@ == self.outline_with(back@, skip@),
    {
        let mut out = String::new();
        self.push_border(&mut out, "\u{2554}", "\u{2550}", "\u{2564}", "\u{2557}");
        out.append(back);
        self.push_band(&mut out, back, skip);
        self.push_border(&mut out, "\u{255F}", "\u{2500}", "\u{253C}", "\u{2562}");
        out.append(back);
        self.push_band(&mut out, back, skip);
        self.push_border(&mut out, "\u{255F}", "\u{2500}", "\u{253C}", "\u{2562}");
        out.append(back);
        self.push_band(&mut out, back, skip);
        self.push_border(&mut out, "\u{255A}", "\u{2550}", "\u{2567}", "\u{255D}");
        assert(out@ =~= self.outline_with(back@, skip@));
        out
    }

    /// Returns the text that draws the outline on the terminal from its top
    /// left corner.
    pub fn render(&self) -> (out: String)
        requires
            self.fits(),
        ensures
            out@ == self.outline(),
    {
        let mut back = cursor_down(1);
        let left = cursor_left(self.width());
        back.append(left.as_str());
        let skip = cursor_right(3 * self.0);
        self.render_with(back.as_str(), skip.as_str())
    }
}

/// Where the top left corner of an outline goes on a terminal of `width`
/// columns and `height` rows, as column and row; nowhere on a terminal
/// that is too small. The outline of the board stands in the middle, or
/// left of the middle if the notes are shown beside it; that of the notes
/// stands right of the middle.
pub open spec fn origin_of(width: u16, height: u16, notes: bool, beside: bool) -> Option<
    (u16, u16),
> {
    if width < MIN_WIDTH || height < MIN_HEIGHT {
        None
    } else {
        let row = (height / 2 - 6) as u16;
        if notes {
            Some(((width / 2) as u16, row))
        } else if beside {
            Some(((width / 2 - 31) as u16, row))
        } else {
            Some(((width / 2 - 15) as u16, row))
        }
    }
}

/// Returns where the outline of the board goes; `beside` says whether the
/// notes are shown beside it.
pub fn sudoku_origin(width: u16, height: u16, beside: bool) -> (at: Option<(u16, u16)>)
    ensures
        at == origin_of(width, height, false, beside),
{
    if width < MIN_WIDTH || height < MIN_HEIGHT {
        return None;
    }
    let grid = Grid(CELL_WIDTH, CELL_HEIGHT);
    if beside {
        Some((width / 2 - grid.width(), height / 2 - grid.height() / 2))
    } else {
        Some((width / 2 - grid.width() / 2, height / 2 - grid.height() / 2))
    }
}

/// Returns where the outline of the notes goes.
pub fn annotations_origin(width: u16, height: u16) -> (at: Option<(u16, u16)>)
    ensures
        at == origin_of(width, height, true, true),
{
    if width < MIN_WIDTH || height < MIN_HEIGHT {
        return None;
    }
    let grid = Grid(CELL_WIDTH, CELL_HEIGHT);
    Some((width / 2, height / 2 - grid.height() / 2))
}

/// Returns where the cell (`row`, `col`) stands in an outline, as column
/// and row from its top left corner.
pub fn cell_offset(row: u16, col: u16) -> (at: (u16, u16))
    requires
        row < 9,
        col < 9,
    ensures
        at.0 == 3 * col + col / 3 + 1,
        at.1 == row + row / 3 + 1,
{
    (CELL_WIDTH * col + col / 3 + 1, CELL_HEIGHT * row + row / 3 + 1)
}

/// Returns what the place (`i`, `j`) of the outline of the notes shows: a
/// cell of the block that holds the selected cell (`row`, `col`), and a
/// digit. Each cell of the block takes three by three places, one for each
/// digit.
pub fn annotation_cell(row: usize, col: usize, i: usize, j: usize) -> (shown: (usize, usize, u8))
    requires
        row < 9,
        col < 9,
        i < 9,
        j < 9,
    ensures
        shown.0 == row / 3 * 3 + i / 3,
        shown.1 == col / 3 * 3 + j / 3,
        shown.2 == 3 * (i % 3) + j % 3 + 1,
{
    (row / 3 * 3 + i / 3, col / 3 * 3 + j / 3, (3 * (i % 3) + j % 3 + 1) as u8)
}

/// How one place of an outline is drawn.
#[derive(Clone, Copy, Debug, PartialEq, Eq, Structural)]
pub struct CellLook {
    /// The character that stands there.
    pub glyph: char,
    /// Whether it is drawn bold: a digit that the puzzle gave.
    pub bold: bool,
    /// Whether it has the background of the selected cell.
    pub selected: bool,
    /// Whether it has the background of the latest hint.
    pub hinted: bool,
    /// Whether it has the background of a solved board. Of the three
    /// backgrounds the last that is set shows.
    pub solved: bool,
}

/// The character that shows `n` in an outline: a digit for itself, a dot
/// for 0.
pub open spec fn glyph_of(n: u8) -> char {
    if n == 0 {
        '.'
    } else {
        ((n + 0x30) as u8) as char
    }
}

/// How the cell (`row`, `col`) of the board in play is drawn.
pub open spec fn board_look(game: GameView, hint: Option<(usize, usize)>, row: int, col: int) -> CellLook {
    CellLook {
        glyph: glyph_of(game.board.cells[row][col]),
        bold: game.given.cells[row][col] != 0,
        selected: row == game.row && col == game.col,
        hinted: hint matches Some(h) && h.0 == row && h.1 == col,
        solved: game.solved,
    }
}

/// How the place (`i`, `j`) of the outline of the notes is drawn: the place
/// of a digit on a cell of the block that holds the selected cell. It shows
/// the digit if the player has noted it on that cell, and else a dot.
pub open spec fn note_look(game: GameView, hint: Option<(usize, usize)>, i: int, j: int) -> CellLook {
    let row = game.row / 3 * 3 + i / 3;
    let col = game.col / 3 * 3 + j / 3;
    let n = 3 * (i % 3) + j % 3 + 1;
    CellLook {
        glyph: if game.notes[row][col][n - 1] {
            glyph_of(n as u8)
        } else {
            '.'
        },
        bold: false,
        selected: row == game.row && col == game.col,
        hinted: hint matches Some(h) && h.0 == row && h.1 == col,
        solved: game.solved,
    }
}

/// Returns the character that shows `n`.
fn glyph(n: u8) -> (c: char)
    requires
        n <= 9,
    ensures
        c == glyph_of(n),
{
    if n == 0 {
        '.'
    } else {
        (n + 0x30) as char
    }
}

/// Returns how the cell (`row`, `col`) of the board in play is drawn;
/// `hint` is the cell of the latest hint.
pub fn board_cell(game: &Game, hint: Option<(usize, usize)>, row: usize, col: usize) -> (look:
    CellLook)
    requires
        game.wf(),
        row < 9,
        col < 9,
    ensures
        look == board_look(game@, hint, row as int, col as int),
{
    let value = game.board().get(row, col);
    let (at_row, at_col) = game.position();
    CellLook {
        glyph: glyph(value),
        bold: game.given().get(row, col) != 0,
        selected: row == at_row && col == at_col,
        hinted: match hint {
            Some(h) => h.0 == row && h.1 == col,
            None => false,
        },
        solved: game.is_solved(),
    }
}

/// Returns how the place (`i`, `j`) of the outline of the notes is drawn;
/// `hint` is the cell of the latest hint.
pub fn note_cell(game: &Game, hint: Option<(usize, usize)>, i: usize, j: usize) -> (look: CellLook)
    requires
        game.wf(),
        i < 9,
        j < 9,
    ensures
        look == note_look(game@, hint, i as int, j as int),
{
    let (at_row, at_col) = game.position();
    let (row, col, n) = annotation_cell(at_row, at_col, i, j);
    let noted = game.note(row, col, n);
    CellLook {
        glyph: if noted {
            glyph(n)
        } else {
            '.'
        },
        bold: false,
        selected: row == at_row && col == at_col,
        hinted: match hint {
            Some(h) => h.0 == row && h.1 == col,
            None => false,
        },
        solved: game.is_solved(),
    }
}

/// A key as the game sees it.
#[derive(Clone, Copy, Debug, PartialEq, Eq, Structural)]
pub enum Key {
    Char(char),
    Left,
    Right,
    Up,
    Down,
    Delete,
    Backspace,
    Esc,
    Other,
}

/// What a key asks for while the board is shown.
#[derive(Clone, Copy, Debug, PartialEq, Eq, Structural)]
pub enum Action {
    /// Leave the game.
    Quit,
    /// Read a command on the status line.
    Command,
    /// Move the selection by so many rows and columns.
    MoveBy(isize, isize),
    /// Empty the selected cell.
    Remove,
    /// Write the digit into the selected cell.
    Put(u8),
    /// Go back one step.
    Undo,
    /// Flip the note of the digit that the next key names.
    Annotate,
    /// Nothing.
    Nothing,
}

/// The digit that a key names.
pub open spec fn digit_of(key: Key) -> Option<u8> {
    match key {
        Key::Char(c) => if '1' <= c <= '9' {
            Some((c as u32 - 0x30) as u8)
        } else {
            None
        },
        _ => None,
    }
}

/// What a key asks for. A colon starts a command at any time; every other
/// key counts only as long as the board is not solved.
pub open spec fn action_of(key: Key, solved: bool) -> Action {
    if key == Key::Char(':') {
        Action::Command
    } else if solved {
        Action::Nothing
    } else {
        match key {
            Key::Char('q') => Action::Quit,
            Key::Char('h') | Key::Left => Action::MoveBy(0, (-1) as isize),
            Key::Char('j') | Key::Down => Action::MoveBy(1, 0),
            Key::Char('k') | Key::Up => Action::MoveBy((-1) as isize, 0),
            Key::Char('l') | Key::Right => Action::MoveBy(0, 1),
            Key::Char('H') => Action::MoveBy(0, (-3) as isize),
            Key::Char('J') => Action::MoveBy(3, 0),
            Key::Char('K') => Action::MoveBy((-3) as isize, 0),
            Key::Char('L') => Action::MoveBy(0, 3),
            Key::Char('0') | Key::Char('x') | Key::Char('d') | Key::Delete => Action::Remove,
            Key::Char('u') => Action::Undo,
            Key::Char('a') => Action::Annotate,
            _ => match digit_of(key) {
                Some(n) => Action::Put(n),
                None => Action::Nothing,
            },
        }
    }
}

/// Returns the digit from 1 to 9 that a key names, if it names one.
pub fn key_digit(key: Key) -> (d: Option<u8>)
    ensures
        d == digit_of(key),
        d matches Some(n) ==> 1 <= n <= 9,
{
    match key {
        Key::Char(c) => {
            if '1' <= c && c <= '9' {
                Some((c as u32 - 0x30) as u8)
            } else {
                None
            }
        },
        _ => None,
    }
}

/// Returns what a key asks for while the board is shown; `solved` says
/// whether the board has been solved.
pub fn key_action(key: Key, solved: bool) -> (a: Action)
    ensures
        a == action_of(key, solved),
        a matches Action::Put(n) ==> 1 <= n <= 9,
{
    match key {
        Key::Char(c) => {
            if c == ':' {
                Action::Command
            } else if solved {
                Action::Nothing
            } else if c == 'q' {
                Action::Quit
            } else if c == 'h' {
                Action::MoveBy(0, -1)
            } else if c == 'j' {
                Action::MoveBy(1, 0)
            } else if c == 'k' {
                Action::MoveBy(-1, 0)
            } else if c == 'l' {
                Action::MoveBy(0, 1)
            } else if c == 'H' {
                Action::MoveBy(0, -3)
            } else if c == 'J' {
                Action::MoveBy(3, 0)
            } else if c == 'K' {
                Action::MoveBy(-3, 0)
            } else if c == 'L' {
                Action::MoveBy(0, 3)
            } else if c == '0' || c == 'x' || c == 'd' {
                Action::Remove
            } else if c == 'u' {
                Action::Undo
            } else if c == 'a' {
                Action::Annotate
            } else {
                match key_digit(key) {
                    Some(n) => Action::Put(n),
                    None => Action::Nothing,
                }
            }
        },
        _ => {
            if solved {
                Action::Nothing
            } else {
                match key {
                    Key::Left => Action::MoveBy(0, -1),
                    Key::Down => Action::MoveBy(1, 0),
                    Key::Up => Action::MoveBy(-1, 0),
                    Key::Right => Action::MoveBy(0, 1),
                    Key::Delete => Action::Remove,
                    _ => Action::Nothing,
                }
            }
        },
    }
}

/// What a key does to the command on the status line.
#[derive(Clone, Copy, Debug, PartialEq, Eq, Structural)]
pub enum Edit {
    /// Run the command.
    Run,
    /// Complete the command as far as the known commands allow.
    Complete,
    /// Add the character to the command.
    Push(char),
    /// Take the last character from the command.
    Erase,
    /// Give the command up.
    Cancel,
    /// Nothing.
    Nothing,
}

/// What a key does to a command of `len` characters. Erasing past the
/// start of the command gives it up.
pub open spec fn edit_of(key: Key, len: int) -> Edit {
    match key {
        Key::Char('\n') => Edit::Run,
        Key::Char('\t') => Edit::Complete,
        Key::Char(c) => Edit::Push(c),
        Key::Backspace => if len == 0 {
            Edit::Cancel
        } else {
            Edit::Erase
        },
        Key::Esc => Edit::Cancel,
        _ => Edit::Nothing,
    }
}

/// Returns what a key does to a command of `len` characters.
pub fn status_key(key: Key, len: usize) -> (e: Edit)
    ensures
        e == edit_of(key, len as int),
{
    match key {
        Key::Char(c) => {
            if c == '\n' {
                Edit::Run
            } else if c == '\t' {
                Edit::Complete
            } else {
                Edit::Push(c)
            }
        },
        Key::Backspace => {
            if len == 0 {
                Edit::Cancel
            } else {
                Edit::Erase
            }
        },
        Key::Esc => Edit::Cancel,
        _ => Edit::Nothing,
    }
}

/// A command of the status line.
#[derive(Clone, Copy, Debug, PartialEq, Eq, Structural)]
pub enum Command {
    /// The empty command.
    Nothing,
    /// `q`: leave the game.
    Quit,
    /// `annot`: show the notes.
    Annot,
    /// `help`: show the help.
    Help,
    /// `hint`: give a hint.
    Hint,
    /// `new`: start a new game.
    New,
    /// `noannot`: hide the notes.
    NoAnnot,
    /// `solve`: solve the board.
    Solve,
    /// Anything else.
    Unknown,
}

/// The command that `text` names.
pub open spec fn command_of(text: Seq<char>) -> Command {
    if text == ""@ {
        Command::Nothing
    } else if text == "q"@ {
        Command::Quit
    } else if text == "annot"@ {
        Command::Annot
    } else if text == "help"@ {
        Command::Help
    } else if text == "hint"@ {
        Command::Hint
    } else if text == "new"@ {
        Command::New
    } else if text == "noannot"@ {
        Command::NoAnnot
    } else if text == "solve"@ {
        Command::Solve
    } else {
        Command::Unknown
    }
}

/// Returns the command that `text` names.
pub fn parse_command(text: &str) -> (c: Command)
    ensures
        c == command_of(text@),
{
    if same_text(text, "") {
        Command::Nothing
    } else if same_text(text, "q") {
        Command::Quit
    } else if same_text(text, "annot") {
        Command::Annot
    } else if same_text(text, "help") {
        Command::Help
    } else if same_text(text, "hint") {
        Command::Hint
    } else if same_text(text, "new") {
        Command::New
    } else if same_text(text, "noannot") {
        Command::NoAnnot
    } else if same_text(text, "solve") {
        Command::Solve
    } else {
        Command::Unknown
    }
}

} // verus!
