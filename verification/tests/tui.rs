use rsudoku::game::Game;
use rsudoku::tui::{
    annotation_cell, annotations_origin, board_cell, cell_offset, key_action, key_digit,
    note_cell, parse_command, status_key, sudoku_origin, Action, CellLook, Command, Edit, Grid,
    Key,
};
use rsudoku::Sudoku;

const EULER: &str = "003020600
900305001
001806400
008102900
700000008
006708200
002609500
800203009
005010300";

#[test]
fn grid_size() {
    let grid = Grid(3, 1);
    assert_eq!(grid.width(), 31);
    assert_eq!(grid.height(), 13);
    assert_eq!(Grid(1, 2).width(), 13);
    assert_eq!(Grid(1, 2).height(), 22);
    assert_eq!(Grid(0, 0).width(), 4);
}

#[test]
fn grid_outline_text() {
    let back = "\x1B[1B\x1B[13D";
    let cells = format!("\u{2551}\x1B[3C\u{2502}\x1B[3C\u{2502}\x1B[3C\u{2551}{}", back);
    let band = cells.repeat(3);
    let divider = format!(
        "\u{255F}\u{2500}\u{2500}\u{2500}\u{253C}\u{2500}\u{2500}\u{2500}\u{253C}\u{2500}\u{2500}\u{2500}\u{2562}{}",
        back
    );
    let expected = format!(
        "\u{2554}\u{2550}\u{2550}\u{2550}\u{2564}\u{2550}\u{2550}\u{2550}\u{2564}\u{2550}\u{2550}\u{2550}\u{2557}{}{}{}{}{}{}\u{255A}\u{2550}\u{2550}\u{2550}\u{2567}\u{2550}\u{2550}\u{2550}\u{2567}\u{2550}\u{2550}\u{2550}\u{255D}",
        back, band, divider, band, divider, band
    );
    assert_eq!(Grid(1, 1).render(), expected);
}

#[test]
fn grid_outline_of_the_game() {
    let text = Grid(3, 1).render();
    assert!(text.starts_with("\u{2554}\u{2550}\u{2550}\u{2550}\u{2550}\u{2550}\u{2550}\u{2550}\u{2550}\u{2550}\u{2564}"));
    assert!(text.ends_with("\u{2550}\u{255D}"));
    assert_eq!(text.matches("\x1B[1B\x1B[31D").count(), 12);
    assert_eq!(text.matches("\x1B[9C").count(), 27);
    assert_eq!(text.matches('\u{2551}').count(), 18);
}

#[test]
fn origins() {
    assert_eq!(sudoku_origin(71, 20, false), None);
    assert_eq!(sudoku_origin(72, 19, true), None);
    assert_eq!(annotations_origin(71, 40), None);
    assert_eq!(sudoku_origin(72, 20, false), Some((21, 4)));
    assert_eq!(sudoku_origin(72, 20, true), Some((5, 4)));
    assert_eq!(annotations_origin(72, 20), Some((36, 4)));
    assert_eq!(sudoku_origin(80, 24, false), Some((25, 6)));
    assert_eq!(sudoku_origin(u16::MAX, u16::MAX, true), Some((32736, 32761)));
}

#[test]
fn offsets() {
    assert_eq!(cell_offset(0, 0), (1, 1));
    assert_eq!(cell_offset(8, 8), (27, 11));
    assert_eq!(cell_offset(3, 2), (7, 5));
    assert_eq!(annotation_cell(4, 7, 0, 0), (3, 6, 1));
    assert_eq!(annotation_cell(4, 7, 8, 8), (5, 8, 9));
    assert_eq!(annotation_cell(0, 0, 4, 5), (1, 1, 6));
}

#[test]
fn keys_while_playing() {
    assert_eq!(key_action(Key::Char(':'), false), Action::Command);
    assert_eq!(key_action(Key::Char(':'), true), Action::Command);
    assert_eq!(key_action(Key::Char('q'), false), Action::Quit);
    assert_eq!(key_action(Key::Char('q'), true), Action::Nothing);
    assert_eq!(key_action(Key::Left, true), Action::Nothing);
    assert_eq!(key_action(Key::Char('h'), false), Action::MoveBy(0, -1));
    assert_eq!(key_action(Key::Left, false), Action::MoveBy(0, -1));
    assert_eq!(key_action(Key::Char('j'), false), Action::MoveBy(1, 0));
    assert_eq!(key_action(Key::Down, false), Action::MoveBy(1, 0));
    assert_eq!(key_action(Key::Char('k'), false), Action::MoveBy(-1, 0));
    assert_eq!(key_action(Key::Up, false), Action::MoveBy(-1, 0));
    assert_eq!(key_action(Key::Char('l'), false), Action::MoveBy(0, 1));
    assert_eq!(key_action(Key::Right, false), Action::MoveBy(0, 1));
    assert_eq!(key_action(Key::Char('H'), false), Action::MoveBy(0, -3));
    assert_eq!(key_action(Key::Char('J'), false), Action::MoveBy(3, 0));
    assert_eq!(key_action(Key::Char('K'), false), Action::MoveBy(-3, 0));
    assert_eq!(key_action(Key::Char('L'), false), Action::MoveBy(0, 3));
    assert_eq!(key_action(Key::Char('0'), false), Action::Remove);
    assert_eq!(key_action(Key::Char('x'), false), Action::Remove);
    assert_eq!(key_action(Key::Char('d'), false), Action::Remove);
    assert_eq!(key_action(Key::Delete, false), Action::Remove);
    assert_eq!(key_action(Key::Char('1'), false), Action::Put(1));
    assert_eq!(key_action(Key::Char('9'), false), Action::Put(9));
    assert_eq!(key_action(Key::Char('u'), false), Action::Undo);
    assert_eq!(key_action(Key::Char('a'), false), Action::Annotate);
    assert_eq!(key_action(Key::Char('z'), false), Action::Nothing);
    assert_eq!(key_action(Key::Esc, false), Action::Nothing);
    assert_eq!(key_action(Key::Backspace, false), Action::Nothing);
    assert_eq!(key_action(Key::Other, false), Action::Nothing);
    assert_eq!(key_digit(Key::Char('5')), Some(5));
    assert_eq!(key_digit(Key::Char('0')), None);
    assert_eq!(key_digit(Key::Up), None);
}

#[test]
fn keys_on_the_status_line() {
    assert_eq!(status_key(Key::Char('\n'), 3), Edit::Run);
    assert_eq!(status_key(Key::Char('\t'), 3), Edit::Complete);
    assert_eq!(status_key(Key::Char('q'), 0), Edit::Push('q'));
    assert_eq!(status_key(Key::Backspace, 2), Edit::Erase);
    assert_eq!(status_key(Key::Backspace, 0), Edit::Cancel);
    assert_eq!(status_key(Key::Esc, 5), Edit::Cancel);
    assert_eq!(status_key(Key::Left, 5), Edit::Nothing);
}

#[test]
fn commands() {
    assert_eq!(parse_command(""), Command::Nothing);
    assert_eq!(parse_command("q"), Command::Quit);
    assert_eq!(parse_command("annot"), Command::Annot);
    assert_eq!(parse_command("help"), Command::Help);
    assert_eq!(parse_command("hint"), Command::Hint);
    assert_eq!(parse_command("new"), Command::New);
    assert_eq!(parse_command("noannot"), Command::NoAnnot);
    assert_eq!(parse_command("solve"), Command::Solve);
    assert_eq!(parse_command("solv"), Command::Unknown);
    assert_eq!(parse_command("Q"), Command::Unknown);
    assert_eq!(parse_command(" q"), Command::Unknown);
}

#[test]
fn looks_of_board_cells() {
    let mut game = Game::from_sudoku(Sudoku::parse(EULER).unwrap());
    game.set_position(0, 1);
    game.put(4);
    assert_eq!(
        board_cell(&game, None, 0, 2),
        CellLook { glyph: '3', bold: true, selected: false, hinted: false, solved: false }
    );
    assert_eq!(
        board_cell(&game, Some((0, 0)), 0, 1),
        CellLook { glyph: '4', bold: false, selected: true, hinted: false, solved: false }
    );
    assert_eq!(
        board_cell(&game, Some((0, 0)), 0, 0),
        CellLook { glyph: '.', bold: false, selected: false, hinted: true, solved: false }
    );
    game.undo();
    game.solve();
    assert_eq!(
        board_cell(&game, None, 0, 1),
        CellLook { glyph: '8', bold: false, selected: true, hinted: false, solved: true }
    );
}

#[test]
fn looks_of_notes() {
    let mut game = Game::from_sudoku(Sudoku::parse(EULER).unwrap());
    game.set_position(4, 7);
    game.annotate(6);
    // The selected cell is the middle cell of its block; the place of the
    // digit 6 in it is the second row and the third column of its places.
    assert_eq!(
        note_cell(&game, None, 4, 5),
        CellLook { glyph: '6', bold: false, selected: true, hinted: false, solved: false }
    );
    assert_eq!(
        note_cell(&game, Some((4, 7)), 4, 4),
        CellLook { glyph: '.', bold: false, selected: true, hinted: true, solved: false }
    );
    assert_eq!(
        note_cell(&game, Some((4, 7)), 0, 0),
        CellLook { glyph: '.', bold: false, selected: false, hinted: false, solved: false }
    );
    assert!(game.note(4, 7, 6));
    assert!(!game.note(4, 7, 5));
}

#[test]
fn grid_outline_with_given_moves() {
    let text = Grid(1, 1).render_with("<", ">");
    let cells = "\u{2551}>\u{2502}>\u{2502}>\u{2551}<";
    let divider = "\u{255F}\u{2500}\u{2500}\u{2500}\u{253C}\u{2500}\u{2500}\u{2500}\u{253C}\u{2500}\u{2500}\u{2500}\u{2562}<";
    let expected = format!(
        "\u{2554}\u{2550}\u{2550}\u{2550}\u{2564}\u{2550}\u{2550}\u{2550}\u{2564}\u{2550}\u{2550}\u{2550}\u{2557}<{0}{0}{0}{1}{0}{0}{0}{1}{0}{0}{0}\u{255A}\u{2550}\u{2550}\u{2550}\u{2567}\u{2550}\u{2550}\u{2550}\u{2567}\u{2550}\u{2550}\u{2550}\u{255D}",
        cells, divider
    );
    assert_eq!(text, expected);
    assert_eq!(
        Grid(0, 0).render_with("<", ">"),
        "\u{2554}\u{2564}\u{2564}\u{2557}<\u{255F}\u{253C}\u{253C}\u{2562}<\u{255F}\u{253C}\u{253C}\u{2562}<\u{255A}\u{2567}\u{2567}\u{255D}"
    );
}
