use rsudoku::util::complete;

#[test]
fn complete_gives_the_common_rest() {
    assert_eq!(
        "let",
        complete(&["completion", "complete", "complet", "co", "com", "test"], "comp")
    );
}

#[test]
fn complete_without_a_match_is_empty() {
    assert_eq!("", complete(&["annot", "help"], "x"));
    assert_eq!("", complete(&[], "x"));
    assert_eq!("", complete(&[], ""));
}

#[test]
fn complete_of_commands() {
    let commands = ["annot", "help", "hint", "new", "noannot", "solve", "q"];
    assert_eq!("nnot", complete(&commands, "a"));
    assert_eq!("", complete(&commands, "h"));
    assert_eq!("lp", complete(&commands, "he"));
    assert_eq!("", complete(&commands, "n"));
    assert_eq!("annot", complete(&commands, "no"));
    assert_eq!("", complete(&commands, "solve"));
    assert_eq!("", complete(&commands, ""));
    assert_eq!("", complete(&commands, "solved"));
}

#[test]
fn complete_counts_characters() {
    assert_eq!("\u{e9}s", complete(&["caf\u{e9}s", "caf\u{e9}s!"], "caf"));
    assert_eq!("s", complete(&["caf\u{e9}s", "caf\u{e9}s!"], "caf\u{e9}"));
}
