use rsudoku::text::{is_whitespace, parse_cell};

#[test]
fn white_space_is_that_of_unicode() {
    let mut spaces = 0;
    for code in 0..=0x10FFFFu32 {
        if let Some(c) = char::from_u32(code) {
            assert_eq!(is_whitespace(c), c.is_whitespace(), "U+{:04X}", code);
            if is_whitespace(c) {
                spaces += 1;
            }
        }
    }
    assert_eq!(spaces, 25);
}

#[test]
fn cells_are_digits_dots_and_underscores() {
    for code in 0..=0x10FFFFu32 {
        if let Some(c) = char::from_u32(code) {
            let expected = if c == '.' || c == '_' {
                Some(0)
            } else {
                c.to_digit(10).map(|d| d as u8)
            };
            assert_eq!(parse_cell(c), expected, "U+{:04X}", code);
        }
    }
    assert_eq!(parse_cell('7'), Some(7));
    assert_eq!(parse_cell('0'), Some(0));
    assert_eq!(parse_cell('\u{0667}'), None);
}
