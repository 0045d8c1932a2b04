use utui::line_text;

#[test]
fn truncates_by_terminal_display_width() {
    let output = line_text("古池や蛙", 6);
    assert!(output.ends_with("古池…"));
}

#[test]
fn preserves_ansi_formatting_from_extractors() {
    let styled = "\x1b[31mred\x1b[0m";
    let output = line_text(styled, 3);
    assert!(output.ends_with(styled));
}

#[test]
fn normalises_multiline_text_to_one_line() {
    let output = line_text("one\r\ntwo\nthree\tfour", 32);
    assert!(output.ends_with("one two three four"));
}

#[test]
fn text_that_fits_is_shown_whole() {
    assert_eq!(line_text("unicorn", 7), "unicorn");
    assert_eq!(line_text("unicorn", 4), "uni…");
}

#[test]
fn a_zero_width_shows_nothing() {
    assert_eq!(line_text("unicorn", 0), "");
}

#[test]
fn each_line_break_becomes_one_space() {
    assert_eq!(line_text("a\r\r\nb\n\rc", 20), "a  b  c");
    assert_eq!(line_text("\t\r\n", 20), "  ");
}
