use md2md::cleanup;

#[test]
fn detab_pads_to_the_next_tab_stop() {
    assert_eq!(cleanup("a\tb", 4), "a   b");
    assert_eq!(cleanup("\tb", 4), "    b");
    assert_eq!(cleanup("abc\td", 4), "abc d");
    assert_eq!(cleanup("abcd\te", 4), "abcd    e");
}

#[test]
fn detab_counts_columns_per_line() {
    assert_eq!(cleanup("ab\tcd\tef", 2), "ab  cd  ef");
    assert_eq!(cleanup("a\tb\nc\td", 4), "a   b\nc   d");
}

#[test]
fn detab_width_one() {
    assert_eq!(cleanup("a\tb", 1), "a b");
}

#[test]
fn cleanup_is_idempotent_on_its_output() {
    let once = cleanup("a\tb\r\nx  \t y\r \n  \nz", 4);
    assert_eq!(cleanup(&once, 4), once);
}

#[test]
fn line_endings_become_line_feeds() {
    assert_eq!(cleanup("a\r\nb\rc", 4), "a\nb\nc");
}

#[test]
fn bom_and_substitute_bytes_are_removed() {
    assert_eq!(cleanup("\u{FEFF}a\u{1A}b", 4), "ab");
    // a byte-order mark in the middle stays: only a leading one is removed
    assert_eq!(cleanup("a\u{FEFF}b", 4), "a\u{FEFF}b");
}

#[test]
fn space_only_lines_become_blank_lines() {
    assert_eq!(cleanup("a\n   \nb", 4), "a\n\nb");
    // a line with other characters keeps its spaces
    assert_eq!(cleanup("a \n b", 4), "a \n b");
}
