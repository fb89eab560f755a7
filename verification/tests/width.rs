use csvview::is_fullwidth;
use csvview::terminal_length;

#[test]
fn tab_counts_four_columns() {
    assert_eq!(terminal_length("\t"), 4);
}

#[test]
fn tab_is_four_independent_of_context() {
    assert_eq!(terminal_length("a\tb"), 6);
    assert_eq!(terminal_length("\t\t"), 8);
}

#[test]
fn empty_field_has_zero_width() {
    assert_eq!(terminal_length(""), 0);
}

#[test]
fn ascii_chars_count_one_column() {
    assert_eq!(terminal_length("abc"), 3);
    assert_eq!(terminal_length("hello, world"), 12);
}

#[test]
fn fullwidth_char_counts_two_columns() {
    assert_eq!(terminal_length("\u{FF21}"), 2);
    assert_eq!(terminal_length("a\u{FF21}b"), 4);
}

#[test]
fn cjk_ideograph_counts_two_columns() {
    assert_eq!(terminal_length("\u{4E00}"), 2);
}

#[test]
fn control_char_counts_zero_columns() {
    assert_eq!(terminal_length("\u{7}"), 0);
}

#[test]
fn is_fullwidth_distinguishes_widths() {
    assert!(is_fullwidth('\u{FF21}'));
    assert!(is_fullwidth('\u{4E00}'));
    assert!(!is_fullwidth('A'));
    assert!(!is_fullwidth(' '));
    assert!(!is_fullwidth('\t'));
}
