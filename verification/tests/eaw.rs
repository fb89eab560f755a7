use csvview::eaw::Category;
use csvview::eaw::TableError;
use csvview::eaw::WidthTable;
use csvview::eaw::category_width;
use csvview::eaw::parse_hex;

fn lines(entries: &[&str]) -> Vec<String> {
    entries.iter().map(|s| s.to_string()).collect()
}

#[test]
fn synthetic_table_classifies_points_and_ranges() {
    let table = WidthTable::from_lines(&lines(&[
        "# East Asian Width test data",
        "",
        "0041;Na",
        "4E00..9FFF;W",
        "FF21;F # FULLWIDTH LATIN CAPITAL LETTER A",
    ]))
    .unwrap();
    assert_eq!(table.classify(0x41), Category::Narrow);
    assert_eq!(table.classify(0x4E00), Category::Wide);
    assert_eq!(table.classify(0x9FFF), Category::Wide);
    assert_eq!(table.classify(0xFF21), Category::Fullwidth);
    assert_eq!(table.classify(0x20), Category::Ambiguous);
    assert_eq!(table.classify(0xA000), Category::Ambiguous);
}

#[test]
fn width_is_one_or_two_by_category() {
    assert_eq!(category_width(Category::Ambiguous), 1);
    assert_eq!(category_width(Category::Halfwidth), 1);
    assert_eq!(category_width(Category::Neutral), 1);
    assert_eq!(category_width(Category::Narrow), 1);
    assert_eq!(category_width(Category::Fullwidth), 2);
    assert_eq!(category_width(Category::Wide), 2);
    let table = WidthTable::from_lines(&lines(&["0041;Na", "FF21;F"])).unwrap();
    assert_eq!(table.display_width(0x41), 1);
    assert_eq!(table.display_width(0xFF21), 2);
    assert_eq!(table.display_width(0x7F), 1);
}

#[test]
fn later_rule_overwrites_earlier() {
    let table = WidthTable::from_lines(&lines(&["0041;W", "0041;Na"])).unwrap();
    assert_eq!(table.classify(0x41), Category::Narrow);
    let table = WidthTable::from_lines(&lines(&["0000..10FFFF;N", "0041;W"])).unwrap();
    assert_eq!(table.classify(0x41), Category::Wide);
    assert_eq!(table.classify(0x42), Category::Neutral);
}

#[test]
fn comments_and_blanks_carry_no_rule() {
    let table = WidthTable::from_lines(&lines(&[
        "   ",
        "# 0041;W would be a rule, but this is a comment",
        "\t",
        "  0042;F  ",
    ]))
    .unwrap();
    assert_eq!(table.classify(0x41), Category::Ambiguous);
    assert_eq!(table.classify(0x42), Category::Fullwidth);
}

#[test]
fn unknown_category_is_rejected() {
    let r = WidthTable::from_lines(&lines(&["0041;X"]));
    assert_eq!(r.err().unwrap(), TableError::UnknownCategory);
    let r = WidthTable::from_lines(&lines(&["0041;NA"]));
    assert_eq!(r.err().unwrap(), TableError::UnknownCategory);
}

#[test]
fn missing_separator_is_rejected() {
    let r = WidthTable::from_lines(&lines(&["0041"]));
    assert_eq!(r.err().unwrap(), TableError::MissingSeparator);
}

#[test]
fn bad_code_point_is_rejected() {
    let r = WidthTable::from_lines(&lines(&["GG;W"]));
    assert_eq!(r.err().unwrap(), TableError::BadCodePoint);
    let r = WidthTable::from_lines(&lines(&["110000;W"]));
    assert_eq!(r.err().unwrap(), TableError::BadCodePoint);
    let r = WidthTable::from_lines(&lines(&[";W"]));
    assert_eq!(r.err().unwrap(), TableError::BadCodePoint);
}

#[test]
fn first_bad_line_wins() {
    let r = WidthTable::from_lines(&lines(&["0041;F", "0042", "0043;X"]));
    assert_eq!(r.err().unwrap(), TableError::MissingSeparator);
}

#[test]
fn parse_hex_reads_code_points() {
    assert_eq!(parse_hex("0"), Some(0));
    assert_eq!(parse_hex("0041"), Some(0x41));
    assert_eq!(parse_hex("10FFFF"), Some(0x10FFFF));
    assert_eq!(parse_hex("abcd"), Some(0xABCD));
    assert_eq!(parse_hex("110000"), None);
    assert_eq!(parse_hex(""), None);
    assert_eq!(parse_hex("12G4"), None);
}
