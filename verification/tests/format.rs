use csvview::columns::ColumnWidths;
use csvview::formatter::StreamingFormatter;
use csvview::formatter::format_records;
use csvview::render::render_record;

fn rec(fields: &[&str]) -> Vec<String> {
    fields.iter().map(|s| s.to_string()).collect()
}

#[test]
fn two_body_rows_align_to_widest_cells() {
    let lines = format_records(rec(&["a", "b"]), &vec![rec(&["1", "22"]), rec(&["333", "4"])], 3000);
    assert_eq!(lines.len(), 3);
    assert_eq!(lines[0], "\"a\"    \"b\"   \n");
    assert_eq!(lines[1], "\"1\"    \"22\"  \n");
    assert_eq!(lines[2], "\"333\"  \"4\"   \n");
}

#[test]
fn fullwidth_field_widens_its_column_by_two() {
    let lines = format_records(rec(&["h"]), &vec![rec(&["\u{FF21}"])], 3000);
    assert_eq!(lines[0], "\"h\"   \n");
    assert_eq!(lines[1], "\"\u{FF21}\"  \n");
}

#[test]
fn tab_renders_as_four_spaces() {
    let lines = format_records(rec(&["aaaaaa"]), &vec![rec(&["x\ty"])], 3000);
    assert_eq!(lines[0], "\"aaaaaa\"  \n");
    assert_eq!(lines[1], "\"x    y\"  \n");
}

#[test]
fn record_with_more_fields_extends_columns() {
    let mut cols = ColumnWidths::from_header(&rec(&["a", "b"]));
    assert_eq!(cols.len(), 2);
    cols.observe(&rec(&["1", "2", "3", "4", "5"]));
    assert_eq!(cols.len(), 5);
    let lines = format_records(
        rec(&["a", "b"]),
        &vec![rec(&["1", "2", "3", "4", "55555"])],
        3000,
    );
    assert_eq!(lines.len(), 2);
    assert_eq!(lines[1], "\"1\"  \"2\"  \"3\"  \"4\"  \"55555\"  \n");
}

#[test]
fn column_widths_never_shrink() {
    let mut cols = ColumnWidths::from_header(&rec(&["aaa"]));
    assert_eq!(cols.width_at(0), 3);
    cols.observe(&rec(&["b"]));
    assert_eq!(cols.width_at(0), 3);
    cols.observe(&rec(&["ccccc"]));
    assert_eq!(cols.width_at(0), 5);
    cols.observe(&rec(&["dd"]));
    assert_eq!(cols.width_at(0), 5);
}

#[test]
fn width_beyond_tracked_columns_is_zero() {
    let cols = ColumnWidths::from_header(&rec(&["ab"]));
    assert_eq!(cols.width_at(1), 0);
    assert_eq!(cols.width_at(100), 0);
}

#[test]
fn rendering_twice_is_byte_identical() {
    let cols = ColumnWidths::from_header(&rec(&["aa", "bb"]));
    let record = rec(&["x\t", "\u{4E00}"]);
    let first = render_record(&record, &cols);
    let second = render_record(&record, &cols);
    assert_eq!(first, second);
    assert_eq!(first.as_bytes(), second.as_bytes());
}

#[test]
fn estimated_field_pads_to_column_plus_gap() {
    let mut cols = ColumnWidths::from_header(&rec(&["ab"]));
    let record = rec(&["c"]);
    cols.observe(&record);
    let line = render_record(&record, &cols);
    assert_eq!(line, "\"c\"   \n");
}

#[test]
fn one_line_out_per_record_in_below_bound() {
    let rows = vec![rec(&["1"]), rec(&["2"]), rec(&["3"]), rec(&["4"]), rec(&["5"])];
    let lines = format_records(rec(&["h"]), &rows, 10);
    assert_eq!(lines.len(), 6);
}

#[test]
fn one_line_out_per_record_in_above_bound() {
    let rows = vec![rec(&["1"]), rec(&["2"]), rec(&["3"]), rec(&["4"]), rec(&["5"])];
    let lines = format_records(rec(&["h"]), &rows, 2);
    assert_eq!(lines.len(), 6);
}

#[test]
fn input_at_exact_bound_flushes_everything_with_nothing_streamed() {
    let mut fmt = StreamingFormatter::new(rec(&["a", "b"]), 2);
    let first = fmt.push(rec(&["1", "22"]));
    assert!(first.is_empty());
    let flushed = fmt.push(rec(&["333", "4"]));
    assert_eq!(flushed.len(), 3);
    assert_eq!(flushed[0], "\"a\"    \"b\"   \n");
    assert_eq!(flushed[1], "\"1\"    \"22\"  \n");
    assert_eq!(flushed[2], "\"333\"  \"4\"   \n");
    let tail = fmt.finish();
    assert!(tail.is_empty());
}

#[test]
fn records_past_the_window_use_frozen_widths() {
    let mut fmt = StreamingFormatter::new(rec(&["aa"]), 1);
    let flushed = fmt.push(rec(&["b"]));
    assert_eq!(flushed.len(), 2);
    assert_eq!(flushed[0], "\"aa\"  \n");
    assert_eq!(flushed[1], "\"b\"   \n");
    let wide = fmt.push(rec(&["cccc"]));
    assert_eq!(wide, vec!["\"cccc\"\n".to_string()]);
    let extra = fmt.push(rec(&["d", "e"]));
    assert_eq!(extra, vec!["\"d\"   \"e\"\n".to_string()]);
    assert!(fmt.finish().is_empty());
}

#[test]
fn zero_bound_streams_from_the_start() {
    let mut fmt = StreamingFormatter::new(rec(&["hh"]), 0);
    let first = fmt.push(rec(&["x"]));
    assert_eq!(first.len(), 2);
    assert_eq!(first[0], "\"hh\"  \n");
    assert_eq!(first[1], "\"x\"   \n");
    let next = fmt.push(rec(&["y"]));
    assert_eq!(next, vec!["\"y\"   \n".to_string()]);
    assert!(fmt.finish().is_empty());
}

#[test]
fn short_input_is_flushed_at_finish() {
    let mut fmt = StreamingFormatter::new(rec(&["h"]), 100);
    assert!(fmt.push(rec(&["1"])).is_empty());
    assert!(fmt.push(rec(&["2"])).is_empty());
    let tail = fmt.finish();
    assert_eq!(tail.len(), 3);
    assert_eq!(tail[0], "\"h\"  \n");
    assert_eq!(tail[1], "\"1\"  \n");
    assert_eq!(tail[2], "\"2\"  \n");
}

#[test]
fn header_only_input_emits_header_line() {
    let lines = format_records(rec(&["a", "b"]), &vec![], 3000);
    assert_eq!(lines, vec!["\"a\"  \"b\"  \n".to_string()]);
}

#[test]
fn empty_fields_render_as_bare_quotes() {
    let lines = format_records(rec(&["", ""]), &vec![rec(&["", ""])], 3000);
    assert_eq!(lines[0], "\"\"  \"\"  \n");
    assert_eq!(lines[1], "\"\"  \"\"  \n");
}
