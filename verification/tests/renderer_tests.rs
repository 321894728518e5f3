use csv_viewer::command::parse;
use csv_viewer::csv_renderer::{Cell, CsvRenderer};

fn table(headers: &[&str], rows: &[&[&str]]) -> CsvRenderer {
    let header_texts: Vec<String> = headers.iter().map(|s| s.to_string()).collect();
    let row_texts: Vec<Vec<String>> = rows
        .iter()
        .map(|r| r.iter().map(|s| s.to_string()).collect())
        .collect();
    CsvRenderer::build(&header_texts, &row_texts)
}

#[test]
fn cell_width_is_display_width() {
    assert_eq!(3, Cell::new("abc", 0).width());
    assert_eq!(0, Cell::new("", 0).width());
}

#[test]
fn cell_width_counts_terminal_columns() {
    // Wide characters occupy two terminal columns each.
    assert_eq!(4, Cell::new("日本", 1).width());
}

#[test]
fn render_without_selection_shows_all_columns() {
    let t = table(&["id", "name", "age"], &[&["1", "Alice", "30"]]);
    let lines = t.render(100);
    assert_eq!(2, lines.len());
    assert_eq!("id   | name | age", lines[0].trim_end());
    assert_eq!("1    | Alice | 30", lines[1].trim_end());
}

#[test]
fn render_pads_headers_to_widest_header() {
    let t = table(&["id", "name"], &[]);
    let lines = t.render(100);
    // "id" is padded to the width of "name", the widest header.
    assert_eq!(vec!["id   | name".to_string()], lines);
}

#[test]
fn render_pads_wide_characters_by_display_width() {
    let t = table(&["日本", "ab"], &[]);
    let lines = t.render(100);
    // "ab" is padded to 4 display columns, the width of the wide header.
    assert_eq!(vec!["日本 | ab  ".to_string()], lines);
}

#[test]
fn render_truncates_to_width_budget() {
    let t = table(&["id", "name", "age"], &[&["1", "Alice", "30"]]);
    let lines = t.render(4);
    assert_eq!("id  ", lines[0]);
    assert_eq!("1   ", lines[1]);
}

#[test]
fn row_wider_than_header_is_never_shortened() {
    // Row alignment is computed against header widths only; a value wider
    // than its header keeps its full text with no padding.
    let t = table(&["a", "bb"], &[&["xyz", "q"]]);
    let lines = t.render(100);
    assert_eq!("a  | bb", lines[0].trim_end());
    assert_eq!("xyz | q", lines[1].trim_end());
}

#[test]
fn select_headers_restricts_columns() {
    let mut t = table(&["id", "name", "age"], &[&["1", "Alice", "30"]]);
    t.select_headers(vec!["name"]);
    let lines = t.render(100);
    assert_eq!("name", lines[0].trim_end());
    assert_eq!("Alice", lines[1].trim_end());
}

#[test]
fn scenario_select_name_and_age() {
    let mut t = table(&["id", "name", "age"], &[&["1", "Alice", "30"]]);
    let exprs = parse("column=name,age").unwrap();
    t.set_exprs(exprs);
    let lines = t.render(100);
    assert_eq!("name | age", lines[0].trim_end());
    assert_eq!("Alice | 30", lines[1].trim_end());
}

#[test]
fn scenario_unmatched_column_renders_empty_lines() {
    let mut t = table(&["id", "name", "age"], &[&["1", "Alice", "30"]]);
    let exprs = parse("column=zzz").unwrap();
    t.set_exprs(exprs);
    let lines = t.render(100);
    assert_eq!(vec![String::new(), String::new()], lines);
}

#[test]
fn last_filter_wins() {
    let mut t = table(&["foo", "bar"], &[]);
    let exprs = parse("column=foo column=bar").unwrap();
    t.set_exprs(exprs);
    let lines = t.render(100);
    assert_eq!(vec!["bar".to_string()], lines);
}

#[test]
fn applying_same_selection_twice_renders_identically() {
    let mut t = table(&["id", "name", "age"], &[&["1", "Alice", "30"]]);
    t.set_exprs(parse("column=name,age").unwrap());
    let first = t.render(100);
    t.set_exprs(parse("column=name,age").unwrap());
    let second = t.render(100);
    assert_eq!(first, second);
}

#[test]
fn empty_expression_list_keeps_selection() {
    let mut t = table(&["id", "name"], &[&["1", "Alice"]]);
    t.set_exprs(parse("column=name").unwrap());
    let before = t.render(100);
    t.set_exprs(parse("").unwrap());
    let after = t.render(100);
    assert_eq!(before, after);
    assert_eq!("name", after[0].trim_end());
}

#[test]
fn unpadded_line_content_equals_cell_values() {
    let t = table(&["id", "name", "age"], &[&["1", "Alice", "30"]]);
    let lines = t.render(1000);
    let header_cells: Vec<&str> = lines[0].split(" | ").map(|c| c.trim_end()).collect();
    assert_eq!(vec!["id", "name", "age"], header_cells);
    let row_cells: Vec<&str> = lines[1].split(" | ").map(|c| c.trim_end()).collect();
    assert_eq!(vec!["1", "Alice", "30"], row_cells);
}
