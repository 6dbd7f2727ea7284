use csv_filter::cell::CellValue;
use csv_filter::table::{Csv, CsvError};

fn strings(names: &[&str]) -> Vec<String> {
    names.iter().map(|s| String::from(*s)).collect()
}

fn uint(n: u32) -> CellValue {
    CellValue::UnsignedInteger(n)
}

fn text(s: &str) -> CellValue {
    CellValue::Text(String::from(s))
}

#[test]
fn parse_empty_input_fails() {
    assert_eq!(Csv::parse(""), Err(CsvError::EmptyInput));
}

#[test]
fn parse_header_only_without_break_gives_zero_rows() {
    let t = Csv::parse("a,b").unwrap();
    assert_eq!(t.header, strings(&["a", "b"]));
    assert_eq!(t.content.len(), 0);
}

#[test]
fn parse_header_only_with_trailing_break_gives_zero_rows() {
    let t = Csv::parse("a,b\n").unwrap();
    assert_eq!(t.header, strings(&["a", "b"]));
    assert_eq!(t.content.len(), 0);
}

#[test]
fn parse_coerces_each_cell() {
    let t = Csv::parse("name,count,ratio\nwidget,3,0.5").unwrap();
    assert_eq!(t.header, strings(&["name", "count", "ratio"]));
    assert_eq!(
        t.content,
        vec![vec![text("widget"), uint(3), CellValue::Float(String::from("0.5"))]]
    );
}

#[test]
fn parse_column_count_mismatch() {
    assert_eq!(
        Csv::parse("a,b\n1,2,3"),
        Err(CsvError::ColumnCountMismatch { row: 1, expected: 2, actual: 3 })
    );
}

#[test]
fn parse_stops_at_first_mismatch() {
    assert_eq!(
        Csv::parse("a,b\n1,2\n1\n1,2,3"),
        Err(CsvError::ColumnCountMismatch { row: 2, expected: 2, actual: 1 })
    );
}

#[test]
fn parse_mismatch_row_index_counts_skipped_empty_lines() {
    assert_eq!(
        Csv::parse("a,b\n\n1"),
        Err(CsvError::ColumnCountMismatch { row: 2, expected: 2, actual: 1 })
    );
}

#[test]
fn parse_skips_empty_body_lines() {
    let t = Csv::parse("a,b\n1,2\n\n3,4\n").unwrap();
    assert_eq!(t.content, vec![vec![uint(1), uint(2)], vec![uint(3), uint(4)]]);
}

#[test]
fn parse_keeps_empty_tokens() {
    let t = Csv::parse(",\n,").unwrap();
    assert_eq!(t.header, strings(&["", ""]));
    assert_eq!(t.content, vec![vec![text(""), text("")]]);
}

#[test]
fn parse_rows_match_header_width() {
    let t = Csv::parse("a,b,c\n1,2,3\nx,y,z").unwrap();
    for row in &t.content {
        assert_eq!(row.len(), t.header.len());
    }
}

#[test]
fn read_from_str_replaces_table() {
    let mut t = Csv::new();
    assert_eq!(t.header.len(), 0);
    assert_eq!(t.content.len(), 0);
    t.read_from_str("a\n1").unwrap();
    assert_eq!(t.header, strings(&["a"]));
    assert_eq!(t.content, vec![vec![uint(1)]]);
}

#[test]
fn read_from_str_keeps_table_on_error() {
    let mut t = Csv::parse("a\n1").unwrap();
    let r = t.read_from_str("");
    assert_eq!(r, Err(CsvError::EmptyInput));
    assert_eq!(t.header, strings(&["a"]));
    assert_eq!(t.content, vec![vec![uint(1)]]);
}
