use csv_filter::cell::CellValue;
use csv_filter::from_csv_str;
use csv_filter::table::Csv;

fn strings(names: &[&str]) -> Vec<String> {
    names.iter().map(|s| String::from(*s)).collect()
}

fn uint(n: u32) -> CellValue {
    CellValue::UnsignedInteger(n)
}

#[test]
fn keep_two_of_three_columns() {
    let t = from_csv_str("a,b,c\n1,2,3\n4,x,6", &strings(&["a", "c"])).unwrap();
    assert_eq!(t.header, strings(&["a", "c"]));
    assert_eq!(t.content, vec![vec![uint(1), uint(3)], vec![uint(4), uint(6)]]);
}

#[test]
fn retained_columns_keep_header_order() {
    let t = from_csv_str("a,b,c\n1,2,3", &strings(&["c", "a"])).unwrap();
    assert_eq!(t.header, strings(&["a", "c"]));
    assert_eq!(t.content, vec![vec![uint(1), uint(3)]]);
}

#[test]
fn duplicates_and_unknown_names_in_keep_list_have_no_effect() {
    let t = from_csv_str("a,b,c\n1,2,3", &strings(&["c", "c", "zzz", "a"])).unwrap();
    assert_eq!(t.header, strings(&["a", "c"]));
    assert_eq!(t.content, vec![vec![uint(1), uint(3)]]);
}

#[test]
fn empty_keep_list_removes_every_column() {
    let t = from_csv_str("a,b\n1,2", &strings(&[])).unwrap();
    assert_eq!(t.header, strings(&[]));
    assert_eq!(t.content, vec![Vec::<CellValue>::new()]);
}

#[test]
fn duplicate_header_names_are_kept_together() {
    let t = from_csv_str("a,b,a\n1,2,3", &strings(&["a"])).unwrap();
    assert_eq!(t.header, strings(&["a", "a"]));
    assert_eq!(t.content, vec![vec![uint(1), uint(3)]]);
}

#[test]
fn duplicate_header_names_are_removed_together() {
    let t = from_csv_str("a,b,a\n1,2,3", &strings(&["b"])).unwrap();
    assert_eq!(t.header, strings(&["b"]));
    assert_eq!(t.content, vec![vec![uint(2)]]);
}

#[test]
fn projection_is_idempotent() {
    let keep = strings(&["c", "a"]);
    let mut once = Csv::parse("a,b,c\n1,2,3\n4,5,6").unwrap();
    once.filter_csv(&keep);
    let mut twice = Csv::parse("a,b,c\n1,2,3\n4,5,6").unwrap();
    twice.filter_csv(&keep);
    twice.filter_csv(&keep);
    assert_eq!(once, twice);
}

#[test]
fn filter_csv_shrinks_header_and_every_row() {
    let mut t = Csv::parse("a,b,c,d\n1,2,3,4\n5,6,7,8").unwrap();
    t.filter_csv(&strings(&["d", "b"]));
    assert_eq!(t.header, strings(&["b", "d"]));
    for row in &t.content {
        assert_eq!(row.len(), t.header.len());
    }
    assert_eq!(t.content, vec![vec![uint(2), uint(4)], vec![uint(6), uint(8)]]);
}

#[test]
fn projection_failure_of_parse_propagates() {
    let r = from_csv_str("", &strings(&["a"]));
    assert!(r.is_err());
}
