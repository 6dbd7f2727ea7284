use csv_filter::cell::{coerce, CellValue};

fn float_cell(s: &str) -> CellValue {
    CellValue::Float(String::from(s))
}

fn text_cell(s: &str) -> CellValue {
    CellValue::Text(String::from(s))
}

#[test]
fn coerce_plain_integers() {
    assert_eq!(coerce("42"), CellValue::UnsignedInteger(42));
    assert_eq!(coerce("0"), CellValue::UnsignedInteger(0));
    assert_eq!(coerce("007"), CellValue::UnsignedInteger(7));
    assert_eq!(coerce("4294967295"), CellValue::UnsignedInteger(u32::MAX));
}

#[test]
fn coerce_overflowing_integer_falls_to_float() {
    assert_eq!(coerce("4294967296"), float_cell("4294967296"));
    assert_eq!(coerce("99999999999999999999"), float_cell("99999999999999999999"));
}

#[test]
fn coerce_floats() {
    assert_eq!(coerce("42.0"), float_cell("42.0"));
    assert_eq!(coerce("1e3"), float_cell("1e3"));
    assert_eq!(coerce("1E3"), float_cell("1E3"));
    assert_eq!(coerce("-5"), float_cell("-5"));
    assert_eq!(coerce("+42"), float_cell("+42"));
    assert_eq!(coerce(".5"), float_cell(".5"));
    assert_eq!(coerce("5."), float_cell("5."));
    assert_eq!(coerce("1.e5"), float_cell("1.e5"));
    assert_eq!(coerce("-1.25e-3"), float_cell("-1.25e-3"));
}

#[test]
fn coerce_special_floats() {
    assert_eq!(coerce("inf"), float_cell("inf"));
    assert_eq!(coerce("-inf"), float_cell("-inf"));
    assert_eq!(coerce("Infinity"), float_cell("Infinity"));
    assert_eq!(coerce("INFINITY"), float_cell("INFINITY"));
    assert_eq!(coerce("NaN"), float_cell("NaN"));
    assert_eq!(coerce("nan"), float_cell("nan"));
}

#[test]
fn coerce_text() {
    assert_eq!(coerce("42abc"), text_cell("42abc"));
    assert_eq!(coerce(""), text_cell(""));
    assert_eq!(coerce(" 42"), text_cell(" 42"));
    assert_eq!(coerce("42 "), text_cell("42 "));
    assert_eq!(coerce("1.2.3"), text_cell("1.2.3"));
    assert_eq!(coerce("1e"), text_cell("1e"));
    assert_eq!(coerce("1e+"), text_cell("1e+"));
    assert_eq!(coerce("."), text_cell("."));
    assert_eq!(coerce("+"), text_cell("+"));
    assert_eq!(coerce("nan(2)"), text_cell("nan(2)"));
    assert_eq!(coerce("infinit"), text_cell("infinit"));
    assert_eq!(coerce("0x10"), text_cell("0x10"));
    assert_eq!(coerce("héllo"), text_cell("héllo"));
}

#[test]
fn float_classification_agrees_with_std_parser() {
    let tokens = [
        "", "0", "42", "007", "-5", "+42", "4294967295", "4294967296", "42.0", ".5", "5.", ".",
        "1.e5", "1e3", "1E3", "1e", "1e+", "1e+5", "1.2.3", "inf", "-inf", "Infinity", "INFINITY",
        "infinit", "infinityy", "NaN", "nan", "nan(2)", "abc", " 42", "42 ", "--5", "+-5", "5e5e5",
        "e5", "+e5", ".e5", "0x10", "１２", "٣٤",
    ];
    for t in tokens {
        let is_numeric_cell = !matches!(coerce(t), CellValue::Text(_));
        assert_eq!(
            is_numeric_cell,
            t.parse::<f32>().is_ok(),
            "classification differs from the standard parser on {:?}",
            t
        );
    }
}
