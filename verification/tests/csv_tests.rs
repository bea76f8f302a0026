use musiq::csv::{CsvObject, DEFAULT_SEPARATOR, DEFAULT_STR_MARKER};

#[test]
fn serialize_bool_null_int_row() {
    let rows = vec![vec![CsvObject::Bool(true), CsvObject::Null, CsvObject::Int(5)]];
    let text = CsvObject::serialize(rows, DEFAULT_SEPARATOR, DEFAULT_STR_MARKER);
    assert_eq!(text, "true,,5\r\n");
}

#[test]
fn parse_reproduces_bool_null_int_row() {
    let rows = CsvObject::from_str("true,,5\r\n", DEFAULT_SEPARATOR, DEFAULT_STR_MARKER);
    assert_eq!(rows.len(), 1);
    assert_eq!(rows[0].len(), 3);
    assert!(matches!(rows[0][0], CsvObject::Bool(true)));
    assert!(matches!(rows[0][1], CsvObject::Null));
    assert!(matches!(rows[0][2], CsvObject::Int(5)));
}

#[test]
fn serialize_strings_are_quoted() {
    let rows = vec![vec![
        CsvObject::String(String::from("hello")),
        CsvObject::Bool(false),
        CsvObject::Int(-42),
    ]];
    let text = CsvObject::serialize(rows, DEFAULT_SEPARATOR, DEFAULT_STR_MARKER);
    assert_eq!(text, "\"hello\",false,-42\r\n");
}

#[test]
fn parse_quoted_string_keeps_separators() {
    let rows = CsvObject::from_str("\"a,b\",2", DEFAULT_SEPARATOR, DEFAULT_STR_MARKER);
    assert_eq!(rows.len(), 1);
    assert_eq!(rows[0].len(), 2);
    assert_eq!(rows[0][0].as_string(), Some("a,b"));
    assert!(matches!(rows[0][1], CsvObject::Int(2)));
}

#[test]
fn parse_trims_and_recognizes_words() {
    let rows = CsvObject::from_str("  true , false ,  7 ", DEFAULT_SEPARATOR, DEFAULT_STR_MARKER);
    assert_eq!(rows[0].len(), 3);
    assert_eq!(rows[0][0].as_bool(), Some(true));
    assert_eq!(rows[0][1].as_bool(), Some(false));
    assert!(matches!(rows[0][2], CsvObject::Int(7)));
}

#[test]
fn parse_unreadable_fields_become_null() {
    let rows = CsvObject::from_str("what?,x1,1.5", DEFAULT_SEPARATOR, DEFAULT_STR_MARKER);
    assert_eq!(rows[0].len(), 3);
    assert!(matches!(rows[0][0], CsvObject::Null));
    assert!(matches!(rows[0][1], CsvObject::Null));
    // A fractional number has no integer reading; it degrades to null here.
    assert!(matches!(rows[0][2], CsvObject::Null));
}

#[test]
fn parse_bare_quote_toggles_state() {
    // An unmatched quote swallows every separator after it.
    let rows = CsvObject::from_str("a\",b,c", DEFAULT_SEPARATOR, DEFAULT_STR_MARKER);
    assert_eq!(rows[0].len(), 1);
    let rows2 = CsvObject::from_str("1,\"", DEFAULT_SEPARATOR, DEFAULT_STR_MARKER);
    assert_eq!(rows2[0].len(), 2);
    assert!(matches!(rows2[0][1], CsvObject::Null));
}

#[test]
fn parse_multiple_lines_and_line_endings() {
    let rows = CsvObject::from_str("1,2\r\n3,4\n5", DEFAULT_SEPARATOR, DEFAULT_STR_MARKER);
    assert_eq!(rows.len(), 3);
    assert!(matches!(rows[0][1], CsvObject::Int(2)));
    assert!(matches!(rows[1][0], CsvObject::Int(3)));
    assert!(matches!(rows[2][0], CsvObject::Int(5)));
    assert!(CsvObject::from_str("", DEFAULT_SEPARATOR, DEFAULT_STR_MARKER).is_empty());
}

#[test]
fn parse_integer_bounds() {
    let rows = CsvObject::from_str(
        "9223372036854775807,-9223372036854775808,9223372036854775808",
        DEFAULT_SEPARATOR,
        DEFAULT_STR_MARKER,
    );
    assert!(matches!(rows[0][0], CsvObject::Int(i64::MAX)));
    assert!(matches!(rows[0][1], CsvObject::Int(i64::MIN)));
    assert!(matches!(rows[0][2], CsvObject::Null));
}

#[test]
fn serialize_empty_row_and_min_int() {
    let rows = vec![vec![], vec![CsvObject::Int(i64::MIN)]];
    let text = CsvObject::serialize(rows, DEFAULT_SEPARATOR, DEFAULT_STR_MARKER);
    assert_eq!(text, "\r\n-9223372036854775808\r\n");
}

#[test]
fn custom_separator_and_marker() {
    let rows = vec![vec![
        CsvObject::String(String::from("x")),
        CsvObject::Int(1),
    ]];
    let text = CsvObject::serialize(rows, ';', '\'');
    assert_eq!(text, "'x';1\r\n");
    let back = CsvObject::from_str(&text, ';', '\'');
    assert_eq!(back[0][0].as_string(), Some("x"));
    assert!(matches!(back[0][1], CsvObject::Int(1)));
}
