use std::borrow::Cow;

use csv_line::parse::CsvRow;

fn csv_parse_line(line: &str) -> Vec<String> {
    let mut rdr = csv::ReaderBuilder::new()
        .has_headers(false)
        .from_reader(line.as_bytes());
    let Some(row) = rdr.records().next() else {
        return vec![];
    };
    row.unwrap().iter().map(ToOwned::to_owned).collect()
}

fn parse_line_with_delimiter(line: &str, delimiter: char) -> Vec<String> {
    let mut row = CsvRow::new(line, delimiter);
    let mut columns = Vec::new();
    while let Some(column) = row.next() {
        columns.push(Cow::into_owned(column));
    }
    assert!(row.next().is_none());
    columns
}

fn parse_line(line: &str) -> Vec<String> {
    parse_line_with_delimiter(line, ',')
}

/// Tests the line and ensures the result matches the output of the `csv` crate.
fn test_line(input: &str, expected: &[&str]) {
    println!("=== test started for '{}'", input);
    assert_eq!(csv_parse_line(input), expected, "csv for '{}'", input);
    assert_eq!(parse_line(input), expected, "csv_line for '{}'", input);
}

/// If fields are not enclosed with double quotes, then double quotes may not
/// appear inside the fields according to RFC 4180 §1.5. This implementation
/// follows the `csv` crate and allows it.
#[test]
fn quotes_in_unquoted_field() {
    test_line(r#"foo"bar"#, &[r#"foo"bar"#]);
    test_line(r#"foo""bar"#, &[r#"foo""bar"#]);
}

/// Fields are separated by commas, and the last field may be empty.
#[test]
fn basic_unquoted_fields() {
    test_line("foo,bar", &["foo", "bar"]);
    test_line("foo,,bar", &["foo", "", "bar"]);
    test_line(",foo,bar", &["", "foo", "bar"]);
    test_line("foo,bar,", &["foo", "bar", ""]);
    test_line(",foo,", &["", "foo", ""]);
    test_line(",", &["", ""]);
}

/// Fields that contain commas, CR, LF, or double quotes must be quoted, and a
/// double quote inside a quoted field is escaped as two double quotes.
#[test]
fn quoted_fields() {
    test_line(r#""foo",bar"#, &["foo", "bar"]);
    test_line(r#""foo","bar""#, &["foo", "bar"]);
    test_line(r#""foo",,"bar""#, &["foo", "", "bar"]);
}

#[test]
fn quoted_empty_fields() {
    test_line(r#""""#, &[""]);
    test_line(r#""","bar""#, &["", "bar"]);
    test_line(r#""foo","""#, &["foo", ""]);
    test_line(r#"""","""#, &[r#"",""#]);
    test_line(r#""",""","#, &["", r#"","#]);
}

#[test]
fn quoted_with_commas() {
    test_line(r#""foo,bar""#, &["foo,bar"]);
    test_line(r#""foo,bar",baz"#, &["foo,bar", "baz"]);
    test_line(r#"a,"b,c",d"#, &["a", "b,c", "d"]);
}

#[test]
fn quoted_with_newlines() {
    test_line("\"foo\nbar\"", &["foo\nbar"]);
    test_line("\"foo\rbar\"", &["foo\rbar"]);
    test_line("\"foo\r\nbar\"", &["foo\r\nbar"]);
    test_line("\"line1\nline2\",next", &["line1\nline2", "next"]);
    test_line("\"a\nb\r\nc\",x", &["a\nb\r\nc", "x"]);
}

#[test]
fn escaped_quotes() {
    test_line(r#""foo""bar""#, &["foo\"bar"]);
    test_line(r#""""#, &[""]);
    test_line(r#""""""#, &["\""]);
    test_line(r#""""""""#, &["\"\""]);
    test_line(r#""say ""hello"""#, &["say \"hello\""]);
    test_line(r#""a""b""c""#, &["a\"b\"c"]);
}

/// Spaces are considered part of a field and are not ignored.
#[test]
fn whitespace_handling() {
    test_line(" foo , bar ", &[" foo ", " bar "]);
    test_line("\" foo \",\" bar \"", &[" foo ", " bar "]);
    test_line("foo, \"bar\" ,baz", &["foo", " \"bar\" ", "baz"]);
    test_line(r#""foo" , "bar""#, &["foo ", r#" "bar""#]);
}

/// Each record ends with a line ending, ideally CRLF; CR and LF alone are
/// accepted too.
#[test]
fn line_ending_handling() {
    test_line("foo,bar\n", &["foo", "bar"]);
    test_line("foo,bar\r", &["foo", "bar"]);
    test_line("foo,bar\r\n", &["foo", "bar"]);
    test_line("\"foo\",\"bar\"\n", &["foo", "bar"]);
}

/// Spaces between the closing quote and the comma or newline are not
/// permitted by RFC 4180 §2.6. This implementation includes the trailing
/// space in the field.
#[test]
fn space_after_closing_quote_is_error() {
    test_line(r#""foo" ,bar"#, &["foo ", "bar"]);
}

/// A CR or LF in an unquoted field terminates the record.
#[test]
fn cr_in_unquoted_field_terminates_record() {
    test_line("foo\rbar", &["foo"]);
}

#[test]
fn lf_in_unquoted_field_terminates_record() {
    test_line("foo\nbar", &["foo"]);
}

/// Semicolon-delimited fields: not covered by RFC 4180, but a common
/// extension.
#[test]
fn custom_delimiter() {
    assert_eq!(
        parse_line_with_delimiter("foo;bar;baz", ';'),
        ["foo", "bar", "baz"]
    );
    assert_eq!(
        parse_line_with_delimiter(r#""f;oo";bar"#, ';'),
        ["f;oo", "bar"]
    );
    assert_eq!(
        parse_line_with_delimiter(r#""f;oo";;bar"#, ';'),
        ["f;oo", "", "bar"]
    );
}
