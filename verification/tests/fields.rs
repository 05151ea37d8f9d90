use std::borrow::Cow;

use csv_line::parse::{unescape, CsvRow};
use csv_line::text::{byte_len, utf8_len};
use csv_line::CSVLine;

fn scan(line: &str, delimiter: char) -> Vec<String> {
    CsvRow::new(line, delimiter)
        .into_columns()
        .into_iter()
        .map(Cow::into_owned)
        .collect()
}

fn record(line: &str, delimiter: char) -> Vec<String> {
    CSVLine::new()
        .with_separator(delimiter)
        .fields(line)
        .into_iter()
        .map(Cow::into_owned)
        .collect()
}

fn plain_split(line: &str, delimiter: char) -> Vec<String> {
    line.split(delimiter).map(str::to_owned).collect()
}

fn quoted(field: &str) -> String {
    format!("\"{}\"", field.replace('"', "\"\""))
}

#[test]
fn plain_lines_split_on_the_delimiter() {
    for line in ["foo", "foo,bar", "a,b,c,d", ",", ",,", "foo,", ",foo", " a , b ", "é,ü"] {
        assert_eq!(record(line, ','), plain_split(line, ','), "for '{}'", line);
        assert_eq!(scan(line, ','), plain_split(line, ','), "for '{}'", line);
    }
    assert_eq!(record("", ','), plain_split("", ','));
    assert_eq!(record("a b  c", ' '), ["a", "b", "", "c"]);
}

#[test]
fn plain_fields_are_borrowed() {
    let line = "foo,bar,";
    let fields = CSVLine::new().fields(line);
    assert_eq!(fields.len(), 3);
    for field in &fields {
        assert!(matches!(field, Cow::Borrowed(_)));
    }
}

#[test]
fn empty_line_boundary() {
    assert_eq!(record("", ','), [""]);
    assert_eq!(scan("", ','), Vec::<String>::new());
    let mut row = CsvRow::new("", ',');
    assert!(row.next().is_none());
    assert!(row.next().is_none());
}

#[test]
fn delimiter_boundaries() {
    assert_eq!(record(",", ','), ["", ""]);
    assert_eq!(record("foo,", ','), ["foo", ""]);
    assert_eq!(record(",foo", ','), ["", "foo"]);
}

#[test]
fn exhausted_scanner_stays_exhausted() {
    let mut row = CsvRow::new("a,b", ',');
    assert_eq!(row.next().unwrap(), "a");
    assert_eq!(row.next().unwrap(), "b");
    assert!(row.next().is_none());
    assert!(row.next().is_none());
    let mut row = CsvRow::new("a\nb,c", ',');
    assert_eq!(row.next().unwrap(), "a");
    assert!(row.next().is_none());
    assert!(row.next().is_none());
}

#[test]
fn doubled_quotes_become_single_quotes() {
    assert_eq!(unescape(""), "");
    assert_eq!(unescape("abc"), "abc");
    assert_eq!(unescape("\"\""), "\"");
    assert_eq!(unescape("a\"\"b"), "a\"b");
    assert_eq!(unescape("\"\"\"\""), "\"\"");
    assert_eq!(unescape("\"\"\""), "\"\"");
    assert_eq!(unescape("a\"b"), "a\"b");
    assert_eq!(unescape("é\"\"ü\"\""), "é\"ü\"");
    for text in ["", "\"", "a\"b", "\"\"", "say \"hello\"", "\"\"\"", "é\"ü"] {
        assert_eq!(unescape(&text.replace('"', "\"\"")), text);
    }
}

#[test]
fn escaped_fields_are_copied_and_others_are_not() {
    let mut row = CsvRow::new("\"a\"\"b\",\"cd\",e,\"f\"g", ',');
    let first = row.next().unwrap();
    assert_eq!(first, "a\"b");
    assert!(matches!(first, Cow::Owned(_)));
    let second = row.next().unwrap();
    assert_eq!(second, "cd");
    assert!(matches!(second, Cow::Borrowed(_)));
    let third = row.next().unwrap();
    assert_eq!(third, "e");
    assert!(matches!(third, Cow::Borrowed(_)));
    let fourth = row.next().unwrap();
    assert_eq!(fourth, "fg");
    assert!(matches!(fourth, Cow::Owned(_)));
    assert!(row.next().is_none());
}

#[test]
fn quoting_round_trip() {
    for field in [
        "",
        "foo",
        "foo,bar",
        "say \"hello\"",
        "\"",
        "\"\"",
        "a\nb",
        "a\r\nb",
        ",",
        "é,\"ü\"\n",
        "trailing\"",
    ] {
        assert_eq!(record(&quoted(field), ','), [field], "for '{}'", field);
    }
    let fields = ["a,b", "", "c\"d", "e\nf", "plain"];
    let line = fields.map(quoted).join(",");
    assert_eq!(record(&line, ','), fields);
    let line = fields.map(quoted).join(";");
    assert_eq!(record(&line, ';'), fields);
}

fn written(field: &str, delimiter: char) -> String {
    if field.contains(['"', '\n', '\r', delimiter]) {
        quoted(field)
    } else {
        field.to_owned()
    }
}

#[test]
fn written_record_round_trip() {
    let records: [&[&str]; 7] = [
        &[""],
        &["", ""],
        &["a", ""],
        &["", "a"],
        &["plain", "with,comma", "with \"quote\"", "with\nbreak", ""],
        &["é→ü", "→", "\""],
        &["\r", "x;y", "z"],
    ];
    for delimiter in [',', ';', '→', '\n'] {
        for fields in records {
            let line = fields
                .iter()
                .map(|field| written(field, delimiter))
                .collect::<Vec<_>>()
                .join(&delimiter.to_string());
            assert_eq!(record(&line, delimiter), fields, "for '{}'", line);
        }
    }
}

#[test]
fn quoted_field_keeps_newline() {
    assert_eq!(record("\"a\nb\",x", ','), ["a\nb", "x"]);
}

#[test]
fn line_break_after_unquoted_field_ends_the_record() {
    assert_eq!(record("foo\nbar", ','), ["foo"]);
    assert_eq!(record("foo\rbar,baz", ','), ["foo"]);
    assert_eq!(record("a,foo\r\nbar,baz", ','), ["a", "foo"]);
    assert_eq!(record("\"a\"\nb", ','), ["a"]);
}

#[test]
fn line_break_at_the_start_of_a_field_belongs_to_it() {
    assert_eq!(scan("\nfoo", ','), ["\nfoo"]);
    assert_eq!(scan("a,\r", ','), ["a", "\r"]);
}

#[test]
fn line_break_as_delimiter_separates() {
    assert_eq!(scan("a\nb\nc", '\n'), ["a", "b", "c"]);
}

#[test]
fn semicolon_delimiter() {
    assert_eq!(record("\"f;oo\";bar", ';'), ["f;oo", "bar"]);
}

#[test]
fn delimiter_of_several_bytes() {
    assert_eq!(scan("a→b→→c", '→'), ["a", "b", "", "c"]);
    assert_eq!(scan("\"x→y\"→z→", '→'), ["x→y", "z", ""]);
    assert_eq!(scan("é😀→\"ü\"ß→\"😀\"", '→'), ["é😀", "üß", "😀"]);
}

#[test]
fn unterminated_quote_runs_to_the_end() {
    assert_eq!(scan("\"foo,bar", ','), ["foo,bar"]);
    assert_eq!(scan("a,\"b\"\"c", ','), ["a", "b\"c"]);
    let mut row = CsvRow::new("\"foo", ',');
    assert!(matches!(row.next(), Some(Cow::Borrowed("foo"))));
}

#[test]
fn text_after_closing_quote_is_glued_on() {
    assert_eq!(scan("\"foo\"bar,baz", ','), ["foobar", "baz"]);
    assert_eq!(scan("\"fo\"\"o\"bar", ','), ["fo\"obar"]);
    assert_eq!(scan("\"foo\"bar\nbaz,x", ','), ["foobar\nbaz", "x"]);
    assert_eq!(scan("\"a\"b\"c\",d", ','), ["ab\"c\"", "d"]);
}

#[test]
fn quote_as_delimiter() {
    assert_eq!(scan("a\"b", '"'), ["a", "b"]);
    assert_eq!(scan("\"a", '"'), ["", "a"]);
}

#[test]
fn width_of_characters() {
    assert_eq!(utf8_len('a'), 1);
    assert_eq!(utf8_len('\u{7f}'), 1);
    assert_eq!(utf8_len('\u{80}'), 2);
    assert_eq!(utf8_len('é'), 2);
    assert_eq!(utf8_len('\u{7ff}'), 2);
    assert_eq!(utf8_len('\u{800}'), 3);
    assert_eq!(utf8_len('→'), 3);
    assert_eq!(utf8_len('\u{ffff}'), 3);
    assert_eq!(utf8_len('\u{10000}'), 4);
    assert_eq!(utf8_len('😀'), 4);
    for c in ['a', 'é', '→', '😀', '\0', '\u{10ffff}'] {
        assert_eq!(utf8_len(c), c.len_utf8());
    }
    assert_eq!(byte_len(""), 0);
    assert_eq!(byte_len("aé→😀"), 10);
}

#[test]
fn parser_settings() {
    assert_eq!(
        CSVLine::new().fields("a,b;c"),
        CSVLine::default().fields("a,b;c")
    );
    assert_eq!(CSVLine::new().fields("a,b;c"), ["a", "b;c"]);
    assert_eq!(
        CSVLine::new().with_separator(';').fields("a,b;c"),
        ["a,b", "c"]
    );
    assert_eq!(
        CSVLine::new()
            .with_separator(';')
            .with_separator('|')
            .fields("a,b;c|d"),
        ["a,b;c", "d"]
    );
}
