use std::fmt;

use csv_line::{from_str, from_str_sep, CSVLine, Error};
use serde::de::{Deserialize, Deserializer, SeqAccess, Visitor};

/// A record of one text.
#[derive(Debug, PartialEq)]
struct OneText(String);

/// A record of one text that may be absent.
#[derive(Debug, PartialEq)]
struct MaybeText(Option<String>);

/// A record of two texts.
#[derive(Debug, PartialEq)]
struct TwoTexts(String, String);

/// A record of one number.
#[derive(Debug, PartialEq)]
struct OneNumber(i32);

/// A record with members of several types.
#[derive(Debug, PartialEq)]
struct Typed {
    text: String,
    maybe_text: Option<String>,
    num: i32,
    flag: bool,
}

/// A record of any number of numbers.
#[derive(Debug, PartialEq)]
struct Numbers(Vec<u32>);

struct TwoTextsVisitor;

struct TypedVisitor;

fn member<'de, A: SeqAccess<'de>, T: Deserialize<'de>>(
    seq: &mut A,
    index: usize,
    expected: &dyn serde::de::Expected,
) -> Result<T, A::Error> {
    match seq.next_element()? {
        Some(value) => Ok(value),
        None => Err(<A::Error as serde::de::Error>::invalid_length(
            index, expected,
        )),
    }
}

impl<'de> Deserialize<'de> for OneText {
    fn deserialize<D: Deserializer<'de>>(deserializer: D) -> Result<Self, D::Error> {
        String::deserialize(deserializer).map(OneText)
    }
}

impl<'de> Deserialize<'de> for MaybeText {
    fn deserialize<D: Deserializer<'de>>(deserializer: D) -> Result<Self, D::Error> {
        Option::<String>::deserialize(deserializer).map(MaybeText)
    }
}

impl<'de> Deserialize<'de> for OneNumber {
    fn deserialize<D: Deserializer<'de>>(deserializer: D) -> Result<Self, D::Error> {
        i32::deserialize(deserializer).map(OneNumber)
    }
}

impl<'de> Deserialize<'de> for Numbers {
    fn deserialize<D: Deserializer<'de>>(deserializer: D) -> Result<Self, D::Error> {
        Vec::<u32>::deserialize(deserializer).map(Numbers)
    }
}

impl<'de> Visitor<'de> for TwoTextsVisitor {
    type Value = TwoTexts;

    fn expecting(&self, formatter: &mut fmt::Formatter) -> fmt::Result {
        formatter.write_str("a record of two texts")
    }

    fn visit_seq<A: SeqAccess<'de>>(self, mut seq: A) -> Result<TwoTexts, A::Error> {
        let first = member(&mut seq, 0, &self)?;
        let second = member(&mut seq, 1, &self)?;
        Ok(TwoTexts(first, second))
    }
}

impl<'de> Deserialize<'de> for TwoTexts {
    fn deserialize<D: Deserializer<'de>>(deserializer: D) -> Result<Self, D::Error> {
        deserializer.deserialize_tuple_struct("TwoTexts", 2, TwoTextsVisitor)
    }
}

impl<'de> Visitor<'de> for TypedVisitor {
    type Value = Typed;

    fn expecting(&self, formatter: &mut fmt::Formatter) -> fmt::Result {
        formatter.write_str("a record of a text, an optional text, a number and a flag")
    }

    fn visit_seq<A: SeqAccess<'de>>(self, mut seq: A) -> Result<Typed, A::Error> {
        let text = member(&mut seq, 0, &self)?;
        let maybe_text = member(&mut seq, 1, &self)?;
        let num = member(&mut seq, 2, &self)?;
        let flag = member(&mut seq, 3, &self)?;
        Ok(Typed {
            text,
            maybe_text,
            num,
            flag,
        })
    }
}

impl<'de> Deserialize<'de> for Typed {
    fn deserialize<D: Deserializer<'de>>(deserializer: D) -> Result<Self, D::Error> {
        deserializer.deserialize_struct(
            "Typed",
            &["text", "maybe_text", "num", "flag"],
            TypedVisitor,
        )
    }
}

#[test]
fn basic() {
    assert_eq!(from_str::<OneText>("foo").unwrap(), OneText("foo".into()));
    assert_eq!(
        from_str_sep::<OneText>("foo", ' ').unwrap(),
        OneText("foo".into())
    );
}

#[test]
fn empty() {
    assert_eq!(from_str::<MaybeText>("").unwrap(), MaybeText(None));
    assert_eq!(from_str_sep::<MaybeText>("", ' ').unwrap(), MaybeText(None));
}

#[test]
fn types() {
    assert_eq!(
        from_str::<Typed>(r#""foo,bar",,1,true"#).unwrap(),
        Typed {
            text: "foo,bar".into(),
            maybe_text: None,
            num: 1,
            flag: true
        }
    );
    assert_eq!(
        from_str_sep::<Typed>(r#""foo bar"  1 true"#, ' ').unwrap(),
        Typed {
            text: "foo bar".into(),
            maybe_text: None,
            num: 1,
            flag: true
        }
    );
}

#[test]
fn tsv() {
    assert_eq!(
        CSVLine::new()
            .with_separator('\t')
            .decode_str::<TwoTexts>("foo\tbar")
            .unwrap(),
        TwoTexts("foo".into(), "bar".into())
    );
}

#[test]
fn decodes_into_tuples() {
    assert_eq!(
        from_str::<(String, i32)>("foo,42").unwrap(),
        ("foo".to_string(), 42)
    );
    assert_eq!(
        from_str_sep::<(String, i32)>("foo 42", ' ').unwrap(),
        ("foo".to_string(), 42)
    );
}

#[test]
fn decodes_a_sequence_of_numbers() {
    assert_eq!(
        from_str_sep::<Numbers>("31 42 28 97 0", ' ').unwrap(),
        Numbers(vec![31, 42, 28, 97, 0])
    );
}

#[test]
fn decoded_value_follows_the_fields() {
    assert_eq!(from_str::<OneNumber>("7").unwrap(), OneNumber(7));
    assert_eq!(from_str::<OneNumber>("\"8\"").unwrap(), OneNumber(8));
    assert_eq!(
        from_str::<TwoTexts>("\"a\"\"b\",c").unwrap(),
        TwoTexts("a\"b".into(), "c".into())
    );
}

#[test]
fn empty_line_is_a_record_of_one_empty_field() {
    assert_eq!(from_str::<OneText>("").unwrap(), OneText(String::new()));
    assert_eq!(from_str::<(String,)>("").unwrap(), (String::new(),));
}

#[test]
fn conversion_failure_is_reported() {
    let res = from_str::<OneNumber>("foo");
    assert!(matches!(res, Err(Error::Csv(_))));
}

#[test]
fn missing_field_is_reported() {
    let res = from_str::<TwoTexts>("foo");
    assert!(matches!(res, Err(Error::Csv(_))));
    match res {
        Err(Error::Csv(cause)) => {
            assert!(matches!(
                cause.kind(),
                csv::ErrorKind::Deserialize { .. }
            ));
        }
        _ => panic!("expected an error"),
    }
}

#[test]
fn error_comes_from_the_cause() {
    let cause = csv::StringRecord::from(vec!["x"])
        .deserialize::<OneNumber>(None)
        .unwrap_err();
    let text = cause.to_string();
    let Error::Csv(kept) = Error::from(cause);
    assert_eq!(kept.to_string(), text);
}

#[test]
fn decoded_keeps_value_and_wraps_error() {
    assert_eq!(csv_line::decoded::<i32>(Ok(5)).unwrap(), 5);
    let cause = csv::StringRecord::from(vec!["x"])
        .deserialize::<OneNumber>(None)
        .unwrap_err();
    assert!(matches!(
        csv_line::decoded::<i32>(Err(cause)),
        Err(Error::Csv(_))
    ));
}
