//! Fast deserialization of a single line of delimiter-separated text.
//!
//! A line is split into its fields by the scanner of [`parse`], whose
//! behaviour is defined by the state machine of [`model`], and the fields
//! are handed to the `csv` crate, which builds a value of the wanted type
//! from them.

use csv::Error as CsvError;
use model::line_fields;
use parse::{as_field, as_fields, CsvRow};
use serde::de::DeserializeOwned;
use std::borrow::Cow;
use vstd::prelude::*;

pub mod laws;
pub mod model;
pub mod parse;
pub mod text;

verus! {

/// `csv::Error`, the error of the `csv` crate. A value of it is carried
/// through as it is; nothing is known of what it holds.
#[verifier::external_type_specification]
#[verifier::external_body]
pub struct ExCsvError(CsvError);

/// An error that can occur when a line is decoded.
#[derive(Debug)]
pub enum Error {
    /// The fields of the line do not make a value of the wanted type.
    Csv(CsvError),
}

impl From<CsvError> for Error {
    fn from(err: CsvError) -> (error: Error) {
        Error::Csv(err)
    }
}

impl vstd::std_specs::convert::FromSpecImpl<CsvError> for Error {
    open spec fn obeys_from_spec() -> bool {
        true
    }

    open spec fn from_spec(err: CsvError) -> Error {
        Error::Csv(err)
    }
}

/// A type alias for `Result<T, csv_line::Error>`.
pub type Result<T> = core::result::Result<T, Error>;

/// The settings of a line parser.
pub struct CSVLine {
    separator: char,
}

/// Builds a value of type `T` from the fields of one record, taken by their
/// positions, with `csv::StringRecord::deserialize`. Whether that succeeds,
/// and with which value, is up to the `Deserialize` impl of `T`: nothing is
/// claimed of the outcome.
#[verifier::external_body]
fn deserialize_record<'a, T: DeserializeOwned>(fields: &Vec<Cow<'a, str>>) -> (outcome:
    core::result::Result<T, CsvError>) {
    csv::StringRecord::from_iter(fields.iter()).deserialize(None)
}

/// Hands on what the deserializer returned: its value as it is, its error
/// wrapped and otherwise unchanged.
pub fn decoded<T>(outcome: core::result::Result<T, CsvError>) -> (res: Result<T>)
    ensures
        outcome matches Ok(value) ==> res == Ok::<T, Error>(value),
        outcome matches Err(err) ==> res == Err::<T, Error>(Error::Csv(err)),
{
    match outcome {
        Ok(value) => Ok(value),
        Err(err) => Err(Error::from(err)),
    }
}

impl CSVLine {
    /// The character that separates two fields.
    pub closed spec fn separator(&self) -> char {
        self.separator
    }

    /// Returns a new parser initialized with the default separator.
    pub fn new() -> (parser: Self)
        ensures
            parser.separator() == ',',
    {
        Default::default()
    }

    /// Sets a new separator, the default is `,`.
    pub fn with_separator(self, separator: char) -> (parser: Self)
        ensures
            parser.separator() == separator,
    {
        let mut parser = self;
        parser.separator = separator;
        parser
    }

    /// Splits the line into the fields of its record. A field borrows from
    /// `s` unless its text had to be put together anew. A line without
    /// characters is the record of one empty field.
    pub fn fields<'a>(&self, s: &'a str) -> (fields: Vec<Cow<'a, str>>)
        ensures
            as_fields(fields@) == line_fields(s@, self.separator()),
    {
        if s.is_empty() {
            let mut fields: Vec<Cow<'a, str>> = Vec::new();
            fields.push(Cow::Borrowed(s));
            proof {
                assert(s@ =~= Seq::<char>::empty());
                assert(as_fields(fields@)[0] == as_field(fields@[0]));
                assert(as_fields(fields@) =~= line_fields(s@, self.separator()));
            }
            fields
        } else {
            CsvRow::new(s, self.separator).into_columns()
        }
    }

    /// Deserializes the string: the fields of the line, in their order, are
    /// what the value is built from.
    pub fn decode_str<T: DeserializeOwned>(&self, s: &str) -> (res: Result<T>) {
        let fields = self.fields(s);
        decoded(deserialize_record::<T>(&fields))
    }
}

impl Default for CSVLine {
    fn default() -> (parser: Self)
        ensures
            parser.separator() == ',',
    {
        CSVLine { separator: ',' }
    }
}

/// Deserializes the string, with `,` as the separator.
pub fn from_str<T: DeserializeOwned>(s: &str) -> (res: Result<T>) {
    CSVLine::new().decode_str(s)
}

/// Deserializes the string, with `sep` as the separator.
pub fn from_str_sep<T: DeserializeOwned>(s: &str, sep: char) -> (res: Result<T>) {
    CSVLine::new().with_separator(sep).decode_str(s)
}

} // verus!
