//! The field scanner as a state machine over a sequence of characters.
//!
//! Everything here is mathematics: a line is a `Seq<char>`, positions are
//! character indices, and a field is the text it holds together with the
//! note whether that text had to be copied. The executable scanner in
//! [`crate::parse`] is proved to compute exactly what this module defines.

use vstd::prelude::*;

verus! {

/// The mode that the machine is in while it produces one field.
pub enum ScanState {
    /// No character of the field has been consumed yet.
    NewField,
    /// Inside a field that did not begin with a quote.
    UnquotedField,
    /// Inside an opened quoted field, before its closing quote.
    QuotedField,
    /// A quote was just seen inside a quoted field: it either closes the field
    /// or is the first half of an escaped quote.
    QuoteInQuotedField,
    /// Text follows directly after the closing quote. The position is the one
    /// of the first character of that trailing text.
    UnquotedDataAfterQuotedField(int),
}

/// What one character does to the machine.
pub enum Step {
    /// The character is consumed and the machine goes on in the given state.
    Go(ScanState),
    /// The character is the delimiter that ends the field.
    Delimiter,
    /// The character is the line break that ends the field and the line.
    LineBreak,
}

/// Why the machine stopped.
pub enum Cause {
    /// It met a delimiter that ends the field.
    Delimiter,
    /// It met a line break that ends the field and the line.
    LineBreak,
    /// It ran out of characters.
    EndOfLine,
}

/// Where and how the machine stopped.
pub struct Stop {
    /// The state in which it stopped.
    pub state: ScanState,
    /// Whether an escaped quote was met on the way.
    pub escaped: bool,
    /// The position of the character that stopped it, or the length of the
    /// line if it ran out of characters.
    pub at: int,
    /// Why it stopped.
    pub cause: Cause,
}

/// A produced field.
pub struct Field {
    /// The characters of the field.
    pub text: Seq<char>,
    /// Whether the text is a fresh copy; otherwise it is a part of the line.
    pub owned: bool,
}

/// The outcome of producing one field.
pub struct Emission {
    /// The field, if the line had one more.
    pub field: Option<Field>,
    /// The position from which the field after this one is scanned.
    pub cursor: int,
    /// Whether the line is exhausted.
    pub done: bool,
}

/// The position of a scanner in its line.
pub struct Scanner {
    /// The line that is scanned.
    pub line: Seq<char>,
    /// The character that separates two fields.
    pub delimiter: char,
    /// The position of the first character that has not been consumed.
    pub cursor: int,
    /// Whether the line is exhausted.
    pub done: bool,
}

/// Carriage return and line feed end a line, whatever the delimiter is.
pub open spec fn is_line_break(c: char) -> bool {
    c == '\n' || c == '\r'
}

/// The transition table of the machine: what the character `c`, found at
/// position `at`, does in `state`.
pub open spec fn step(state: ScanState, c: char, delimiter: char, at: int) -> Step {
    match state {
        ScanState::NewField => {
            if c == delimiter {
                Step::Delimiter
            } else if c == '"' {
                Step::Go(ScanState::QuotedField)
            } else {
                Step::Go(ScanState::UnquotedField)
            }
        },
        ScanState::UnquotedField => {
            if c == delimiter {
                Step::Delimiter
            } else if is_line_break(c) {
                Step::LineBreak
            } else {
                Step::Go(ScanState::UnquotedField)
            }
        },
        ScanState::QuotedField => {
            if c == '"' {
                Step::Go(ScanState::QuoteInQuotedField)
            } else {
                Step::Go(ScanState::QuotedField)
            }
        },
        ScanState::QuoteInQuotedField => {
            if c == '"' {
                Step::Go(ScanState::QuotedField)
            } else if c == delimiter {
                Step::Delimiter
            } else if is_line_break(c) {
                Step::LineBreak
            } else {
                Step::Go(ScanState::UnquotedDataAfterQuotedField(at))
            }
        },
        ScanState::UnquotedDataAfterQuotedField(_) => {
            if c == delimiter {
                Step::Delimiter
            } else {
                Step::Go(state)
            }
        },
    }
}

/// A quote that follows a quote inside a quoted field is an escaped quote.
pub open spec fn confirms_escape(state: ScanState, c: char) -> bool {
    state is QuoteInQuotedField && c == '"'
}

/// Runs the machine from position `at` in `state` until a character ends the
/// field or the line has no more characters.
pub open spec fn scan(
    line: Seq<char>,
    delimiter: char,
    state: ScanState,
    escaped: bool,
    at: int,
) -> Stop
    decreases line.len() - at,
{
    if at < 0 || at >= line.len() {
        Stop { state, escaped, at, cause: Cause::EndOfLine }
    } else {
        match step(state, line[at], delimiter, at) {
            Step::Go(next) => scan(
                line,
                delimiter,
                next,
                escaped || confirms_escape(state, line[at]),
                at + 1,
            ),
            Step::Delimiter => Stop { state, escaped, at, cause: Cause::Delimiter },
            Step::LineBreak => Stop { state, escaped, at, cause: Cause::LineBreak },
        }
    }
}

/// The text `s` with every pair of adjacent quotes replaced by one quote,
/// pairs being taken from the left.
pub open spec fn collapse_quotes(s: Seq<char>) -> Seq<char>
    decreases s.len(),
{
    if s.len() == 0 {
        s
    } else if s.len() >= 2 && s[0] == '"' && s[1] == '"' {
        seq!['"'] + collapse_quotes(s.skip(2))
    } else {
        seq![s[0]] + collapse_quotes(s.skip(1))
    }
}

/// The content of a quoted field that lies between the positions `from` and
/// `to`: the characters as they stand, or with the escaped quotes resolved if
/// there were any.
pub open spec fn quoted_text(line: Seq<char>, from: int, to: int, escaped: bool) -> Seq<char> {
    if escaped {
        collapse_quotes(line.subrange(from, to))
    } else {
        line.subrange(from, to)
    }
}

/// The field that the machine hands out when it began at `start` and stopped
/// at `stop`.
pub open spec fn field_at(line: Seq<char>, delimiter: char, start: int, stop: Stop) -> Option<
    Field,
> {
    match stop.state {
        ScanState::NewField => {
            if stop.cause is Delimiter || (line.len() > 0 && line.last() == delimiter) {
                Some(Field { text: Seq::empty(), owned: false })
            } else {
                None
            }
        },
        ScanState::UnquotedField => Some(
            Field { text: line.subrange(start, stop.at), owned: false },
        ),
        ScanState::QuotedField => Some(
            Field {
                text: quoted_text(line, start + 1, stop.at, stop.escaped),
                owned: stop.escaped,
            },
        ),
        ScanState::QuoteInQuotedField => Some(
            Field {
                text: quoted_text(line, start + 1, stop.at - 1, stop.escaped),
                owned: stop.escaped,
            },
        ),
        ScanState::UnquotedDataAfterQuotedField(trailing) => Some(
            Field {
                text: quoted_text(line, start + 1, trailing - 1, stop.escaped) + line.subrange(
                    trailing,
                    stop.at,
                ),
                owned: true,
            },
        ),
    }
}

/// Produces the field that begins at `cursor`. After a delimiter the cursor
/// stands behind it; after a line break or at the end of the line the line is
/// exhausted and the cursor stands at its end.
pub open spec fn next_field(line: Seq<char>, delimiter: char, cursor: int) -> Emission {
    let stop = scan(line, delimiter, ScanState::NewField, false, cursor);
    Emission {
        field: field_at(line, delimiter, cursor, stop),
        cursor: if stop.cause is Delimiter {
            stop.at + 1
        } else {
            line.len() as int
        },
        done: !(stop.cause is Delimiter),
    }
}

/// The machine stops at or behind the position it started from, and inside
/// the line if it started there.
pub proof fn lemma_scan_bounds(
    line: Seq<char>,
    delimiter: char,
    state: ScanState,
    escaped: bool,
    at: int,
)
    requires
        0 <= at <= line.len(),
    ensures
        at <= scan(line, delimiter, state, escaped, at).at <= line.len(),
        scan(line, delimiter, state, escaped, at).cause is EndOfLine <==> scan(
            line,
            delimiter,
            state,
            escaped,
            at,
        ).at == line.len(),
    decreases line.len() - at,
{
    if at < line.len() {
        match step(state, line[at], delimiter, at) {
            Step::Go(next) => {
                lemma_scan_bounds(
                    line,
                    delimiter,
                    next,
                    escaped || confirms_escape(state, line[at]),
                    at + 1,
                );
            },
            _ => {},
        }
    }
}

/// Producing a field either exhausts the line or moves the cursor forward,
/// and a scanner that hands out nothing is exhausted.
pub proof fn lemma_next_field_progress(line: Seq<char>, delimiter: char, cursor: int)
    requires
        0 <= cursor <= line.len(),
    ensures
        ({
            let e = next_field(line, delimiter, cursor);
            &&& cursor <= e.cursor <= line.len()
            &&& !e.done ==> cursor < e.cursor
            &&& e.field is None ==> e.done
        }),
{
    lemma_scan_bounds(line, delimiter, ScanState::NewField, false, cursor);
}

/// The fields from `cursor` to the end of the line, in order.
pub open spec fn fields_from(line: Seq<char>, delimiter: char, cursor: int) -> Seq<Field>
    decreases line.len() - cursor,
    when 0 <= cursor <= line.len()
    via fields_from_decreases
{
    let e = next_field(line, delimiter, cursor);
    match e.field {
        None => Seq::empty(),
        Some(field) => {
            if e.done {
                seq![field]
            } else {
                seq![field] + fields_from(line, delimiter, e.cursor)
            }
        },
    }
}

#[via_fn]
proof fn fields_from_decreases(line: Seq<char>, delimiter: char, cursor: int) {
    lemma_next_field_progress(line, delimiter, cursor);
}

/// The fields of a whole line as a record. A line without characters is the
/// record of one empty field.
pub open spec fn line_fields(line: Seq<char>, delimiter: char) -> Seq<Field> {
    if line.len() == 0 {
        seq![Field { text: Seq::empty(), owned: false }]
    } else {
        fields_from(line, delimiter, 0)
    }
}

/// The texts of the given fields.
pub open spec fn texts(fields: Seq<Field>) -> Seq<Seq<char>> {
    fields.map_values(|field: Field| field.text)
}

impl Scanner {
    /// The scanner at the start of `line`.
    pub open spec fn start(line: Seq<char>, delimiter: char) -> Scanner {
        Scanner { line, delimiter, cursor: 0, done: false }
    }

    /// The cursor stands inside the line or at its end.
    pub open spec fn in_bounds(self) -> bool {
        0 <= self.cursor <= self.line.len()
    }

    /// What the next request for a field hands out.
    pub open spec fn emits(self) -> Option<Field> {
        if self.done {
            None
        } else {
            next_field(self.line, self.delimiter, self.cursor).field
        }
    }

    /// The scanner after the next request for a field. An exhausted scanner
    /// stays as it is.
    pub open spec fn advance(self) -> Scanner {
        if self.done {
            self
        } else {
            let e = next_field(self.line, self.delimiter, self.cursor);
            Scanner { cursor: e.cursor, done: e.done, ..self }
        }
    }

    /// All fields that are still to come.
    pub open spec fn remaining(self) -> Seq<Field> {
        if self.done {
            Seq::empty()
        } else {
            fields_from(self.line, self.delimiter, self.cursor)
        }
    }

    /// An upper bound on the number of requests that still hand out a field.
    pub open spec fn budget(self) -> int {
        if self.done {
            0
        } else {
            self.line.len() - self.cursor + 1
        }
    }
}

/// One request takes the first of the remaining fields and leaves the others,
/// and it uses up some of the budget unless the scanner is exhausted.
pub proof fn lemma_advance(s: Scanner)
    requires
        s.in_bounds(),
    ensures
        s.advance().in_bounds(),
        s.advance().line == s.line,
        s.advance().delimiter == s.delimiter,
        s.emits() is None ==> s.advance().done && s.remaining() == Seq::<Field>::empty(),
        s.emits() matches Some(field) ==> s.remaining() == seq![field] + s.advance().remaining(),
        !s.done ==> s.advance().budget() < s.budget(),
{
    if !s.done {
        lemma_next_field_progress(s.line, s.delimiter, s.cursor);
        let e = next_field(s.line, s.delimiter, s.cursor);
        if e.field is Some && e.done {
            assert(seq![e.field->0] + Seq::<Field>::empty() =~= seq![e.field->0]);
        }
    }
}

} // verus!
