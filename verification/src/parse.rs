//! The executable field scanner.

use crate::model::{
    collapse_quotes, lemma_advance, next_field, quoted_text, scan, step, Field, ScanState,
    Scanner, Step,
};
use crate::text::{
    byte_len, byte_offset, char_width, lemma_char_width, lemma_offset_ends,
    lemma_offset_monotone, lemma_offset_step, substring, suffix, utf8_len,
};
use std::borrow::Cow;
use vstd::prelude::*;
use vstd::std_specs::iter::IteratorSpec;

verus! {

/// What `unescape` has established after it consumed the first `at`
/// characters of `content`: the characters up to `from` are in `text` with
/// their pairs of quotes collapsed, and those from there to `at` hold no such
/// pair, except that a quote directly before `at` may still find its partner.
spec fn collapsed_so_far(
    content: Seq<char>,
    text: Seq<char>,
    from: int,
    at: int,
    after_quote: bool,
) -> bool {
    let settled = if after_quote {
        at - 1
    } else {
        at
    };
    &&& 0 <= from <= settled <= at <= content.len()
    &&& after_quote ==> content[at - 1] == '"'
    &&& collapse_quotes(content) == text + content.subrange(from, settled) + collapse_quotes(
        content.skip(settled),
    )
}

proof fn lemma_collapse_begin(content: Seq<char>)
    ensures
        collapsed_so_far(content, Seq::empty(), 0, 0, false),
{
    assert(content.skip(0) =~= content);
    assert(Seq::<char>::empty() + content.subrange(0, 0) + collapse_quotes(content)
        =~= collapse_quotes(content));
}

proof fn lemma_collapse_step(
    content: Seq<char>,
    text: Seq<char>,
    from: int,
    at: int,
    after_quote: bool,
)
    requires
        collapsed_so_far(content, text, from, at, after_quote),
        at < content.len(),
    ensures
        content[at] == '"' && after_quote ==> collapsed_so_far(
            content,
            text + content.subrange(from, at),
            at + 1,
            at + 1,
            false,
        ),
        !(content[at] == '"' && after_quote) ==> collapsed_so_far(
            content,
            text,
            from,
            at + 1,
            content[at] == '"',
        ),
{
    let here = content.skip(at);
    let next = content.skip(at + 1);
    assert(here.skip(1) =~= next);
    assert(here[0] == content[at]);
    if after_quote {
        let before = content.skip(at - 1);
        assert(before[0] == '"');
        assert(before[1] == content[at]);
        assert(before.skip(1) =~= here);
        assert(before.skip(2) =~= next);
        assert(content.subrange(from, at - 1) + seq!['"'] =~= content.subrange(from, at));
        if content[at] == '"' {
            assert(collapse_quotes(before) == seq!['"'] + collapse_quotes(next));
            assert(text + content.subrange(from, at - 1) + (seq!['"'] + collapse_quotes(next))
                =~= text + content.subrange(from, at) + content.subrange(at + 1, at + 1)
                + collapse_quotes(next));
        } else {
            assert(collapse_quotes(before) == seq!['"'] + collapse_quotes(here));
            assert(collapse_quotes(here) == seq![content[at]] + collapse_quotes(next));
            assert(content.subrange(from, at) + seq![content[at]] =~= content.subrange(
                from,
                at + 1,
            ));
            assert(text + content.subrange(from, at - 1) + (seq!['"'] + (seq![content[at]]
                + collapse_quotes(next))) =~= text + content.subrange(from, at + 1)
                + collapse_quotes(next));
        }
    } else {
        if content[at] != '"' {
            assert(collapse_quotes(here) == seq![content[at]] + collapse_quotes(next));
            assert(content.subrange(from, at) + seq![content[at]] =~= content.subrange(
                from,
                at + 1,
            ));
            assert(text + content.subrange(from, at) + (seq![content[at]] + collapse_quotes(next))
                =~= text + content.subrange(from, at + 1) + collapse_quotes(next));
        }
    }
}

proof fn lemma_collapse_end(content: Seq<char>, text: Seq<char>, from: int, after_quote: bool)
    requires
        collapsed_so_far(content, text, from, content.len() as int, after_quote),
    ensures
        collapse_quotes(content) == text + content.subrange(from, content.len() as int),
{
    let len = content.len() as int;
    if after_quote {
        let last = content.skip(len - 1);
        assert(last[0] == '"');
        assert(last.skip(1) =~= Seq::<char>::empty());
        assert(collapse_quotes(last) =~= seq!['"']) by {
            reveal_with_fuel(collapse_quotes, 2);
        }
        assert(content.subrange(from, len - 1) + seq!['"'] =~= content.subrange(from, len));
        assert(text + content.subrange(from, len - 1) + seq!['"'] =~= text + content.subrange(
            from,
            len,
        ));
    } else {
        assert(collapse_quotes(content.skip(len)) =~= Seq::<char>::empty());
        assert(text + content.subrange(from, len) + Seq::<char>::empty() =~= text
            + content.subrange(from, len));
    }
}

/// Copies `content` with every pair of adjacent quotes replaced by one quote.
/// The stretches between the pairs are copied as a whole.
pub fn unescape(content: &str) -> (text: String)
    ensures
        text@ == collapse_quotes(content@),
{
    let total: usize = byte_len(content);
    let mut text = String::new();
    let mut chars = content.chars();
    let mut pos: usize = 0;
    let mut copied: usize = 0;
    let mut after_quote = false;
    let ghost mut at: int = 0;
    let ghost mut from: int = 0;
    proof {
        lemma_offset_ends(content@);
        lemma_collapse_begin(content@);
        assert(content@.skip(0) =~= content@);
    }
    loop
        invariant
            total == byte_offset(content@, content@.len() as int),
            pos == byte_offset(content@, at),
            copied == byte_offset(content@, from),
            chars.remaining() == content@.skip(at),
            collapsed_so_far(content@, text@, from, at, after_quote),
        ensures
            at == content@.len(),
            pos == byte_offset(content@, at),
            copied == byte_offset(content@, from),
            collapsed_so_far(content@, text@, from, at, after_quote),
        decreases content@.len() - at,
    {
        match chars.next() {
            None => {
                break ;
            },
            Some(ch) => {
                proof {
                    lemma_offset_step(content@, at);
                    lemma_offset_monotone(content@, at + 1, content@.len() as int);
                    lemma_collapse_step(content@, text@, from, at, after_quote);
                    assert(content@.skip(at).drop_first() =~= content@.skip(at + 1));
                }
                let next_pos: usize = pos + utf8_len(ch);
                if ch == '"' && after_quote {
                    let part = substring(content, copied, pos, Ghost(from), Ghost(at));
                    text.append(part);
                    copied = next_pos;
                    after_quote = false;
                    proof {
                        from = at + 1;
                    }
                } else {
                    after_quote = ch == '"';
                }
                pos = next_pos;
                proof {
                    at = at + 1;
                }
            },
        }
    }
    proof {
        lemma_collapse_end(content@, text@, from, after_quote);
    }
    let part = substring(content, copied, pos, Ghost(from), Ghost(at));
    text.append(part);
    text
}

/// The mode of the executable machine. It is the mode of the model, with the
/// one position it carries given as a byte offset.
enum ParseState {
    /// No character of the field has been consumed yet.
    NewField,
    /// Inside a field that did not begin with a quote.
    UnquotedField,
    /// Inside an opened quoted field, before its closing quote.
    QuotedField,
    /// A quote was just seen inside a quoted field.
    QuoteInQuotedField,
    /// Text follows directly after the closing quote; it begins at this byte.
    UnquotedDataAfterQuotedField(usize),
}

impl ParseState {
    /// Whether this state stands for `model` in `line`.
    spec fn stands_for(self, model: ScanState, line: Seq<char>) -> bool {
        match self {
            ParseState::NewField => model is NewField,
            ParseState::UnquotedField => model is UnquotedField,
            ParseState::QuotedField => model is QuotedField,
            ParseState::QuoteInQuotedField => model is QuoteInQuotedField,
            ParseState::UnquotedDataAfterQuotedField(offset) => {
                &&& model matches ScanState::UnquotedDataAfterQuotedField(trailing)
                &&& 0 <= trailing <= line.len()
                &&& offset == byte_offset(line, trailing)
            },
        }
    }
}

/// What holds of the model state `model` when the machine that began a field
/// at `start` has consumed the characters up to `at`.
spec fn well_placed(model: ScanState, line: Seq<char>, start: int, at: int) -> bool {
    &&& 0 <= start <= at <= line.len()
    &&& match model {
        ScanState::NewField => at == start,
        ScanState::UnquotedField => start < at,
        ScanState::QuotedField => start < at && line[start] == '"',
        ScanState::QuoteInQuotedField => start + 1 < at && line[start] == '"' && line[at - 1]
            == '"',
        ScanState::UnquotedDataAfterQuotedField(trailing) => start + 1 < trailing < at
            && line[start] == '"' && line[trailing - 1] == '"',
    }
}

/// A step that goes on leaves the machine well placed one character further.
proof fn lemma_step_well_placed(
    model: ScanState,
    line: Seq<char>,
    delimiter: char,
    start: int,
    at: int,
)
    requires
        well_placed(model, line, start, at),
        at < line.len(),
    ensures
        step(model, line[at], delimiter, at) matches Step::Go(next) ==> well_placed(
            next,
            line,
            start,
            at + 1,
        ),
{
}

/// The field that a produced column stands for.
pub open spec fn as_field(column: Cow<'_, str>) -> Field {
    Field { text: column@, owned: column is Owned }
}

/// The field, if any, that the answer to a request stands for.
pub open spec fn as_emitted(column: Option<Cow<'_, str>>) -> Option<Field> {
    match column {
        None => None,
        Some(column) => Some(as_field(column)),
    }
}

/// The fields that a list of columns stands for.
pub open spec fn as_fields(columns: Seq<Cow<'_, str>>) -> Seq<Field> {
    columns.map_values(|column: Cow<'_, str>| as_field(column))
}

/// A scanner over the fields of one line.
///
/// It borrows the line and keeps nothing but its position in it.
pub struct CsvRow<'a> {
    /// The line to parse.
    line: &'a str,
    /// The field delimiter.
    delimiter: char,
    /// The number of bytes that the delimiter takes in the line.
    delimiter_len: usize,
    /// The byte at which the next field starts.
    pos: usize,
    /// The character at which the next field starts.
    cursor: Ghost<int>,
    /// Whether the line is exhausted.
    done: bool,
}

impl<'a> View for CsvRow<'a> {
    type V = Scanner;

    closed spec fn view(&self) -> Scanner {
        Scanner {
            line: self.line@,
            delimiter: self.delimiter,
            cursor: self.cursor@,
            done: self.done,
        }
    }
}

impl<'a> CsvRow<'a> {
    /// The byte position is the one of the cursor, and a cursor behind the
    /// start of the line stands behind a delimiter.
    #[verifier::type_invariant]
    spec fn inv(self) -> bool {
        &&& 0 <= self.cursor@ <= self.line@.len()
        &&& self.delimiter_len == char_width(self.delimiter)
        &&& !self.done ==> self.pos == byte_offset(self.line@, self.cursor@)
        &&& !self.done && self.cursor@ > 0 ==> self.line@[self.cursor@ - 1] == self.delimiter
    }

    /// Creates a scanner that stands at the start of `line`.
    pub fn new(line: &'a str, delimiter: char) -> (row: Self)
        ensures
            row@ == Scanner::start(line@, delimiter),
    {
        proof {
            lemma_offset_ends(line@);
        }
        CsvRow {
            line,
            delimiter,
            delimiter_len: utf8_len(delimiter),
            pos: 0,
            cursor: Ghost(0),
            done: false,
        }
    }

    /// The content of a quoted field between the bytes `start` and `end`: a
    /// part of the line as long as no escaped quote has to be resolved, and a
    /// copy with the escaped quotes resolved otherwise.
    fn maybe_unescape(
        &self,
        start: usize,
        end: usize,
        needs_unescaping: bool,
        Ghost(from): Ghost<int>,
        Ghost(to): Ghost<int>,
    ) -> (content: Cow<'a, str>)
        requires
            0 <= from <= to <= self@.line.len(),
            start == byte_offset(self@.line, from),
            end == byte_offset(self@.line, to),
        ensures
            content@ == quoted_text(self@.line, from, to, needs_unescaping),
            content is Owned <==> needs_unescaping,
    {
        let content = substring(self.line, start, end, Ghost(from), Ghost(to));
        if needs_unescaping {
            Cow::Owned(unescape(content))
        } else {
            Cow::Borrowed(content)
        }
    }

    /// The field that consists of a quoted part, which begins at the byte
    /// `column_start`, and of the text that follows its closing quote from
    /// the byte `unquoted_start` to the byte `end`. It is always a copy.
    fn format_partially_unquoted(
        &self,
        column_start: usize,
        unquoted_start: usize,
        end: usize,
        needs_unescaping: bool,
        Ghost(start): Ghost<int>,
        Ghost(trailing): Ghost<int>,
        Ghost(to): Ghost<int>,
    ) -> (column: Cow<'a, str>)
        requires
            0 <= start,
            start + 1 < trailing <= to <= self@.line.len(),
            self@.line[start] == '"',
            self@.line[trailing - 1] == '"',
            column_start == byte_offset(self@.line, start),
            unquoted_start == byte_offset(self@.line, trailing),
            end == byte_offset(self@.line, to),
        ensures
            column@ == quoted_text(self@.line, start + 1, trailing - 1, needs_unescaping)
                + self@.line.subrange(trailing, to),
            column is Owned,
    {
        proof {
            lemma_offset_step(self@.line, start);
            lemma_offset_step(self@.line, trailing - 1);
            lemma_offset_monotone(self@.line, start + 1, to);
            lemma_char_width('"');
        }
        let quoted = self.maybe_unescape(
            column_start + 1,
            unquoted_start - 1,
            needs_unescaping,
            Ghost(start + 1),
            Ghost(trailing - 1),
        );
        let unquoted = substring(self.line, unquoted_start, end, Ghost(trailing), Ghost(to));
        let mut column = match quoted {
            Cow::Borrowed(part) => part.to_owned(),
            Cow::Owned(text) => text,
        };
        column.append(unquoted);
        Cow::Owned(column)
    }

    /// Returns the next column of the line, or `None` once the line is
    /// exhausted. The column is a part of the line unless escaped quotes had
    /// to be resolved or text was found behind a closing quote.
    pub fn next(&mut self) -> (column: Option<Cow<'a, str>>)
        ensures
            as_emitted(column) == old(self)@.emits(),
            final(self)@ == old(self)@.advance(),
    {
        if self.done {
            return None;
        }
        proof {
            use_type_invariant(&*self);
        }
        let line: &'a str = self.line;
        let delimiter = self.delimiter;
        let delimiter_len: usize = self.delimiter_len;
        let total: usize = byte_len(line);
        let column_start: usize = self.pos;
        let ghost start: int = self.cursor@;
        let rest = suffix(line, column_start, Ghost(start));
        let mut chars = rest.chars();
        let mut state = ParseState::NewField;
        let mut needs_unescaping = false;
        let mut pos: usize = column_start;
        let mut column: Option<Cow<'a, str>> = None;
        let mut resume: usize = total;
        let mut done = true;
        let ghost mut at: int = start;
        let ghost mut model = ScanState::NewField;
        let ghost goal = next_field(line@, delimiter, start);
        proof {
            reveal_strlit("");
            lemma_offset_monotone(line@, 0, start);
        }
        loop
            invariant_except_break
                scan(line@, delimiter, model, needs_unescaping, at) == scan(
                    line@,
                    delimiter,
                    ScanState::NewField,
                    false,
                    start,
                ),
                state.stands_for(model, line@),
                well_placed(model, line@, start, at),
                chars.remaining() == line@.skip(at),
                pos == byte_offset(line@, at),
                done,
            invariant
                self.line == line,
                goal == next_field(line@, delimiter, start),
                total == byte_offset(line@, line@.len() as int),
                column_start == byte_offset(line@, start),
                delimiter_len == char_width(delimiter),
                0 <= start <= line@.len(),
                start > 0 ==> column_start > 0 && line@[start - 1] == delimiter,
                ""@ == Seq::<char>::empty(),
            ensures
                as_emitted(column) == goal.field,
                done == goal.done,
                !done ==> resume == byte_offset(line@, goal.cursor),
                0 <= goal.cursor <= line@.len(),
                !done ==> goal.cursor > 0 && line@[goal.cursor - 1] == delimiter,
            decreases line@.len() - at,
        {
            let ch_pos: usize = pos;
            match chars.next() {
                None => {
                    // The end of the line has been reached.
                    column = match state {
                        ParseState::NewField => {
                            // The line ended at the end of the previous column.
                            // If that column ended with a delimiter, an empty column follows.
                            if column_start > 0 {
                                Some(Cow::Borrowed(""))
                            } else {
                                None
                            }
                        },
                        ParseState::UnquotedField => {
                            // The line ended in an unquoted field.
                            Some(
                                Cow::Borrowed(
                                    substring(line, column_start, total, Ghost(start), Ghost(at)),
                                ),
                            )
                        },
                        ParseState::QuotedField => {
                            // The line ended in an unclosed quoted field.
                            proof {
                                lemma_offset_step(line@, start);
                                lemma_offset_monotone(line@, start + 1, at);
                                lemma_char_width('"');
                            }
                            Some(
                                self.maybe_unescape(
                                    column_start + 1,
                                    total,
                                    needs_unescaping,
                                    Ghost(start + 1),
                                    Ghost(at),
                                ),
                            )
                        },
                        ParseState::QuoteInQuotedField => {
                            // The line ended in a properly closed quoted field.
                            proof {
                                lemma_offset_step(line@, start);
                                lemma_offset_step(line@, at - 1);
                                lemma_offset_monotone(line@, start + 1, at - 1);
                                lemma_char_width('"');
                            }
                            Some(
                                self.maybe_unescape(
                                    column_start + 1,
                                    total - 1,
                                    needs_unescaping,
                                    Ghost(start + 1),
                                    Ghost(at - 1),
                                ),
                            )
                        },
                        ParseState::UnquotedDataAfterQuotedField(unquoted_start) => {
                            Some(
                                self.format_partially_unquoted(
                                    column_start,
                                    unquoted_start,
                                    total,
                                    needs_unescaping,
                                    Ghost(start),
                                    Ghost(model->UnquotedDataAfterQuotedField_0),
                                    Ghost(at),
                                ),
                            )
                        },
                    };
                    break ;
                },
                Some(ch) => {
                    proof {
                        assert(line@.skip(at).drop_first() =~= line@.skip(at + 1));
                        lemma_offset_step(line@, at);
                        lemma_offset_monotone(line@, at + 1, line@.len() as int);
                        lemma_step_well_placed(model, line@, delimiter, start, at);
                    }
                    pos = pos + utf8_len(ch);
                    match state {
                        ParseState::NewField => {
                            if ch == delimiter {
                                // An empty column was found.
                                column = Some(Cow::Borrowed(""));
                                resume = ch_pos + delimiter_len;
                                done = false;
                                break ;
                            }
                            if ch == '"' {
                                state = ParseState::QuotedField;
                            } else {
                                state = ParseState::UnquotedField;
                            }
                        },
                        ParseState::UnquotedField => {
                            if ch == delimiter {
                                column = Some(
                                    Cow::Borrowed(
                                        substring(
                                            line,
                                            column_start,
                                            ch_pos,
                                            Ghost(start),
                                            Ghost(at),
                                        ),
                                    ),
                                );
                                resume = ch_pos + delimiter_len;
                                done = false;
                                break ;
                            }
                            if ch == '\n' || ch == '\r' {
                                column = Some(
                                    Cow::Borrowed(
                                        substring(
                                            line,
                                            column_start,
                                            ch_pos,
                                            Ghost(start),
                                            Ghost(at),
                                        ),
                                    ),
                                );
                                break ;
                            }
                        },
                        ParseState::QuotedField => {
                            if ch == '"' {
                                state = ParseState::QuoteInQuotedField;
                            }
                        },
                        ParseState::QuoteInQuotedField => {
                            if ch == '"' {
                                // An escaped quote was found, so the quoted field goes on.
                                needs_unescaping = true;
                                state = ParseState::QuotedField;
                            } else {
                                proof {
                                    lemma_offset_step(line@, start);
                                    lemma_offset_step(line@, at - 1);
                                    lemma_offset_monotone(line@, start + 1, at - 1);
                                    lemma_char_width('"');
                                }
                                if ch == delimiter {
                                    // The end of the quoted field has been reached.
                                    column = Some(
                                        self.maybe_unescape(
                                            column_start + 1,
                                            ch_pos - 1,
                                            needs_unescaping,
                                            Ghost(start + 1),
                                            Ghost(at - 1),
                                        ),
                                    );
                                    resume = ch_pos + delimiter_len;
                                    done = false;
                                    break ;
                                }
                                if ch == '\n' || ch == '\r' {
                                    // The end of the line has been reached after a quoted field.
                                    column = Some(
                                        self.maybe_unescape(
                                            column_start + 1,
                                            ch_pos - 1,
                                            needs_unescaping,
                                            Ghost(start + 1),
                                            Ghost(at - 1),
                                        ),
                                    );
                                    break ;
                                }
                                // Data was found after a quoted field: it continues the field.
                                state = ParseState::UnquotedDataAfterQuotedField(ch_pos);
                            }
                        },
                        ParseState::UnquotedDataAfterQuotedField(unquoted_start) => {
                            if ch == delimiter {
                                column = Some(
                                    self.format_partially_unquoted(
                                        column_start,
                                        unquoted_start,
                                        ch_pos,
                                        needs_unescaping,
                                        Ghost(start),
                                        Ghost(model->UnquotedDataAfterQuotedField_0),
                                        Ghost(at),
                                    ),
                                );
                                resume = ch_pos + delimiter_len;
                                done = false;
                                break ;
                            }
                        },
                    }
                    proof {
                        model = step(model, ch, delimiter, at)->Go_0;
                        at = at + 1;
                    }
                },
            }
        }
        *self = CsvRow {
            line,
            delimiter,
            delimiter_len,
            pos: resume,
            cursor: Ghost(goal.cursor),
            done,
        };
        column
    }

    /// Returns all columns that are still to come, in order, and uses the
    /// scanner up.
    pub fn into_columns(self) -> (columns: Vec<Cow<'a, str>>)
        ensures
            as_fields(columns@) == self@.remaining(),
    {
        let mut row = self;
        let mut columns: Vec<Cow<'a, str>> = Vec::new();
        proof {
            use_type_invariant(&row);
            assert(as_fields(columns@) + row@.remaining() =~= self@.remaining());
        }
        loop
            invariant
                row@.in_bounds(),
                as_fields(columns@) + row@.remaining() == self@.remaining(),
            ensures
                as_fields(columns@) == self@.remaining(),
            decreases row@.budget(),
        {
            proof {
                lemma_advance(row@);
            }
            let ghost before = columns@;
            match row.next() {
                None => {
                    proof {
                        assert(as_fields(columns@) + Seq::<Field>::empty() =~= as_fields(
                            columns@,
                        ));
                    }
                    break ;
                },
                Some(column) => {
                    columns.push(column);
                    proof {
                        assert(as_fields(columns@) =~= as_fields(before) + seq![as_field(column)]);
                        assert(as_fields(before) + (seq![as_field(column)] + row@.remaining())
                            =~= as_fields(columns@) + row@.remaining());
                    }
                },
            }
        }
        columns
    }
}

} // verus!
