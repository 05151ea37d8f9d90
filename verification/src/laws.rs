//! What holds of the scanner on every line.
//!
//! The laws are stated over the model of [`crate::model`], which the
//! executable scanner is proved to follow.

use crate::model::{
    collapse_quotes, confirms_escape, fields_from, is_line_break, line_fields, next_field, scan,
    step, texts, Field, ScanState, Step,
};
use vstd::prelude::*;

verus! {

/// The text `s` with every quote written twice.
pub open spec fn double_quotes(s: Seq<char>) -> Seq<char>
    decreases s.len(),
{
    if s.len() == 0 {
        s
    } else if s[0] == '"' {
        seq!['"', '"'] + double_quotes(s.skip(1))
    } else {
        seq![s[0]] + double_quotes(s.skip(1))
    }
}

/// The text `s` as a quoted field: its quotes doubled, and the whole between
/// two quotes.
pub open spec fn quote_field(s: Seq<char>) -> Seq<char> {
    seq!['"'] + double_quotes(s) + seq!['"']
}

/// Whether `s` holds a quote.
pub open spec fn has_quote(s: Seq<char>) -> bool {
    s.contains('"')
}

/// The quoted fields of a record, joined by the delimiter.
pub open spec fn join_quoted(fields: Seq<Seq<char>>, delimiter: char) -> Seq<char>
    decreases fields.len(),
{
    if fields.len() == 0 {
        Seq::empty()
    } else if fields.len() == 1 {
        quote_field(fields[0])
    } else {
        quote_field(fields[0]) + seq![delimiter] + join_quoted(fields.skip(1), delimiter)
    }
}

/// A text that can stand in a line as it is: it holds no delimiter, no quote
/// and no line break.
pub open spec fn is_bare(s: Seq<char>, delimiter: char) -> bool {
    forall|i: int|
        0 <= i < s.len() ==> #[trigger] s[i] != delimiter && s[i] != '"' && !is_line_break(s[i])
}

/// The text `s` as a writer of records puts it into a line: as it is where
/// that is safe, and as a quoted field otherwise.
pub open spec fn write_field(s: Seq<char>, delimiter: char) -> Seq<char> {
    if is_bare(s, delimiter) {
        s
    } else {
        quote_field(s)
    }
}

/// The line that a writer of records makes of the given fields.
pub open spec fn write_record(fields: Seq<Seq<char>>, delimiter: char) -> Seq<char>
    decreases fields.len(),
{
    if fields.len() == 0 {
        Seq::empty()
    } else if fields.len() == 1 {
        write_field(fields[0], delimiter)
    } else {
        write_field(fields[0], delimiter) + seq![delimiter] + write_record(
            fields.skip(1),
            delimiter,
        )
    }
}

/// The position of the first delimiter in `s` at or behind `from`, or the
/// length of `s` if there is none.
pub open spec fn first_delimiter(s: Seq<char>, delimiter: char, from: int) -> int
    decreases s.len() - from,
{
    if from < 0 || from >= s.len() {
        s.len() as int
    } else if s[from] == delimiter {
        from
    } else {
        first_delimiter(s, delimiter, from + 1)
    }
}

/// The parts of `s` between its delimiters: one more than it has delimiters.
pub open spec fn plain_split(s: Seq<char>, delimiter: char) -> Seq<Seq<char>>
    decreases s.len(),
{
    let i = first_delimiter(s, delimiter, 0);
    if 0 <= i < s.len() {
        seq![s.take(i)] + plain_split(s.skip(i + 1), delimiter)
    } else {
        seq![s]
    }
}

/// A line that needs no quoting rules: it holds no quote, and no line break
/// other than the delimiter itself.
pub open spec fn is_plain(line: Seq<char>, delimiter: char) -> bool {
    forall|i: int|
        0 <= i < line.len() ==> #[trigger] line[i] != '"' && (is_line_break(line[i]) ==> line[i]
            == delimiter)
}

/// None of the given fields is a copy.
pub open spec fn all_borrowed(fields: Seq<Field>) -> bool {
    forall|i: int| 0 <= i < fields.len() ==> !(#[trigger] fields[i]).owned
}

proof fn lemma_has_quote_unfold(s: Seq<char>)
    requires
        s.len() > 0,
    ensures
        has_quote(s) <==> s[0] == '"' || has_quote(s.skip(1)),
{
    let rest = s.skip(1);
    if has_quote(s) {
        let i = choose|i: int| 0 <= i < s.len() && s[i] == '"';
        if i > 0 {
            assert(rest[i - 1] == '"');
        }
    }
    if has_quote(rest) {
        let i = choose|i: int| 0 <= i < rest.len() && rest[i] == '"';
        assert(s[i + 1] == '"');
    }
    if s[0] == '"' {
        assert(s.contains('"'));
    }
}

/// Doubling the quotes of a text and collapsing the pairs again gives the
/// text back: the result has its quotes where the pairs stood, and nowhere
/// else.
pub proof fn lemma_collapse_doubled(s: Seq<char>)
    ensures
        collapse_quotes(double_quotes(s)) == s,
    decreases s.len(),
{
    if s.len() > 0 {
        let rest = s.skip(1);
        let doubled = double_quotes(s);
        lemma_collapse_doubled(rest);
        if s[0] == '"' {
            assert(doubled.skip(2) =~= double_quotes(rest));
            assert(seq!['"'] + rest =~= s);
        } else {
            assert(doubled.skip(1) =~= double_quotes(rest));
            assert(seq![s[0]] + rest =~= s);
        }
    }
}

/// A text without a quote is left as it is, by doubling and by collapsing.
pub proof fn lemma_no_quote_unchanged(s: Seq<char>)
    requires
        !has_quote(s),
    ensures
        double_quotes(s) == s,
        collapse_quotes(s) == s,
    decreases s.len(),
{
    if s.len() > 0 {
        let rest = s.skip(1);
        lemma_has_quote_unfold(s);
        lemma_no_quote_unchanged(rest);
        assert(seq![s[0]] + rest =~= s);
    }
}

/// Inside a quoted field the machine runs over a text with doubled quotes
/// without leaving the field, and notes an escape if the text had a quote.
proof fn lemma_scan_doubled(
    line: Seq<char>,
    delimiter: char,
    escaped: bool,
    at: int,
    s: Seq<char>,
)
    requires
        0 <= at,
        at + double_quotes(s).len() <= line.len(),
        line.subrange(at, at + double_quotes(s).len()) == double_quotes(s),
    ensures
        scan(line, delimiter, ScanState::QuotedField, escaped, at) == scan(
            line,
            delimiter,
            ScanState::QuotedField,
            escaped || has_quote(s),
            at + double_quotes(s).len(),
        ),
    decreases s.len(),
{
    let doubled = double_quotes(s);
    let part = line.subrange(at, at + doubled.len());
    if s.len() == 0 {
        assert(!has_quote(s));
    } else {
        let rest = s.skip(1);
        lemma_has_quote_unfold(s);
        assert(part[0] == line[at]);
        if s[0] == '"' {
            assert(part[1] == line[at + 1]);
            assert(doubled.skip(2) =~= double_quotes(rest));
            assert(line.subrange(at + 2, at + 2 + double_quotes(rest).len()) =~= part.skip(2));
            lemma_scan_doubled(line, delimiter, true, at + 2, rest);
            assert(scan(line, delimiter, ScanState::QuotedField, escaped, at) == scan(
                line,
                delimiter,
                ScanState::QuoteInQuotedField,
                escaped,
                at + 1,
            ));
            assert(scan(line, delimiter, ScanState::QuoteInQuotedField, escaped, at + 1) == scan(
                line,
                delimiter,
                ScanState::QuotedField,
                true,
                at + 2,
            ));
        } else {
            assert(doubled.skip(1) =~= double_quotes(rest));
            assert(line.subrange(at + 1, at + 1 + double_quotes(rest).len()) =~= part.skip(1));
            lemma_scan_doubled(line, delimiter, escaped, at + 1, rest);
        }
    }
}

/// The machine runs over a quoted field from its opening quote to behind its
/// closing quote, where it waits for what follows.
proof fn lemma_scan_quoted(line: Seq<char>, delimiter: char, start: int, s: Seq<char>)
    requires
        delimiter != '"',
        0 <= start,
        start + quote_field(s).len() <= line.len(),
        line.subrange(start, start + quote_field(s).len()) == quote_field(s),
    ensures
        scan(line, delimiter, ScanState::NewField, false, start) == scan(
            line,
            delimiter,
            ScanState::QuoteInQuotedField,
            has_quote(s),
            start + quote_field(s).len(),
        ),
        line.subrange(start + 1, start + quote_field(s).len() - 1) == double_quotes(s),
{
    let quoted = quote_field(s);
    let doubled = double_quotes(s);
    let part = line.subrange(start, start + quoted.len());
    let n = doubled.len() as int;
    let close = start + 1 + n;
    assert(part[0] == line[start]);
    assert(part[n + 1] == line[close]);
    assert(line.subrange(start + 1, close) =~= part.subrange(1, 1 + n));
    assert(part.subrange(1, 1 + n) =~= doubled);
    lemma_scan_doubled(line, delimiter, false, start + 1, s);
    assert(scan(line, delimiter, ScanState::NewField, false, start) == scan(
        line,
        delimiter,
        ScanState::QuotedField,
        false,
        start + 1,
    ));
    assert(scan(line, delimiter, ScanState::QuotedField, has_quote(s), close) == scan(
        line,
        delimiter,
        ScanState::QuoteInQuotedField,
        has_quote(s),
        close + 1,
    ));
}

/// A quoted field that is followed by a delimiter or by the end of the line
/// is scanned back to the text it was made from, whatever that text holds.
/// The field is a copy exactly if the text holds a quote.
pub proof fn lemma_quoted_field_scanned(
    line: Seq<char>,
    delimiter: char,
    start: int,
    s: Seq<char>,
)
    requires
        delimiter != '"',
        0 <= start,
        start + quote_field(s).len() <= line.len(),
        line.subrange(start, start + quote_field(s).len()) == quote_field(s),
        start + quote_field(s).len() < line.len() ==> line[start + quote_field(s).len()]
            == delimiter,
    ensures
        next_field(line, delimiter, start).field == Some(
            Field { text: s, owned: has_quote(s) },
        ),
        next_field(line, delimiter, start).done <==> start + quote_field(s).len() == line.len(),
        !next_field(line, delimiter, start).done ==> next_field(line, delimiter, start).cursor
            == start + quote_field(s).len() + 1,
{
    lemma_scan_quoted(line, delimiter, start, s);
    lemma_collapse_doubled(s);
    if !has_quote(s) {
        lemma_no_quote_unchanged(s);
    }
}

/// Round trip of one field: a text that is quoted, with its quotes doubled,
/// is the one field of the line so made.
pub proof fn lemma_round_trip_field(s: Seq<char>, delimiter: char)
    requires
        delimiter != '"',
    ensures
        line_fields(quote_field(s), delimiter) == seq![Field { text: s, owned: has_quote(s) }],
{
    let line = quote_field(s);
    assert(line.subrange(0, line.len() as int) =~= line);
    lemma_quoted_field_scanned(line, delimiter, 0, s);
}

proof fn lemma_record_from(
    line: Seq<char>,
    delimiter: char,
    cursor: int,
    fields: Seq<Seq<char>>,
)
    requires
        delimiter != '"',
        0 <= cursor <= line.len(),
        fields.len() > 0,
        line.skip(cursor) == join_quoted(fields, delimiter),
    ensures
        texts(fields_from(line, delimiter, cursor)) == fields,
    decreases fields.len(),
{
    let first = quote_field(fields[0]);
    let tail = line.skip(cursor);
    let end = cursor + first.len();
    let field = Field { text: fields[0], owned: has_quote(fields[0]) };
    if fields.len() == 1 {
        assert(line.subrange(cursor, end) =~= tail);
        lemma_quoted_field_scanned(line, delimiter, cursor, fields[0]);
        assert(texts(seq![field]) =~= fields);
    } else {
        let rest = fields.skip(1);
        let joined = join_quoted(rest, delimiter);
        assert(tail == first + seq![delimiter] + joined);
        assert(line.subrange(cursor, end) =~= first);
        assert(line[end] == tail[first.len() as int]);
        assert(tail.len() == first.len() + 1 + joined.len());
        assert(tail.skip(end + 1 - cursor) =~= joined);
        assert(line.skip(end + 1) =~= tail.skip(end + 1 - cursor));
        lemma_quoted_field_scanned(line, delimiter, cursor, fields[0]);
        lemma_record_from(line, delimiter, end + 1, rest);
        let others = fields_from(line, delimiter, end + 1);
        assert(texts(seq![field] + others) =~= seq![fields[0]] + texts(others));
        assert(seq![fields[0]] + rest =~= fields);
    }
}

/// Round trip of a record: fields that are quoted, with their quotes
/// doubled, and joined by the delimiter are the fields of the line so made,
/// whether they hold delimiters, quotes or line breaks.
pub proof fn lemma_round_trip_record(fields: Seq<Seq<char>>, delimiter: char)
    requires
        delimiter != '"',
        fields.len() > 0,
    ensures
        texts(line_fields(join_quoted(fields, delimiter), delimiter)) == fields,
{
    let line = join_quoted(fields, delimiter);
    assert(line.skip(0) =~= line);
    assert(line.len() > 0) by {
        assert(quote_field(fields[0]).len() >= 2);
    }
    lemma_record_from(line, delimiter, 0, fields);
}

/// Inside an unquoted field the machine runs on as long as it meets neither
/// a delimiter nor a line break.
proof fn lemma_scan_unquoted(line: Seq<char>, delimiter: char, escaped: bool, at: int, to: int)
    requires
        0 <= at <= to <= line.len(),
        forall|j: int| at <= j < to ==> #[trigger] line[j] != delimiter && !is_line_break(line[j]),
    ensures
        scan(line, delimiter, ScanState::UnquotedField, escaped, at) == scan(
            line,
            delimiter,
            ScanState::UnquotedField,
            escaped,
            to,
        ),
    decreases to - at,
{
    if at < to {
        assert(line[at] != delimiter && !is_line_break(line[at]));
        lemma_scan_unquoted(line, delimiter, escaped, at + 1, to);
    }
}

/// A line break behind an unquoted field ends the record: the field runs up
/// to the line break, and whatever follows it is discarded.
pub proof fn lemma_line_break_ends_record(line: Seq<char>, delimiter: char, start: int, at: int)
    requires
        0 <= start < at < line.len(),
        line[start] != delimiter,
        line[start] != '"',
        forall|j: int|
            start < j < at ==> #[trigger] line[j] != delimiter && !is_line_break(line[j]),
        is_line_break(line[at]),
        line[at] != delimiter,
    ensures
        next_field(line, delimiter, start).field == Some(
            Field { text: line.subrange(start, at), owned: false },
        ),
        next_field(line, delimiter, start).done,
        fields_from(line, delimiter, start) == seq![
            Field { text: line.subrange(start, at), owned: false },
        ],
{
    lemma_scan_unquoted(line, delimiter, false, start + 1, at);
    assert(scan(line, delimiter, ScanState::NewField, false, start) == scan(
        line,
        delimiter,
        ScanState::UnquotedField,
        false,
        start + 1,
    ));
}

proof fn lemma_first_delimiter(s: Seq<char>, delimiter: char, from: int)
    requires
        0 <= from <= s.len(),
    ensures
        from <= first_delimiter(s, delimiter, from) <= s.len(),
        first_delimiter(s, delimiter, from) < s.len() ==> s[first_delimiter(s, delimiter, from)]
            == delimiter,
        forall|j: int|
            from <= j < first_delimiter(s, delimiter, from) ==> #[trigger] s[j] != delimiter,
    decreases s.len() - from,
{
    if from < s.len() && s[from] != delimiter {
        lemma_first_delimiter(s, delimiter, from + 1);
    }
}

proof fn lemma_plain_from(line: Seq<char>, delimiter: char, cursor: int)
    requires
        is_plain(line, delimiter),
        0 <= cursor <= line.len(),
        line.len() > 0,
        cursor > 0 ==> line[cursor - 1] == delimiter,
    ensures
        texts(fields_from(line, delimiter, cursor)) == plain_split(line.skip(cursor), delimiter),
        all_borrowed(fields_from(line, delimiter, cursor)),
    decreases line.len() - cursor,
{
    let tail = line.skip(cursor);
    let i = first_delimiter(tail, delimiter, 0);
    let stop = cursor + i;
    lemma_first_delimiter(tail, delimiter, 0);
    if cursor == line.len() {
        assert(line.last() == delimiter);
        let field = Field { text: Seq::empty(), owned: false };
        assert(fields_from(line, delimiter, cursor) == seq![field]);
        assert(tail =~= Seq::<char>::empty());
        assert(texts(seq![field]) =~= seq![tail]);
    } else {
        assert(line[cursor] != '"');
        assert forall|j: int| cursor < j < stop implies #[trigger] line[j] != delimiter
            && !is_line_break(line[j]) by {
            assert(tail[j - cursor] != delimiter);
            assert(line[j] != '"');
        }
        if i > 0 {
            assert(tail[0] != delimiter);
            lemma_scan_unquoted(line, delimiter, false, cursor + 1, stop);
            assert(scan(line, delimiter, ScanState::NewField, false, cursor) == scan(
                line,
                delimiter,
                ScanState::UnquotedField,
                false,
                cursor + 1,
            ));
        }
        let field = Field { text: line.subrange(cursor, stop), owned: false };
        assert(line.subrange(cursor, stop) =~= tail.take(i));
        if stop == line.len() {
            assert(fields_from(line, delimiter, cursor) == seq![field]);
            assert(tail.take(i) =~= tail);
            assert(texts(seq![field]) =~= seq![tail]);
        } else {
            assert(line[stop] == tail[i]);
            assert(line.subrange(cursor, cursor) =~= Seq::<char>::empty());
            assert(next_field(line, delimiter, cursor).field == Some(field));
            lemma_plain_from(line, delimiter, stop + 1);
            let others = fields_from(line, delimiter, stop + 1);
            assert(fields_from(line, delimiter, cursor) == seq![field] + others);
            assert(tail.skip(i + 1) =~= line.skip(stop + 1));
            assert(texts(seq![field] + others) =~= seq![tail.take(i)] + texts(others));
        }
    }
}

/// On a line without quotes, and without line breaks other than the
/// delimiter, scanning is splitting on the delimiter: a delimiter at the end
/// gives a last empty field, the empty line gives one empty field, and no
/// field is copied.
pub proof fn lemma_plain_line_is_split(line: Seq<char>, delimiter: char)
    requires
        is_plain(line, delimiter),
    ensures
        texts(line_fields(line, delimiter)) == plain_split(line, delimiter),
        all_borrowed(line_fields(line, delimiter)),
{
    if line.len() == 0 {
        let field = Field { text: Seq::empty(), owned: false };
        assert(line =~= Seq::<char>::empty());
        assert(texts(seq![field]) =~= seq![line]);
    } else {
        assert(line.skip(0) =~= line);
        lemma_plain_from(line, delimiter, 0);
    }
}

/// A text that stands in a line as it is, with a delimiter or the end of the
/// line behind it, is scanned as one field, and that field is not a copy.
proof fn lemma_bare_field_scanned(line: Seq<char>, delimiter: char, start: int, s: Seq<char>)
    requires
        is_bare(s, delimiter),
        0 <= start,
        start + s.len() <= line.len(),
        line.len() > 0,
        line.subrange(start, start + s.len()) == s,
        start + s.len() < line.len() ==> line[start + s.len()] == delimiter,
        start > 0 ==> line[start - 1] == delimiter,
    ensures
        next_field(line, delimiter, start).field == Some(Field { text: s, owned: false }),
        next_field(line, delimiter, start).done <==> start + s.len() == line.len(),
        !next_field(line, delimiter, start).done ==> next_field(line, delimiter, start).cursor
            == start + s.len() + 1,
{
    let end = start + s.len();
    let part = line.subrange(start, end);
    if s.len() == 0 {
        assert(s =~= Seq::<char>::empty());
    } else {
        assert(part[0] == line[start]);
        assert(s[0] != delimiter);
        assert forall|j: int| start < j < end implies #[trigger] line[j] != delimiter
            && !is_line_break(line[j]) by {
            assert(part[j - start] == line[j]);
            assert(s[j - start] != delimiter);
        }
        lemma_scan_unquoted(line, delimiter, false, start + 1, end);
        assert(scan(line, delimiter, ScanState::NewField, false, start) == scan(
            line,
            delimiter,
            ScanState::UnquotedField,
            false,
            start + 1,
        ));
    }
}

proof fn lemma_written_from(
    line: Seq<char>,
    delimiter: char,
    cursor: int,
    fields: Seq<Seq<char>>,
)
    requires
        delimiter != '"',
        0 <= cursor <= line.len(),
        line.len() > 0,
        cursor > 0 ==> line[cursor - 1] == delimiter,
        fields.len() > 0,
        line.skip(cursor) == write_record(fields, delimiter),
    ensures
        texts(fields_from(line, delimiter, cursor)) == fields,
    decreases fields.len(),
{
    let first = write_field(fields[0], delimiter);
    let tail = line.skip(cursor);
    let end = cursor + first.len();
    let field = Field {
        text: fields[0],
        owned: !is_bare(fields[0], delimiter) && has_quote(fields[0]),
    };
    if fields.len() == 1 {
        assert(line.subrange(cursor, end) =~= tail);
    } else {
        let joined = write_record(fields.skip(1), delimiter);
        assert(tail == first + seq![delimiter] + joined);
        assert(line.subrange(cursor, end) =~= first);
        assert(line[end] == tail[first.len() as int]);
        assert(tail.len() == first.len() + 1 + joined.len());
        assert(tail.skip(end + 1 - cursor) =~= joined);
        assert(line.skip(end + 1) =~= tail.skip(end + 1 - cursor));
        lemma_written_from(line, delimiter, end + 1, fields.skip(1));
    }
    if is_bare(fields[0], delimiter) {
        lemma_bare_field_scanned(line, delimiter, cursor, fields[0]);
    } else {
        lemma_quoted_field_scanned(line, delimiter, cursor, fields[0]);
    }
    if fields.len() == 1 {
        assert(texts(seq![field]) =~= fields);
    } else {
        let others = fields_from(line, delimiter, end + 1);
        assert(texts(seq![field] + others) =~= seq![fields[0]] + texts(others));
        assert(seq![fields[0]] + fields.skip(1) =~= fields);
    }
}

/// Round trip of a written record: fields of which those are quoted, with
/// their quotes doubled, that hold a delimiter, a quote or a line break, and
/// which are joined by the delimiter, are the fields of the line so made.
pub proof fn lemma_round_trip_written(fields: Seq<Seq<char>>, delimiter: char)
    requires
        delimiter != '"',
        fields.len() > 0,
    ensures
        texts(line_fields(write_record(fields, delimiter), delimiter)) == fields,
{
    let line = write_record(fields, delimiter);
    if line.len() == 0 {
        assert(fields.len() == 1);
        assert(fields[0] =~= Seq::<char>::empty());
        let field = Field { text: Seq::empty(), owned: false };
        assert(texts(seq![field]) =~= fields);
    } else {
        assert(line.skip(0) =~= line);
        lemma_written_from(line, delimiter, 0, fields);
    }
}

/// Once the machine has left the state of a new field, it does not stop in
/// that state.
proof fn lemma_scan_leaves_new_field(
    line: Seq<char>,
    delimiter: char,
    state: ScanState,
    escaped: bool,
    at: int,
)
    requires
        !(state is NewField),
    ensures
        !(scan(line, delimiter, state, escaped, at).state is NewField),
    decreases line.len() - at,
{
    if 0 <= at < line.len() {
        match step(state, line[at], delimiter, at) {
            Step::Go(next) => {
                lemma_scan_leaves_new_field(
                    line,
                    delimiter,
                    next,
                    escaped || confirms_escape(state, line[at]),
                    at + 1,
                );
            },
            _ => {},
        }
    }
}

/// The scanner hands out no field at all only on the line without
/// characters, of which the record is made up by one empty field: every
/// record has a field.
pub proof fn lemma_every_record_has_a_field(line: Seq<char>, delimiter: char)
    ensures
        fields_from(line, delimiter, 0).len() == 0 <==> line.len() == 0,
        line_fields(line, delimiter).len() >= 1,
{
    if line.len() > 0 {
        match step(ScanState::NewField, line[0], delimiter, 0) {
            Step::Go(next) => {
                lemma_scan_leaves_new_field(line, delimiter, next, false, 1);
            },
            _ => {},
        }
    }
}

} // verus!
