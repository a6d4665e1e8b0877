//! The text format of a table, and the conversions between text and table.
//!
//! A table is written one row per line, with commas between the fields of a
//! row. Nothing is quoted or escaped, so a field that holds a comma or a line
//! feed is not read back as it was written. White space around a field is
//! dropped when the text is read.

use crate::grid::Grid;
use crate::std_specs::lemma_push_deep_view;
use crate::table::CSVData;
use crate::text::{
    char_is_whitespace, join, lemma_split, lemma_split_push, lemma_trim_all_push,
    lemma_trim_drops_last_whitespace, split, trim, trim_all, trim_end, trim_start,
};
use vstd::prelude::*;
use vstd::string::StringExecFns;

verus! {

/// The character between two fields of a row.
pub const FIELD_DELIMITER: char = ',';

/// The character that ends a line.
pub const LINE_BREAK: char = '\n';

/// The lines of `text`: the pieces between its line feeds, where a last
/// piece that is empty does not count. So a line feed at the very end of the
/// text is optional, and the empty text has no line. A carriage return
/// before a line feed stays on its line, at the end of the last field, where
/// trimming drops it (`lemma_carriage_return_is_dropped`).
pub open spec fn lines(text: Seq<char>) -> Seq<Seq<char>> {
    let pieces = split(text, LINE_BREAK);
    if pieces.last().len() == 0 {
        pieces.drop_last()
    } else {
        pieces
    }
}

/// The fields of one line: its pieces between the commas, each trimmed.
pub open spec fn parsed_row(line: Seq<char>) -> Seq<Seq<char>> {
    trim_all(split(line, FIELD_DELIMITER))
}

/// The row of each of `lines`.
pub open spec fn parsed_lines(lines: Seq<Seq<char>>) -> Seq<Seq<Seq<char>>> {
    lines.map_values(|line: Seq<char>| parsed_row(line))
}

/// The rows that `text` describes, line by line.
pub open spec fn parsed_rows(text: Seq<char>) -> Seq<Seq<Seq<char>>> {
    parsed_lines(lines(text))
}

/// The table that `text` describes. It is as wide as its first row.
pub open spec fn parsed(text: Seq<char>) -> Grid {
    Grid::of_rows(parsed_rows(text))
}

/// One row as it is written in a table `width` columns wide: the fields in
/// order, with a comma after each field that stands before column `width`.
/// A comma is therefore owed to the position, not to a field that follows:
/// a row shorter than `width` ends in a comma, and in a longer row the
/// fields from column `width` on are written without anything between them.
pub open spec fn emitted_row(row: Seq<Seq<char>>, width: nat) -> Seq<char>
    decreases row.len(),
{
    if row.len() == 0 {
        Seq::empty()
    } else {
        let through_last = emitted_row(row.drop_last(), width) + row.last();
        if row.len() < width {
            through_last.push(FIELD_DELIMITER)
        } else {
            through_last
        }
    }
}

/// The rows of `grid` as they are written, each for the grid's column
/// count.
pub open spec fn emitted_rows(grid: Grid) -> Seq<Seq<char>> {
    grid.rows.map_values(|row: Seq<Seq<char>>| emitted_row(row, grid.column_count))
}

/// The text of a table: its rows as they are written, with a line feed
/// between each two and none after the last.
pub open spec fn serialized(grid: Grid) -> Seq<char> {
    join(emitted_rows(grid), LINE_BREAK)
}

/// A carriage return at the end of a line does not show in the row that is
/// read from it. So lines that end in a carriage return and a line feed give
/// the rows of lines that end in a line feed alone.
pub proof fn lemma_carriage_return_is_dropped(line: Seq<char>)
    ensures
        parsed_row(line.push('\r')) == parsed_row(line),
{
    let pieces = split(line, FIELD_DELIMITER);
    lemma_split(line, FIELD_DELIMITER);
    lemma_split_push(line, '\r', FIELD_DELIMITER);
    lemma_trim_drops_last_whitespace(pieces.last(), '\r');
    assert(parsed_row(line.push('\r')) =~= parsed_row(line));
}

/// The characters of `s`, in order.
fn chars_of(s: &str) -> (chars: Vec<char>)
    ensures
        chars@ == s@,
{
    let mut chars: Vec<char> = Vec::new();
    for c in it: s.chars()
        invariant
            it.seq() == s@,
            chars@ == it.seq().take(it.index()),
    {
        chars.push(c);
        assert(it.seq().take(it.index() + 1) =~= it.seq().take(it.index()).push(c));
    }
    assert(s@.take(s@.len() as int) =~= s@);
    chars
}

/// The field that stands at `chars[from..to]`, trimmed.
fn field_from(chars: &Vec<char>, from: usize, to: usize) -> (field: String)
    requires
        from <= to <= chars.len(),
    ensures
        field@ == trim(chars@.subrange(from as int, to as int)),
{
    let ghost raw = chars@.subrange(from as int, to as int);
    let mut first: usize = from;
    while first < to && char_is_whitespace(chars[first])
        invariant
            from <= first <= to <= chars.len(),
            trim_start(raw) == trim_start(chars@.subrange(first as int, to as int)),
        decreases to - first,
    {
        assert(chars@.subrange(first as int, to as int).drop_first() =~= chars@.subrange(
            first + 1,
            to as int,
        ));
        first += 1;
    }
    let ghost kept = chars@.subrange(first as int, to as int);
    assert(trim_start(raw) == kept);
    let mut end: usize = to;
    while end > first && char_is_whitespace(chars[end - 1])
        invariant
            first <= end <= to <= chars.len(),
            trim_end(kept) == trim_end(chars@.subrange(first as int, end as int)),
        decreases end - first,
    {
        assert(chars@.subrange(first as int, end as int).drop_last() =~= chars@.subrange(
            first as int,
            end - 1,
        ));
        end -= 1;
    }
    assert(trim(raw) == chars@.subrange(first as int, end as int));
    let mut field = String::new();
    let mut i: usize = first;
    while i < end
        invariant
            first <= i <= end <= chars.len(),
            field@ == chars@.subrange(first as int, i as int),
        decreases end - i,
    {
        field.push(chars[i]);
        assert(field@ =~= chars@.subrange(first as int, i + 1));
        i += 1;
    }
    field
}

/// Reading the row of each line goes line by line.
proof fn lemma_parsed_lines_push(lines: Seq<Seq<char>>, line: Seq<char>)
    ensures
        parsed_lines(lines.push(line)) == parsed_lines(lines).push(parsed_row(line)),
{
    assert(parsed_lines(lines.push(line)) =~= parsed_lines(lines).push(parsed_row(line)));
}

/// The row that stands on the line `chars[from..to]`.
fn row_from(chars: &Vec<char>, from: usize, to: usize) -> (row: Vec<String>)
    requires
        from <= to <= chars.len(),
    ensures
        row.deep_view() == parsed_row(chars@.subrange(from as int, to as int)),
{
    let ghost line = chars@.subrange(from as int, to as int);
    // The pieces that a comma has closed; the open one is `chars[start..i]`.
    let ghost mut closed: Seq<Seq<char>> = Seq::empty();
    let mut row: Vec<String> = Vec::new();
    let mut start: usize = from;
    let mut i: usize = from;
    proof {
        assert(line.take(0) =~= Seq::<char>::empty());
        assert(chars@.subrange(from as int, from as int) =~= Seq::<char>::empty());
        assert(split(line.take(0), FIELD_DELIMITER) =~= closed.push(Seq::empty()));
        assert(row.deep_view() =~= trim_all(closed));
    }
    while i < to
        invariant
            from <= start <= i <= to <= chars.len(),
            line == chars@.subrange(from as int, to as int),
            split(line.take(i - from), FIELD_DELIMITER) == closed.push(
                chars@.subrange(start as int, i as int),
            ),
            row.deep_view() == trim_all(closed),
        decreases to - i,
    {
        let ghost open = chars@.subrange(start as int, i as int);
        proof {
            lemma_split_push(line.take(i - from), chars[i as int], FIELD_DELIMITER);
            assert(line.take(i + 1 - from) =~= line.take(i - from).push(chars[i as int]));
        }
        if chars[i] == FIELD_DELIMITER {
            let field = field_from(chars, start, i);
            let ghost shorter = row;
            row.push(field);
            proof {
                lemma_push_deep_view(shorter, row, field);
                lemma_trim_all_push(closed, open);
                closed = closed.push(open);
                assert(chars@.subrange(i + 1, i + 1) =~= Seq::<char>::empty());
            }
            start = i + 1;
        } else {
            proof {
                assert(closed.push(open).drop_last() =~= closed);
                assert(open.push(chars[i as int]) =~= chars@.subrange(start as int, i + 1));
            }
        }
        i += 1;
    }
    let field = field_from(chars, start, to);
    let ghost shorter = row;
    row.push(field);
    proof {
        assert(line.take(to - from) =~= line);
        lemma_push_deep_view(shorter, row, field);
        lemma_trim_all_push(closed, chars@.subrange(start as int, to as int));
    }
    row
}

/// The rows that the text `chars` describes.
fn rows_from(chars: &Vec<char>) -> (rows: Vec<Vec<String>>)
    ensures
        rows.deep_view() == parsed_rows(chars@),
{
    let ghost text = chars@;
    // The lines that a line feed has closed; the open one is `chars[start..i]`.
    let ghost mut closed: Seq<Seq<char>> = Seq::empty();
    let mut rows: Vec<Vec<String>> = Vec::new();
    let mut start: usize = 0;
    let mut i: usize = 0;
    proof {
        assert(text.take(0) =~= Seq::<char>::empty());
        assert(text.subrange(0, 0) =~= Seq::<char>::empty());
        assert(split(text.take(0), LINE_BREAK) =~= closed.push(Seq::empty()));
        assert(rows.deep_view() =~= parsed_lines(closed));
    }
    while i < chars.len()
        invariant
            start <= i <= chars.len(),
            text == chars@,
            split(text.take(i as int), LINE_BREAK) == closed.push(
                text.subrange(start as int, i as int),
            ),
            rows.deep_view() == parsed_lines(closed),
        decreases chars.len() - i,
    {
        let ghost open = text.subrange(start as int, i as int);
        proof {
            lemma_split_push(text.take(i as int), chars[i as int], LINE_BREAK);
            assert(text.take(i + 1) =~= text.take(i as int).push(chars[i as int]));
        }
        if chars[i] == LINE_BREAK {
            let row = row_from(chars, start, i);
            let ghost shorter = rows;
            rows.push(row);
            proof {
                lemma_push_deep_view(shorter, rows, row);
                lemma_parsed_lines_push(closed, open);
                closed = closed.push(open);
                assert(text.subrange(i + 1, i + 1) =~= Seq::<char>::empty());
            }
            start = i + 1;
        } else {
            proof {
                assert(closed.push(open).drop_last() =~= closed);
                assert(open.push(chars[i as int]) =~= text.subrange(start as int, i + 1));
            }
        }
        i += 1;
    }
    let ghost open = text.subrange(start as int, i as int);
    proof {
        assert(text.take(i as int) =~= text);
        assert(closed.push(open).drop_last() =~= closed);
    }
    if start < chars.len() {
        let row = row_from(chars, start, chars.len());
        let ghost shorter = rows;
        rows.push(row);
        proof {
            lemma_push_deep_view(shorter, rows, row);
            lemma_parsed_lines_push(closed, open);
        }
    }
    rows
}

/// Reads a table from the text of a file. Every text is accepted: rows may
/// differ in length, and the column count is the length of the first.
pub fn parse(contents: &str) -> (table: CSVData)
    ensures
        table.wf(),
        table@ == parsed(contents@),
{
    let chars = chars_of(contents);
    CSVData::new(rows_from(&chars))
}

/// Writes `row` behind what `out` holds, as a row of a table `width`
/// columns wide.
fn emit_row(row: &Vec<String>, width: usize, out: &mut String)
    ensures
        final(out)@ == old(out)@ + emitted_row(row.deep_view(), width as nat),
{
    let ghost fields = row.deep_view();
    let mut j: usize = 0;
    while j < row.len()
        invariant
            j <= row.len(),
            fields == row.deep_view(),
            out@ == old(out)@ + emitted_row(fields.take(j as int), width as nat),
        decreases row.len() - j,
    {
        out.append(row[j].as_str());
        if j + 1 < width {
            out.push(FIELD_DELIMITER);
        }
        proof {
            let upto = fields.take(j + 1);
            assert(upto.drop_last() =~= fields.take(j as int));
            assert(upto.last() == row[j as int]@);
            assert(out@ =~= old(out)@ + emitted_row(upto, width as nat));
        }
        j += 1;
    }
    assert(fields.take(j as int) =~= fields);
}

/// The text of `table`, as it is stored in a file: one line per row, a line
/// feed between each two lines and none at the end.
pub fn serialize(table: &CSVData) -> (text: String)
    ensures
        text@ == serialized(table@),
{
    let rows = table.rows();
    let width = table.column_count();
    let ghost written = emitted_rows(table@);
    let mut text = String::new();
    let mut i: usize = 0;
    while i < rows.len()
        invariant
            i <= rows.len(),
            rows.deep_view() == table@.rows,
            width == table@.column_count,
            written == emitted_rows(table@),
            text@ == join(written.take(i as int), LINE_BREAK),
        decreases rows.len() - i,
    {
        if i > 0 {
            text.push(LINE_BREAK);
        }
        emit_row(&rows[i], width, &mut text);
        proof {
            let upto = written.take(i + 1);
            assert(upto.drop_last() =~= written.take(i as int));
            assert(table@.rows[i as int] == rows[i as int].deep_view());
            assert(upto.last() == emitted_row(rows[i as int].deep_view(), width as nat));
            assert(text@ =~= join(upto, LINE_BREAK));
        }
        i += 1;
    }
    assert(written.take(i as int) =~= written);
    text
}

} // verus!
