//! Writing a table and reading it back: which tables come back as they
//! were, and the proof that they do.

use crate::codec::{
    emitted_row, emitted_rows, lines, parsed, parsed_row, parsed_rows, serialized, FIELD_DELIMITER,
    LINE_BREAK,
};
use crate::grid::Grid;
use crate::text::{
    free_of, is_trimmed, join, lemma_join_keeps_absent, lemma_split, lemma_split_append,
    lemma_split_keeps_absent, lemma_split_of_join, lemma_trim, lemma_trim_keeps_absent,
    lemma_trim_of_trimmed, split, trim,
};
use vstd::prelude::*;

verus! {

/// A field that reading gives back as it was written: it is trimmed and
/// holds neither a comma nor a line feed.
pub open spec fn is_clean_field(field: Seq<char>) -> bool {
    &&& is_trimmed(field)
    &&& !field.contains(FIELD_DELIMITER)
    &&& !field.contains(LINE_BREAK)
}

/// Every field of every row is clean.
pub open spec fn has_clean_fields(rows: Seq<Seq<Seq<char>>>) -> bool {
    forall|i: int, j: int|
        0 <= i < rows.len() && 0 <= j < rows[i].len() ==> is_clean_field(#[trigger] rows[i][j])
}

/// The last row of the grid is written as an empty line. Reading does not
/// count an empty line at the end of a text, so such a row is lost.
pub open spec fn ends_with_empty_line(grid: Grid) -> bool {
    grid.rows.len() > 0 && emitted_row(grid.rows.last(), grid.column_count).len() == 0
}

/// Tables that are sure to survive being written and read again: as wide
/// as their first row, rectangular, with clean fields, and not ending in a
/// row that is written as an empty line.
pub open spec fn is_storable(grid: Grid) -> bool {
    &&& grid == Grid::of_rows(grid.rows)
    &&& grid.is_rectangular()
    &&& has_clean_fields(grid.rows)
    &&& !ends_with_empty_line(grid)
}

/// A row that fills its table's width is written as its fields joined by
/// commas; a shorter one has one more comma at its end.
pub proof fn lemma_emitted_row_is_join(row: Seq<Seq<char>>, width: nat)
    requires
        1 <= row.len() <= width,
    ensures
        row.len() == width ==> emitted_row(row, width) == join(row, FIELD_DELIMITER),
        row.len() < width ==> emitted_row(row, width) == join(row, FIELD_DELIMITER).push(
            FIELD_DELIMITER,
        ),
    decreases row.len(),
{
    if row.len() == 1 {
        assert(emitted_row(row.drop_last(), width) =~= Seq::<char>::empty());
        assert(emitted_row(row.drop_last(), width) + row.last() =~= row[0]);
    } else {
        lemma_emitted_row_is_join(row.drop_last(), width);
    }
}

/// Every row that is read has at least one field, and all its fields are
/// clean.
pub proof fn lemma_parsed_row_is_clean(line: Seq<char>)
    requires
        !line.contains(LINE_BREAK),
    ensures
        parsed_row(line).len() >= 1,
        forall|j: int|
            0 <= j < parsed_row(line).len() ==> is_clean_field(#[trigger] parsed_row(line)[j]),
{
    let pieces = split(line, FIELD_DELIMITER);
    lemma_split(line, FIELD_DELIMITER);
    lemma_split_keeps_absent(line, FIELD_DELIMITER, LINE_BREAK);
    assert forall|j: int| 0 <= j < parsed_row(line).len() implies is_clean_field(
        #[trigger] parsed_row(line)[j],
    ) by {
        assert(parsed_row(line)[j] == trim(pieces[j]));
        lemma_trim(pieces[j]);
        lemma_trim_keeps_absent(pieces[j], FIELD_DELIMITER);
        lemma_trim_keeps_absent(pieces[j], LINE_BREAK);
    }
}

/// Whatever the text, the table read from it is as wide as its first row,
/// each of its rows has at least one field, and all its fields are clean.
pub proof fn lemma_parsed_is_clean(text: Seq<char>)
    ensures
        parsed(text) == Grid::of_rows(parsed(text).rows),
        forall|i: int| 0 <= i < parsed(text).rows.len() ==> (#[trigger] parsed(text).rows[i]).len() >= 1,
        has_clean_fields(parsed(text).rows),
{
    let pieces = split(text, LINE_BREAK);
    lemma_split(text, LINE_BREAK);
    let rows = parsed_rows(text);
    assert forall|i: int| 0 <= i < rows.len() implies (#[trigger] rows[i]).len() >= 1 && (forall|
        j: int,
    |
        0 <= j < rows[i].len() ==> is_clean_field(#[trigger] rows[i][j])) by {
        assert(lines(text)[i] == pieces[i]);
        assert(rows[i] == parsed_row(pieces[i]));
        lemma_parsed_row_is_clean(pieces[i]);
    }
}

/// A row of clean fields that fills the table's width is read back from
/// its line as it was, and its line holds no line feed.
pub proof fn lemma_row_round_trip(row: Seq<Seq<char>>, width: nat)
    requires
        1 <= row.len() == width,
        forall|j: int| 0 <= j < row.len() ==> is_clean_field(#[trigger] row[j]),
    ensures
        parsed_row(emitted_row(row, width)) == row,
        !emitted_row(row, width).contains(LINE_BREAK),
{
    lemma_emitted_row_is_join(row, width);
    assert(free_of(row, FIELD_DELIMITER));
    assert(free_of(row, LINE_BREAK));
    lemma_split_of_join(row, FIELD_DELIMITER);
    lemma_join_keeps_absent(row, FIELD_DELIMITER, LINE_BREAK);
    assert forall|j: int| 0 <= j < row.len() implies trim(#[trigger] row[j]) == row[j] by {
        lemma_trim_of_trimmed(row[j]);
    }
    assert(parsed_row(emitted_row(row, width)) =~= row);
}

/// A storable table that is written and read again is the same table.
pub proof fn lemma_round_trip_of_grid(grid: Grid)
    requires
        is_storable(grid),
    ensures
        parsed(serialized(grid)) == grid,
{
    let written = emitted_rows(grid);
    let text = serialized(grid);
    if grid.rows.len() == 0 {
        assert(text =~= Seq::<char>::empty());
        assert(parsed_rows(text) =~= grid.rows);
    } else {
        let width = grid.column_count;
        assert(grid.rows.last().len() == width);
        assert(width >= 1);
        assert forall|i: int| 0 <= i < written.len() implies !(#[trigger] written[i]).contains(
            LINE_BREAK,
        ) && parsed_row(written[i]) == grid.rows[i] by {
            assert(grid.rows[i].len() == width);
            lemma_row_round_trip(grid.rows[i], width);
        }
        lemma_split_of_join(written, LINE_BREAK);
        assert(lines(text) == written);
        assert(parsed_rows(text) =~= grid.rows);
    }
}

/// A table that was read from a text, written and read again comes back as
/// it was read the first time, if it is rectangular and its last row is not
/// written as an empty line. The text itself may differ from what is
/// written: in white space around fields, and in a line feed at its end.
pub proof fn lemma_round_trip(text: Seq<char>)
    requires
        parsed(text).is_rectangular(),
        !ends_with_empty_line(parsed(text)),
    ensures
        parsed(serialized(parsed(text))) == parsed(text),
{
    lemma_parsed_is_clean(text);
    lemma_round_trip_of_grid(parsed(text));
}

/// A character that no field holds, and that is not the comma, is not in
/// the row as it is written.
pub proof fn lemma_emitted_row_keeps_absent(row: Seq<Seq<char>>, width: nat, c: char)
    requires
        free_of(row, c),
        c != FIELD_DELIMITER,
    ensures
        !emitted_row(row, width).contains(c),
    decreases row.len(),
{
    let line = emitted_row(row, width);
    if line.contains(c) {
        let k = choose|k: int| 0 <= k < line.len() && line[k] == c;
        let rest = row.drop_last();
        assert forall|i: int| 0 <= i < rest.len() implies !(#[trigger] rest[i]).contains(c) by {
            assert(rest[i] == row[i]);
        }
        lemma_emitted_row_keeps_absent(rest, width, c);
        let head = emitted_row(rest, width);
        if k < head.len() {
            assert(head[k] == c);
        } else if k < head.len() + row.last().len() {
            assert(row.last()[k - head.len()] == c);
        }
    }
}

/// How many fields are read from a row as it was written: one more than the
/// row had where it was shorter than the table's width, and as many as the
/// width otherwise.
pub proof fn lemma_fields_of_emitted_row(row: Seq<Seq<char>>, width: nat)
    requires
        row.len() >= 1,
        width >= 1,
        free_of(row, FIELD_DELIMITER),
    ensures
        parsed_row(emitted_row(row, width)).len() == if row.len() < width {
            row.len() + 1
        } else {
            width
        },
    decreases row.len(),
{
    let line = emitted_row(row, width);
    if row.len() <= width {
        lemma_emitted_row_is_join(row, width);
        lemma_split_of_join(row, FIELD_DELIMITER);
        if row.len() < width {
            assert(line.drop_last() =~= join(row, FIELD_DELIMITER));
        }
    } else {
        let rest = row.drop_last();
        assert forall|i: int| 0 <= i < rest.len() implies !(#[trigger] rest[i]).contains(
            FIELD_DELIMITER,
        ) by {
            assert(rest[i] == row[i]);
        }
        lemma_fields_of_emitted_row(rest, width);
        lemma_split_append(emitted_row(rest, width), row.last(), FIELD_DELIMITER);
    }
}

/// Only the tables of `lemma_round_trip` come back: a table read from a
/// text that is the same after being written and read again is rectangular,
/// and its last row is not written as an empty line.
pub proof fn lemma_round_trip_only_if(text: Seq<char>)
    requires
        parsed(serialized(parsed(text))) == parsed(text),
    ensures
        parsed(text).is_rectangular(),
        !ends_with_empty_line(parsed(text)),
{
    let grid = parsed(text);
    lemma_parsed_is_clean(text);
    if grid.rows.len() > 0 {
        let width = grid.column_count;
        let written = emitted_rows(grid);
        assert forall|i: int| 0 <= i < written.len() implies !(#[trigger] written[i]).contains(
            LINE_BREAK,
        ) by {
            assert(free_of(grid.rows[i], LINE_BREAK));
            lemma_emitted_row_keeps_absent(grid.rows[i], width, LINE_BREAK);
        }
        lemma_split_of_join(written, LINE_BREAK);
        assert(parsed_rows(serialized(grid)).len() == lines(serialized(grid)).len());
        assert(lines(serialized(grid)) == written);
        assert forall|i: int| 0 <= i < grid.rows.len() implies (#[trigger] grid.rows[i]).len()
            == width by {
            assert(free_of(grid.rows[i], FIELD_DELIMITER));
            lemma_fields_of_emitted_row(grid.rows[i], width);
            assert(parsed_rows(serialized(grid))[i] == parsed_row(written[i]));
        }
    }
}

} // verus!
