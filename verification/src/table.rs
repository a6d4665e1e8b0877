//! The table store: the rows of a table in memory, with bounds-checked
//! queries and edits.

use crate::grid::{rendered_row, Grid};
use crate::std_specs::lemma_push_deep_view;
use vstd::prelude::*;
use vstd::string::StringExecFns;

verus! {

/// A table of text fields.
pub struct CSVData {
    data: Vec<Vec<String>>,
    records: usize,
    fields: usize,
}

/// An edit named a row or a field that the table does not have.
#[derive(Debug, Clone, Copy, PartialEq, Eq)]
pub struct IndexOutOfRange;

impl View for CSVData {
    type V = Grid;

    closed spec fn view(&self) -> Grid {
        Grid { rows: self.data.deep_view(), column_count: self.fields as nat }
    }
}

/// Renders a row for display: each field followed by a comma and a blank.
pub fn render_row(row: &Vec<String>) -> (line: String)
    ensures
        line@ == rendered_row(row.deep_view()),
{
    let ghost fields = row.deep_view();
    let mut line = String::new();
    let mut j: usize = 0;
    while j < row.len()
        invariant
            j <= row.len(),
            fields == row.deep_view(),
            line@ == rendered_row(fields.take(j as int)),
        decreases row.len() - j,
    {
        line.append(row[j].as_str());
        line.push(',');
        line.push(' ');
        proof {
            let upto = fields.take(j + 1);
            assert(upto.drop_last() =~= fields.take(j as int));
            assert(upto.last() == row[j as int]@);
            assert(line@ =~= rendered_row(upto));
        }
        j += 1;
    }
    assert(fields.take(j as int) =~= fields);
    line
}

impl CSVData {
    /// The cached row count agrees with the rows that are held.
    pub closed spec fn wf(&self) -> bool {
        self.records == self.data.len()
    }

    /// Makes a table of `data`. Its column count is the number of fields of
    /// the first row, and 0 where there is no row.
    pub fn new(data: Vec<Vec<String>>) -> (table: Self)
        ensures
            table.wf(),
            table@ == Grid::of_rows(data.deep_view()),
    {
        let records = data.len();
        let fields = if records > 0 { data[0].len() } else { 0 };
        CSVData { data, records, fields }
    }

    /// The number of rows.
    pub fn row_count(&self) -> (n: usize)
        requires
            self.wf(),
        ensures
            n == self@.rows.len(),
    {
        self.records
    }

    /// The nominal number of columns: the width of the first row at the time
    /// the table was made.
    pub fn column_count(&self) -> (n: usize)
        ensures
            n == self@.column_count,
    {
        self.fields
    }

    /// The rows, each with its fields in column order.
    pub fn rows(&self) -> (rows: &Vec<Vec<String>>)
        ensures
            rows.deep_view() == self@.rows,
    {
        &self.data
    }

    /// Whether every row has as many fields as the column count says.
    pub fn is_rectangular(&self) -> (b: bool)
        ensures
            b == self@.is_rectangular(),
    {
        let mut i: usize = 0;
        while i < self.data.len()
            invariant
                i <= self.data.len(),
                forall|k: int| 0 <= k < i ==> (#[trigger] self@.rows[k]).len() == self.fields,
            decreases self.data.len() - i,
        {
            assert(self@.rows[i as int] == self.data[i as int].deep_view());
            if self.data[i].len() != self.fields {
                return false;
            }
            i += 1;
        }
        true
    }

    /// Removes row `index`, counted from 1; the rows after it move up by
    /// one. Where there is no such row the table is left as it is.
    pub fn delete_row(&mut self, index: usize) -> (res: Result<(), IndexOutOfRange>)
        requires
            old(self).wf(),
        ensures
            final(self).wf(),
            res is Ok <==> old(self)@.has_row(index as int),
            final(self)@ == old(self)@.delete_row(index as int),
            res is Err ==> *final(self) == *old(self),
    {
        if 1 <= index && index <= self.records {
            self.data.remove(index - 1);
            self.records = self.records - 1;
            assert(self@.rows =~~= old(self)@.rows.remove(index - 1));
            Ok(())
        } else {
            Err(IndexOutOfRange)
        }
    }

    /// Puts `new_value` in place of the field at row `row` and column `col`,
    /// both counted from 1. The field must lie within the column count and
    /// within its row; otherwise the table is left as it is.
    pub fn modify_field(&mut self, row: usize, col: usize, new_value: String) -> (res: Result<
        (),
        IndexOutOfRange,
    >)
        requires
            old(self).wf(),
        ensures
            final(self).wf(),
            res is Ok <==> old(self)@.has_field(row as int, col as int),
            final(self)@ == old(self)@.modify_field(row as int, col as int, new_value@),
            res is Err ==> *final(self) == *old(self),
    {
        if 1 <= row && row <= self.records && 1 <= col && col <= self.fields && col
            <= self.data[row - 1].len() {
            self.data[row - 1][col - 1] = new_value;
            assert(self@.rows =~~= old(self)@.modify_field(
                row as int,
                col as int,
                new_value@,
            ).rows);
            Ok(())
        } else {
            Err(IndexOutOfRange)
        }
    }

    /// Every row of the table as it is shown, in order.
    pub fn display(&self) -> (lines: Vec<String>)
        ensures
            lines.deep_view() == self@.display(),
    {
        let mut lines: Vec<String> = Vec::new();
        let mut i: usize = 0;
        while i < self.data.len()
            invariant
                i <= self.data.len(),
                lines.deep_view() == self@.display().take(i as int),
            decreases self.data.len() - i,
        {
            let line = render_row(&self.data[i]);
            let ghost before = lines;
            lines.push(line);
            proof {
                lemma_push_deep_view(before, lines, line);
                assert(self@.rows[i as int] == self.data[i as int].deep_view());
                assert(lines.deep_view() =~= self@.display().take(i + 1));
            }
            i += 1;
        }
        assert(self@.display().take(i as int) =~= self@.display());
        lines
    }

    /// The rows from `start` to `end`, both counted from 1 and both included,
    /// as they are shown. An index that names no row is passed over, so the
    /// result is empty where `end < start`.
    pub fn paginate(&self, start: usize, end: usize) -> (lines: Vec<String>)
        ensures
            lines.deep_view() == self@.paginate(start as int, end as int),
    {
        let first = if start < 1 { 1 } else { start };
        let last = if end > self.data.len() { self.data.len() } else { end };
        let ghost shown = self@.paginate(start as int, end as int);
        let mut lines: Vec<String> = Vec::new();
        if first > last {
            assert(lines.deep_view() =~= shown);
            return lines;
        }
        let mut k: usize = first - 1;
        while k < last
            invariant
                1 <= first <= last <= self.data.len(),
                first - 1 <= k <= last,
                shown == self@.rows.subrange(first - 1, last as int).map_values(
                    |row: Seq<Seq<char>>| rendered_row(row),
                ),
                lines.deep_view() == shown.take(k - (first - 1)),
            decreases last - k,
        {
            let line = render_row(&self.data[k]);
            let ghost before = lines;
            lines.push(line);
            proof {
                lemma_push_deep_view(before, lines, line);
                assert(self@.rows[k as int] == self.data[k as int].deep_view());
                assert(lines.deep_view() =~= shown.take(k + 1 - (first - 1)));
            }
            k += 1;
        }
        assert(shown.take(shown.len() as int) =~= shown);
        lines
    }
}

} // verus!
