//! The mathematical model of a table: its rows of fields and its nominal
//! column count, with the editing and paging operations as functions on it.
//! Rows and columns are counted from 1.

use vstd::prelude::*;

verus! {

/// What a table holds. `rows` may be ragged: `column_count` is the width
/// that the table was given when it was made, and no row is held to it.
pub struct Grid {
    pub rows: Seq<Seq<Seq<char>>>,
    pub column_count: nat,
}

/// A row as it is shown: each field followed by a comma and a blank.
pub open spec fn rendered_row(row: Seq<Seq<char>>) -> Seq<char>
    decreases row.len(),
{
    if row.len() == 0 {
        Seq::empty()
    } else {
        rendered_row(row.drop_last()) + row.last() + seq![',', ' ']
    }
}

impl Grid {
    /// The grid made of `rows`, as wide as the first of them.
    pub open spec fn of_rows(rows: Seq<Seq<Seq<char>>>) -> Grid {
        Grid { rows, column_count: if rows.len() > 0 { rows[0].len() } else { 0 } }
    }

    /// Whether `index` names a row.
    pub open spec fn has_row(self, index: int) -> bool {
        1 <= index <= self.rows.len()
    }

    /// Row `index`.
    pub open spec fn row(self, index: int) -> Seq<Seq<char>>
        recommends
            self.has_row(index),
    {
        self.rows[index - 1]
    }

    /// The field of row `row` in column `col`.
    pub open spec fn field(self, row: int, col: int) -> Seq<char>
        recommends
            self.has_row(row),
            1 <= col <= self.row(row).len(),
    {
        self.rows[row - 1][col - 1]
    }

    /// Whether `(row, col)` names a field that can be modified: the row
    /// exists, the column lies within the column count, and the row is long
    /// enough to have a field there.
    pub open spec fn has_field(self, row: int, col: int) -> bool {
        &&& self.has_row(row)
        &&& 1 <= col <= self.column_count
        &&& col <= self.rows[row - 1].len()
    }

    /// Whether every row has exactly `column_count` fields.
    pub open spec fn is_rectangular(self) -> bool {
        forall|i: int| 0 <= i < self.rows.len() ==> (#[trigger] self.rows[i]).len() == self.column_count
    }

    /// The grid without row `index`; the grid itself where there is no such
    /// row.
    pub open spec fn delete_row(self, index: int) -> Grid {
        if self.has_row(index) {
            Grid { rows: self.rows.remove(index - 1), column_count: self.column_count }
        } else {
            self
        }
    }

    /// The grid with `value` in place of the field at `(row, col)`; the grid
    /// itself where there is no such field.
    pub open spec fn modify_field(self, row: int, col: int, value: Seq<char>) -> Grid {
        if self.has_field(row, col) {
            Grid {
                rows: self.rows.update(row - 1, self.rows[row - 1].update(col - 1, value)),
                column_count: self.column_count,
            }
        } else {
            self
        }
    }

    /// The rows whose index lies in both `start..=end` and `1..=rows.len()`,
    /// in order.
    pub open spec fn page(self, start: int, end: int) -> Seq<Seq<Seq<char>>> {
        let first = if start < 1 { 1 } else { start };
        let last = if end > self.rows.len() { self.rows.len() as int } else { end };
        if first <= last {
            self.rows.subrange(first - 1, last)
        } else {
            Seq::empty()
        }
    }

    /// Every row as it is shown.
    pub open spec fn display(self) -> Seq<Seq<char>> {
        self.rows.map_values(|row: Seq<Seq<char>>| rendered_row(row))
    }

    /// The rows of `page(start, end)` as they are shown.
    pub open spec fn paginate(self, start: int, end: int) -> Seq<Seq<char>> {
        self.page(start, end).map_values(|row: Seq<Seq<char>>| rendered_row(row))
    }
}

/// Deleting a row that exists leaves one row fewer: the rows before it stay
/// where they are, and each row after it moves up by one. The column count
/// is kept.
pub proof fn lemma_delete_row_shrinks_and_shifts(grid: Grid, index: int)
    requires
        grid.has_row(index),
    ensures
        grid.delete_row(index).rows.len() == grid.rows.len() - 1,
        grid.delete_row(index).column_count == grid.column_count,
        forall|i: int| 1 <= i < index ==> grid.delete_row(index).row(i) == #[trigger] grid.row(i),
        forall|i: int|
            index < i <= grid.rows.len() ==> grid.delete_row(index).row(i - 1) == #[trigger] grid.row(
                i,
            ),
{
}

/// Deleting a row that does not exist changes nothing; in particular not
/// for the index 0 and not for the index just after the last row.
pub proof fn lemma_delete_row_out_of_range(grid: Grid, index: int)
    ensures
        !grid.has_row(index) ==> grid.delete_row(index) == grid,
        grid.delete_row(0) == grid,
        grid.delete_row(grid.rows.len() as int + 1) == grid,
{
}

/// Modifying a field that exists changes that field and nothing else: the
/// column count, the number of rows, the length of every row and every
/// other field stay as they were.
pub proof fn lemma_modify_field_is_local(grid: Grid, row: int, col: int, value: Seq<char>)
    requires
        grid.has_field(row, col),
    ensures
        grid.modify_field(row, col, value).field(row, col) == value,
        grid.modify_field(row, col, value).column_count == grid.column_count,
        grid.modify_field(row, col, value).rows.len() == grid.rows.len(),
        forall|i: int|
            grid.has_row(i) ==> grid.modify_field(row, col, value).row(i).len() == (
            #[trigger] grid.row(i)).len(),
        forall|i: int, j: int|
            grid.has_row(i) && 1 <= j <= grid.row(i).len() && (i != row || j != col)
                ==> grid.modify_field(row, col, value).field(i, j) == #[trigger] grid.field(i, j),
{
}

/// Modifying a field that does not exist changes nothing.
pub proof fn lemma_modify_field_out_of_range(grid: Grid, row: int, col: int, value: Seq<char>)
    requires
        !grid.has_field(row, col),
    ensures
        grid.modify_field(row, col, value) == grid,
{
}

/// A page whose end lies before its start is empty.
pub proof fn lemma_paginate_backwards_is_empty(grid: Grid, start: int, end: int)
    requires
        end < start,
    ensures
        grid.paginate(start, end) == Seq::<Seq<char>>::empty(),
{
    assert(grid.paginate(start, end) =~= Seq::<Seq<char>>::empty());
}

/// The page from the first row to the last shows what `display` shows.
pub proof fn lemma_paginate_all_is_display(grid: Grid)
    ensures
        grid.paginate(1, grid.rows.len() as int) == grid.display(),
{
    assert(grid.page(1, grid.rows.len() as int) =~= grid.rows);
}

/// A page holds the rows that lie in both ranges, one after the other:
/// from the later of `start` and 1 to the earlier of `end` and the last row.
pub proof fn lemma_page_rows(grid: Grid, start: int, end: int)
    ensures
        ({
            let first = if start < 1 { 1 } else { start };
            let last = if end > grid.rows.len() { grid.rows.len() as int } else { end };
            &&& grid.paginate(start, end).len() == grid.page(start, end).len()
            &&& grid.page(start, end).len() == if first <= last { last - first + 1 } else { 0 }
            &&& forall|i: int|
                first <= i <= last ==> grid.page(start, end)[i - first] == #[trigger] grid.row(i)
            &&& forall|i: int|
                first <= i <= last ==> grid.paginate(start, end)[i - first] == rendered_row(
                    #[trigger] grid.row(i),
                )
        }),
{
}

} // verus!
