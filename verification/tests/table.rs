use csv_table::codec::parse;
use csv_table::table::{render_row, CSVData, IndexOutOfRange};

fn grid(rows: &[&[&str]]) -> Vec<Vec<String>> {
    rows.iter().map(|row| row.iter().map(|field| field.to_string()).collect()).collect()
}

fn sample() -> CSVData {
    CSVData::new(grid(&[&["a", "b", "c"], &["d", "e", "f"], &["g", "h", "i"], &["j", "k", "l"]]))
}

#[test]
fn new_counts_rows_and_columns() {
    let table = sample();
    assert_eq!(table.row_count(), 4);
    assert_eq!(table.column_count(), 3);
    assert_eq!(table.rows().len(), 4);
}

#[test]
fn new_of_nothing_is_empty() {
    let table = CSVData::new(Vec::new());
    assert_eq!(table.row_count(), 0);
    assert_eq!(table.column_count(), 0);
    assert!(table.display().is_empty());
}

#[test]
fn new_takes_its_width_from_the_first_row() {
    let table = CSVData::new(grid(&[&["a"], &["b", "c", "d"]]));
    assert_eq!(table.column_count(), 1);
    assert_eq!(table.row_count(), 2);
}

#[test]
fn render_row_ends_every_field_with_comma_and_blank() {
    let row: Vec<String> = vec!["a".to_string(), "b".to_string(), "c".to_string()];
    assert_eq!(render_row(&row), "a, b, c, ");
    assert_eq!(render_row(&Vec::new()), "");
    assert_eq!(render_row(&vec![String::new()]), ", ");
}

#[test]
fn display_shows_every_row() {
    let table = sample();
    assert_eq!(table.display(), vec!["a, b, c, ", "d, e, f, ", "g, h, i, ", "j, k, l, "]);
}

#[test]
fn display_is_recomputed_after_an_edit() {
    let mut table = sample();
    let before = table.display();
    assert_eq!(table.display(), before);
    assert_eq!(table.modify_field(1, 2, "z".to_string()), Ok(()));
    assert_eq!(table.display()[0], "a, z, c, ");
}

#[test]
fn paginate_shows_the_rows_of_the_range() {
    let table = sample();
    assert_eq!(table.paginate(2, 3), vec!["d, e, f, ", "g, h, i, "]);
    assert_eq!(table.paginate(4, 4), vec!["j, k, l, "]);
}

#[test]
fn paginate_backwards_is_empty() {
    let table = sample();
    assert!(table.paginate(3, 2).is_empty());
    assert!(table.paginate(1, 0).is_empty());
    assert!(table.paginate(usize::MAX, 1).is_empty());
}

#[test]
fn paginate_over_everything_is_display() {
    let table = sample();
    assert_eq!(table.paginate(1, table.row_count()), table.display());
    let empty = CSVData::new(Vec::new());
    assert_eq!(empty.paginate(1, empty.row_count()), empty.display());
}

#[test]
fn paginate_passes_over_indices_without_a_row() {
    let table = sample();
    assert_eq!(table.paginate(0, 2), vec!["a, b, c, ", "d, e, f, "]);
    assert_eq!(table.paginate(3, 100), vec!["g, h, i, ", "j, k, l, "]);
    assert_eq!(table.paginate(0, usize::MAX), table.display());
    assert!(table.paginate(5, 9).is_empty());
    assert!(table.paginate(0, 0).is_empty());
}

#[test]
fn delete_row_shrinks_and_shifts() {
    let mut table = sample();
    assert_eq!(table.delete_row(2), Ok(()));
    assert_eq!(table.row_count(), 3);
    assert_eq!(table.column_count(), 3);
    assert_eq!(table.rows(), &grid(&[&["a", "b", "c"], &["g", "h", "i"], &["j", "k", "l"]]));
}

#[test]
fn delete_row_takes_first_and_last() {
    let mut table = sample();
    assert_eq!(table.delete_row(4), Ok(()));
    assert_eq!(table.delete_row(1), Ok(()));
    assert_eq!(table.rows(), &grid(&[&["d", "e", "f"], &["g", "h", "i"]]));
    assert_eq!(table.row_count(), 2);
}

#[test]
fn delete_row_out_of_range_changes_nothing() {
    let mut table = sample();
    let before = table.rows().clone();
    assert_eq!(table.delete_row(0), Err(IndexOutOfRange));
    assert_eq!(table.delete_row(5), Err(IndexOutOfRange));
    assert_eq!(table.delete_row(usize::MAX), Err(IndexOutOfRange));
    assert_eq!(table.rows(), &before);
    assert_eq!(table.row_count(), 4);
    assert_eq!(table.column_count(), 3);
}

#[test]
fn delete_row_on_empty_table_changes_nothing() {
    let mut table = CSVData::new(Vec::new());
    assert_eq!(table.delete_row(1), Err(IndexOutOfRange));
    assert_eq!(table.delete_row(0), Err(IndexOutOfRange));
    assert_eq!(table.row_count(), 0);
}

#[test]
fn delete_row_keeps_the_column_count() {
    let mut table = CSVData::new(grid(&[&["a", "b"], &["c"]]));
    assert_eq!(table.delete_row(1), Ok(()));
    assert_eq!(table.column_count(), 2);
    assert_eq!(table.delete_row(1), Ok(()));
    assert_eq!(table.column_count(), 2);
    assert_eq!(table.row_count(), 0);
}

#[test]
fn modify_field_changes_one_field() {
    let mut table = sample();
    assert_eq!(table.modify_field(3, 2, "new value".to_string()), Ok(()));
    assert_eq!(
        table.rows(),
        &grid(&[&["a", "b", "c"], &["d", "e", "f"], &["g", "new value", "i"], &["j", "k", "l"]])
    );
    assert_eq!(table.row_count(), 4);
    assert_eq!(table.column_count(), 3);
}

#[test]
fn modify_field_stores_the_value_verbatim() {
    let mut table = sample();
    assert_eq!(table.modify_field(1, 1, " x, y ".to_string()), Ok(()));
    assert_eq!(table.rows()[0][0], " x, y ");
}

#[test]
fn modify_field_out_of_range_changes_nothing() {
    let mut table = sample();
    let before = table.rows().clone();
    assert_eq!(table.modify_field(0, 1, "x".to_string()), Err(IndexOutOfRange));
    assert_eq!(table.modify_field(5, 1, "x".to_string()), Err(IndexOutOfRange));
    assert_eq!(table.modify_field(1, 0, "x".to_string()), Err(IndexOutOfRange));
    assert_eq!(table.modify_field(1, 4, "x".to_string()), Err(IndexOutOfRange));
    assert_eq!(table.modify_field(usize::MAX, usize::MAX, "x".to_string()), Err(IndexOutOfRange));
    assert_eq!(table.rows(), &before);
}

#[test]
fn modify_field_needs_the_field_in_its_row() {
    let mut table = CSVData::new(grid(&[&["a", "b", "c"], &["d"]]));
    assert_eq!(table.modify_field(2, 2, "x".to_string()), Err(IndexOutOfRange));
    assert_eq!(table.modify_field(2, 1, "x".to_string()), Ok(()));
    assert_eq!(table.rows(), &grid(&[&["a", "b", "c"], &["x"]]));
}

#[test]
fn modify_field_stays_within_the_column_count() {
    let mut table = CSVData::new(grid(&[&["a"], &["b", "c"]]));
    assert_eq!(table.modify_field(2, 2, "x".to_string()), Err(IndexOutOfRange));
    assert_eq!(table.modify_field(2, 1, "x".to_string()), Ok(()));
    assert_eq!(table.rows(), &grid(&[&["a"], &["x", "c"]]));
}

#[test]
fn row_count_follows_the_rows() {
    let mut table = parse("a\nb\nc");
    assert_eq!(table.row_count(), table.rows().len());
    assert_eq!(table.delete_row(3), Ok(()));
    assert_eq!(table.row_count(), table.rows().len());
    assert_eq!(table.delete_row(7), Err(IndexOutOfRange));
    assert_eq!(table.row_count(), table.rows().len());
    assert_eq!(table.row_count(), 2);
}

#[test]
fn is_rectangular_compares_rows_with_the_column_count() {
    assert!(sample().is_rectangular());
    assert!(CSVData::new(Vec::new()).is_rectangular());
    assert!(!CSVData::new(grid(&[&["a", "b"], &["c"]])).is_rectangular());
    assert!(!CSVData::new(grid(&[&["a"], &["b", "c"]])).is_rectangular());
    let mut table = CSVData::new(grid(&[&["a", "b"], &["c"]]));
    assert_eq!(table.delete_row(1), Ok(()));
    assert!(!table.is_rectangular());
    assert!(parse("a,b\nc,d\n").is_rectangular());
    assert!(!parse("a,b\nc").is_rectangular());
}
