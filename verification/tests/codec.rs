use csv_table::codec::{parse, serialize};
use csv_table::table::CSVData;

fn grid(rows: &[&[&str]]) -> Vec<Vec<String>> {
    rows.iter().map(|row| row.iter().map(|field| field.to_string()).collect()).collect()
}

fn read_with_std(contents: &str) -> Vec<Vec<String>> {
    contents
        .lines()
        .map(|line| line.split(',').map(|field| field.trim().to_string()).collect())
        .collect()
}

#[test]
fn parse_reads_rows_and_fields() {
    let table = parse("a,b,c\nd,e,f");
    assert_eq!(table.rows(), &grid(&[&["a", "b", "c"], &["d", "e", "f"]]));
    assert_eq!(table.row_count(), 2);
    assert_eq!(table.column_count(), 3);
}

#[test]
fn parse_of_empty_text_has_no_rows() {
    let table = parse("");
    assert_eq!(table.row_count(), 0);
    assert_eq!(table.column_count(), 0);
    assert!(table.rows().is_empty());
}

#[test]
fn parse_ignores_one_final_line_break() {
    let with = parse("a,b\nc,d\n");
    let without = parse("a,b\nc,d");
    assert_eq!(with.rows(), without.rows());
    assert_eq!(with.row_count(), 2);
}

#[test]
fn parse_keeps_empty_lines_as_rows_of_one_empty_field() {
    let table = parse("a\n\nb\n\n");
    assert_eq!(table.rows(), &grid(&[&["a"], &[""], &["b"], &[""]]));
    let only_break = parse("\n");
    assert_eq!(only_break.rows(), &grid(&[&[""]]));
    assert_eq!(only_break.column_count(), 1);
}

#[test]
fn parse_trims_white_space_around_fields() {
    let table = parse("  a ,\tb\t, c d \n\u{a0}e\u{3000},,  ");
    assert_eq!(table.rows(), &grid(&[&["a", "b", "c d"], &["e", "", ""]]));
}

#[test]
fn parse_accepts_carriage_return_line_feed() {
    let table = parse("a,b\r\nc,d\r\n");
    assert_eq!(table.rows(), &grid(&[&["a", "b"], &["c", "d"]]));
    let bare = parse("a\rb,c\r");
    assert_eq!(bare.rows(), &grid(&[&["a\rb", "c"]]));
}

#[test]
fn parse_tolerates_ragged_rows() {
    let table = parse("a,b,c\nd\ne,f,g,h");
    assert_eq!(table.rows(), &grid(&[&["a", "b", "c"], &["d"], &["e", "f", "g", "h"]]));
    assert_eq!(table.column_count(), 3);
    assert_eq!(table.row_count(), 3);
}

#[test]
fn parse_keeps_characters_outside_ascii() {
    let table = parse("né,日本語\nü , ß");
    assert_eq!(table.rows(), &grid(&[&["né", "日本語"], &["ü", "ß"]]));
}

#[test]
fn parse_agrees_with_the_standard_library() {
    let samples = [
        "",
        "\n",
        "\n\n",
        "a",
        "a\n",
        "a,b,c\nd,e,f",
        " a , b \r\n c,d\r\n",
        ",",
        ",,\n,",
        "a\r",
        "\r\n\r\n",
        "x\u{2003},\u{2028}y\u{85}\n\u{1680}z",
        "one, two words ,three\n\n  \nlast",
        "a\n\rb\n",
    ];
    for sample in samples {
        assert_eq!(parse(sample).rows(), &read_with_std(sample), "sample {:?}", sample);
    }
}

#[test]
fn serialize_joins_fields_and_rows() {
    let table = CSVData::new(grid(&[&["a", "b", "c"], &["d", "e", "f"]]));
    assert_eq!(serialize(&table), "a,b,c\nd,e,f");
}

#[test]
fn serialize_of_empty_table_is_empty() {
    assert_eq!(serialize(&CSVData::new(Vec::new())), "");
}

#[test]
fn serialize_writes_no_final_line_break() {
    let table = parse("a,b\nc,d\n");
    let text = serialize(&table);
    assert_eq!(text, "a,b\nc,d");
    assert!(!text.ends_with('\n'));
}

#[test]
fn serialize_places_commas_by_column_count() {
    let table = CSVData::new(grid(&[&["a", "b", "c"], &["d"], &["e", "f"], &["g", "h", "i", "j"]]));
    assert_eq!(table.column_count(), 3);
    assert_eq!(serialize(&table), "a,b,c\nd,\ne,f,\ng,h,ij");
}

#[test]
fn serialize_without_columns_writes_no_commas() {
    let mut table = CSVData::new(grid(&[&[], &["a", "b"]]));
    assert_eq!(table.column_count(), 0);
    assert_eq!(serialize(&table), "\nab");
    assert_eq!(table.delete_row(1), Ok(()));
    assert_eq!(serialize(&table), "ab");
}

#[test]
fn serialize_writes_fields_verbatim() {
    let table = CSVData::new(grid(&[&[" a ", "b,c"], &["d\ne", ""]]));
    assert_eq!(serialize(&table), " a ,b,c\nd\ne,");
}

#[test]
fn modify_then_save_scenario() {
    let mut table = parse("a,b,c\nd,e,f");
    assert_eq!(table.rows(), &grid(&[&["a", "b", "c"], &["d", "e", "f"]]));
    assert_eq!(table.modify_field(2, 1, "x".to_string()), Ok(()));
    assert_eq!(serialize(&table), "a,b,c\nx,e,f");
}

#[test]
fn delete_after_load_scenario() {
    let mut table = parse("a,b,c\nd,e,f");
    assert_eq!(table.delete_row(1), Ok(()));
    assert_eq!(table.row_count(), 1);
    assert_eq!(table.rows(), &grid(&[&["d", "e", "f"]]));
}

#[test]
fn round_trip_keeps_a_rectangular_table() {
    let samples = [
        "a,b,c\nd,e,f",
        "a,b,c\nd,e,f\n",
        " a , b \r\n c , d \r\n",
        "",
        "x",
        "one,,three\n,,\nseven,eight,",
        "\n\nz",
    ];
    for sample in samples {
        let first = parse(sample);
        let text = serialize(&first);
        let second = parse(&text);
        assert_eq!(second.rows(), first.rows(), "sample {:?}", sample);
        assert_eq!(second.column_count(), first.column_count());
        assert_eq!(second.row_count(), first.row_count());
        assert_eq!(serialize(&second), text);
    }
}

#[test]
fn round_trip_loses_a_final_empty_row() {
    let first = parse("a\n\n");
    assert_eq!(first.rows(), &grid(&[&["a"], &[""]]));
    let second = parse(&serialize(&first));
    assert_eq!(second.rows(), &grid(&[&["a"]]));
}

#[test]
fn round_trip_changes_a_ragged_table() {
    let first = parse("a,b\nc");
    assert_eq!(serialize(&first), "a,b\nc,");
    let second = parse(&serialize(&first));
    assert_eq!(second.rows(), &grid(&[&["a", "b"], &["c", ""]]));
}
