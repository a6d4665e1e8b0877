//! An in-memory table of text fields that is read from and written to
//! comma-separated text, with verified editing and paging operations.

pub mod codec;
pub mod grid;
pub mod round_trip;
pub mod std_specs;
pub mod table;
pub mod text;
