//! Rows of the table.

use vstd::prelude::*;
use crate::text::string_views;

verus! {

/// A row of the table: the words of its first column, the entries of its
/// second, and its third column as it stands.
pub type Row = (Vec<String>, Vec<String>, String);

/// A row as mathematical sequences.
pub type RowView = (Seq<Seq<char>>, Seq<Seq<char>>, Seq<char>);

/// The view of a row.
pub open spec fn row_view(row: Row) -> RowView {
    (string_views(row.0@), string_views(row.1@), row.2@)
}

/// The views of rows.
pub open spec fn rows_view(rows: Seq<Row>) -> Seq<RowView> {
    rows.map_values(|row: Row| row_view(row))
}

/// Whether `row` has `first` among the words of its first column and `second`
/// among the entries of its second.
pub open spec fn is_pair_row(row: RowView, first: Seq<char>, second: Seq<char>) -> bool {
    row.0.contains(first) && row.1.contains(second)
}

/// Whether row number `index`, counted from 1, is a row of `rows` that has the
/// pair.
pub open spec fn is_pair_row_number(
    rows: Seq<RowView>,
    first: Seq<char>,
    second: Seq<char>,
    index: int,
) -> bool {
    1 <= index <= rows.len() && is_pair_row(rows[index - 1], first, second)
}

/// The rows with their two word columns exchanged.
pub open spec fn swapped(rows: Seq<RowView>) -> Seq<RowView> {
    rows.map_values(|row: RowView| (row.1, row.0, row.2))
}

/// The third columns of the rows that have the pair, in the order of the rows.
pub open spec fn pair_numbers(rows: Seq<RowView>, first: Seq<char>, second: Seq<char>) -> Seq<
    Seq<char>,
> {
    rows.filter(|row: RowView| is_pair_row(row, first, second)).map_values(|row: RowView| row.2)
}

} // verus!
