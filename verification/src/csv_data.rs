//! The table: its rows, and which words of the two word columns go together.

use vstd::prelude::*;
use vstd::string::*;
use crate::autocomplete::SimpleAutocomplete;
use crate::csv_parser::{table_rows, CsvParser};
use crate::table::{
    is_pair_row, is_pair_row_number, pair_numbers, row_view, rows_view, swapped, Row, RowView,
};
use crate::text::{copy_words, string_views};
use crate::numbers::ints;
use crate::selection::strictly_increasing;
use crate::word_index::{
    build_index, indexes, is_word_list, position_of, some_row_has, some_row_pairs, WordIndex,
};

verus! {

/// The parts written one after the other with `sep` between each two.
pub open spec fn joined_by(parts: Seq<Seq<char>>, sep: Seq<char>) -> Seq<char>
    decreases parts.len(),
{
    if parts.len() == 0 {
        Seq::empty()
    } else if parts.len() == 1 {
        parts[0]
    } else {
        joined_by(parts.drop_last(), sep) + sep + parts.last()
    }
}

/// A word column as it is shown: a single word as it is, any other number of
/// words between parentheses with `, ` between them.
pub open spec fn column_text(words: Seq<Seq<char>>) -> Seq<char> {
    if words.len() == 1 {
        words[0]
    } else {
        "("@ + joined_by(words, ", "@) + ")"@
    }
}

/// A row as it is shown.
pub open spec fn row_text(row: RowView) -> Seq<char> {
    column_text(row.0) + " → "@ + column_text(row.1) + " → "@ + row.2
}

/// Whether `word` is one of `words`.
pub fn contains_word(words: &Vec<String>, word: &str) -> (r: bool)
    ensures
        r == string_views(words@).contains(word@),
{
    position_of(words, word).is_some()
}

/// Appends a word column to `out` as it is shown.
fn push_column(out: &mut String, words: &[String])
    ensures
        final(out)@ == old(out)@ + column_text(string_views(words@)),
{
    let ghost ws = string_views(words@);
    if words.len() == 1 {
        out.append(words[0].as_str());
        assert(ws[0] == words@[0]@);
        return ;
    }
    out.append("(");
    let mut i: usize = 0;
    proof {
        assert(ws.take(0) =~= Seq::<Seq<char>>::empty());
        assert(out@ =~= old(out)@ + "("@ + joined_by(ws.take(0), ", "@));
    }
    while i < words.len()
        invariant
            i <= words.len(),
            ws == string_views(words@),
            out@ == old(out)@ + "("@ + joined_by(ws.take(i as int), ", "@),
        decreases words.len() - i,
    {
        let ghost before = out@;
        if i > 0 {
            out.append(", ");
        }
        out.append(words[i].as_str());
        proof {
            let now = ws.take(i + 1);
            assert(now.drop_last() =~= ws.take(i as int));
            assert(now.last() == words@[i as int]@);
            if i == 0 {
                assert(joined_by(now, ", "@) =~= now[0]);
                assert(joined_by(ws.take(0), ", "@) =~= Seq::<char>::empty());
                assert(out@ =~= old(out)@ + "("@ + joined_by(now, ", "@));
            } else {
                assert(out@ =~= old(out)@ + "("@ + joined_by(now, ", "@));
            }
        }
        i += 1;
    }
    out.append(")");
    proof {
        assert(ws.take(i as int) =~= ws);
        assert(final(out)@ =~= old(out)@ + column_text(ws));
    }
}

/// A row as it is shown: its two word columns and its third column, with
/// arrows between them.
pub fn format_csv_row(first_cols: &[String], second_cols: &[String], numbers: &str) -> (out:
    String)
    ensures
        out@ == row_text((string_views(first_cols@), string_views(second_cols@), numbers@)),
{
    let mut out = String::new();
    push_column(&mut out, first_cols);
    out.append(" → ");
    push_column(&mut out, second_cols);
    out.append(" → ");
    out.append(numbers);
    proof {
        let row = (string_views(first_cols@), string_views(second_cols@), numbers@);
        assert(out@ =~= row_text(row));
    }
    out
}

/// The table, read once: its rows, and for either word column which words of
/// the other go with each of its words.
pub struct CsvData {
    /// For each word of a first column the entries of the second columns of
    /// the rows that have the word.
    pub first_to_seconds_map: WordIndex,
    /// The words of the first columns, in order.
    pub all_first_columns: Vec<String>,
    /// The rows, as they stand in the table.
    pub raw_data: Vec<Row>,
    /// For each entry of a second column the words of the first columns of
    /// the rows that have the entry.
    pub second_to_firsts_map: WordIndex,
    /// The entries of the second columns, in order.
    pub all_second_columns: Vec<String>,
}

/// The rows with their two word columns exchanged.
fn swap_columns(rows: &Vec<Row>) -> (out: Vec<Row>)
    ensures
        rows_view(out@) == swapped(rows_view(rows@)),
{
    let mut out: Vec<Row> = Vec::new();
    let mut i: usize = 0;
    while i < rows.len()
        invariant
            i <= rows.len(),
            out@.len() == i,
            forall|k: int|
                0 <= k < i ==> row_view(#[trigger] out@[k]) == (
                    row_view(rows@[k]).1,
                    row_view(rows@[k]).0,
                    row_view(rows@[k]).2,
                ),
        decreases rows.len() - i,
    {
        let row = &rows[i];
        out.push((copy_words(&row.1), copy_words(&row.0), row.2.clone()));
        i += 1;
    }
    assert(rows_view(out@) =~= swapped(rows_view(rows@)));
    out
}

impl CsvData {
    /// The rows as mathematical sequences.
    pub open spec fn rows(&self) -> Seq<RowView> {
        rows_view(self.raw_data@)
    }

    /// Whether the two indexes and the two word lists are those of the rows.
    pub open spec fn wf(&self) -> bool {
        &&& indexes(self.first_to_seconds_map, self.rows())
        &&& string_views(self.all_first_columns@) == self.first_to_seconds_map.key_words()
        &&& indexes(self.second_to_firsts_map, swapped(self.rows()))
        &&& string_views(self.all_second_columns@) == self.second_to_firsts_map.key_words()
    }

    /// Reads the table `text`, one row a line.
    pub fn new(text: &str) -> (r: Self)
        ensures
            r.wf(),
            r.rows() == table_rows(text@),
            is_word_list(string_views(r.all_first_columns@)),
            is_word_list(string_views(r.all_second_columns@)),
    {
        let (first_to_seconds_map, all_first_columns, raw_data) = CsvParser::load_all_data(text);
        let second_to_firsts_map = build_index(&swap_columns(&raw_data));
        let all_second_columns = copy_words(second_to_firsts_map.keys());
        proof {
            second_to_firsts_map.lemma_wf_word_lists();
        }
        Self {
            first_to_seconds_map,
            all_first_columns,
            raw_data,
            second_to_firsts_map,
            all_second_columns,
        }
    }

    /// Suggestions from the words of the first columns.
    pub fn get_first_level_autocomplete(&self) -> (r: SimpleAutocomplete)
        ensures
            r.items() == string_views(self.all_first_columns@),
    {
        SimpleAutocomplete::new(copy_words(&self.all_first_columns))
    }

    /// Suggestions from the entries that go with `first`, if `first` is a word
    /// of a first column.
    pub fn get_second_level_autocomplete(&self, first: &str) -> (r: Option<SimpleAutocomplete>)
        requires
            self.wf(),
        ensures
            r is Some <==> some_row_has(self.rows(), first@),
            r matches Some(auto) ==> is_word_list(auto.items()) && forall|s: Seq<char>|
                auto.items().contains(s) <==> some_row_pairs(self.rows(), first@, s),
    {
        match self.get_seconds_for_first(first) {
            Some(seconds) => Some(SimpleAutocomplete::new(copy_words(seconds))),
            None => None,
        }
    }

    /// The entries that go with `first`, in order, if `first` is a word of a
    /// first column.
    pub fn get_seconds_for_first(&self, first: &str) -> (r: Option<&Vec<String>>)
        requires
            self.wf(),
        ensures
            r is Some <==> some_row_has(self.rows(), first@),
            r matches Some(seconds) ==> is_word_list(string_views(seconds@)) && forall|
                s: Seq<char>,
            |
                string_views(seconds@).contains(s) <==> some_row_pairs(self.rows(), first@, s),
    {
        let r = self.first_to_seconds_map.get(first);
        proof {
            assert(self.first_to_seconds_map.has_key(first@) <==> some_row_has(
                self.rows(),
                first@,
            ));
            if let Some(seconds) = r {
                assert forall|s: Seq<char>|
                    string_views(seconds@).contains(s) <==> some_row_pairs(
                        self.rows(),
                        first@,
                        s,
                    ) by {
                    assert(self.first_to_seconds_map.has_pair(first@, s) <==> some_row_pairs(
                        self.rows(),
                        first@,
                        s,
                    ));
                }
            }
        }
        r
    }

    /// The third columns of the rows that have the pair, in the order of the
    /// rows.
    pub fn find_numbers_for_pair(&self, first: &str, second: &str) -> (results: Vec<String>)
        ensures
            string_views(results@) == pair_numbers(self.rows(), first@, second@),
    {
        let ghost rv = self.rows();
        let ghost pred = |row: RowView| is_pair_row(row, first@, second@);
        let ghost third = |row: RowView| row.2;
        let mut results: Vec<String> = Vec::new();
        let mut i: usize = 0;
        proof {
            reveal(Seq::filter);
            assert(rv.take(0).filter(pred) =~= Seq::<RowView>::empty());
            assert(string_views(results@) =~= rv.take(0).filter(pred).map_values(third));
        }
        while i < self.raw_data.len()
            invariant
                i <= self.raw_data.len(),
                rv == rows_view(self.raw_data@),
                pred == |row: RowView| is_pair_row(row, first@, second@),
                third == |row: RowView| row.2,
                string_views(results@) == rv.take(i as int).filter(pred).map_values(third),
            decreases self.raw_data.len() - i,
        {
            let row = &self.raw_data[i];
            proof {
                reveal(Seq::filter);
                assert(rv.take(i + 1).drop_last() =~= rv.take(i as int));
                assert(rv.take(i + 1).last() == row_view(*row));
            }
            if contains_word(&row.0, first) && contains_word(&row.1, second) {
                let ghost before = results@;
                results.push(row.2.clone());
                proof {
                    let hits = rv.take(i as int).filter(pred);
                    assert(hits.push(row_view(*row)).map_values(third) =~= hits.map_values(
                        third,
                    ).push(row.2@));
                    assert(string_views(results@) =~= string_views(before).push(row.2@));
                }
            }
            i += 1;
        }
        proof {
            assert(rv.take(i as int) =~= rv);
        }
        results
    }
    /// The entries that go with `first`, in order; none where `first` is no
    /// word of a first column.
    pub fn find_seconds_for_first(&self, first: &str) -> (seconds: Vec<String>)
        requires
            self.wf(),
        ensures
            is_word_list(string_views(seconds@)),
            forall|s: Seq<char>|
                string_views(seconds@).contains(s) <==> some_row_pairs(self.rows(), first@, s),
    {
        match self.get_seconds_for_first(first) {
            Some(seconds) => copy_words(seconds),
            None => {
                let seconds: Vec<String> = Vec::new();
                proof {
                    assert forall|s: Seq<char>| !some_row_pairs(self.rows(), first@, s) by {
                        if some_row_pairs(self.rows(), first@, s) {
                            let i = choose|i: int|
                                0 <= i < self.rows().len() && is_pair_row(
                                    #[trigger] self.rows()[i],
                                    first@,
                                    s,
                                );
                            assert(self.rows()[i].0.contains(first@));
                        }
                    }
                }
                seconds
            },
        }
    }

    /// The words of the first columns that go with the entry `second`, in
    /// order; none where `second` is no entry of a second column.
    pub fn find_firsts_for_second(&self, second: &str) -> (firsts: Vec<String>)
        requires
            self.wf(),
        ensures
            is_word_list(string_views(firsts@)),
            forall|f: Seq<char>|
                string_views(firsts@).contains(f) <==> some_row_pairs(self.rows(), f, second@),
    {
        let firsts = match self.second_to_firsts_map.get(second) {
            Some(firsts) => copy_words(firsts),
            None => Vec::new(),
        };
        proof {
            let sw = swapped(self.rows());
            assert forall|f: Seq<char>|
                string_views(firsts@).contains(f) <==> some_row_pairs(self.rows(), f, second@) by {
                lemma_swapped_pairs(self.rows(), f, second@);
                assert(self.second_to_firsts_map.has_pair(second@, f) <==> some_row_pairs(
                    sw,
                    second@,
                    f,
                ));
                assert(self.second_to_firsts_map.has_key(second@) <==> some_row_has(sw, second@));
                if some_row_pairs(sw, second@, f) {
                    let i = choose|i: int|
                        0 <= i < sw.len() && is_pair_row(#[trigger] sw[i], second@, f);
                    assert(sw[i].0.contains(second@));
                }
            }
        }
        firsts
    }
}

/// A pair of the rows is the exchanged pair of the rows with their columns
/// exchanged.
proof fn lemma_swapped_pairs(rows: Seq<RowView>, first: Seq<char>, second: Seq<char>)
    ensures
        some_row_pairs(swapped(rows), second, first) <==> some_row_pairs(rows, first, second),
{
    let sw = swapped(rows);
    if some_row_pairs(sw, second, first) {
        let i = choose|i: int| 0 <= i < sw.len() && is_pair_row(#[trigger] sw[i], second, first);
        assert(is_pair_row(rows[i], first, second));
    }
    if some_row_pairs(rows, first, second) {
        let i = choose|i: int| 0 <= i < rows.len()
            && is_pair_row(#[trigger] rows[i], first, second);
        assert(is_pair_row(sw[i], second, first));
    }
}

/// The numbers, counted from 1, of the rows that have the pair, ascending.
///
/// Row numbers are `i64`; rows beyond the greatest `i64`, which no table in
/// memory has, would be left out.
pub fn get_all_row_numbers_for_pair(first: &str, second: &str, csv_data: &CsvData) -> (row_numbers:
    Vec<i64>)
    ensures
        strictly_increasing(ints(row_numbers@)),
        forall|x: int|
            ints(row_numbers@).contains(x) <==> x <= i64::MAX && is_pair_row_number(
                csv_data.rows(),
                first@,
                second@,
                x,
            ),
{
    let ghost rv = csv_data.rows();
    let mut row_numbers: Vec<i64> = Vec::new();
    let mut i: usize = 0;
    let mut number: i64 = 0;
    while i < csv_data.raw_data.len() && number < i64::MAX
        invariant
            i <= csv_data.raw_data.len(),
            number == i,
            rv == rows_view(csv_data.raw_data@),
            strictly_increasing(ints(row_numbers@)),
            forall|k: int| 0 <= k < row_numbers@.len() ==> 1 <= #[trigger] row_numbers@[k] <= i,
            forall|x: int|
                ints(row_numbers@).contains(x) <==> x <= i && is_pair_row_number(
                    rv,
                    first@,
                    second@,
                    x,
                ),
        decreases csv_data.raw_data.len() - i,
    {
        let row = &csv_data.raw_data[i];
        assert(rv[i as int] == row_view(*row));
        number += 1;
        let ghost before = row_numbers@;
        if contains_word(&row.0, first) && contains_word(&row.1, second) {
            row_numbers.push(number);
            proof {
                assert(ints(row_numbers@) =~= ints(before).push(number as int));
                assert forall|a: int, b: int|
                    0 <= a < b < row_numbers@.len() implies ints(row_numbers@)[a] < ints(
                    row_numbers@,
                )[b] by {
                    if b == before.len() {
                        assert(before[a] <= i);
                    } else {
                        assert(ints(before)[a] < ints(before)[b]);
                    }
                }
                assert forall|x: int|
                    ints(row_numbers@).contains(x) <==> x <= i + 1 && is_pair_row_number(
                        rv,
                        first@,
                        second@,
                        x,
                    ) by {
                    if ints(before).contains(x) {
                        let k = choose|k: int| 0 <= k < before.len() && ints(before)[k] == x;
                        assert(ints(row_numbers@)[k] == x);
                    }
                    if x == i + 1 {
                        assert(ints(row_numbers@)[before.len() as int] == x);
                    }
                    if ints(row_numbers@).contains(x) {
                        let k = choose|k: int|
                            0 <= k < row_numbers@.len() && ints(row_numbers@)[k] == x;
                        if k < before.len() {
                            assert(ints(before)[k] == x);
                            assert(ints(before).contains(x));
                        }
                    }
                }
            }
        }
        i += 1;
    }
    row_numbers
}

/// How many of `zeilen_numbers` are the number of a row that has the pair.
/// A number that stands twice counts twice.
pub fn count_matching_rows(
    first: &str,
    second: &str,
    zeilen_numbers: &[i64],
    csv_data: &CsvData,
) -> (count: usize)
    ensures
        count == zeilen_numbers@.filter(
            |x: i64| is_pair_row_number(csv_data.rows(), first@, second@, x as int),
        ).len(),
{
    let ghost rv = csv_data.rows();
    let ghost pred = |x: i64| is_pair_row_number(csv_data.rows(), first@, second@, x as int);
    let mut count: usize = 0;
    let mut i: usize = 0;
    proof {
        reveal(Seq::filter);
        assert(zeilen_numbers@.take(0).filter(pred) =~= Seq::<i64>::empty());
    }
    while i < zeilen_numbers.len()
        invariant
            i <= zeilen_numbers.len(),
            rv == rows_view(csv_data.raw_data@),
            pred == |x: i64| is_pair_row_number(csv_data.rows(), first@, second@, x as int),
            count == zeilen_numbers@.take(i as int).filter(pred).len(),
            count <= i,
        decreases zeilen_numbers.len() - i,
    {
        let x = zeilen_numbers[i];
        proof {
            reveal(Seq::filter);
            assert(zeilen_numbers@.take(i + 1).drop_last() =~= zeilen_numbers@.take(i as int));
            assert(zeilen_numbers@.take(i + 1).last() == x);
        }
        if x >= 1 && (x as u64) <= (csv_data.raw_data.len() as u64) {
            let row = &csv_data.raw_data[(x - 1) as usize];
            assert(rv[x - 1] == row_view(*row));
            if contains_word(&row.0, first) && contains_word(&row.1, second) {
                count += 1;
            }
        }
        i += 1;
    }
    proof {
        assert(zeilen_numbers@.take(i as int) =~= zeilen_numbers@);
    }
    count
}

} // verus!
