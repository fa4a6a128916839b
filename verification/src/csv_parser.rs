//! Reading the two word columns of a table row.
//!
//! A row of the table has three columns, separated by semicolons. The first
//! holds one word, or several in quotes between a pair of parentheses. The
//! second holds entries separated by commas, where a comma between
//! parentheses belongs to its entry. The third is kept as it is.

use vstd::prelude::*;
use vstd::string::*;
use crate::table::{row_view, rows_view, Row, RowView};
use crate::text::{
    chars_of, copy_words, split_bounds, split_on, string_of, string_views, trim_bounds, trimmed,
};
use crate::word_index::{build_index, indexes, is_word_list, WordIndex};

verus! {

/// Where a scan of a column stands: the words that are complete, the word
/// that is being read, and a mark.
pub type Scan<M> = (Seq<Seq<char>>, Seq<char>, M);

/// The words of `scan` with the word being read added, whitespace around it
/// aside, unless `skip` says to leave it out.
pub open spec fn closed_word<M>(scan: Scan<M>, skip: bool) -> Seq<Seq<char>> {
    if skip {
        scan.0
    } else {
        scan.0.push(trimmed(scan.1))
    }
}

/// One character of a first column between its parentheses. A quote opens or
/// closes a word; a closing quote and a comma outside quotes end the word
/// being read, if there is one. Outside quotes a space is passed over, and a
/// comma is passed over everywhere.
pub open spec fn first_column_step(scan: Scan<bool>, c: char) -> Scan<bool> {
    let (words, current, quoted) = scan;
    if c == '\'' {
        if quoted && current.len() > 0 {
            (words.push(trimmed(current)), Seq::empty(), false)
        } else {
            (words, current, !quoted)
        }
    } else if c == ',' {
        if !quoted && current.len() > 0 {
            (words.push(trimmed(current)), Seq::empty(), quoted)
        } else {
            scan
        }
    } else if quoted || c != ' ' {
        (words, current.push(c), quoted)
    } else {
        scan
    }
}

/// Where the scan of a first column stands after the characters `s`.
pub open spec fn first_column_scan(s: Seq<char>) -> Scan<bool>
    decreases s.len(),
{
    if s.len() == 0 {
        (Seq::empty(), Seq::empty(), false)
    } else {
        first_column_step(first_column_scan(s.drop_last()), s.last())
    }
}

/// Whether `t` stands between a pair of parentheses.
pub open spec fn in_parentheses(t: Seq<char>) -> bool {
    t.len() >= 2 && t[0] == '(' && t.last() == ')'
}

/// The words of a first column: what stands between the parentheses, read
/// word by word, or the whole column as one word where it has none.
/// Whitespace around the column is set aside.
pub open spec fn first_column_words(text: Seq<char>) -> Seq<Seq<char>> {
    let t = trimmed(text);
    if in_parentheses(t) {
        let scan = first_column_scan(t.subrange(1, t.len() - 1));
        closed_word(scan, scan.1.len() == 0)
    } else {
        seq![t]
    }
}

/// One character of a second column. A comma outside parentheses ends the
/// entry being read, which counts unless it is empty or whitespace only. The
/// mark counts the parentheses that are open; a closing one with none open
/// changes nothing.
pub open spec fn second_column_step(scan: Scan<nat>, c: char) -> Scan<nat> {
    let (words, current, open) = scan;
    if c == '(' {
        (words, current.push(c), open + 1)
    } else if c == ')' {
        (words, current.push(c), if open > 0 {
            (open - 1) as nat
        } else {
            open
        })
    } else if c == ',' && open == 0 {
        (closed_word(scan, trimmed(current).len() == 0), Seq::empty(), open)
    } else {
        (words, current.push(c), open)
    }
}

/// Where the scan of a second column stands after the characters `s`.
pub open spec fn second_column_scan(s: Seq<char>) -> Scan<nat>
    decreases s.len(),
{
    if s.len() == 0 {
        (Seq::empty(), Seq::empty(), 0)
    } else {
        second_column_step(second_column_scan(s.drop_last()), s.last())
    }
}

/// The entries of a second column, whitespace around the column and around
/// each entry aside, empty entries left out.
pub open spec fn second_column_words(text: Seq<char>) -> Seq<Seq<char>> {
    let scan = second_column_scan(trimmed(text));
    closed_word(scan, trimmed(scan.1).len() == 0)
}

/// The open parentheses after `s` are no more than the characters of `s`.
proof fn lemma_second_column_open(s: Seq<char>)
    ensures
        second_column_scan(s).2 <= s.len(),
    decreases s.len(),
{
    if s.len() > 0 {
        lemma_second_column_open(s.drop_last());
    }
}

/// Appends the word `current`, whitespace around it aside, to `words`.
fn push_trimmed(words: &mut Vec<String>, current: &Vec<char>)
    ensures
        string_views(final(words)@) == string_views(old(words)@).push(trimmed(current@)),
{
    let (a, b) = trim_bounds(current, 0, current.len());
    proof {
        assert(current@.subrange(0, current.len() as int) =~= current@);
    }
    let word = string_of(current, a, b);
    words.push(word);
    proof {
        assert(string_views(words@) =~= string_views(old(words)@).push(trimmed(current@)));
    }
}

/// The words of the first column `chars[from..to]`.
pub fn first_column_in(chars: &Vec<char>, from: usize, to: usize) -> (result: Vec<String>)
    requires
        from <= to <= chars.len(),
    ensures
        string_views(result@) == first_column_words(chars@.subrange(from as int, to as int)),
{
    let (a, b) = trim_bounds(chars, from, to);
    let ghost t = chars@.subrange(a as int, b as int);
    let mut result: Vec<String> = Vec::new();
    if b - a >= 2 && chars[a] == '(' && chars[b - 1] == ')' {
        let ghost inner = chars@.subrange(a + 1, b - 1);
        proof {
            assert(t[0] == chars@[a as int]);
            assert(t.last() == chars@[b - 1]);
            assert(inner =~= t.subrange(1, t.len() - 1));
            assert(inner.take(0).len() == 0);
            assert(string_views(result@) =~= Seq::<Seq<char>>::empty());
        }
        let mut current: Vec<char> = Vec::new();
        let mut quoted: bool = false;
        let mut i: usize = a + 1;
        while i < b - 1
            invariant
                a + 1 <= i <= b - 1 < chars.len(),
                inner == chars@.subrange(a + 1, b - 1),
                first_column_scan(inner.take(i - (a + 1))) == (
                    string_views(result@),
                    current@,
                    quoted,
                ),
            decreases b - 1 - i,
        {
            let c = chars[i];
            proof {
                let now = inner.take(i + 1 - (a + 1));
                assert(now.drop_last() =~= inner.take(i - (a + 1)));
                assert(now.last() == c);
            }
            if c == '\'' {
                if quoted && current.len() > 0 {
                    push_trimmed(&mut result, &current);
                    current = Vec::new();
                    quoted = false;
                } else {
                    quoted = !quoted;
                }
            } else if c == ',' {
                if !quoted && current.len() > 0 {
                    push_trimmed(&mut result, &current);
                    current = Vec::new();
                }
            } else if quoted || c != ' ' {
                current.push(c);
            }
            i += 1;
        }
        proof {
            assert(inner.take(b - 1 - (a + 1)) =~= inner);
        }
        if current.len() > 0 {
            push_trimmed(&mut result, &current);
        }
    } else {
        proof {
            assert(!in_parentheses(t)) by {
                if b - a >= 2 {
                    assert(t[0] == chars@[a as int]);
                    assert(t.last() == chars@[b - 1]);
                }
            }
        }
        result.push(string_of(chars, a, b));
        proof {
            assert(string_views(result@) =~= seq![t]);
        }
    }
    result
}

/// The entries of the second column `chars[from..to]`.
pub fn second_column_in(chars: &Vec<char>, from: usize, to: usize) -> (result: Vec<String>)
    requires
        from <= to <= chars.len(),
    ensures
        string_views(result@) == second_column_words(chars@.subrange(from as int, to as int)),
{
    let (a, b) = trim_bounds(chars, from, to);
    let ghost t = chars@.subrange(a as int, b as int);
    proof {
        assert(t.take(0).len() == 0);
    }
    let mut result: Vec<String> = Vec::new();
    let mut current: Vec<char> = Vec::new();
    let mut open: usize = 0;
    let mut i: usize = a;
    proof {
        assert(string_views(result@) =~= Seq::<Seq<char>>::empty());
    }
    while i < b
        invariant
            a <= i <= b <= chars.len(),
            t == chars@.subrange(a as int, b as int),
            second_column_scan(t.take(i - a)) == (string_views(result@), current@, open as nat),
        decreases b - i,
    {
        let c = chars[i];
        proof {
            let now = t.take(i + 1 - a);
            assert(now.drop_last() =~= t.take(i - a));
            assert(now.last() == c);
            lemma_second_column_open(t.take(i - a));
        }
        if c == '(' {
            open += 1;
            current.push(c);
        } else if c == ')' {
            if open > 0 {
                open -= 1;
            }
            current.push(c);
        } else if c == ',' && open == 0 {
            let (wa, wb) = trim_bounds(&current, 0, current.len());
            proof {
                assert(current@.subrange(0, current.len() as int) =~= current@);
            }
            if wa < wb {
                push_trimmed(&mut result, &current);
            }
            current = Vec::new();
        } else {
            current.push(c);
        }
        i += 1;
    }
    proof {
        assert(t.take(b - a) =~= t);
    }
    let (wa, wb) = trim_bounds(&current, 0, current.len());
    proof {
        assert(current@.subrange(0, current.len() as int) =~= current@);
    }
    if wa < wb {
        push_trimmed(&mut result, &current);
    }
    result
}

/// The row that one line of the table holds, whitespace around the line
/// aside. A line holds a row where it has two columns or more, separated by
/// semicolons, and its first column has a word. Of a fourth column and
/// further ones nothing is kept.
pub open spec fn row_of_line(line: Seq<char>) -> Option<RowView> {
    let columns = split_on(trimmed(line), ';');
    if columns.len() < 2 || first_column_words(columns[0]).len() == 0 {
        None
    } else {
        Some(
            (
                first_column_words(columns[0]),
                second_column_words(columns[1]),
                if columns.len() > 2 {
                    columns[2]
                } else {
                    Seq::empty()
                },
            ),
        )
    }
}

/// The rows that the lines hold, in order; a line that holds none is passed
/// over.
pub open spec fn rows_of_lines(lines: Seq<Seq<char>>) -> Seq<RowView>
    decreases lines.len(),
{
    if lines.len() == 0 {
        Seq::empty()
    } else {
        match row_of_line(lines.last()) {
            Some(row) => rows_of_lines(lines.drop_last()).push(row),
            None => rows_of_lines(lines.drop_last()),
        }
    }
}

/// The rows of the table `text`, one line each.
pub open spec fn table_rows(text: Seq<char>) -> Seq<RowView> {
    rows_of_lines(split_on(text, '\n'))
}

/// The row that the line `chars[from..to]` holds.
fn row_in(chars: &Vec<char>, from: usize, to: usize) -> (r: Option<Row>)
    requires
        from <= to <= chars.len(),
    ensures
        r matches Some(row) ==> row_of_line(chars@.subrange(from as int, to as int)) == Some(
            row_view(row),
        ),
        r is None ==> row_of_line(chars@.subrange(from as int, to as int)) is None,
{
    let (a, b) = trim_bounds(chars, from, to);
    let columns = split_bounds(chars, a, b, ';');
    if columns.len() < 2 {
        return None;
    }
    let first = first_column_in(chars, columns[0].0, columns[0].1);
    if first.len() == 0 {
        return None;
    }
    let second = second_column_in(chars, columns[1].0, columns[1].1);
    let numbers = if columns.len() > 2 {
        string_of(chars, columns[2].0, columns[2].1)
    } else {
        String::new()
    };
    Some((first, second, numbers))
}

/// Reads the columns of table rows.
pub struct CsvParser;

impl CsvParser {
    /// The words of the first column `text`: see [`first_column_words`].
    pub fn parse_first_column_all(text: &str) -> (result: Vec<String>)
        ensures
            string_views(result@) == first_column_words(text@),
    {
        let chars = chars_of(text);
        proof {
            assert(chars@.subrange(0, chars.len() as int) =~= text@);
        }
        first_column_in(&chars, 0, chars.len())
    }

    /// The entries of the second column `text`: see [`second_column_words`].
    pub fn parse_second_column(text: &str) -> (result: Vec<String>)
        ensures
            string_views(result@) == second_column_words(text@),
    {
        let chars = chars_of(text);
        proof {
            assert(chars@.subrange(0, chars.len() as int) =~= text@);
        }
        second_column_in(&chars, 0, chars.len())
    }

    /// The rows of the table `text`: see [`table_rows`].
    pub fn parse_rows(text: &str) -> (rows: Vec<Row>)
        ensures
            rows_view(rows@) == table_rows(text@),
    {
        let chars = chars_of(text);
        proof {
            assert(chars@.subrange(0, chars.len() as int) =~= text@);
        }
        let lines = split_bounds(&chars, 0, chars.len(), '\n');
        let ghost ls = split_on(text@, '\n');
        let mut rows: Vec<Row> = Vec::new();
        let mut k: usize = 0;
        proof {
            assert(ls.take(0) =~= Seq::<Seq<char>>::empty());
            assert(rows_view(rows@) =~= Seq::<RowView>::empty());
        }
        while k < lines.len()
            invariant
                k <= lines.len() == ls.len(),
                forall|j: int|
                    0 <= j < lines@.len() ==> (#[trigger] lines@[j]).0 <= lines@[j].1
                        <= chars.len() && chars@.subrange(lines@[j].0 as int, lines@[j].1 as int)
                        == ls[j],
                rows_view(rows@) == rows_of_lines(ls.take(k as int)),
            decreases lines.len() - k,
        {
            let (lo, hi) = lines[k];
            proof {
                assert(ls.take(k + 1).drop_last() =~= ls.take(k as int));
                assert(ls.take(k + 1).last() == ls[k as int]);
            }
            let ghost before = rows@;
            match row_in(&chars, lo, hi) {
                Some(row) => {
                    rows.push(row);
                    proof {
                        assert(rows_view(rows@) =~= rows_view(before).push(row_view(row)));
                    }
                },
                None => {},
            }
            k += 1;
        }
        proof {
            assert(ls.take(k as int) =~= ls);
        }
        rows
    }
    /// Reads the table `text`: the index of its rows by their first column,
    /// the keys of that index in order, and the rows themselves.
    pub fn load_all_data(text: &str) -> (r: (WordIndex, Vec<String>, Vec<Row>))
        ensures
            rows_view(r.2@) == table_rows(text@),
            indexes(r.0, rows_view(r.2@)),
            string_views(r.1@) == r.0.key_words(),
            is_word_list(string_views(r.1@)),
            forall|k: int|
                0 <= k < r.0.key_words().len() ==> is_word_list(#[trigger] r.0.words_at(k)),
    {
        let rows = CsvParser::parse_rows(text);
        let index = build_index(&rows);
        let firsts = copy_words(index.keys());
        proof {
            index.lemma_wf_word_lists();
        }
        (index, firsts, rows)
    }
}

} // verus!
