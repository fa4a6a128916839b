//! From a line as it was typed to what it selects.

use vstd::prelude::*;
use vstd::string::*;
use crate::classifier::{
    is_mixed, is_strict_fraction, is_strict_integer, is_zeilen_angabe, is_zeilen_bruch_angabe,
    is_zeilen_bruch_or_ganz_zahl_angabe,
};
use crate::compress::{compress, compressed};
use crate::numbers::ints;
use crate::patterns::Patterns;
use crate::rows::{is_valid_row, validate_row_numbers, RowCheck};
use crate::text::{chars_of, trim_bounds, trimmed};
use crate::zeilen_parser::{parse_zeilen_angabe_to_numbers, selection_of};

verus! {

/// The kind of a line specification.
#[derive(Clone, Copy, Debug, PartialEq, Eq, Structural)]
pub enum Classification {
    /// Every token names integer rows.
    StrictInteger,
    /// Every token is a fraction or a fraction range.
    StrictFraction,
    /// Every token is of one kind or the other, but not all of the same.
    Mixed,
    /// Some token is of neither kind.
    Invalid,
}

/// The kind of `text`: the first of integer, fraction and mixed that accepts
/// it, and invalid where none does.
pub open spec fn classification_of(text: Seq<char>) -> Classification {
    if is_strict_integer(text) {
        Classification::StrictInteger
    } else if is_strict_fraction(text) {
        Classification::StrictFraction
    } else if is_mixed(text) {
        Classification::Mixed
    } else {
        Classification::Invalid
    }
}

/// Classifies `text`, taken as it stands.
pub fn classify(patterns: &Patterns, text: &str) -> (kind: Classification)
    ensures
        kind == classification_of(text@),
{
    if is_zeilen_angabe(patterns, text) {
        Classification::StrictInteger
    } else if is_zeilen_bruch_angabe(patterns, text) {
        Classification::StrictFraction
    } else if is_zeilen_bruch_or_ganz_zahl_angabe(patterns, text) {
        Classification::Mixed
    } else {
        Classification::Invalid
    }
}

/// The rows that a specification of integer rows selects from a table.
pub struct RowSelection {
    /// The selection that the specification names: ascending, each row once.
    pub expanded: Vec<i64>,
    /// The selection parted into the rows that the table has and the others.
    pub check: RowCheck,
    /// The rows that the table has, in comma-and-hyphen form.
    pub compressed: String,
}

/// What a line, as it was typed, asks for.
pub enum Outcome {
    /// Nothing but whitespace: every row.
    AllRows,
    /// A specification of integer rows.
    Rows(RowSelection),
    /// A specification of fractions. It selects no rows.
    Fractions,
    /// Neither: the line is to be typed again. What is held says so of the
    /// line.
    PatternMismatch(String),
}

/// What is said of a line that is no line specification.
pub open spec fn mismatch_text(line: Seq<char>) -> Seq<char> {
    "Ungültige Eingabe: '"@ + line + "'"@
}

/// The message for `line`, which is no line specification: the line itself
/// between quotes, behind a word of what is wrong.
pub fn mismatch_message(line: &str) -> (out: String)
    ensures
        out@ == mismatch_text(line@),
{
    let mut out = String::from_str("Ungültige Eingabe: '");
    out.append(line);
    out.append("'");
    out
}

/// Reads the line `input` against a table of `bound` rows.
///
/// Whitespace around the line is set aside. What is left decides: nothing,
/// and all rows are meant; a specification of integer rows, and it is
/// expanded, checked against the table and written back in short form; a
/// specification of fractions; or none of these, and the outcome holds the
/// message that says so. A line whose tokens are of both kinds is none of
/// these.
pub fn validate_and_process_zeilenangabe(patterns: &Patterns, input: &str, bound: i64) -> (r:
    Outcome)
    ensures
        trimmed(input@).len() == 0 ==> r is AllRows,
        trimmed(input@).len() > 0 && is_strict_integer(trimmed(input@)) ==> r is Rows,
        trimmed(input@).len() > 0 && !is_strict_integer(trimmed(input@)) && is_strict_fraction(
            trimmed(input@),
        ) ==> r is Fractions,
        trimmed(input@).len() > 0 && !is_strict_integer(trimmed(input@)) && !is_strict_fraction(
            trimmed(input@),
        ) ==> r is PatternMismatch,
        r matches Outcome::PatternMismatch(message) ==> message@ == mismatch_text(
            trimmed(input@),
        ),
        r matches Outcome::Rows(rows) ==> {
            &&& ints(rows.expanded@) == selection_of(trimmed(input@))
            &&& rows.check.valid@ == rows.expanded@.filter(
                |x: i64| is_valid_row(x as int, bound as int),
            )
            &&& rows.check.rejected@ == rows.expanded@.filter(
                |x: i64| !is_valid_row(x as int, bound as int),
            )
            &&& rows.compressed@ == compressed(ints(rows.check.valid@))
        },
{
    let chars = chars_of(input);
    let (a, b) = trim_bounds(&chars, 0, chars.len());
    proof {
        assert(chars@.subrange(0, chars.len() as int) =~= input@);
    }
    if a == b {
        return Outcome::AllRows;
    }
    let line = input.substring_char(a, b);
    if is_zeilen_angabe(patterns, line) {
        let expanded = parse_zeilen_angabe_to_numbers(line).unwrap();
        let check = validate_row_numbers(expanded.as_slice(), bound);
        let compressed = compress(check.valid.as_slice());
        Outcome::Rows(RowSelection { expanded, check, compressed })
    } else if is_zeilen_bruch_angabe(patterns, line) {
        Outcome::Fractions
    } else {
        Outcome::PatternMismatch(mismatch_message(line))
    }
}

} // verus!
