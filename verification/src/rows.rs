//! Checking a selection against the number of rows of the table.
//!
//! Rows are counted from 1. A row number is valid where it is at least 1 and at
//! most the number of rows; every other number is set aside, never kept.

use vstd::prelude::*;
use vstd::string::*;
use crate::numbers::{decimal, decimal_string};

verus! {

/// Whether `index` names a row of a table of `bound` rows.
pub open spec fn is_valid_row(index: int, bound: int) -> bool {
    1 <= index <= bound
}

/// A selection parted into the rows that the table has and those it lacks,
/// each part in the order of the selection.
pub struct RowCheck {
    /// The row numbers that the table has.
    pub valid: Vec<i64>,
    /// The row numbers that the table lacks.
    pub rejected: Vec<i64>,
}

/// Parts `rows` into the numbers that name a row of a table of `bound` rows
/// and those that do not.
pub fn validate_row_numbers(rows: &[i64], bound: i64) -> (check: RowCheck)
    ensures
        check.valid@ == rows@.filter(|x: i64| is_valid_row(x as int, bound as int)),
        check.rejected@ == rows@.filter(|x: i64| !is_valid_row(x as int, bound as int)),
{
    let ghost keep = |x: i64| is_valid_row(x as int, bound as int);
    let ghost drop = |x: i64| !is_valid_row(x as int, bound as int);
    let mut valid: Vec<i64> = Vec::new();
    let mut rejected: Vec<i64> = Vec::new();
    let mut i: usize = 0;
    proof {
        reveal(Seq::filter);
        assert(rows@.take(0).filter(keep) =~= Seq::<i64>::empty());
        assert(rows@.take(0).filter(drop) =~= Seq::<i64>::empty());
    }
    while i < rows.len()
        invariant
            i <= rows.len(),
            keep == |x: i64| is_valid_row(x as int, bound as int),
            drop == |x: i64| !is_valid_row(x as int, bound as int),
            valid@ == rows@.take(i as int).filter(keep),
            rejected@ == rows@.take(i as int).filter(drop),
        decreases rows.len() - i,
    {
        let x = rows[i];
        proof {
            reveal(Seq::filter);
            assert(rows@.take(i + 1).drop_last() =~= rows@.take(i as int));
            assert(rows@.take(i + 1).last() == x);
        }
        if 1 <= x && x <= bound {
            valid.push(x);
        } else {
            rejected.push(x);
        }
        i += 1;
    }
    proof {
        assert(rows@.take(i as int) =~= rows@);
    }
    RowCheck { valid, rejected }
}

/// What the warning says of a row number that the table lacks.
pub open spec fn warning_text(index: int, bound: int) -> Seq<char> {
    "⚠️  Zeile "@ + decimal(index) + " existiert nicht (max: "@ + decimal(bound) + ")"@
}

/// The warning for the row number `index`, which a table of `bound` rows lacks.
pub fn row_warning(index: i64, bound: i64) -> (out: String)
    ensures
        out@ == warning_text(index as int, bound as int),
{
    let mut out = String::from_str("⚠️  Zeile ");
    out.append(decimal_string(index).as_str());
    out.append(" existiert nicht (max: ");
    out.append(decimal_string(bound).as_str());
    out.append(")");
    out
}

} // verus!
