//! Writing a selection in its shortest comma-and-hyphen form.
//!
//! Neighbours that differ by one form a run. A run of one number is written as
//! that number, a longer run as its first and last number with a `-` between
//! them, and the runs are joined by commas: `1,3,4,5,7` becomes `1,3-5,7`.

use vstd::prelude::*;
use vstd::slice::*;
use crate::numbers::{decimal, ints, push_decimal};
use crate::selection::{ascending, sort_numbers};
use crate::split::joined;
use crate::text::string_of;

verus! {

/// The runs of `s`, each as its first and last number, in order.
pub open spec fn runs(s: Seq<int>) -> Seq<(int, int)>
    decreases s.len(),
{
    if s.len() == 0 {
        Seq::empty()
    } else if s.len() == 1 {
        seq![(s[0], s[0])]
    } else {
        let before = runs(s.drop_last());
        if s.last() == s[s.len() - 2] + 1 {
            before.drop_last().push((before.last().0, s.last()))
        } else {
            before.push((s.last(), s.last()))
        }
    }
}

/// One run as it is written.
pub open spec fn render_run(run: (int, int)) -> Seq<char> {
    if run.0 == run.1 {
        decimal(run.0)
    } else {
        decimal(run.0) + seq!['-'] + decimal(run.1)
    }
}

/// The runs as they are written.
pub open spec fn rendered(rs: Seq<(int, int)>) -> Seq<Seq<char>> {
    rs.map_values(|run: (int, int)| render_run(run))
}

/// `s` in comma-and-hyphen form.
pub open spec fn compressed(s: Seq<int>) -> Seq<char> {
    joined(rendered(runs(s)))
}

/// What is written once the runs `rs` are closed: each followed by a comma.
spec fn lead(rs: Seq<(int, int)>) -> Seq<char> {
    if rs.len() == 0 {
        Seq::empty()
    } else {
        joined(rendered(rs)).push(',')
    }
}

proof fn lemma_lead_push(rs: Seq<(int, int)>, run: (int, int))
    ensures
        joined(rendered(rs.push(run))) == lead(rs) + render_run(run),
        lead(rs.push(run)) == (lead(rs) + render_run(run)).push(','),
{
    let all = rendered(rs.push(run));
    assert(all =~= rendered(rs).push(render_run(run)));
    if rs.len() == 0 {
        assert(joined(all) =~= lead(rs) + render_run(run));
    } else {
        assert(all.drop_last() =~= rendered(rs));
    }
}

/// Appends one run to `out` as it is written.
fn push_run(out: &mut Vec<char>, first: i64, last: i64)
    ensures
        final(out)@ == old(out)@ + render_run((first as int, last as int)),
{
    push_decimal(out, first);
    if first != last {
        out.push('-');
        push_decimal(out, last);
    }
    proof {
        assert(final(out)@ =~= old(out)@ + render_run((first as int, last as int)));
    }
}

/// Writes `rows` in comma-and-hyphen form, taking the numbers in the order in
/// which they stand.
///
/// For an ascending selection this is its shortest form. The empty selection
/// is written as the empty string.
pub fn compress(rows: &[i64]) -> (out: String)
    ensures
        out@ == compressed(ints(rows@)),
{
    let ghost s = ints(rows@);
    let mut chars: Vec<char> = Vec::new();
    if rows.len() == 0 {
        proof {
            assert(compressed(s) =~= Seq::<char>::empty());
        }
        return string_of(&chars, 0, 0);
    }
    let mut start: i64 = rows[0];
    let mut prev: i64 = rows[0];
    let ghost mut closed: Seq<(int, int)> = Seq::empty();
    let mut i: usize = 1;
    proof {
        assert(s.take(1).len() == 1);
        assert(runs(s.take(1)) =~= closed.push((start as int, prev as int)));
    }
    while i < rows.len()
        invariant
            1 <= i <= rows.len(),
            s == ints(rows@),
            prev == rows@[i - 1],
            runs(s.take(i as int)) == closed.push((start as int, prev as int)),
            chars@ == lead(closed),
        decreases rows.len() - i,
    {
        let x = rows[i];
        proof {
            let now = s.take(i + 1);
            assert(now.drop_last() =~= s.take(i as int));
            assert(now.last() == x);
            assert(now[now.len() - 2] == prev);
        }
        if prev < i64::MAX && x == prev + 1 {
            proof {
                assert(closed.push((start as int, prev as int)).drop_last() =~= closed);
            }
            prev = x;
        } else {
            push_run(&mut chars, start, prev);
            chars.push(',');
            proof {
                lemma_lead_push(closed, (start as int, prev as int));
                closed = closed.push((start as int, prev as int));
            }
            start = x;
            prev = x;
        }
        i += 1;
    }
    push_run(&mut chars, start, prev);
    proof {
        assert(s.take(i as int) =~= s);
        lemma_lead_push(closed, (start as int, prev as int));
        assert(chars@.subrange(0, chars.len() as int) =~= chars@);
    }
    string_of(&chars, 0, chars.len())
}

/// Writes `rows` in comma-and-hyphen form after putting them in ascending
/// order. A number that stands twice is written twice.
pub fn format_zeilen_fuer_kommando(rows: &[i64]) -> (out: String)
    ensures
        out@ == compressed(ints(ascending(rows@))),
{
    let sorted = sort_numbers(slice_to_vec(rows));
    compress(sorted.as_slice())
}

} // verus!
