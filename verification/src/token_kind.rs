//! What kind of thing a token is.

use vstd::prelude::*;
use crate::numbers::{ints, parse_chars, parse_int};
use crate::text::chars_of;
use crate::zeilen_parser::{
    generator_in, generator_in_chars, has_variant_marker, pair_around, parse_pair, range_of,
    resolve, skip_marker, span, without_marker,
};

verus! {

/// The kind of a token, with what it holds.
#[derive(Debug, PartialEq, Eq)]
#[allow(inconsistent_fields)]
pub enum TokenKind {
    /// A single row `start`, or the rows from `start` to `end`.
    IntegerRange { start: i64, end: Option<i64> },
    /// As [`TokenKind::IntegerRange`], behind a variant marker.
    VariantRange { start: i64, end: Option<i64> },
    /// A fraction, numerator and denominator, or the range from one fraction
    /// to another.
    FractionRange { start: (i64, i64), end: Option<(i64, i64)> },
    /// The integers of a generator, as written.
    Generator(Vec<i64>),
    /// None of these.
    Invalid,
}

/// A token kind over the mathematical integers.
#[allow(inconsistent_fields)]
pub enum KindView {
    /// A single row `start`, or the rows from `start` to `end`.
    IntegerRange { start: int, end: Option<int> },
    /// The same behind a variant marker.
    VariantRange { start: int, end: Option<int> },
    /// A fraction, or the range from one fraction to another.
    FractionRange { start: (int, int), end: Option<(int, int)> },
    /// The integers of a generator, as written.
    Generator(Seq<int>),
    /// None of these.
    Invalid,
}

/// An optional number as an optional mathematical integer.
pub open spec fn int_of(n: Option<i64>) -> Option<int> {
    match n {
        Some(n) => Some(n as int),
        None => None,
    }
}

impl View for TokenKind {
    type V = KindView;

    open spec fn view(&self) -> KindView {
        match *self {
            TokenKind::IntegerRange { start, end } => KindView::IntegerRange {
                start: start as int,
                end: int_of(end),
            },
            TokenKind::VariantRange { start, end } => KindView::VariantRange {
                start: start as int,
                end: int_of(end),
            },
            TokenKind::FractionRange { start, end } => KindView::FractionRange {
                start: (start.0 as int, start.1 as int),
                end: match end {
                    Some(f) => Some((f.0 as int, f.1 as int)),
                    None => None,
                },
            },
            TokenKind::Generator(values) => KindView::Generator(ints(values@)),
            TokenKind::Invalid => KindView::Invalid,
        }
    }
}

/// The first position from `from` on at which `s` has `c`, or the length of
/// `s` where it has none.
pub open spec fn index_from(s: Seq<char>, c: char, from: int) -> int
    decreases s.len() - from,
{
    if from < 0 || from >= s.len() {
        s.len() as int
    } else if s[from] == c {
        from
    } else {
        index_from(s, c, from + 1)
    }
}

/// Where the `-` stands that parts a range of fractions: the first behind the
/// first `/` and the character after it, which may be a sign.
pub open spec fn fraction_dash(t: Seq<char>) -> int {
    index_from(t, '-', index_from(t, '/', 0) + 2)
}

/// The fractions that `t` writes as `a/b` or as `a/b-c/d`.
pub open spec fn fraction_range_of(t: Seq<char>) -> Option<((int, int), Option<(int, int)>)> {
    let d = fraction_dash(t);
    if pair_around(t, '/') is Some {
        Some((pair_around(t, '/').unwrap(), None))
    } else if d < t.len() && pair_around(t.take(d), '/') is Some && pair_around(
        t.skip(d + 1),
        '/',
    ) is Some {
        Some((pair_around(t.take(d), '/').unwrap(), Some(pair_around(t.skip(d + 1), '/').unwrap())))
    } else {
        None
    }
}

/// The kind of `token`. A generator is one with or without a marker before
/// it; a number or a range is a variant where a marker stands before it; a
/// fraction takes no marker.
pub open spec fn kind_of(token: Seq<char>) -> KindView {
    let t = without_marker(token);
    if generator_in(token) is Some {
        KindView::Generator(generator_in(token).unwrap())
    } else if range_of(t) is Some {
        if has_variant_marker(token) {
            KindView::VariantRange {
                start: range_of(t).unwrap().0,
                end: Some(range_of(t).unwrap().1),
            }
        } else {
            KindView::IntegerRange {
                start: range_of(t).unwrap().0,
                end: Some(range_of(t).unwrap().1),
            }
        }
    } else if parse_int(t) is Some {
        if has_variant_marker(token) {
            KindView::VariantRange { start: parse_int(t).unwrap(), end: None }
        } else {
            KindView::IntegerRange { start: parse_int(t).unwrap(), end: None }
        }
    } else if fraction_range_of(token) is Some {
        KindView::FractionRange {
            start: fraction_range_of(token).unwrap().0,
            end: fraction_range_of(token).unwrap().1,
        }
    } else {
        KindView::Invalid
    }
}

/// The rows that a token of this kind names: the single row or the rows of
/// the range, the integers of the generator, and none for a fraction and for
/// what is invalid.
pub open spec fn rows_of(kind: KindView) -> Seq<int> {
    match kind {
        KindView::IntegerRange { start, end: Some(end) } => span(start, end),
        KindView::IntegerRange { start, end: None } => seq![start],
        KindView::VariantRange { start, end: Some(end) } => span(start, end),
        KindView::VariantRange { start, end: None } => seq![start],
        KindView::Generator(values) => values,
        KindView::FractionRange { .. } => Seq::empty(),
        KindView::Invalid => Seq::empty(),
    }
}

/// A token names the rows of its kind.
pub proof fn lemma_rows_of_kind(token: Seq<char>)
    ensures
        rows_of(kind_of(token)) == resolve(token),
{
}

/// The first position from `from` on at which `chars[..to]` has `c`, or `to`.
fn find_from(chars: &Vec<char>, to: usize, c: char, from: usize) -> (r: usize)
    requires
        to <= chars.len(),
    ensures
        r <= to,
        r == index_from(chars@.take(to as int), c, from as int),
{
    let ghost s = chars@.take(to as int);
    if from >= to {
        return to;
    }
    let mut i: usize = from;
    while i < to
        invariant
            from <= i <= to <= chars.len(),
            s == chars@.take(to as int),
            index_from(s, c, from as int) == index_from(s, c, i as int),
        decreases to - i,
    {
        if chars[i] == c {
            return i;
        }
        i += 1;
    }
    to
}

/// The kind of the token `text`.
pub fn token_kind(text: &str) -> (kind: TokenKind)
    ensures
        kind@ == kind_of(text@),
{
    let chars = chars_of(text);
    let n = chars.len();
    proof {
        assert(chars@.subrange(0, n as int) =~= text@);
        assert(chars@.take(n as int) =~= text@);
    }
    match generator_in_chars(&chars, 0, n) {
        Some(values) => {
            return TokenKind::Generator(values);
        },
        None => {},
    }
    let begin = skip_marker(&chars, 0, n);
    let marked = begin > 0;
    proof {
        if n > 0 && !has_variant_marker(text@) {
            assert(chars@.subrange(begin as int, n as int).len() == n);
        }
    }
    match parse_pair(&chars, begin, n, '-') {
        Some((start, end)) => {
            return if marked {
                TokenKind::VariantRange { start, end: Some(end) }
            } else {
                TokenKind::IntegerRange { start, end: Some(end) }
            };
        },
        None => {},
    }
    match parse_chars(&chars, begin, n) {
        Some(start) => {
            return if marked {
                TokenKind::VariantRange { start, end: None }
            } else {
                TokenKind::IntegerRange { start, end: None }
            };
        },
        None => {},
    }
    match parse_pair(&chars, 0, n, '/') {
        Some(start) => {
            return TokenKind::FractionRange { start, end: None };
        },
        None => {},
    }
    let slash = find_from(&chars, n, '/', 0);
    if n < 2 || slash >= n - 1 {
        proof {
            assert(index_from(text@, '-', slash + 2) == n);
        }
        return TokenKind::Invalid;
    }
    let d = find_from(&chars, n, '-', slash + 2);
    if d >= n {
        return TokenKind::Invalid;
    }
    proof {
        assert(text@.take(d as int) =~= chars@.subrange(0, d as int));
        assert(text@.skip(d + 1) =~= chars@.subrange(d + 1, n as int));
    }
    match (parse_pair(&chars, 0, d, '/'), parse_pair(&chars, d + 1, n, '/')) {
        (Some(start), Some(end)) => TokenKind::FractionRange { start, end: Some(end) },
        _ => TokenKind::Invalid,
    }
}

} // verus!
