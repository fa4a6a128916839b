//! Generator tokens: a list of integers between a pair of brackets.
//!
//! `(1,3,5)`, `[2,4,6]` and `{7}` are generators. The opening bracket is the
//! first character and its own closing bracket the last, whitespace around the
//! token aside. What stands between them is cut at every comma, and every
//! piece, whitespace around it aside, must be an integer literal: one piece
//! that is none, such as `3.5` or nothing at all, and the token is no
//! generator. Brackets do not nest here.

use vstd::prelude::*;
use crate::numbers::{decimal, decimal_string, ints, parse_chars, parse_int};
use crate::text::{chars_of, split_bounds, split_on, string_views, trim_bounds, trimmed};

verus! {

/// The bracket that closes `c`, if `c` opens one.
pub open spec fn closing_of(c: char) -> Option<char> {
    if c == '(' {
        Some(')')
    } else if c == '[' {
        Some(']')
    } else if c == '{' {
        Some('}')
    } else {
        None
    }
}

/// The integer that one piece of a generator writes.
pub open spec fn piece_value(piece: Seq<char>) -> Option<int> {
    parse_int(trimmed(piece))
}

/// Whether every piece writes an integer.
pub open spec fn all_pieces_valid(ps: Seq<Seq<char>>) -> bool {
    forall|k: int| 0 <= k < ps.len() ==> (#[trigger] piece_value(ps[k])) is Some
}

/// The integers that the pieces write, in order.
pub open spec fn piece_values(ps: Seq<Seq<char>>) -> Seq<int> {
    ps.map_values(|p: Seq<char>| piece_value(p).unwrap())
}

/// Whether `t` begins with an opening bracket and ends with the bracket that
/// closes it.
pub open spec fn is_bracketed(t: Seq<char>) -> bool {
    t.len() >= 2 && closing_of(t[0]) == Some(t.last())
}

/// The integers of the generator `text`, as written, or `None` where `text` is
/// no generator.
pub open spec fn expand_generator(text: Seq<char>) -> Option<Seq<int>> {
    let t = trimmed(text);
    if is_bracketed(t) && all_pieces_valid(split_on(t.subrange(1, t.len() - 1), ',')) {
        Some(piece_values(split_on(t.subrange(1, t.len() - 1), ',')))
    } else {
        None
    }
}

/// The integers of the generator `chars[from..to]`.
pub fn expand_chars(chars: &Vec<char>, from: usize, to: usize) -> (r: Option<Vec<i64>>)
    requires
        from <= to <= chars.len(),
    ensures
        r matches Some(v) ==> expand_generator(chars@.subrange(from as int, to as int)) == Some(
            ints(v@),
        ),
        r is None ==> expand_generator(chars@.subrange(from as int, to as int)) is None,
{
    let (a, b) = trim_bounds(chars, from, to);
    let ghost t = chars@.subrange(a as int, b as int);
    if b - a < 2 {
        return None;
    }
    let first = chars[a];
    let close = if first == '(' {
        ')'
    } else if first == '[' {
        ']'
    } else if first == '{' {
        '}'
    } else {
        return None;
    };
    if chars[b - 1] != close {
        return None;
    }
    let ghost inner = chars@.subrange(a + 1, b - 1);
    proof {
        assert(t[0] == first);
        assert(t.last() == chars@[b - 1]);
        assert(inner =~= t.subrange(1, t.len() - 1));
        assert(is_bracketed(t));
    }
    let bounds = split_bounds(chars, a + 1, b - 1, ',');
    let mut out: Vec<i64> = Vec::new();
    let mut k: usize = 0;
    while k < bounds.len()
        invariant
            from <= to <= chars.len(),
            t == trimmed(chars@.subrange(from as int, to as int)),
            is_bracketed(t),
            inner == t.subrange(1, t.len() - 1),
            k <= bounds.len() == split_on(inner, ',').len(),
            out@.len() == k,
            forall|j: int|
                0 <= j < bounds@.len() ==> (#[trigger] bounds@[j]).0 <= bounds@[j].1
                    <= chars.len() && chars@.subrange(bounds@[j].0 as int, bounds@[j].1 as int)
                    == split_on(inner, ',')[j],
            forall|j: int|
                0 <= j < k
                    ==> piece_value(#[trigger] split_on(inner, ',')[j]) == Some(out@[j] as int),
        decreases bounds.len() - k,
    {
        let (lo, hi) = bounds[k];
        let (pa, pb) = trim_bounds(chars, lo, hi);
        match parse_chars(chars, pa, pb) {
            Some(v) => {
                out.push(v);
            },
            None => {
                assert(piece_value(split_on(inner, ',')[k as int]) is None);
                return None;
            },
        }
        k += 1;
    }
    proof {
        assert(all_pieces_valid(split_on(inner, ',')));
        assert(piece_values(split_on(inner, ',')) =~= ints(out@));
    }
    Some(out)
}

/// Reads `text` as a generator and gives its integers in the order written.
///
/// `None` where `text` is no generator: see [`expand_generator`].
pub fn str_as_generator_to_vec_i64(text: &str) -> (r: Option<Vec<i64>>)
    ensures
        r matches Some(v) ==> expand_generator(text@) == Some(ints(v@)),
        r is None ==> expand_generator(text@) is None,
{
    let chars = chars_of(text);
    proof {
        assert(chars@.subrange(0, chars.len() as int) =~= text@);
    }
    expand_chars(&chars, 0, chars.len())
}

/// Each number written in base ten.
pub open spec fn decimals(ns: Seq<int>) -> Seq<Seq<char>> {
    ns.map_values(|n: int| decimal(n))
}

/// Reads `text` as a generator and gives each of its integers written in base
/// ten, without the whitespace, signs `+` and leading zeros of the text.
///
/// `None` where `text` is no generator: see [`expand_generator`].
pub fn str_as_generator_to_list_of_num_strs(text: &str) -> (r: Option<Vec<String>>)
    ensures
        r matches Some(v) ==> expand_generator(text@) is Some && string_views(v@) == decimals(
            expand_generator(text@).unwrap(),
        ),
        r is None ==> expand_generator(text@) is None,
{
    match str_as_generator_to_vec_i64(text) {
        Some(numbers) => {
            let mut out: Vec<String> = Vec::new();
            let mut i: usize = 0;
            while i < numbers.len()
                invariant
                    i <= numbers.len(),
                    out@.len() == i,
                    forall|k: int| 0 <= k < i
                        ==> (#[trigger] out@[k])@ == decimal(numbers@[k] as int),
                decreases numbers.len() - i,
            {
                out.push(decimal_string(numbers[i]));
                i += 1;
            }
            proof {
                assert(string_views(out@) =~= decimals(ints(numbers@)));
            }
            Some(out)
        },
        None => None,
    }
}

} // verus!
