//! From tokens to row numbers.
//!
//! Each token of a line specification names some integers:
//!
//! 1. A leading `v` or `V` marks a variant and is set aside.
//! 2. What is left may be a generator: it names its integers.
//! 3. A token that begins with one other character that is no digit and no
//!    `-` may be a generator behind that character.
//! 4. `a-b`, with exactly one `-` and a literal on each side, names `a` up to
//!    and including `b`, and nothing where `a` is greater than `b`.
//! 5. A literal names itself.
//! 6. Anything else names nothing.
//!
//! The first of these that applies decides. A `+` joined term, which the
//! patterns of the classifier let pass, is not expanded: such a token names
//! nothing. The integers of all tokens, sorted and without repetition, are the
//! selection.

use vstd::prelude::*;
use crate::generator::{expand_chars, expand_generator};
use crate::numbers::{ints, is_digit, parse_chars, parse_int};
use crate::selection::{sort_dedup, sorted_unique};
use crate::split::{split_with_bracket_balance, tokens, views};
use crate::text::{chars_of, split_bounds, split_on, trim_bounds, trimmed};
use vstd::string::*;

verus! {

/// Whether `t` begins with the variant marker.
pub open spec fn has_variant_marker(t: Seq<char>) -> bool {
    t.len() > 0 && (t[0] == 'v' || t[0] == 'V')
}

/// `t` without its variant marker, if it has one.
pub open spec fn without_marker(t: Seq<char>) -> Seq<char> {
    if has_variant_marker(t) {
        t.drop_first()
    } else {
        t
    }
}

/// Whether `t` begins with a character that may stand before a generator.
pub open spec fn has_decorative_prefix(t: Seq<char>) -> bool {
    t.len() > 0 && !is_digit(t[0]) && t[0] != '-' && t[0] != 'v' && t[0] != 'V'
}

/// Whether `t` has the character `c` at `d` and nowhere else.
pub open spec fn only_at(t: Seq<char>, c: char, d: int) -> bool {
    &&& 0 <= d < t.len()
    &&& forall|i: int| 0 <= i < t.len() ==> ((#[trigger] t[i]) == c <==> i == d)
}

/// The two integers that `t` writes on either side of its only `c`: `None`
/// where `t` has no `c` or more than one, or where a side is no literal.
pub open spec fn pair_around(t: Seq<char>, c: char) -> Option<(int, int)> {
    if exists|d: int| only_at(t, c, d) {
        let d = choose|d: int| only_at(t, c, d);
        match (parse_int(t.take(d)), parse_int(t.skip(d + 1))) {
            (Some(a), Some(b)) => Some((a, b)),
            _ => None,
        }
    } else {
        None
    }
}

/// The bounds `(a, b)` that `t` writes as `a-b`.
pub open spec fn range_of(t: Seq<char>) -> Option<(int, int)> {
    pair_around(t, '-')
}

/// The integers from `a` up to and including `b`; none where `a > b`.
pub open spec fn span(a: int, b: int) -> Seq<int> {
    if a > b {
        Seq::empty()
    } else {
        Seq::new((b - a + 1) as nat, |k: int| a + k)
    }
}

/// The integers of the generator that `token` holds, behind a variant marker
/// or behind one decorative character.
pub open spec fn generator_in(token: Seq<char>) -> Option<Seq<int>> {
    if expand_generator(without_marker(token)) is Some {
        expand_generator(without_marker(token))
    } else if has_decorative_prefix(token) {
        expand_generator(token.drop_first())
    } else {
        None
    }
}

/// The integers that one token names.
pub open spec fn resolve(token: Seq<char>) -> Seq<int> {
    let t = without_marker(token);
    if generator_in(token) is Some {
        generator_in(token).unwrap()
    } else if range_of(t) is Some {
        span(range_of(t).unwrap().0, range_of(t).unwrap().1)
    } else if parse_int(t) is Some {
        seq![parse_int(t).unwrap()]
    } else {
        Seq::empty()
    }
}

/// The integers that the tokens name, token after token.
pub open spec fn resolve_tokens(parts: Seq<Seq<char>>) -> Seq<int>
    decreases parts.len(),
{
    if parts.len() == 0 {
        Seq::empty()
    } else {
        resolve_tokens(parts.drop_last()) + resolve(parts.last())
    }
}

/// Appends `extra` to `out`.
fn append_all(out: &mut Vec<i64>, extra: &Vec<i64>)
    ensures
        final(out)@ == old(out)@ + extra@,
{
    let mut i: usize = 0;
    while i < extra.len()
        invariant
            i <= extra.len(),
            out@ == old(out)@ + extra@.take(i as int),
        decreases extra.len() - i,
    {
        out.push(extra[i]);
        i += 1;
        assert(out@ =~= old(out)@ + extra@.take(i as int));
    }
    assert(extra@.take(extra.len() as int) =~= extra@);
}

/// Appends the integers from `a` up to and including `b` to `out`.
fn append_span(out: &mut Vec<i64>, a: i64, b: i64)
    ensures
        ints(final(out)@) == ints(old(out)@) + span(a as int, b as int),
{
    if a > b {
        assert(ints(out@) =~= ints(old(out)@) + span(a as int, b as int));
        return ;
    }
    let mut x: i64 = a;
    loop
        invariant_except_break
            a <= x <= b,
            ints(out@) == ints(old(out)@) + span(a as int, x - 1),
        ensures
            ints(out@) == ints(old(out)@) + span(a as int, b as int),
        decreases b - x,
    {
        let ghost before = out@;
        out.push(x);
        proof {
            assert(ints(out@) =~= ints(before).push(x as int));
            assert(span(a as int, x as int) =~= span(a as int, x - 1).push(x as int));
            assert(ints(out@) =~= ints(old(out)@) + span(a as int, x as int));
        }
        if x == b {
            break ;
        }
        x += 1;
    }
}

/// Where the only `c` of `chars[from..to]` stands, if there is exactly one.
pub fn find_only(chars: &Vec<char>, from: usize, to: usize, c: char) -> (r: Option<usize>)
    requires
        from <= to <= chars.len(),
    ensures
        r matches Some(d) ==> from <= d < to && only_at(
            chars@.subrange(from as int, to as int),
            c,
            d - from,
        ),
        r is None ==> !exists|d: int| only_at(chars@.subrange(from as int, to as int), c, d),
{
    let ghost t = chars@.subrange(from as int, to as int);
    let mut found: Option<usize> = None;
    let mut i: usize = from;
    while i < to
        invariant
            from <= i <= to <= chars.len(),
            t == chars@.subrange(from as int, to as int),
            found matches Some(d) ==> from <= d < i && forall|k: int|
                0 <= k < i - from ==> ((#[trigger] t[k]) == c <==> k == d - from),
            found is None ==> forall|k: int| 0 <= k < i - from ==> (#[trigger] t[k]) != c,
        decreases to - i,
    {
        if chars[i] == c {
            assert(t[i - from] == c);
            match found {
                Some(d) => {
                    proof {
                        assert forall|e: int| !only_at(t, c, e) by {
                            if only_at(t, c, e) {
                                assert(t[d - from] == c);
                                assert(t[i - from] == c);
                            }
                        }
                    }
                    return None;
                },
                None => {
                    found = Some(i);
                },
            }
        } else {
            assert(t[i - from] != c);
        }
        i += 1;
    }
    proof {
        if found is None {
            assert forall|e: int| !only_at(t, c, e) by {
                if only_at(t, c, e) {
                    assert(t[e] == c);
                }
            }
        }
    }
    found
}

/// There is at most one place for an only `c`.
pub proof fn lemma_only_at_unique(t: Seq<char>, c: char, d: int, e: int)
    requires
        only_at(t, c, d),
        only_at(t, c, e),
    ensures
        d == e,
{
    assert(t[d] == c);
}

/// The two literals that stand in `chars[from..to]` on either side of its only
/// `c`.
pub fn parse_pair(chars: &Vec<char>, from: usize, to: usize, c: char) -> (r: Option<(i64, i64)>)
    requires
        from <= to <= chars.len(),
    ensures
        r matches Some(p) ==> pair_around(chars@.subrange(from as int, to as int), c) == Some(
            (p.0 as int, p.1 as int),
        ),
        r is None ==> pair_around(chars@.subrange(from as int, to as int), c) is None,
{
    let ghost t = chars@.subrange(from as int, to as int);
    match find_only(chars, from, to, c) {
        Some(d) => {
            proof {
                let e = choose|e: int| only_at(t, c, e);
                lemma_only_at_unique(t, c, d - from, e);
                assert(t.take(d - from) =~= chars@.subrange(from as int, d as int));
                assert(t.skip(d - from + 1) =~= chars@.subrange(d + 1, to as int));
            }
            let left = parse_chars(chars, from, d);
            let right = parse_chars(chars, d + 1, to);
            match (left, right) {
                (Some(a), Some(b)) => Some((a, b)),
                _ => None,
            }
        },
        None => None,
    }
}

/// Where the token `chars[from..to]` begins behind its variant marker.
pub fn skip_marker(chars: &Vec<char>, from: usize, to: usize) -> (begin: usize)
    requires
        from <= to <= chars.len(),
    ensures
        from <= begin <= to,
        chars@.subrange(begin as int, to as int) == without_marker(
            chars@.subrange(from as int, to as int),
        ),
{
    let ghost token = chars@.subrange(from as int, to as int);
    if from < to && (chars[from] == 'v' || chars[from] == 'V') {
        proof {
            assert(token[0] == chars@[from as int]);
            assert(token.drop_first() =~= chars@.subrange(from + 1, to as int));
        }
        from + 1
    } else {
        proof {
            if from < to {
                assert(token[0] == chars@[from as int]);
            }
        }
        from
    }
}

/// The integers of the generator that the token `chars[from..to]` holds.
pub fn generator_in_chars(chars: &Vec<char>, from: usize, to: usize) -> (r: Option<Vec<i64>>)
    requires
        from <= to <= chars.len(),
    ensures
        r matches Some(v) ==> generator_in(chars@.subrange(from as int, to as int)) == Some(
            ints(v@),
        ),
        r is None ==> generator_in(chars@.subrange(from as int, to as int)) is None,
{
    let ghost token = chars@.subrange(from as int, to as int);
    let begin = skip_marker(chars, from, to);
    match expand_chars(chars, begin, to) {
        Some(values) => {
            return Some(values);
        },
        None => {},
    }
    if from < to {
        let n: u32 = chars[from] as u32;
        let first = chars[from];
        proof {
            assert(token[0] == first);
        }
        if !(0x30 <= n && n <= 0x39) && first != '-' && first != 'v' && first != 'V' {
            proof {
                assert(token.drop_first() =~= chars@.subrange(from + 1, to as int));
            }
            return expand_chars(chars, from + 1, to);
        }
    }
    None
}

/// Appends to `out` the integers that the token `chars[from..to]` names.
pub fn resolve_chars(chars: &Vec<char>, from: usize, to: usize, out: &mut Vec<i64>)
    requires
        from <= to <= chars.len(),
    ensures
        ints(final(out)@) == ints(old(out)@) + resolve(chars@.subrange(from as int, to as int)),
{
    match generator_in_chars(chars, from, to) {
        Some(values) => {
            append_all(out, &values);
            proof {
                assert(ints(out@) =~= ints(old(out)@) + ints(values@));
            }
            return ;
        },
        None => {},
    }
    let begin = skip_marker(chars, from, to);
    match parse_pair(chars, begin, to, '-') {
        Some((a, b)) => {
            append_span(out, a, b);
            return ;
        },
        None => {},
    }
    match parse_chars(chars, begin, to) {
        Some(value) => {
            out.push(value);
            proof {
                assert(ints(out@) =~= ints(old(out)@) + seq![value as int]);
            }
        },
        None => {
            proof {
                assert(ints(out@) =~= ints(old(out)@) + Seq::<int>::empty());
            }
        },
    }
}

/// The selection that the line specification `text` names: the integers of
/// all its tokens, ascending, each once.
pub open spec fn selection_of(text: Seq<char>) -> Seq<int> {
    sorted_unique(resolve_tokens(tokens(text)))
}

/// The integers that the tokens `parts` name, token after token, as written.
pub fn resolve_all(parts: &Vec<&str>) -> (out: Vec<i64>)
    ensures
        ints(out@) == resolve_tokens(views(parts@)),
{
    let mut out: Vec<i64> = Vec::new();
    let mut i: usize = 0;
    proof {
        assert(views(parts@).take(0) =~= Seq::<Seq<char>>::empty());
        assert(ints(out@) =~= Seq::<int>::empty());
    }
    while i < parts.len()
        invariant
            i <= parts.len(),
            ints(out@) == resolve_tokens(views(parts@).take(i as int)),
        decreases parts.len() - i,
    {
        let chars = chars_of(parts[i]);
        proof {
            assert(chars@.subrange(0, chars.len() as int) =~= chars@);
            assert(views(parts@).take(i + 1).drop_last() =~= views(parts@).take(i as int));
            assert(views(parts@).take(i + 1).last() == parts@[i as int]@);
        }
        resolve_chars(&chars, 0, chars.len(), &mut out);
        i += 1;
    }
    proof {
        assert(views(parts@).take(i as int) =~= views(parts@));
    }
    out
}

/// The selection that the line specification `input` names.
///
/// The input is taken as it stands, without trimming. Every input names a
/// selection, if only the empty one, so the result is never `None`.
pub fn parse_zeilen_angabe_to_numbers(input: &str) -> (r: Option<Vec<i64>>)
    ensures
        r is Some,
        ints(r.unwrap()@) == selection_of(input@),
{
    let parts = split_with_bracket_balance(input);
    let numbers = resolve_all(&parts);
    Some(sort_dedup(numbers))
}

/// The fraction that one piece writes as `a/b`, whitespace around it aside.
pub open spec fn fraction_of(piece: Seq<char>) -> Option<(int, int)> {
    pair_around(trimmed(piece), '/')
}

/// The fractions that the pieces write, in order; a piece that writes none is
/// passed over.
pub open spec fn fractions_of(ps: Seq<Seq<char>>) -> Seq<(int, int)>
    decreases ps.len(),
{
    if ps.len() == 0 {
        Seq::empty()
    } else {
        match fraction_of(ps.last()) {
            Some(f) => fractions_of(ps.drop_last()).push(f),
            None => fractions_of(ps.drop_last()),
        }
    }
}

/// Pairs of numbers as pairs of mathematical integers.
pub open spec fn int_pairs(v: Seq<(i64, i64)>) -> Seq<(int, int)> {
    v.map_values(|p: (i64, i64)| (p.0 as int, p.1 as int))
}

/// Reads line specifications as they come from a prompt.
pub struct ZeilenParser;

impl ZeilenParser {
    /// The selection that `input` names, whitespace around it aside.
    pub fn parse_to_numbers(input: &str) -> (out: Vec<i64>)
        ensures
            ints(out@) == selection_of(trimmed(input@)),
    {
        let chars = chars_of(input);
        let (a, b) = trim_bounds(&chars, 0, chars.len());
        proof {
            assert(chars@.subrange(0, chars.len() as int) =~= input@);
        }
        let inner = input.substring_char(a, b);
        let parts = split_with_bracket_balance(inner);
        let numbers = resolve_all(&parts);
        sort_dedup(numbers)
    }
    /// The fractions `a/b` that stand between the commas of `input`, numerator
    /// and denominator each, in the order written.
    ///
    /// The input is cut at every comma, brackets or not. A piece counts where,
    /// whitespace around it aside, it has exactly one `/` with a literal on
    /// each side; a fraction range such as `1/2-3/4` is passed over.
    pub fn parse_bruch_to_numbers(input: &str) -> (out: Vec<(i64, i64)>)
        ensures
            int_pairs(out@) == fractions_of(split_on(trimmed(input@), ',')),
    {
        let chars = chars_of(input);
        let (a, b) = trim_bounds(&chars, 0, chars.len());
        proof {
            assert(chars@.subrange(0, chars.len() as int) =~= input@);
        }
        let ghost ps = split_on(trimmed(input@), ',');
        let bounds = split_bounds(&chars, a, b, ',');
        let mut out: Vec<(i64, i64)> = Vec::new();
        let mut k: usize = 0;
        proof {
            assert(ps.take(0) =~= Seq::<Seq<char>>::empty());
            assert(int_pairs(out@) =~= Seq::<(int, int)>::empty());
        }
        while k < bounds.len()
            invariant
                k <= bounds.len() == ps.len(),
                forall|j: int|
                    0 <= j < bounds@.len() ==> (#[trigger] bounds@[j]).0 <= bounds@[j].1
                        <= chars.len() && chars@.subrange(
                        bounds@[j].0 as int,
                        bounds@[j].1 as int,
                    ) == ps[j],
                int_pairs(out@) == fractions_of(ps.take(k as int)),
            decreases bounds.len() - k,
        {
            let (lo, hi) = bounds[k];
            let (pa, pb) = trim_bounds(&chars, lo, hi);
            proof {
                assert(ps.take(k + 1).drop_last() =~= ps.take(k as int));
                assert(ps.take(k + 1).last() == ps[k as int]);
            }
            let ghost before = out@;
            match parse_pair(&chars, pa, pb, '/') {
                Some(f) => {
                    out.push(f);
                    proof {
                        assert(int_pairs(out@)
                            =~= int_pairs(before).push((f.0 as int, f.1 as int)));
                    }
                },
                None => {},
            }
            k += 1;
        }
        proof {
            assert(ps.take(k as int) =~= ps);
        }
        out
    }
}

} // verus!
