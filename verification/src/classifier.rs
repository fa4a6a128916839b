//! Deciding whether a line specification is one, and of which kind.
//!
//! There are three ways of accepting a specification, token by token:
//!
//! * as integers: every token matches the integer pattern, or is a generator,
//!   or is a generator behind one leading character that is no digit, no `-`
//!   and no `v`;
//! * as fractions: every token matches the fraction pattern;
//! * mixed: every token is acceptable in one way or the other.
//!
//! The first two let empty tokens pass, as a leading, trailing or doubled comma
//! leaves them, provided some token is not empty. The mixed way does not.

use vstd::prelude::*;
use vstd::string::*;
use crate::generator::{expand_chars, expand_generator};
use crate::numbers::is_digit;
use crate::patterns::{pattern_accepts, Patterns, ZEILEN_BRUCH_PATTERN, ZEILEN_PATTERN};
use crate::split::{split_with_bracket_balance, tokens, views};
use crate::text::chars_of;

verus! {

/// Whether `g` is a fraction token.
pub open spec fn is_fraction_token(g: Seq<char>) -> bool {
    pattern_accepts(ZEILEN_BRUCH_PATTERN@, g)
}

/// Whether `g` begins with a character behind which a generator may stand.
pub open spec fn has_generator_prefix(g: Seq<char>) -> bool {
    g.len() > 0 && !is_digit(g[0]) && g[0] != '-' && g[0] != 'v'
}

/// Whether `g` is a generator, as it stands or behind one leading character.
pub open spec fn holds_generator(g: Seq<char>) -> bool {
    expand_generator(g) is Some || (has_generator_prefix(g) && expand_generator(
        g.drop_first(),
    ) is Some)
}

/// Whether `g` is an integer token.
pub open spec fn is_integer_token(g: Seq<char>) -> bool {
    pattern_accepts(ZEILEN_PATTERN@, g) || holds_generator(g)
}

/// Whether some part is not empty.
pub open spec fn any_nonempty(parts: Seq<Seq<char>>) -> bool {
    exists|k: int| 0 <= k < parts.len() && (#[trigger] parts[k]).len() > 0
}

/// Whether token `k` passes: `accepted` says so of it, or it is empty and some
/// token is not. A token of which `accepted` says nothing is not accepted.
pub open spec fn token_passes(accepted: Seq<bool>, parts: Seq<Seq<char>>, k: int) -> bool {
    (0 <= k < accepted.len() && accepted[k]) || (parts[k].len() == 0 && any_nonempty(parts))
}

/// Whether every token passes.
pub open spec fn all_accepted(accepted: Seq<bool>, parts: Seq<Seq<char>>) -> bool {
    forall|k: int| 0 <= k < parts.len() ==> #[trigger] token_passes(accepted, parts, k)
}

/// Whether `text` is a specification of integer rows.
pub open spec fn is_strict_integer(text: Seq<char>) -> bool {
    let parts = tokens(text);
    all_accepted(parts.map_values(|g: Seq<char>| is_integer_token(g)), parts)
}

/// Whether `text` is a specification of fractions.
pub open spec fn is_strict_fraction(text: Seq<char>) -> bool {
    let parts = tokens(text);
    all_accepted(parts.map_values(|g: Seq<char>| is_fraction_token(g)), parts)
}

/// Whether every token of `text` is a fraction token or an integer token.
pub open spec fn is_mixed(text: Seq<char>) -> bool {
    let parts = tokens(text);
    forall|k: int|
        0 <= k < parts.len() ==> is_fraction_token(#[trigger] parts[k]) || is_integer_token(
            parts[k],
        )
}

/// Whether `g` is a fraction token.
pub fn is_zeilen_bruch_angabe_between_kommas(patterns: &Patterns, g: &str) -> (r: bool)
    ensures
        r == is_fraction_token(g@),
{
    patterns.matches_fraction(g)
}

/// Whether `g` is a generator, as it stands or behind one leading character
/// that is no digit, no `-` and no `v`.
pub fn token_holds_generator(g: &str) -> (r: bool)
    ensures
        r == holds_generator(g@),
{
    let chars = chars_of(g);
    let n = chars.len();
    proof {
        assert(chars@.subrange(0, n as int) =~= g@);
    }
    if expand_chars(&chars, 0, n).is_some() {
        return true;
    }
    if n > 0 {
        let first = chars[0];
        let code: u32 = first as u32;
        if !(0x30 <= code && code <= 0x39) && first != '-' && first != 'v' {
            proof {
                assert(chars@.subrange(1, n as int) =~= g@.drop_first());
            }
            return expand_chars(&chars, 1, n).is_some();
        }
    }
    false
}

/// Whether a token is an integer token, given whether it matches the integer
/// pattern.
pub fn token_is_integer(matches_pattern: bool, g: &str) -> (r: bool)
    ensures
        r == (matches_pattern || holds_generator(g@)),
{
    matches_pattern || token_holds_generator(g)
}

/// Whether `g` is an integer token.
pub fn is_zeilen_angabe_between_kommas(patterns: &Patterns, g: &str) -> (r: bool)
    ensures
        r == is_integer_token(g@),
{
    token_is_integer(patterns.matches_integer(g), g)
}

/// Whether `g` is an integer token. The rule is that of
/// [`is_zeilen_angabe_between_kommas`]; the pattern is tried first, and the
/// token is read as a generator only where the pattern fails.
pub fn is_zeilen_angabe_between_kommas_optimized(patterns: &Patterns, g: &str) -> (r: bool)
    ensures
        r == is_integer_token(g@),
{
    if patterns.matches_integer(g) {
        return true;
    }
    token_holds_generator(g)
}

/// Whether every token is accepted: `accepted[k]` says so of `parts[k]`, and
/// an empty token passes if some token is not empty.
pub fn accepts_all(accepted: &Vec<bool>, parts: &Vec<&str>) -> (r: bool)
    ensures
        r == all_accepted(accepted@, views(parts@)),
{
    let ghost vs = views(parts@);
    let mut any: bool = false;
    let mut i: usize = 0;
    while i < parts.len()
        invariant
            i <= parts.len(),
            vs == views(parts@),
            any == exists|k: int| 0 <= k < i && (#[trigger] vs[k]).len() > 0,
        decreases parts.len() - i,
    {
        if !parts[i].is_empty() {
            any = true;
            assert(vs[i as int].len() > 0);
        } else {
            assert(vs[i as int].len() == 0);
        }
        i += 1;
    }
    assert(any == any_nonempty(vs));
    let mut j: usize = 0;
    while j < parts.len()
        invariant
            j <= parts.len(),
            vs == views(parts@),
            any == any_nonempty(vs),
            forall|k: int|
                0 <= k < j ==> #[trigger] token_passes(accepted@, vs, k),
        decreases parts.len() - j,
    {
        let accepted_here = if j < accepted.len() {
            accepted[j]
        } else {
            false
        };
        let empty_here = parts[j].is_empty();
        assert(vs[j as int] == parts@[j as int]@);
        assert(empty_here == (vs[j as int].len() == 0));
        if !(accepted_here || (empty_here && any)) {
            assert(!token_passes(accepted@, vs, j as int));
            return false;
        }
        assert(token_passes(accepted@, vs, j as int));
        j += 1;
    }
    true
}

/// Whether `text` is a specification of integer rows.
pub fn is_zeilen_angabe(patterns: &Patterns, text: &str) -> (r: bool)
    ensures
        r == is_strict_integer(text@),
{
    let parts = split_with_bracket_balance(text);
    let mut accepted: Vec<bool> = Vec::new();
    let mut i: usize = 0;
    while i < parts.len()
        invariant
            i <= parts.len(),
            accepted@.len() == i,
            forall|k: int| 0 <= k < i ==> (#[trigger] accepted@[k]) == is_integer_token(parts@[k]@),
        decreases parts.len() - i,
    {
        accepted.push(is_zeilen_angabe_between_kommas(patterns, parts[i]));
        i += 1;
    }
    proof {
        assert(accepted@ =~= tokens(text@).map_values(|g: Seq<char>| is_integer_token(g)));
    }
    accepts_all(&accepted, &parts)
}

/// Whether `text` is a specification of fractions.
pub fn is_zeilen_bruch_angabe(patterns: &Patterns, text: &str) -> (r: bool)
    ensures
        r == is_strict_fraction(text@),
{
    let parts = split_with_bracket_balance(text);
    let mut accepted: Vec<bool> = Vec::new();
    let mut i: usize = 0;
    while i < parts.len()
        invariant
            i <= parts.len(),
            accepted@.len() == i,
            forall|k: int|
                0 <= k < i ==> (#[trigger] accepted@[k]) == is_fraction_token(parts@[k]@),
        decreases parts.len() - i,
    {
        accepted.push(is_zeilen_bruch_angabe_between_kommas(patterns, parts[i]));
        i += 1;
    }
    proof {
        assert(accepted@ =~= tokens(text@).map_values(|g: Seq<char>| is_fraction_token(g)));
    }
    accepts_all(&accepted, &parts)
}

/// Whether every token of `text` is a fraction token or an integer token.
pub fn is_zeilen_bruch_or_ganz_zahl_angabe(patterns: &Patterns, text: &str) -> (r: bool)
    ensures
        r == is_mixed(text@),
{
    let parts = split_with_bracket_balance(text);
    let mut i: usize = 0;
    while i < parts.len()
        invariant
            i <= parts.len(),
            views(parts@) == tokens(text@),
            forall|k: int|
                0 <= k < i ==> is_fraction_token(#[trigger] views(parts@)[k]) || is_integer_token(
                    views(parts@)[k],
                ),
        decreases parts.len() - i,
    {
        let g = parts[i];
        assert(views(parts@)[i as int] == g@);
        if !(is_zeilen_bruch_angabe_between_kommas(patterns, g) || is_zeilen_angabe_between_kommas(
            patterns,
            g,
        )) {
            return false;
        }
        i += 1;
    }
    true
}

} // verus!
