//! Splitting a line specification at its top-level commas.
//!
//! A comma separates two tokens only where no bracket of any of the three
//! families `[]`, `{}` and `()` is open. Each family is counted on its own, and
//! a closing bracket with nothing open drives its count below zero, where it
//! stays: after a stray closing bracket no later comma separates anything,
//! unless the same family is opened again as often.

use vstd::prelude::*;
use vstd::string::*;
use crate::text::chars_of;

verus! {

/// How many more `open` than `close` stand among the first `n` characters of `s`.
pub open spec fn depth(s: Seq<char>, open: char, close: char, n: int) -> int
    decreases n,
{
    if n <= 0 {
        0
    } else {
        depth(s, open, close, n - 1) + if s[n - 1] == open {
            1int
        } else if s[n - 1] == close {
            -1int
        } else {
            0int
        }
    }
}

/// Whether all three bracket families are at depth zero before position `n`.
pub open spec fn at_top_level(s: Seq<char>, n: int) -> bool {
    &&& depth(s, '[', ']', n) == 0
    &&& depth(s, '{', '}', n) == 0
    &&& depth(s, '(', ')', n) == 0
}

/// Whether position `i` of `s` holds a comma that separates two tokens.
pub open spec fn is_separator(s: Seq<char>, i: int) -> bool {
    &&& 0 <= i < s.len()
    &&& s[i] == ','
    &&& at_top_level(s, i)
}

/// The separators of `s` below position `n`, ascending.
pub open spec fn separators(s: Seq<char>, n: int) -> Seq<int>
    decreases n,
{
    if n <= 0 {
        Seq::empty()
    } else if is_separator(s, n - 1) {
        separators(s, n - 1).push(n - 1)
    } else {
        separators(s, n - 1)
    }
}

/// Where the token after the separators `cuts` begins.
pub open spec fn token_start(cuts: Seq<int>) -> int {
    if cuts.len() == 0 {
        0
    } else {
        cuts.last() + 1
    }
}

/// The tokens that the separators `cuts` (all below `n`) end, in order.
pub open spec fn closed_tokens(s: Seq<char>, cuts: Seq<int>) -> Seq<Seq<char>>
    decreases cuts.len(),
{
    if cuts.len() == 0 {
        Seq::empty()
    } else {
        closed_tokens(s, cuts.drop_last()).push(
            s.subrange(token_start(cuts.drop_last()), cuts.last()),
        )
    }
}

/// The tokens of `s`: what stands between its separators, the part before the
/// first and the part after the last included. There is always at least one.
pub open spec fn tokens(s: Seq<char>) -> Seq<Seq<char>> {
    let cuts = separators(s, s.len() as int);
    closed_tokens(s, cuts).push(s.subrange(token_start(cuts), s.len() as int))
}

/// The views of a sequence of string slices.
pub open spec fn views(parts: Seq<&str>) -> Seq<Seq<char>> {
    parts.map_values(|p: &str| p@)
}

/// The separators below `n` are exactly the positions below `n` that are
/// separators, in ascending order.
pub proof fn lemma_separators(s: Seq<char>, n: int)
    requires
        0 <= n <= s.len(),
    ensures
        forall|k: int|
            0 <= k < separators(s, n).len() ==> 0 <= #[trigger] separators(s, n)[k] < n
                && is_separator(s, separators(s, n)[k]),
        forall|j: int, k: int|
            0 <= j < k < separators(s, n).len() ==> separators(s, n)[j] < separators(s, n)[k],
        forall|i: int|
            0 <= i < n && is_separator(s, i) ==> separators(s, n).contains(i),
        0 <= token_start(separators(s, n)) <= n,
        separators(s, n).len() <= n,
    decreases n,
{
    if n > 0 {
        lemma_separators(s, n - 1);
        let before = separators(s, n - 1);
        let now = separators(s, n);
        if is_separator(s, n - 1) {
            assert(now[now.len() - 1] == n - 1);
            assert forall|i: int| 0 <= i < n && is_separator(s, i) implies now.contains(i) by {
                if i < n - 1 {
                    let k = choose|k: int| 0 <= k < before.len() && before[k] == i;
                    assert(now[k] == i);
                } else {
                    assert(now[now.len() - 1] == i);
                }
            }
        }
    }
}

/// Counts the character at position `n` of `s` into the depth of a bracket
/// family.
fn count_bracket(
    d: i128,
    c: char,
    open: char,
    close: char,
    Ghost(s): Ghost<Seq<char>>,
    Ghost(n): Ghost<int>,
) -> (r: i128)
    requires
        0 <= n < s.len(),
        n <= usize::MAX,
        s[n] == c,
        d == depth(s, open, close, n),
        -n <= d <= n,
    ensures
        r == depth(s, open, close, n + 1),
        -(n + 1) <= r <= n + 1,
{
    if c == open {
        d + 1
    } else if c == close {
        d - 1
    } else {
        d
    }
}

/// Splits `text` at every comma that stands outside all brackets.
///
/// The result holds [`tokens`] of the text: one token more than there are
/// separators, empty tokens included, so an empty text gives one empty token.
pub fn split_with_bracket_balance(text: &str) -> (result: Vec<&str>)
    ensures
        views(result@) == tokens(text@),
{
    let chars = chars_of(text);
    let n = chars.len();
    let mut result: Vec<&str> = Vec::new();
    let mut start: usize = 0;
    let mut bracket: i128 = 0;
    let mut brace: i128 = 0;
    let mut paren: i128 = 0;
    let mut i: usize = 0;
    while i < n
        invariant
            i <= n == chars.len(),
            chars@ == text@,
            bracket == depth(text@, '[', ']', i as int),
            brace == depth(text@, '{', '}', i as int),
            paren == depth(text@, '(', ')', i as int),
            -i <= bracket <= i,
            -i <= brace <= i,
            -i <= paren <= i,
            start == token_start(separators(text@, i as int)),
            start <= i,
            views(result@) == closed_tokens(text@, separators(text@, i as int)),
        decreases n - i,
    {
        let c = chars[i];
        if c == ',' && bracket == 0 && brace == 0 && paren == 0 {
            let token = text.substring_char(start, i);
            proof {
                let cuts = separators(text@, i as int);
                let next = separators(text@, i + 1);
                assert(is_separator(text@, i as int));
                assert(next == cuts.push(i as int));
                assert(next.drop_last() =~= cuts);
                assert(views(result@.push(token)) =~= views(result@).push(token@));
            }
            result.push(token);
            start = i + 1;
        } else {
            proof {
                assert(!is_separator(text@, i as int));
            }
        }
        bracket = count_bracket(bracket, c, '[', ']', Ghost(text@), Ghost(i as int));
        brace = count_bracket(brace, c, '{', '}', Ghost(text@), Ghost(i as int));
        paren = count_bracket(paren, c, '(', ')', Ghost(text@), Ghost(i as int));
        i += 1;
    }
    let last = text.substring_char(start, n);
    proof {
        assert(views(result@.push(last)) =~= views(result@).push(last@));
    }
    result.push(last);
    result
}

/// Splits `text` at every comma that no bracket before it leaves open: the
/// tokens are those of [`split_with_bracket_balance`].
pub fn split_with_lookahead(text: &str) -> (result: Vec<&str>)
    ensures
        views(result@) == tokens(text@),
{
    split_with_bracket_balance(text)
}

/// Splits `text` at every comma that no bracket before it leaves open: the
/// tokens are those of [`split_with_bracket_balance`].
pub fn split_with_lookahead_optimized(text: &str) -> (result: Vec<&str>)
    ensures
        views(result@) == tokens(text@),
{
    split_with_bracket_balance(text)
}

/// Whether position `j` of `s` holds a closing bracket while none of its
/// family is open.
pub open spec fn closes_unopened(s: Seq<char>, j: int) -> bool {
    &&& 0 <= j < s.len()
    &&& {
        ||| s[j] == ']' && depth(s, '[', ']', j) <= 0
        ||| s[j] == '}' && depth(s, '{', '}', j) <= 0
        ||| s[j] == ')' && depth(s, '(', ')', j) <= 0
    }
}

/// Whether a closing bracket with nothing of its family open stands in `s`
/// before the first separator of `s`.
pub open spec fn unmatched_closing_ahead(s: Seq<char>) -> bool {
    exists|j: int| #[trigger]
        closes_unopened(s, j) && forall|k: int| 0 <= k < j ==> !is_separator(s, k)
}

/// Looks ahead in `chars` for a closing bracket that nothing in `chars` opened,
/// and stops looking at the first comma outside all brackets.
pub fn has_unmatched_closing_bracket_ahead(chars: &[char]) -> (found: bool)
    ensures
        found == unmatched_closing_ahead(chars@),
{
    let n = chars.len();
    let mut bracket: i128 = 0;
    let mut brace: i128 = 0;
    let mut paren: i128 = 0;
    let mut i: usize = 0;
    while i < n
        invariant
            i <= n == chars.len(),
            bracket == depth(chars@, '[', ']', i as int),
            brace == depth(chars@, '{', '}', i as int),
            paren == depth(chars@, '(', ')', i as int),
            -i <= bracket <= i,
            -i <= brace <= i,
            -i <= paren <= i,
            forall|k: int| 0 <= k < i ==> !is_separator(chars@, k),
            forall|k: int| 0 <= k < i ==> !closes_unopened(chars@, k),
        decreases n - i,
    {
        let c = chars[i];
        if (c == ']' && bracket <= 0) || (c == '}' && brace <= 0) || (c == ')' && paren <= 0) {
            proof {
                assert(closes_unopened(chars@, i as int));
            }
            return true;
        }
        if c == ',' && bracket == 0 && brace == 0 && paren == 0 {
            proof {
                assert(is_separator(chars@, i as int));
                assert(!closes_unopened(chars@, i as int));
                assert forall|j: int| #[trigger] closes_unopened(chars@, j) implies !(forall|k: int|
                    0 <= k < j ==> !is_separator(chars@, k)) by {
                    assert(j > i);
                }
            }
            return false;
        }
        proof {
            assert(!is_separator(chars@, i as int));
            assert(!closes_unopened(chars@, i as int));
        }
        bracket = count_bracket(bracket, c, '[', ']', Ghost(chars@), Ghost(i as int));
        brace = count_bracket(brace, c, '{', '}', Ghost(chars@), Ghost(i as int));
        paren = count_bracket(paren, c, '(', ')', Ghost(chars@), Ghost(i as int));
        i += 1;
    }
    false
}

/// The parts written one after the other with a comma between each two.
pub open spec fn joined(parts: Seq<Seq<char>>) -> Seq<char>
    decreases parts.len(),
{
    if parts.len() == 0 {
        Seq::empty()
    } else if parts.len() == 1 {
        parts[0]
    } else {
        joined(parts.drop_last()).push(',') + parts.last()
    }
}

/// The tokens found among the first `n` characters, the open one included.
pub open spec fn tokens_upto(s: Seq<char>, n: int) -> Seq<Seq<char>> {
    let cuts = separators(s, n);
    closed_tokens(s, cuts).push(s.subrange(token_start(cuts), n))
}

proof fn lemma_joined_extend(parts: Seq<Seq<char>>, open: Seq<char>, c: char)
    ensures
        joined(parts.push(open.push(c))) == joined(parts.push(open)).push(c),
{
    let a = parts.push(open.push(c));
    let b = parts.push(open);
    if parts.len() > 0 {
        assert(a.drop_last() =~= parts);
        assert(b.drop_last() =~= parts);
        assert(joined(a) =~= joined(b).push(c));
    } else {
        assert(joined(a) =~= joined(b).push(c));
    }
}

proof fn lemma_rejoin_upto(s: Seq<char>, n: int)
    requires
        0 <= n <= s.len(),
    ensures
        joined(tokens_upto(s, n)) == s.take(n),
    decreases n,
{
    if n == 0 {
        assert(joined(tokens_upto(s, 0)) =~= s.take(0));
    } else {
        lemma_rejoin_upto(s, n - 1);
        lemma_separators(s, n - 1);
        let cuts = separators(s, n - 1);
        let start = token_start(cuts);
        let done = closed_tokens(s, cuts);
        let open = s.subrange(start, n - 1);
        if is_separator(s, n - 1) {
            let next = cuts.push(n - 1);
            assert(next.drop_last() =~= cuts);
            assert(closed_tokens(s, next) == done.push(open));
            let all = done.push(open).push(s.subrange(n, n));
            assert(tokens_upto(s, n) == all);
            assert(all.drop_last() =~= done.push(open));
            assert(joined(all) =~= s.take(n - 1).push(','));
            assert(s.take(n - 1).push(',') =~= s.take(n));
        } else {
            assert(s.subrange(start, n) =~= open.push(s[n - 1]));
            lemma_joined_extend(done, open, s[n - 1]);
            assert(s.take(n - 1).push(s[n - 1]) =~= s.take(n));
        }
    }
}

/// Splitting loses nothing: the tokens of `s`, joined by commas, are `s`.
pub proof fn lemma_tokens_rejoin(s: Seq<char>)
    ensures
        joined(tokens(s)) == s,
{
    lemma_rejoin_upto(s, s.len() as int);
    assert(s.take(s.len() as int) =~= s);
}

} // verus!
