//! Characters of a string: whitespace and trimming, and cutting at a
//! separator.

use vstd::prelude::*;
use vstd::string::*;

verus! {

/// `String::push` appends `c`: afterwards the string holds the characters it
/// held before, and `c` behind them.
pub assume_specification[ String::push ](s: &mut String, c: char)
    ensures
        final(s)@ == old(s)@.push(c),
;

/// `s` in lower case, as `str::to_lowercase` gives it.
pub uninterp spec fn lowercase(s: Seq<char>) -> Seq<char>;

/// `str::to_lowercase` gives the lower case of a string by the rules of
/// Unicode, which depend on the characters of the string alone.
pub assume_specification[ str::to_lowercase ](s: &str) -> (r: String)
    ensures
        r@ == lowercase(s@),
;

/// `str::eq` says whether two string slices hold the same characters.
pub assume_specification[ <str as PartialEq>::eq ](a: &str, b: &str) -> (r: bool)
    ensures
        r == (a@ == b@),
;

/// The views of a sequence of strings.
pub open spec fn string_views(parts: Seq<String>) -> Seq<Seq<char>> {
    parts.map_values(|p: String| p@)
}

/// The characters of `text`, in order.
pub fn chars_of(text: &str) -> (out: Vec<char>)
    ensures
        out@ == text@,
{
    let mut out: Vec<char> = Vec::new();
    for c in it: text.chars()
        invariant
            it.seq() == text@,
            out@ == text@.take(it.index()),
    {
        out.push(c);
    }
    assert(out@ =~= text@);
    out
}

/// The string made of the characters `chars[from..to]`.
pub fn string_of(chars: &Vec<char>, from: usize, to: usize) -> (out: String)
    requires
        from <= to <= chars.len(),
    ensures
        out@ == chars@.subrange(from as int, to as int),
{
    let mut out = String::new();
    let mut i: usize = from;
    while i < to
        invariant
            from <= i <= to <= chars.len(),
            out@ == chars@.subrange(from as int, i as int),
        decreases to - i,
    {
        out.push(chars[i]);
        i += 1;
        assert(out@ =~= chars@.subrange(from as int, i as int));
    }
    out
}

/// Whether `c` has the Unicode property White_Space.
pub open spec fn is_whitespace(c: char) -> bool {
    let n = c as u32;
    ||| 0x09 <= n <= 0x0D
    ||| n == 0x20
    ||| n == 0x85
    ||| n == 0xA0
    ||| n == 0x1680
    ||| 0x2000 <= n <= 0x200A
    ||| n == 0x2028
    ||| n == 0x2029
    ||| n == 0x202F
    ||| n == 0x205F
    ||| n == 0x3000
}

/// Executable form of [`is_whitespace`].
pub fn char_is_whitespace(c: char) -> (r: bool)
    ensures
        r == is_whitespace(c),
{
    let n: u32 = c as u32;
    (0x09 <= n && n <= 0x0D) || n == 0x20 || n == 0x85 || n == 0xA0 || n == 0x1680 || (0x2000 <= n
        && n <= 0x200A) || n == 0x2028 || n == 0x2029 || n == 0x202F || n == 0x205F || n == 0x3000
}

/// Index of the first character of `s` that is not whitespace, or `s.len()`.
pub open spec fn trim_start_index(s: Seq<char>) -> int
    decreases s.len(),
{
    if s.len() == 0 || !is_whitespace(s[0]) {
        0
    } else {
        1 + trim_start_index(s.drop_first())
    }
}

/// One past the index of the last character of `s` that is not whitespace, or 0.
pub open spec fn trim_end_index(s: Seq<char>) -> int
    decreases s.len(),
{
    if s.len() == 0 || !is_whitespace(s.last()) {
        s.len() as int
    } else {
        trim_end_index(s.drop_last())
    }
}

/// `s` without its leading and trailing whitespace.
pub open spec fn trimmed(s: Seq<char>) -> Seq<char> {
    let from = trim_start_index(s);
    let to = trim_end_index(s);
    if from <= to {
        s.subrange(from, to)
    } else {
        Seq::empty()
    }
}

/// What the indices of a trim are: everything before `from` and from `to` on is
/// whitespace, and the characters at `from` and before `to` are not.
pub proof fn lemma_trim_indices(s: Seq<char>)
    ensures
        0 <= trim_start_index(s) <= s.len(),
        0 <= trim_end_index(s) <= s.len(),
        forall|i: int| 0 <= i < trim_start_index(s) ==> is_whitespace(#[trigger] s[i]),
        forall|i: int| trim_end_index(s) <= i < s.len() ==> is_whitespace(#[trigger] s[i]),
        trim_start_index(s) < s.len() ==> !is_whitespace(s[trim_start_index(s)]),
        trim_end_index(s) > 0 ==> !is_whitespace(s[trim_end_index(s) - 1]),
    decreases s.len(),
{
    if s.len() > 0 {
        if is_whitespace(s[0]) {
            let t = s.drop_first();
            lemma_trim_indices(t);
            assert forall|i: int| 0 <= i < trim_start_index(s) implies is_whitespace(
                #[trigger] s[i],
            ) by {
                if i > 0 {
                    assert(s[i] == t[i - 1]);
                }
            }
            if trim_start_index(s) < s.len() {
                assert(s[trim_start_index(s)] == t[trim_start_index(t)]);
            }
        }
        if is_whitespace(s.last()) {
            let t = s.drop_last();
            lemma_trim_indices(t);
            assert forall|i: int| trim_end_index(s) <= i < s.len() implies is_whitespace(
                #[trigger] s[i],
            ) by {
                if i < s.len() - 1 {
                    assert(s[i] == t[i]);
                }
            }
            if trim_end_index(s) > 0 {
                assert(s[trim_end_index(s) - 1] == t[trim_end_index(t) - 1]);
            }
        }
    }
}

/// The first index is the only one with whitespace before it and none at it.
pub proof fn lemma_trim_start_unique(s: Seq<char>, k: int)
    requires
        0 <= k <= s.len(),
        forall|i: int| 0 <= i < k ==> is_whitespace(#[trigger] s[i]),
        k < s.len() ==> !is_whitespace(s[k]),
    ensures
        trim_start_index(s) == k,
{
    lemma_trim_indices(s);
    let t = trim_start_index(s);
    if t < k {
        assert(is_whitespace(s[t]));
    } else if k < t {
        assert(is_whitespace(s[k]));
    }
}

/// The end index is the only one with whitespace from it on and none before it.
pub proof fn lemma_trim_end_unique(s: Seq<char>, k: int)
    requires
        0 <= k <= s.len(),
        forall|i: int| k <= i < s.len() ==> is_whitespace(#[trigger] s[i]),
        k > 0 ==> !is_whitespace(s[k - 1]),
    ensures
        trim_end_index(s) == k,
{
    lemma_trim_indices(s);
    let t = trim_end_index(s);
    if t < k {
        assert(is_whitespace(s[k - 1]));
    } else if k < t {
        assert(is_whitespace(s[t - 1]));
    }
}

/// The bounds of `chars[from..to]` without its leading and trailing
/// whitespace; both are the same where nothing is left.
pub fn trim_bounds(chars: &Vec<char>, from: usize, to: usize) -> (r: (usize, usize))
    requires
        from <= to <= chars.len(),
    ensures
        from <= r.0 <= r.1 <= to,
        chars@.subrange(r.0 as int, r.1 as int) == trimmed(
            chars@.subrange(from as int, to as int),
        ),
{
    let ghost s = chars@.subrange(from as int, to as int);
    let mut a: usize = from;
    while a < to && char_is_whitespace(chars[a])
        invariant
            from <= a <= to <= chars.len(),
            s == chars@.subrange(from as int, to as int),
            forall|i: int| 0 <= i < a - from ==> is_whitespace(#[trigger] s[i]),
        decreases to - a,
    {
        assert(s[a - from] == chars@[a as int]);
        a += 1;
    }
    let mut b: usize = to;
    while b > from && char_is_whitespace(chars[b - 1])
        invariant
            from <= b <= to <= chars.len(),
            s == chars@.subrange(from as int, to as int),
            forall|i: int| b - from <= i < s.len() ==> is_whitespace(#[trigger] s[i]),
        decreases b,
    {
        assert(s[b - 1 - from] == chars@[b - 1]);
        b -= 1;
    }
    proof {
        if a < to {
            assert(s[a - from] == chars@[a as int]);
        }
        if b > from {
            assert(s[b - 1 - from] == chars@[b - 1]);
        }
        lemma_trim_start_unique(s, a - from);
        lemma_trim_end_unique(s, b - from);
    }
    if a <= b {
        proof {
            assert(chars@.subrange(a as int, b as int) =~= s.subrange(a - from, b - from));
        }
        (a, b)
    } else {
        proof {
            assert(chars@.subrange(a as int, a as int) =~= Seq::<char>::empty());
        }
        (a, a)
    }
}

/// `s` cut at every `sep`: one piece more than `s` has separators.
pub open spec fn split_on(s: Seq<char>, sep: char) -> Seq<Seq<char>>
    decreases s.len(),
{
    if s.len() == 0 {
        seq![Seq::empty()]
    } else if s.last() == sep {
        split_on(s.drop_last(), sep).push(Seq::empty())
    } else {
        let before = split_on(s.drop_last(), sep);
        before.drop_last().push(before.last().push(s.last()))
    }
}

/// There is always a piece.
pub proof fn lemma_split_on_len(s: Seq<char>, sep: char)
    ensures
        split_on(s, sep).len() >= 1,
    decreases s.len(),
{
    if s.len() > 0 {
        lemma_split_on_len(s.drop_last(), sep);
    }
}

/// Where the pieces of `chars[from..to]`, cut at every `sep`, begin and end.
pub fn split_bounds(chars: &Vec<char>, from: usize, to: usize, sep: char) -> (out: Vec<
    (usize, usize),
>)
    requires
        from <= to <= chars.len(),
    ensures
        out@.len() == split_on(chars@.subrange(from as int, to as int), sep).len(),
        forall|k: int|
            0 <= k < out@.len() ==> from <= (#[trigger] out@[k]).0 <= out@[k].1 <= to
                && chars@.subrange(out@[k].0 as int, out@[k].1 as int) == split_on(
                chars@.subrange(from as int, to as int),
                sep,
            )[k],
{
    let ghost s = chars@.subrange(from as int, to as int);
    let mut out: Vec<(usize, usize)> = Vec::new();
    let mut start: usize = from;
    let mut i: usize = from;
    proof {
        assert(s.take(0).len() == 0);
        assert(s.subrange(0, 0) =~= Seq::<char>::empty());
        assert(split_on(s.take(0), sep) =~= seq![s.subrange(0, 0)]);
    }
    while i < to
        invariant
            from <= start <= i <= to <= chars.len(),
            s == chars@.subrange(from as int, to as int),
            split_on(s.take(i - from), sep).len() == out@.len() + 1,
            split_on(s.take(i - from), sep).last() == s.subrange(start - from, i - from),
            forall|k: int|
                0 <= k < out@.len() ==> from <= (#[trigger] out@[k]).0 <= out@[k].1 <= to
                    && chars@.subrange(out@[k].0 as int, out@[k].1 as int) == split_on(
                    s.take(i - from),
                    sep,
                )[k],
        decreases to - i,
    {
        let ghost before = split_on(s.take(i - from), sep);
        let ghost now = split_on(s.take(i + 1 - from), sep);
        proof {
            assert(s.take(i + 1 - from).drop_last() =~= s.take(i - from));
            assert(s.take(i + 1 - from).last() == chars@[i as int]);
        }
        if chars[i] == sep {
            proof {
                assert(chars@.subrange(start as int, i as int) =~= s.subrange(
                    start - from,
                    i - from,
                ));
            }
            out.push((start, i));
            start = i + 1;
            proof {
                assert(now == before.push(Seq::empty()));
                assert(now.last() =~= s.subrange(start - from, i + 1 - from));
                assert forall|k: int| 0 <= k < out@.len() implies chars@.subrange(
                    (#[trigger] out@[k]).0 as int,
                    out@[k].1 as int,
                ) == now[k] by {
                    assert(now[k] == before[k]);
                }
            }
        } else {
            proof {
                assert(now == before.drop_last().push(before.last().push(chars@[i as int])));
                assert(now.last() =~= s.subrange(start - from, i + 1 - from));
                assert forall|k: int| 0 <= k < out@.len() implies chars@.subrange(
                    (#[trigger] out@[k]).0 as int,
                    out@[k].1 as int,
                ) == now[k] by {
                    assert(now[k] == before[k]);
                }
            }
        }
        i += 1;
    }
    proof {
        assert(s.take(to - from) =~= s);
        assert(chars@.subrange(start as int, to as int) =~= s.subrange(start - from, to - from));
    }
    out.push((start, to));
    out
}

/// A copy of `words`.
pub fn copy_words(words: &Vec<String>) -> (out: Vec<String>)
    ensures
        out@ == words@,
{
    let mut out: Vec<String> = Vec::new();
    let mut i: usize = 0;
    while i < words.len()
        invariant
            i <= words.len(),
            out@ == words@.take(i as int),
        decreases words.len() - i,
    {
        out.push(words[i].clone());
        i += 1;
        assert(out@ =~= words@.take(i as int));
    }
    assert(words@.take(words.len() as int) =~= words@);
    out
}

} // verus!
