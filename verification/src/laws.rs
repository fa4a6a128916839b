//! What holds between writing a selection and reading it back.

use vstd::prelude::*;
use crate::compress::{compressed, render_run, rendered, runs};
use crate::generator::{closing_of, expand_generator, is_bracketed};
use crate::numbers::{
    all_digits, decimal, digits_of, is_digit, lemma_digits_of, lemma_parse_decimal,
    parse_int, unsigned_part,
};
use crate::selection::{
    lemma_sorted_unique, lemma_sorted_unique_fixed, same_elements, sorted_unique,
    strictly_increasing,
};
use crate::split::{
    closed_tokens, depth, is_separator, joined, lemma_separators, separators,
    token_start, tokens, tokens_upto,
};
use crate::text::{
    lemma_split_on_len, lemma_trim_end_unique, lemma_trim_start_unique, split_on, trimmed,
};
use crate::zeilen_parser::{
    generator_in, has_decorative_prefix, lemma_only_at_unique, only_at,
    range_of, resolve, resolve_tokens, selection_of, span, without_marker,
};

verus! {

/// Whether `c` is one of the six brackets.
pub open spec fn is_bracket(c: char) -> bool {
    c == '[' || c == ']' || c == '{' || c == '}' || c == '(' || c == ')'
}

/// Whether `s` holds no bracket.
pub open spec fn bracket_free(s: Seq<char>) -> bool {
    forall|i: int| 0 <= i < s.len() ==> !is_bracket(#[trigger] s[i])
}

/// Whether `s` holds no comma.
pub open spec fn comma_free(s: Seq<char>) -> bool {
    forall|i: int| 0 <= i < s.len() ==> (#[trigger] s[i]) != ','
}

/// Without brackets every depth is zero.
proof fn lemma_depth_bracket_free(s: Seq<char>, open: char, close: char, n: int)
    requires
        bracket_free(s),
        is_bracket(open),
        is_bracket(close),
        0 <= n <= s.len(),
    ensures
        depth(s, open, close, n) == 0,
    decreases n,
{
    if n > 0 {
        lemma_depth_bracket_free(s, open, close, n - 1);
        assert(!is_bracket(s[n - 1]));
    }
}

/// Without brackets the tokens among the first `n` characters are that prefix
/// cut at every comma.
proof fn lemma_tokens_upto_are_pieces(s: Seq<char>, n: int)
    requires
        bracket_free(s),
        0 <= n <= s.len(),
    ensures
        tokens_upto(s, n) == split_on(s.take(n), ','),
    decreases n,
{
    if n == 0 {
        assert(s.subrange(0, 0) =~= Seq::<char>::empty());
        assert(tokens_upto(s, 0) =~= seq![Seq::<char>::empty()]);
        assert(s.take(0).len() == 0);
    } else {
        lemma_tokens_upto_are_pieces(s, n - 1);
        lemma_separators(s, n - 1);
        lemma_depth_bracket_free(s, '[', ']', n - 1);
        lemma_depth_bracket_free(s, '{', '}', n - 1);
        lemma_depth_bracket_free(s, '(', ')', n - 1);
        let cuts = separators(s, n - 1);
        let start = token_start(cuts);
        let done = closed_tokens(s, cuts);
        let open = s.subrange(start, n - 1);
        let p = s.take(n);
        assert(p.drop_last() =~= s.take(n - 1));
        assert(p.last() == s[n - 1]);
        if s[n - 1] == ',' {
            assert(is_separator(s, n - 1));
            let next = cuts.push(n - 1);
            assert(next.drop_last() =~= cuts);
            assert(closed_tokens(s, next) == done.push(open));
            assert(s.subrange(n, n) =~= Seq::<char>::empty());
            assert(tokens_upto(s, n) =~= tokens_upto(s, n - 1).push(Seq::empty()));
        } else {
            assert(!is_separator(s, n - 1));
            assert(s.subrange(start, n) =~= open.push(s[n - 1]));
            let before = tokens_upto(s, n - 1);
            assert(before.drop_last() =~= done);
            assert(before.last() == open);
            assert(tokens_upto(s, n) =~= before.drop_last().push(before.last().push(s[n - 1])));
        }
    }
}

/// Without brackets the tokens of `s` are `s` cut at every comma.
pub proof fn lemma_tokens_are_pieces(s: Seq<char>)
    requires
        bracket_free(s),
    ensures
        tokens(s) == split_on(s, ','),
{
    lemma_tokens_upto_are_pieces(s, s.len() as int);
    assert(s.take(s.len() as int) =~= s);
}

/// Characters without a comma, written behind `s`, go on the last piece.
proof fn lemma_pieces_append(s: Seq<char>, t: Seq<char>)
    requires
        comma_free(t),
    ensures
        split_on(s + t, ',') == split_on(s, ',').drop_last().push(split_on(s, ',').last() + t),
    decreases t.len(),
{
    lemma_split_on_len(s, ',');
    if t.len() == 0 {
        assert(s + t =~= s);
        assert(split_on(s, ',').last() + t =~= split_on(s, ',').last());
        assert(split_on(s, ',').drop_last().push(split_on(s, ',').last()) =~= split_on(s, ','));
    } else {
        let t0 = t.drop_last();
        lemma_pieces_append(s, t0);
        assert((s + t).drop_last() =~= s + t0);
        assert((s + t).last() == t.last());
        assert(t.last() != ',');
        let before = split_on(s + t0, ',');
        assert(before.drop_last() =~= split_on(s, ',').drop_last());
        assert(before.last().push(t.last()) =~= split_on(s, ',').last() + t);
    }
}

/// Parts without commas, joined by commas and cut at every comma, are the
/// parts again.
pub proof fn lemma_pieces_of_joined(parts: Seq<Seq<char>>)
    requires
        parts.len() >= 1,
        forall|k: int| 0 <= k < parts.len() ==> comma_free(#[trigger] parts[k]),
    ensures
        split_on(joined(parts), ',') == parts,
    decreases parts.len(),
{
    let empty = Seq::<char>::empty();
    if parts.len() == 1 {
        lemma_pieces_append(empty, parts[0]);
        assert(empty + parts[0] =~= parts[0]);
        assert(split_on(empty, ',') =~= seq![empty]);
        assert(split_on(joined(parts), ',') =~= parts);
    } else {
        let head = parts.drop_last();
        assert forall|k: int| 0 <= k < head.len() implies comma_free(#[trigger] head[k]) by {
            assert(head[k] == parts[k]);
        }
        lemma_pieces_of_joined(head);
        let j = joined(head);
        assert(j.push(',').drop_last() =~= j);
        assert(split_on(j.push(','), ',') == head.push(empty));
        lemma_pieces_append(j.push(','), parts.last());
        assert(head.push(empty).drop_last() =~= head);
        assert(empty + parts.last() =~= parts.last());
        assert(split_on(joined(parts), ',') =~= parts);
    }
}

/// What is written for a number is digits, behind a `-` where it is negative.
proof fn lemma_decimal_chars(n: int)
    ensures
        decimal(n).len() >= 1,
        n >= 0 ==> all_digits(decimal(n)),
        n < 0 ==> decimal(n)[0] == '-' && all_digits(decimal(n).drop_first()),
        forall|i: int|
            0 <= i < decimal(n).len() ==> is_digit(#[trigger] decimal(n)[i]) || decimal(n)[i]
                == '-',
{
    if n < 0 {
        lemma_digits_of((-n) as nat);
        let d = digits_of((-n) as nat);
        assert(decimal(n).drop_first() =~= d);
        assert forall|i: int| 0 <= i < decimal(n).len() implies is_digit(
            #[trigger] decimal(n)[i],
        ) || decimal(n)[i] == '-' by {
            if i > 0 {
                assert(decimal(n)[i] == d[i - 1]);
            }
        }
    } else {
        lemma_digits_of(n as nat);
    }
}

/// Whether every character of `s` is a digit or a `-`.
spec fn digits_and_dashes(s: Seq<char>) -> bool {
    forall|i: int| 0 <= i < s.len() ==> is_digit(#[trigger] s[i]) || s[i] == '-'
}

/// A text of digits and dashes holds no generator and has no marker, and
/// trimming leaves it as it is.
proof fn lemma_plain_token(s: Seq<char>)
    requires
        digits_and_dashes(s),
    ensures
        without_marker(s) == s,
        generator_in(s) is None,
        comma_free(s),
        bracket_free(s),
{
    if s.len() > 0 {
        assert(is_digit(s[0]) || s[0] == '-');
        assert(is_digit(s.last()) || s.last() == '-');
        lemma_trim_start_unique(s, 0);
        lemma_trim_end_unique(s, s.len() as int);
        assert(s.subrange(0, s.len() as int) =~= s);
        assert(trimmed(s) == s);
        assert(closing_of(s[0]) is None);
        assert(!is_bracketed(s));
    } else {
        assert(trimmed(s).len() == 0);
    }
    assert(expand_generator(s) is None);
    assert(!has_decorative_prefix(s));
    assert forall|i: int| 0 <= i < s.len() implies (#[trigger] s[i]) != ',' by {
        assert(is_digit(s[i]) || s[i] == '-');
    }
    assert forall|i: int| 0 <= i < s.len() implies !is_bracket(#[trigger] s[i]) by {
        assert(is_digit(s[i]) || s[i] == '-');
    }
}

/// Whether a run can be written and read back: its numbers fit an `i64`, and
/// it is a single number or begins at zero or above.
pub open spec fn readable_run(run: (int, int)) -> bool {
    &&& i64::MIN <= run.0 <= run.1 <= i64::MAX
    &&& run.0 == run.1 || run.0 >= 0
}

/// A run as it is written is digits and dashes.
proof fn lemma_render_run_chars(run: (int, int))
    ensures
        digits_and_dashes(render_run(run)),
{
    lemma_decimal_chars(run.0);
    lemma_decimal_chars(run.1);
    let s = render_run(run);
    let a = decimal(run.0);
    let b = decimal(run.1);
    assert forall|i: int| 0 <= i < s.len() implies is_digit(#[trigger] s[i]) || s[i] == '-' by {
        if run.0 != run.1 {
            if i < a.len() {
                assert(s[i] == a[i]);
            } else if i > a.len() {
                assert(s[i] == b[i - a.len() - 1]);
            }
        }
    }
}

/// A single number, as it is written, names itself.
proof fn lemma_resolve_single(a: int)
    requires
        i64::MIN <= a <= i64::MAX,
    ensures
        resolve(decimal(a)) == seq![a],
{
    let s = decimal(a);
    lemma_decimal_chars(a);
    lemma_plain_token(s);
    lemma_parse_decimal(a);
    if exists|d: int| only_at(s, '-', d) {
        let d = choose|d: int| only_at(s, '-', d);
        assert(s[d] == '-');
        if a >= 0 {
            assert(is_digit(s[d]));
        } else {
            if d > 0 {
                assert(s.drop_first()[d - 1] == s[d]);
                assert(is_digit(s.drop_first()[d - 1]));
            }
            assert(d == 0);
            assert(s.take(0).len() == 0);
            assert(unsigned_part(s.take(0)).len() == 0);
            assert(parse_int(s.take(0)) is None);
        }
        assert(range_of(s) is None);
    }
}

/// A run of two numbers or more that begins at zero or above, as it is
/// written, names its numbers.
proof fn lemma_resolve_range(a: int, b: int)
    requires
        0 <= a < b <= i64::MAX,
    ensures
        resolve(render_run((a, b))) == span(a, b),
{
    let s = render_run((a, b));
    let da = decimal(a);
    let db = decimal(b);
    lemma_decimal_chars(a);
    lemma_decimal_chars(b);
    lemma_render_run_chars((a, b));
    lemma_plain_token(s);
    lemma_parse_decimal(a);
    lemma_parse_decimal(b);
    let at = da.len() as int;
    assert(s[at] == '-');
    assert forall|i: int| 0 <= i < s.len() implies ((#[trigger] s[i]) == '-' <==> i == at) by {
        if i < at {
            assert(s[i] == da[i]);
            assert(is_digit(da[i]));
        } else if i > at {
            assert(s[i] == db[i - at - 1]);
            assert(is_digit(db[i - at - 1]));
        }
    }
    assert(only_at(s, '-', at));
    let d = choose|d: int| only_at(s, '-', d);
    lemma_only_at_unique(s, '-', d, at);
    assert(s.take(at) =~= da);
    assert(s.skip(at + 1) =~= db);
    assert(range_of(s) == Some((a, b)));
}

/// A readable run, as it is written, names its numbers.
pub proof fn lemma_resolve_run(run: (int, int))
    requires
        readable_run(run),
    ensures
        resolve(render_run(run)) == span(run.0, run.1),
{
    if run.0 == run.1 {
        lemma_resolve_single(run.0);
        assert(span(run.0, run.1) =~= seq![run.0]);
    } else {
        lemma_resolve_range(run.0, run.1);
    }
}

/// The numbers of the runs, run after run.
pub open spec fn spans(rs: Seq<(int, int)>) -> Seq<int>
    decreases rs.len(),
{
    if rs.len() == 0 {
        Seq::empty()
    } else {
        spans(rs.drop_last()) + span(rs.last().0, rs.last().1)
    }
}

/// Readable runs, as they are written, name their numbers.
proof fn lemma_resolve_runs(rs: Seq<(int, int)>)
    requires
        forall|k: int| 0 <= k < rs.len() ==> readable_run(#[trigger] rs[k]),
    ensures
        resolve_tokens(rendered(rs)) == spans(rs),
    decreases rs.len(),
{
    if rs.len() > 0 {
        let head = rs.drop_last();
        assert forall|k: int| 0 <= k < head.len() implies readable_run(#[trigger] head[k]) by {
            assert(head[k] == rs[k]);
        }
        lemma_resolve_runs(head);
        lemma_resolve_run(rs.last());
        assert(rendered(rs).drop_last() =~= rendered(head));
        assert(rendered(rs).last() == render_run(rs.last()));
    } else {
        assert(rendered(rs).len() == 0);
    }
}

/// Whether every number of `l` fits an `i64`.
pub open spec fn fits_i64(l: Seq<int>) -> bool {
    forall|i: int| 0 <= i < l.len() ==> i64::MIN <= #[trigger] l[i] <= i64::MAX
}

/// Whether no negative number of `l` stands right before its successor.
///
/// A run that begins below zero, such as -3, -2, is written `-3--2`, and that
/// token has more than one `-`: it names nothing.
pub open spec fn no_negative_run(l: Seq<int>) -> bool {
    forall|i: int| 0 <= i < l.len() - 1 && #[trigger] l[i] < 0 ==> l[i + 1] != l[i] + 1
}

/// The runs of `l` are readable, hold the numbers of `l` in order, and the
/// last run ends with the last number.
proof fn lemma_runs(l: Seq<int>)
    requires
        fits_i64(l),
        no_negative_run(l),
    ensures
        forall|k: int| 0 <= k < runs(l).len() ==> readable_run(#[trigger] runs(l)[k]),
        spans(runs(l)) == l,
        l.len() > 0 ==> runs(l).len() > 0 && runs(l).last().1 == l.last(),
        l.len() == 0 ==> runs(l).len() == 0,
    decreases l.len(),
{
    if l.len() == 0 {
        assert(spans(runs(l)) =~= l);
    } else if l.len() == 1 {
        let rs = runs(l);
        assert(rs.drop_last() =~= Seq::<(int, int)>::empty());
        assert(span(l[0], l[0]) =~= seq![l[0]]);
        assert(rs.last() == (l[0], l[0]));
        assert(spans(Seq::<(int, int)>::empty()) =~= Seq::<int>::empty());
        assert(spans(rs) =~= l);
    } else {
        let head = l.drop_last();
        assert forall|i: int| 0 <= i < head.len() implies i64::MIN <= #[trigger] head[i]
            <= i64::MAX by {
            assert(head[i] == l[i]);
        }
        assert forall|i: int| 0 <= i < head.len() - 1 && #[trigger] head[i] < 0 implies head[i
            + 1] != head[i] + 1 by {
            assert(head[i] == l[i]);
            assert(head[i + 1] == l[i + 1]);
        }
        lemma_runs(head);
        let before = runs(head);
        let x = l.last();
        let prev = l[l.len() - 2];
        assert(head.last() == prev);
        let rs = runs(l);
        if x == prev + 1 {
            let run = before.last();
            assert(rs == before.drop_last().push((run.0, x)));
            assert(rs.drop_last() =~= before.drop_last());
            assert(readable_run(run));
            assert(run.1 == prev);
            if run.0 == run.1 {
                assert(l[l.len() - 2] < 0 ==> l[l.len() - 2 + 1] != l[l.len() - 2] + 1);
            }
            assert(readable_run((run.0, x)));
            assert forall|k: int| 0 <= k < rs.len() implies readable_run(#[trigger] rs[k]) by {
                if k < rs.len() - 1 {
                    assert(rs[k] == before[k]);
                }
            }
            assert(span(run.0, x) =~= span(run.0, prev).push(x));
            assert(spans(before) == spans(before.drop_last()) + span(run.0, run.1));
            assert(spans(rs) =~= spans(before).push(x));
            assert(l =~= head.push(x));
        } else {
            assert(rs == before.push((x, x)));
            assert(rs.drop_last() =~= before);
            assert forall|k: int| 0 <= k < rs.len() implies readable_run(#[trigger] rs[k]) by {
                if k < rs.len() - 1 {
                    assert(rs[k] == before[k]);
                }
            }
            assert(span(x, x) =~= seq![x]);
            assert(spans(rs) =~= spans(before).push(x));
            assert(l =~= head.push(x));
        }
    }
}

/// Reading back what was written for `l` gives the numbers of `l`, in
/// ascending order and each once, whatever the order of `l`.
pub proof fn lemma_read_compressed(l: Seq<int>)
    requires
        fits_i64(l),
        no_negative_run(l),
    ensures
        selection_of(compressed(l)) == sorted_unique(l),
{
    lemma_runs(l);
    let rs = runs(l);
    let parts = rendered(rs);
    if l.len() == 0 {
        let empty = Seq::<char>::empty();
        assert(compressed(l) =~= empty);
        assert(bracket_free(empty));
        lemma_tokens_are_pieces(empty);
        assert(tokens(empty) =~= seq![empty]);
        assert(digits_and_dashes(empty));
        lemma_plain_token(empty);
        assert(!exists|d: int| only_at(empty, '-', d));
        assert(unsigned_part(empty).len() == 0);
        assert(resolve(empty) =~= Seq::<int>::empty());
        assert(seq![empty].drop_last() =~= Seq::<Seq<char>>::empty());
        assert(seq![empty].last() == empty);
        assert(resolve_tokens(Seq::<Seq<char>>::empty()) =~= Seq::<int>::empty());
        assert(resolve_tokens(seq![empty]) =~= l);
    } else {
        assert forall|k: int| 0 <= k < parts.len() implies comma_free(#[trigger] parts[k])
            && bracket_free(parts[k]) by {
            lemma_render_run_chars(rs[k]);
            lemma_plain_token(parts[k]);
        }
        lemma_joined_bracket_free(parts);
        lemma_tokens_are_pieces(joined(parts));
        lemma_pieces_of_joined(parts);
        lemma_resolve_runs(rs);
    }
}

/// Parts without brackets, joined by commas, hold no bracket.
proof fn lemma_joined_bracket_free(parts: Seq<Seq<char>>)
    requires
        forall|k: int| 0 <= k < parts.len() ==> bracket_free(#[trigger] parts[k]),
    ensures
        bracket_free(joined(parts)),
    decreases parts.len(),
{
    if parts.len() >= 2 {
        let head = parts.drop_last();
        assert forall|k: int| 0 <= k < head.len() implies bracket_free(#[trigger] head[k]) by {
            assert(head[k] == parts[k]);
        }
        lemma_joined_bracket_free(head);
        let j = joined(head);
        let all = joined(parts);
        assert(bracket_free(parts.last()));
        assert forall|i: int| 0 <= i < all.len() implies !is_bracket(#[trigger] all[i]) by {
            if i < j.len() {
                assert(all[i] == j[i]);
            } else if i > j.len() {
                assert(all[i] == parts.last()[i - j.len() - 1]);
            }
        }
    } else if parts.len() == 1 {
        assert(bracket_free(parts[0]));
    }
}

/// Round trip: an ascending selection without repetition, written in
/// comma-and-hyphen form and read back, is the selection again.
///
/// This holds where no run of two numbers or more begins below zero. Such a
/// run, -3, -2 for one, is written `-3--2`, which names nothing when read.
pub proof fn lemma_round_trip(l: Seq<int>)
    requires
        strictly_increasing(l),
        fits_i64(l),
        no_negative_run(l),
    ensures
        selection_of(compressed(l)) == l,
{
    lemma_read_compressed(l);
    lemma_sorted_unique_fixed(l);
}

/// Every selection is in ascending order and holds no number twice, whatever
/// the line specification it is read from.
pub proof fn lemma_selection_ascending(text: Seq<char>)
    ensures
        strictly_increasing(selection_of(text)),
        same_elements(selection_of(text), resolve_tokens(tokens(text))),
{
    lemma_sorted_unique(resolve_tokens(tokens(text)));
}

} // verus!
