//! Selections: integers in ascending order, each once.

use vstd::prelude::*;
use vstd::relations::{sorted_by, total_ordering};
use crate::numbers::ints;

verus! {

/// Whether each element of `s` is smaller than the next.
pub open spec fn strictly_increasing(s: Seq<int>) -> bool {
    forall|i: int, j: int| 0 <= i < j < s.len() ==> s[i] < s[j]
}

/// Whether `a` and `b` hold the same integers, however often and in whatever
/// order.
pub open spec fn same_elements(a: Seq<int>, b: Seq<int>) -> bool {
    forall|x: int| a.contains(x) <==> b.contains(x)
}

/// Whether `r` is the selection that `l` names: the integers of `l`, ascending,
/// each once.
pub open spec fn is_selection_of(r: Seq<int>, l: Seq<int>) -> bool {
    strictly_increasing(r) && same_elements(r, l)
}

/// The integers of `l` in ascending order, each once.
pub open spec fn sorted_unique(l: Seq<int>) -> Seq<int> {
    choose|r: Seq<int>| is_selection_of(r, l)
}

/// The last element of an ascending sequence is its greatest.
proof fn lemma_last_is_greatest(s: Seq<int>, x: int)
    requires
        strictly_increasing(s),
        s.contains(x),
    ensures
        x <= s.last(),
        x < s.last() ==> s.drop_last().contains(x),
{
    let i = choose|i: int| 0 <= i < s.len() && s[i] == x;
    if i < s.len() - 1 {
        assert(s.drop_last()[i] == x);
    }
}

/// Two ascending sequences with the same elements are the same sequence.
pub proof fn lemma_selection_unique(a: Seq<int>, b: Seq<int>)
    requires
        strictly_increasing(a),
        strictly_increasing(b),
        same_elements(a, b),
    ensures
        a == b,
    decreases a.len(),
{
    if a.len() == 0 {
        if b.len() > 0 {
            assert(b.contains(b[0]));
            assert(a.contains(b[0]));
        }
        assert(a =~= b);
    } else {
        assert(a.contains(a.last()));
        assert(b.contains(a.last()));
        assert(b.contains(b.last()));
        assert(a.contains(b.last()));
        lemma_last_is_greatest(a, b.last());
        lemma_last_is_greatest(b, a.last());
        let a0 = a.drop_last();
        let b0 = b.drop_last();
        assert forall|x: int| a0.contains(x) <==> b0.contains(x) by {
            if a0.contains(x) {
                let i = choose|i: int| 0 <= i < a0.len() && a0[i] == x;
                assert(a[i] == x);
                assert(a.contains(x));
                assert(x < a.last());
                lemma_last_is_greatest(b, x);
            }
            if b0.contains(x) {
                let i = choose|i: int| 0 <= i < b0.len() && b0[i] == x;
                assert(b[i] == x);
                assert(b.contains(x));
                assert(x < b.last());
                lemma_last_is_greatest(a, x);
            }
        }
        lemma_selection_unique(a0, b0);
        assert(a =~= a0.push(a.last()));
        assert(b =~= b0.push(b.last()));
    }
}

/// An ascending sequence can take one more integer and stay ascending.
proof fn lemma_insert(r: Seq<int>, x: int) -> (r2: Seq<int>)
    requires
        strictly_increasing(r),
    ensures
        strictly_increasing(r2),
        forall|y: int| r2.contains(y) <==> (r.contains(y) || y == x),
    decreases r.len(),
{
    if r.len() == 0 {
        let r2 = seq![x];
        assert(r2[0] == x);
        r2
    } else if x > r.last() {
        let r2 = r.push(x);
        assert forall|y: int| r2.contains(y) <==> (r.contains(y) || y == x) by {
            if r.contains(y) {
                let i = choose|i: int| 0 <= i < r.len() && r[i] == y;
                assert(r2[i] == y);
            }
            if y == x {
                assert(r2[r.len() as int] == x);
            }
        }
        r2
    } else if x == r.last() {
        assert(r.contains(r.last()));
        r
    } else {
        let m = r.last();
        let r0 = r.drop_last();
        let r1 = lemma_insert(r0, x);
        let r2 = r1.push(m);
        assert forall|i: int, j: int| 0 <= i < j < r2.len() implies r2[i] < r2[j] by {
            if j == r1.len() {
                assert(r1.contains(r1[i]));
                if r0.contains(r1[i]) {
                    let k = choose|k: int| 0 <= k < r0.len() && r0[k] == r1[i];
                    assert(r[k] == r1[i]);
                }
            }
        }
        assert forall|y: int| r2.contains(y) <==> (r.contains(y) || y == x) by {
            if r2.contains(y) {
                let i = choose|i: int| 0 <= i < r2.len() && r2[i] == y;
                if i < r1.len() {
                    assert(r1.contains(y));
                    if r0.contains(y) {
                        let k = choose|k: int| 0 <= k < r0.len() && r0[k] == y;
                        assert(r[k] == y);
                    }
                } else {
                    assert(r[r.len() - 1] == y);
                }
            }
            if r.contains(y) {
                let i = choose|i: int| 0 <= i < r.len() && r[i] == y;
                if i < r0.len() {
                    assert(r0[i] == y);
                    assert(r0.contains(y));
                    assert(r1.contains(y));
                    let k = choose|k: int| 0 <= k < r1.len() && r1[k] == y;
                    assert(r2[k] == y);
                } else {
                    assert(r2[r1.len() as int] == y);
                }
            }
            if y == x {
                assert(r1.contains(x));
                let k = choose|k: int| 0 <= k < r1.len() && r1[k] == x;
                assert(r2[k] == x);
            }
        }
        r2
    }
}

/// Every sequence of integers names a selection.
proof fn lemma_selection_exists(l: Seq<int>) -> (r: Seq<int>)
    ensures
        is_selection_of(r, l),
    decreases l.len(),
{
    if l.len() == 0 {
        let r = Seq::<int>::empty();
        r
    } else {
        let r0 = lemma_selection_exists(l.drop_last());
        let r = lemma_insert(r0, l.last());
        assert forall|y: int| r.contains(y) <==> l.contains(y) by {
            if l.contains(y) {
                let i = choose|i: int| 0 <= i < l.len() && l[i] == y;
                if i < l.len() - 1 {
                    assert(l.drop_last()[i] == y);
                    assert(l.drop_last().contains(y));
                }
            }
            if l.drop_last().contains(y) {
                let i = choose|i: int| 0 <= i < l.drop_last().len() && l.drop_last()[i] == y;
                assert(l[i] == y);
            }
            if y == l.last() {
                assert(l[l.len() - 1] == y);
            }
        }
        r
    }
}

/// `sorted_unique(l)` is ascending and holds the elements of `l`, and is the
/// only sequence that does.
pub proof fn lemma_sorted_unique(l: Seq<int>)
    ensures
        is_selection_of(sorted_unique(l), l),
        forall|r: Seq<int>| is_selection_of(r, l) ==> r == sorted_unique(l),
{
    let w = lemma_selection_exists(l);
    assert(is_selection_of(sorted_unique(l), l));
    assert forall|r: Seq<int>| is_selection_of(r, l) implies r == sorted_unique(l) by {
        lemma_selection_unique(r, sorted_unique(l));
    }
}

/// A selection is its own selection.
pub proof fn lemma_sorted_unique_fixed(l: Seq<int>)
    requires
        strictly_increasing(l),
    ensures
        sorted_unique(l) == l,
{
    lemma_sorted_unique(l);
    assert(is_selection_of(l, l));
}

/// Sorting and removing repetitions a second time changes nothing.
pub proof fn lemma_sorted_unique_idempotent(l: Seq<int>)
    ensures
        sorted_unique(sorted_unique(l)) == sorted_unique(l),
{
    lemma_sorted_unique(l);
    lemma_sorted_unique_fixed(sorted_unique(l));
}

/// `slice::sort` on a vector of `i64`: afterwards the vector holds the numbers
/// it held before, each as often as before, and none stands before a smaller
/// one.
#[verifier::external_body]
fn sort_ascending(v: &mut Vec<i64>)
    ensures
        final(v)@.to_multiset() == old(v)@.to_multiset(),
        forall|i: int, j: int| 0 <= i <= j < final(v)@.len() ==> final(v)@[i] <= final(v)@[j],
{
    v.sort();
}

/// Sequences that hold each number equally often hold the same integers.
proof fn lemma_same_multiset_same_elements(a: Seq<i64>, b: Seq<i64>)
    requires
        a.to_multiset() == b.to_multiset(),
    ensures
        same_elements(ints(a), ints(b)),
{
    a.to_multiset_ensures();
    b.to_multiset_ensures();
    assert forall|x: int| ints(a).contains(x) <==> ints(b).contains(x) by {
        if ints(a).contains(x) {
            let i = choose|i: int| 0 <= i < ints(a).len() && ints(a)[i] == x;
            assert(a.contains(a[i]));
            assert(a.to_multiset().count(a[i]) > 0);
            assert(b.to_multiset().count(a[i]) > 0);
            assert(b.contains(a[i]));
            let j = choose|j: int| 0 <= j < b.len() && b[j] == a[i];
            assert(ints(b)[j] == x);
        }
        if ints(b).contains(x) {
            let i = choose|i: int| 0 <= i < ints(b).len() && ints(b)[i] == x;
            assert(b.contains(b[i]));
            assert(b.to_multiset().count(b[i]) > 0);
            assert(a.to_multiset().count(b[i]) > 0);
            assert(a.contains(b[i]));
            let j = choose|j: int| 0 <= j < a.len() && a[j] == b[i];
            assert(ints(a)[j] == x);
        }
    }
}

/// The numbers in ascending order, each once.
pub fn sort_dedup(numbers: Vec<i64>) -> (out: Vec<i64>)
    ensures
        ints(out@) == sorted_unique(ints(numbers@)),
{
    let mut sorted = numbers;
    sort_ascending(&mut sorted);
    let mut out: Vec<i64> = Vec::new();
    let mut i: usize = 0;
    while i < sorted.len()
        invariant
            i <= sorted.len(),
            forall|a: int, b: int| 0 <= a <= b < sorted@.len() ==> sorted@[a] <= sorted@[b],
            forall|a: int, b: int| 0 <= a < b < out@.len() ==> out@[a] < out@[b],
            forall|k: int| 0 <= k < out@.len()
                ==> sorted@.take(i as int).contains(#[trigger] out@[k]),
            forall|j: int| 0 <= j < i ==> out@.contains(#[trigger] sorted@[j]),
            i > 0 ==> out@.len() > 0 && out@.last() == sorted@[i - 1],
        decreases sorted.len() - i,
    {
        let x = sorted[i];
        let ghost before = out@;
        if out.len() == 0 || out[out.len() - 1] != x {
            out.push(x);
            proof {
                assert forall|a: int, b: int| 0 <= a < b < out@.len() implies out@[a] < out@[b] by {
                    if b == before.len() {
                        assert(sorted@.take(i as int).contains(before[a]));
                        let j = choose|j: int|
                            0 <= j < i && sorted@.take(i as int)[j] == before[a];
                        assert(sorted@[j] <= sorted@[i - 1]);
                        assert(before.last() == sorted@[i - 1]);
                        assert(sorted@[i - 1] <= x);
                    } else {
                        assert(before[a] < before[b]);
                    }
                }
            }
        }
        proof {
            assert(out@.last() == x);
            assert forall|k: int| 0 <= k < out@.len() implies sorted@.take(i + 1).contains(
                #[trigger] out@[k],
            ) by {
                if k < before.len() {
                    assert(sorted@.take(i as int).contains(before[k]));
                    let j = choose|j: int| 0 <= j < i && sorted@.take(i as int)[j] == before[k];
                    assert(sorted@.take(i + 1)[j] == out@[k]);
                } else {
                    assert(sorted@.take(i + 1)[i as int] == x);
                }
            }
            assert forall|j: int| 0 <= j < i + 1 implies out@.contains(#[trigger] sorted@[j]) by {
                if j < i {
                    assert(before.contains(sorted@[j]));
                    let k = choose|k: int| 0 <= k < before.len() && before[k] == sorted@[j];
                    assert(out@[k] == sorted@[j]);
                } else {
                    assert(out@[out@.len() - 1] == x);
                }
            }
        }
        i += 1;
    }
    proof {
        assert(sorted@.take(i as int) =~= sorted@);
        lemma_same_multiset_same_elements(sorted@, numbers@);
        assert(strictly_increasing(ints(out@)));
        assert forall|x: int| ints(out@).contains(x) <==> ints(sorted@).contains(x) by {
            if ints(out@).contains(x) {
                let k = choose|k: int| 0 <= k < ints(out@).len() && ints(out@)[k] == x;
                assert(sorted@.contains(out@[k]));
                let j = choose|j: int| 0 <= j < sorted@.len() && sorted@[j] == out@[k];
                assert(ints(sorted@)[j] == x);
            }
            if ints(sorted@).contains(x) {
                let j = choose|j: int| 0 <= j < ints(sorted@).len() && ints(sorted@)[j] == x;
                assert(out@.contains(sorted@[j]));
                let k = choose|k: int| 0 <= k < out@.len() && out@[k] == sorted@[j];
                assert(ints(out@)[k] == x);
            }
        }
        assert(same_elements(ints(out@), ints(numbers@)));
        assert(is_selection_of(ints(out@), ints(numbers@)));
        lemma_sorted_unique(ints(numbers@));
    }
    out
}

/// The numbers of `s` in ascending order, each as often as in `s`.
pub open spec fn ascending(s: Seq<i64>) -> Seq<i64> {
    s.sort_by(|a: i64, b: i64| a <= b)
}

/// The numbers in ascending order, each as often as before.
pub fn sort_numbers(numbers: Vec<i64>) -> (out: Vec<i64>)
    ensures
        out@ == ascending(numbers@),
{
    let mut out = numbers;
    sort_ascending(&mut out);
    proof {
        let leq = |a: i64, b: i64| a <= b;
        assert(total_ordering(leq));
        numbers@.lemma_sort_by_ensures(leq);
        assert(sorted_by(out@, leq));
        vstd::seq_lib::lemma_sorted_unique(out@, numbers@.sort_by(leq), leq);
    }
    out
}

} // verus!
