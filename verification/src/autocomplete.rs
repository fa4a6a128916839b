//! Suggestions for text typed at a prompt.

use vstd::prelude::*;
use vstd::string::*;
use crate::text::{chars_of, lowercase, string_views, trim_bounds, trimmed};

verus! {

/// How many suggestions are made at most.
pub const MAX_SUGGESTIONS: usize = 25;

/// Whether `needle` stands in `hay` at position `at`.
pub open spec fn occurs_at(needle: Seq<char>, hay: Seq<char>, at: int) -> bool {
    0 <= at && at + needle.len() <= hay.len() && hay.subrange(at, at + needle.len()) == needle
}

/// Whether `needle` stands somewhere in `hay`.
pub open spec fn is_infix(needle: Seq<char>, hay: Seq<char>) -> bool {
    exists|at: int| occurs_at(needle, hay, at)
}

/// Whether `item` is suggested for the search key `key`: the key, which is in
/// lower case, stands in the lower case of the item.
pub open spec fn is_hit(key: Seq<char>, item: Seq<char>) -> bool {
    is_infix(key, lowercase(item))
}

/// The first `limit` parts, or all where there are fewer.
pub open spec fn first_few(parts: Seq<Seq<char>>, limit: int) -> Seq<Seq<char>> {
    if parts.len() <= limit {
        parts
    } else {
        parts.take(limit)
    }
}

/// The suggestions for `input` among `items`: with nothing typed but
/// whitespace the first items, else the first items that hold what was typed,
/// whitespace around it aside and without regard to case. Never more than
/// [`MAX_SUGGESTIONS`], and in the order of the items.
pub open spec fn suggestions(items: Seq<Seq<char>>, input: Seq<char>) -> Seq<Seq<char>> {
    let key = lowercase(trimmed(input));
    if key.len() == 0 {
        first_few(items, MAX_SUGGESTIONS as int)
    } else {
        first_few(items.filter(|item: Seq<char>| is_hit(key, item)), MAX_SUGGESTIONS as int)
    }
}

/// Whether `needle` stands in `hay` at position `at`.
fn matches_at(needle: &Vec<char>, hay: &Vec<char>, at: usize) -> (r: bool)
    requires
        at + needle.len() <= hay.len(),
    ensures
        r == occurs_at(needle@, hay@, at as int),
{
    let mut k: usize = 0;
    while k < needle.len()
        invariant
            k <= needle.len(),
            at + needle.len() <= hay.len(),
            forall|j: int| 0 <= j < k ==> hay@[at + j] == needle@[j],
        decreases needle.len() - k,
    {
        if hay[at + k] != needle[k] {
            proof {
                let part = hay@.subrange(at as int, at + needle.len());
                assert(part[k as int] == hay@[at + k]);
            }
            return false;
        }
        k += 1;
    }
    proof {
        assert(hay@.subrange(at as int, at + needle.len()) =~= needle@);
    }
    true
}

/// Whether `needle` stands somewhere in `hay`.
pub fn contains_chars(needle: &Vec<char>, hay: &Vec<char>) -> (r: bool)
    ensures
        r == is_infix(needle@, hay@),
{
    if needle.len() > hay.len() {
        return false;
    }
    let last: usize = hay.len() - needle.len();
    let mut at: usize = 0;
    loop
        invariant
            at <= last,
            last == hay.len() - needle.len(),
            needle.len() <= hay.len(),
            forall|j: int| 0 <= j < at ==> !occurs_at(needle@, hay@, j),
        decreases last - at,
    {
        if matches_at(needle, hay, at) {
            return true;
        }
        if at == last {
            return false;
        }
        at += 1;
    }
}

/// The hits among the first items are the first hits among all.
proof fn lemma_filter_take(items: Seq<Seq<char>>, pred: spec_fn(Seq<char>) -> bool, i: int)
    requires
        0 <= i <= items.len(),
    ensures
        items.take(i).filter(pred).len() <= items.filter(pred).len(),
        items.filter(pred).take(items.take(i).filter(pred).len() as int) == items.take(i).filter(
            pred,
        ),
    decreases items.len() - i,
{
    reveal(Seq::filter);
    if i == items.len() {
        assert(items.take(i) =~= items);
        assert(items.filter(pred).take(items.filter(pred).len() as int) =~= items.filter(pred));
    } else {
        lemma_filter_take(items, pred, i + 1);
        assert(items.take(i + 1).drop_last() =~= items.take(i));
        let more = items.take(i + 1).filter(pred);
        let less = items.take(i).filter(pred);
        assert(items.filter(pred).take(less.len() as int) =~= items.filter(pred).take(
            more.len() as int,
        ).take(less.len() as int));
    }
}

/// A list of items to suggest from.
#[derive(Clone)]
pub struct SimpleAutocomplete {
    items: Vec<String>,
}

impl SimpleAutocomplete {
    /// The items, in the order in which they are suggested.
    pub closed spec fn items(&self) -> Seq<Seq<char>> {
        string_views(self.items@)
    }

    /// Suggests from `items`.
    pub fn new(items: Vec<String>) -> (r: Self)
        ensures
            r.items() == string_views(items@),
    {
        Self { items }
    }

    /// The first items, [`MAX_SUGGESTIONS`] at most.
    fn first_items(&self) -> (out: Vec<String>)
        ensures
            string_views(out@) == first_few(self.items(), MAX_SUGGESTIONS as int),
    {
        let ghost all = self.items();
        let mut out: Vec<String> = Vec::new();
        let mut i: usize = 0;
        proof {
            assert(string_views(out@) =~= all.take(0));
        }
        while i < self.items.len() && i < MAX_SUGGESTIONS
            invariant
                i <= self.items.len(),
                i <= MAX_SUGGESTIONS,
                all == string_views(self.items@),
                string_views(out@) == all.take(i as int),
            decreases self.items.len() - i,
        {
            let ghost before = out@;
            out.push(self.items[i].clone());
            i += 1;
            proof {
                assert(string_views(out@) =~= string_views(before).push(self.items@[i - 1]@));
                assert(all.take(i as int) =~= all.take(i - 1).push(all[i - 1]));
            }
        }
        proof {
            if i == self.items.len() {
                assert(all.take(i as int) =~= all);
            }
        }
        out
    }

    /// The first items that hold `key`, [`MAX_SUGGESTIONS`] at most.
    fn first_hits(&self, key: &Vec<char>) -> (out: Vec<String>)
        ensures
            string_views(out@) == first_few(
                self.items().filter(|item: Seq<char>| is_hit(key@, item)),
                MAX_SUGGESTIONS as int,
            ),
    {
        let ghost all = self.items();
        let ghost pred = |item: Seq<char>| is_hit(key@, item);
        let mut out: Vec<String> = Vec::new();
        let mut i: usize = 0;
        proof {
            reveal(Seq::filter);
            assert(all.take(0).filter(pred) =~= Seq::<Seq<char>>::empty());
            assert(string_views(out@) =~= Seq::<Seq<char>>::empty());
        }
        while i < self.items.len() && out.len() < MAX_SUGGESTIONS
            invariant
                i <= self.items.len(),
                all == string_views(self.items@),
                pred == |item: Seq<char>| is_hit(key@, item),
                string_views(out@) == all.take(i as int).filter(pred),
                out.len() <= MAX_SUGGESTIONS,
            decreases self.items.len() - i,
        {
            let item = &self.items[i];
            proof {
                reveal(Seq::filter);
                assert(all.take(i + 1).drop_last() =~= all.take(i as int));
                assert(all.take(i + 1).last() == item@);
            }
            let lower = chars_of(item.as_str().to_lowercase().as_str());
            if contains_chars(key, &lower) {
                let ghost before = out@;
                out.push(item.clone());
                proof {
                    assert(string_views(out@) =~= string_views(before).push(item@));
                }
            }
            i += 1;
        }
        proof {
            lemma_filter_take(all, pred, i as int);
            if i == self.items.len() {
                assert(all.take(i as int) =~= all);
            }
        }
        out
    }

    /// The suggestions for what was typed: see [`suggestions`].
    pub fn get_suggestions(&self, input: &str) -> (out: Vec<String>)
        ensures
            string_views(out@) == suggestions(self.items(), input@),
    {
        let typed = chars_of(input);
        let (a, b) = trim_bounds(&typed, 0, typed.len());
        proof {
            assert(typed@.subrange(0, typed.len() as int) =~= input@);
        }
        let key = chars_of(input.substring_char(a, b).to_lowercase().as_str());
        if key.len() == 0 {
            self.first_items()
        } else {
            self.first_hits(&key)
        }
    }

    /// What is put in place of the text typed when completion is asked for:
    /// the suggestion that is highlighted, if one is.
    pub fn get_completion(&self, input: &str, highlighted_suggestion: Option<String>) -> (r:
        Option<String>)
        ensures
            r == highlighted_suggestion,
    {
        highlighted_suggestion
    }
}

} // verus!
