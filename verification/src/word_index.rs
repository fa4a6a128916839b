//! Words in order, and which words go with which.
//!
//! A word list holds each of its words once, ordered by their lower case:
//! `Zebra` stands behind `apple`. Words that differ only in case may stand in
//! either order.

use vstd::prelude::*;
use vstd::string::*;
use crate::table::{is_pair_row, row_view, rows_view, Row, RowView};
use crate::text::{chars_of, lowercase, string_views};

verus! {

/// Whether `a` stands before `b` in the dictionary, or is `b`: at the first
/// place where they differ `a` has the smaller character, or `a` ends there.
pub open spec fn lex_le(a: Seq<char>, b: Seq<char>) -> bool
    decreases a.len(),
{
    if a.len() == 0 {
        true
    } else if b.len() == 0 {
        false
    } else if a[0] != b[0] {
        (a[0] as int) < (b[0] as int)
    } else {
        lex_le(a.drop_first(), b.drop_first())
    }
}

/// Of two texts one stands before the other, or they are the same.
pub proof fn lemma_lex_le_total(a: Seq<char>, b: Seq<char>)
    ensures
        lex_le(a, b) || lex_le(b, a),
    decreases a.len(),
{
    if a.len() > 0 && b.len() > 0 {
        if a[0] == b[0] {
            lemma_lex_le_total(a.drop_first(), b.drop_first());
        }
    }
}

/// What stands before something that stands before `c` stands before `c`.
pub proof fn lemma_lex_le_transitive(a: Seq<char>, b: Seq<char>, c: Seq<char>)
    requires
        lex_le(a, b),
        lex_le(b, c),
    ensures
        lex_le(a, c),
    decreases a.len(),
{
    if a.len() > 0 && b.len() > 0 && c.len() > 0 {
        if a[0] == b[0] && b[0] == c[0] {
            lemma_lex_le_transitive(a.drop_first(), b.drop_first(), c.drop_first());
        }
    }
}

/// Whether `a` stands before `b`, or is `b`.
pub fn chars_le(a: &Vec<char>, b: &Vec<char>) -> (r: bool)
    ensures
        r == lex_le(a@, b@),
{
    let mut i: usize = 0;
    proof {
        assert(a@.skip(0) =~= a@);
        assert(b@.skip(0) =~= b@);
    }
    loop
        invariant
            i <= a.len(),
            i <= b.len(),
            lex_le(a@, b@) == lex_le(a@.skip(i as int), b@.skip(i as int)),
        decreases a.len() - i,
    {
        if i == a.len() {
            return true;
        }
        if i == b.len() {
            return false;
        }
        proof {
            assert(a@.skip(i as int)[0] == a@[i as int]);
            assert(b@.skip(i as int)[0] == b@[i as int]);
            assert(a@.skip(i as int).drop_first() =~= a@.skip(i + 1));
            assert(b@.skip(i as int).drop_first() =~= b@.skip(i + 1));
        }
        if a[i] != b[i] {
            return a[i] < b[i];
        }
        i += 1;
    }
}

/// Whether the word `a` may stand before the word `b` in a word list.
pub open spec fn key_le(a: Seq<char>, b: Seq<char>) -> bool {
    lex_le(lowercase(a), lowercase(b))
}

/// Whether `words` is a word list: no word twice, and none before a word whose
/// lower case stands before its own.
pub open spec fn is_word_list(words: Seq<Seq<char>>) -> bool {
    forall|i: int, j: int|
        0 <= i < j < words.len() ==> (#[trigger] words[i]) != (#[trigger] words[j]) && key_le(
            words[i],
            words[j],
        )
}

/// Where `word` stands among `words`, if it does.
pub fn position_of(words: &Vec<String>, word: &str) -> (r: Option<usize>)
    ensures
        r matches Some(k) ==> k < words.len() && string_views(words@)[k as int] == word@,
        r is None ==> !string_views(words@).contains(word@),
{
    let mut i: usize = 0;
    while i < words.len()
        invariant
            i <= words.len(),
            forall|k: int| 0 <= k < i ==> string_views(words@)[k] != word@,
        decreases words.len() - i,
    {
        if words[i].as_str().eq(word) {
            assert(string_views(words@)[i as int] == word@);
            return Some(i);
        }
        i += 1;
    }
    None
}

/// Puts `word` into the word list `words`, unless it stands there, and says
/// where it stands and whether it was put there.
pub fn insert_word(words: &mut Vec<String>, word: &str) -> (r: (usize, bool))
    requires
        is_word_list(string_views(old(words)@)),
    ensures
        is_word_list(string_views(final(words)@)),
        r.0 < final(words)@.len(),
        string_views(final(words)@)[r.0 as int] == word@,
        r.1 == !string_views(old(words)@).contains(word@),
        r.1 ==> r.0 <= old(words)@.len() && final(words)@.len() == old(words)@.len() + 1
            && string_views(final(words)@) == string_views(old(words)@).insert(
            r.0 as int,
            word@,
        ),
        !r.1 ==> final(words)@ == old(words)@,
{
    match position_of(words, word) {
        Some(k) => {
            return (k, false);
        },
        None => {},
    }
    let ghost before = string_views(words@);
    let key = chars_of(word.to_lowercase().as_str());
    let mut p: usize = 0;
    loop
        invariant_except_break
            p <= words.len(),
        invariant
            words@ == old(words)@,
            before == string_views(words@),
            is_word_list(before),
            key@ == lowercase(word@),
            forall|k: int| 0 <= k < p ==> key_le(#[trigger] before[k], word@),
        ensures
            p <= words.len(),
            is_word_list(before),
            p < words.len() ==> !key_le(before[p as int], word@),
        decreases words.len() - p,
    {
        if p == words.len() {
            break ;
        }
        let other = chars_of(words[p].as_str().to_lowercase().as_str());
        assert(before[p as int] == words@[p as int]@);
        if !chars_le(&other, &key) {
            break ;
        }
        p += 1;
    }
    proof {
        assert forall|j: int| p <= j < before.len() implies key_le(word@, #[trigger] before[j]) by {
            lemma_lex_le_total(lowercase(word@), lowercase(before[j]));
            if key_le(before[j], word@) {
                assert(p < before.len());
                assert(!key_le(before[p as int], word@));
                if j > p {
                    assert(key_le(before[p as int], before[j]));
                }
                lemma_lex_le_transitive(
                    lowercase(before[p as int]),
                    lowercase(before[j]),
                    lowercase(word@),
                );
            }
        }
    }
    words.insert(p, word.to_owned());
    proof {
        let after = string_views(words@);
        assert(after =~= before.insert(p as int, word@));
        assert forall|i: int, j: int| 0 <= i < j < after.len() implies after[i] != after[j]
            && key_le(after[i], after[j]) by {
            if i < p && j < p {
                assert(before[i] != before[j] && key_le(before[i], before[j]));
            } else if i < p && j == p {
                assert(key_le(before[i], word@));
                assert(before.contains(before[i]));
            } else if i < p && j > p {
                assert(before[i] != before[j - 1] && key_le(before[i], before[j - 1]));
            } else if i == p {
                assert(key_le(word@, before[j - 1]));
                assert(before.contains(before[j - 1]));
            } else {
                assert(before[i - 1] != before[j - 1] && key_le(before[i - 1], before[j - 1]));
            }
        }
    }
    (p, true)
}

/// For each of its keys, the word list that goes with the key. The keys are a
/// word list themselves.
pub struct WordIndex {
    keys: Vec<String>,
    values: Vec<Vec<String>>,
}

impl WordIndex {
    /// Whether the index is in order: a word list of keys, and a word list for
    /// each key.
    pub closed spec fn wf(&self) -> bool {
        &&& self.keys@.len() == self.values@.len()
        &&& is_word_list(string_views(self.keys@))
        &&& forall|k: int|
            0 <= k < self.values@.len() ==> is_word_list(
                string_views((#[trigger] self.values@[k])@),
            )
    }

    /// The keys, in order.
    pub closed spec fn key_words(&self) -> Seq<Seq<char>> {
        string_views(self.keys@)
    }

    /// The words that go with the key at position `k`, in order.
    pub closed spec fn words_at(&self, k: int) -> Seq<Seq<char>> {
        string_views(self.values@[k]@)
    }

    /// Whether `key` is a key of the index.
    pub open spec fn has_key(&self, key: Seq<char>) -> bool {
        self.key_words().contains(key)
    }

    /// Whether `word` goes with `key`.
    pub open spec fn has_pair(&self, key: Seq<char>, word: Seq<char>) -> bool {
        exists|k: int|
            0 <= k < self.key_words().len() && self.key_words()[k] == key && (
            #[trigger] self.words_at(k)).contains(word)
    }

    /// An index in order has its keys in a word list, and the words of each
    /// key in a word list.
    pub proof fn lemma_wf_word_lists(&self)
        requires
            self.wf(),
        ensures
            is_word_list(self.key_words()),
            forall|k: int|
                0 <= k < self.key_words().len() ==> is_word_list(#[trigger] self.words_at(k)),
    {
    }

    /// An index without keys.
    pub fn new() -> (r: Self)
        ensures
            r.wf(),
            r.key_words().len() == 0,
            forall|key: Seq<char>| !r.has_key(key),
            forall|key: Seq<char>, word: Seq<char>| !r.has_pair(key, word),
    {
        Self { keys: Vec::new(), values: Vec::new() }
    }

    /// The keys, in order.
    pub fn keys(&self) -> (r: &Vec<String>)
        ensures
            string_views(r@) == self.key_words(),
    {
        &self.keys
    }

    /// Makes `key` a key, with no words yet, unless it is one. Gives its
    /// position.
    pub fn add_key(&mut self, key: &str) -> (k: usize)
        requires
            old(self).wf(),
        ensures
            final(self).wf(),
            k < final(self).key_words().len(),
            final(self).key_words()[k as int] == key@,
            forall|w: Seq<char>| #[trigger] final(self).has_key(w)
                <==> old(self).has_key(w) || w == key@,
            forall|w: Seq<char>, s: Seq<char>|
                #[trigger] final(self).has_pair(w, s) <==> old(self).has_pair(w, s),
    {
        let ghost before = *self;
        let (k, inserted) = insert_word(&mut self.keys, key);
        if inserted {
            self.values.insert(k, Vec::new());
            proof {
                let now = *self;
                assert(string_views(now.values@[k as int]@) =~= Seq::<Seq<char>>::empty());
                assert forall|j: int| 0 <= j < now.values@.len() implies is_word_list(
                    string_views((#[trigger] now.values@[j])@),
                ) by {
                    if j < k {
                        assert(now.values@[j] == before.values@[j]);
                    } else if j > k {
                        assert(now.values@[j] == before.values@[j - 1]);
                    }
                }
                assert forall|w: Seq<char>| #[trigger] now.has_key(w) <==> before.has_key(w) || w
                    == key@ by {
                    if before.has_key(w) {
                        let i = choose|i: int|
                            0 <= i < before.key_words().len() && before.key_words()[i] == w;
                        let i2 = if i < k {
                            i
                        } else {
                            i + 1
                        };
                        assert(now.key_words()[i2] == w);
                    }
                    if now.has_key(w) && w != key@ {
                        let i = choose|i: int|
                            0 <= i < now.key_words().len() && now.key_words()[i] == w;
                        let i0 = if i < k {
                            i
                        } else {
                            i - 1
                        };
                        assert(before.key_words()[i0] == w);
                    }
                }
                assert forall|w: Seq<char>, s: Seq<char>| #[trigger] now.has_pair(w, s)
                    <==> before.has_pair(
                    w,
                    s,
                ) by {
                    if before.has_pair(w, s) {
                        let i = choose|i: int|
                            0 <= i < before.key_words().len() && before.key_words()[i] == w && (
                            #[trigger] before.words_at(i)).contains(s);
                        let i2 = if i < k {
                            i
                        } else {
                            i + 1
                        };
                        assert(now.key_words()[i2] == w);
                        assert(now.values@[i2] == before.values@[i]);
                        assert(now.words_at(i2).contains(s));
                    }
                    if now.has_pair(w, s) {
                        let i = choose|i: int|
                            0 <= i < now.key_words().len() && now.key_words()[i] == w && (
                            #[trigger] now.words_at(i)).contains(s);
                        assert(i != k);
                        let i0 = if i < k {
                            i
                        } else {
                            i - 1
                        };
                        assert(before.key_words()[i0] == w);
                        assert(now.values@[i] == before.values@[i0]);
                        assert(before.words_at(i0).contains(s));
                    }
                }
            }
        } else {
            proof {
                let now = *self;
                assert(now.key_words() == before.key_words());
                assert forall|w: Seq<char>, s: Seq<char>| #[trigger] now.has_pair(w, s)
                    <==> before.has_pair(
                    w,
                    s,
                ) by {
                    if before.has_pair(w, s) {
                        let i = choose|i: int|
                            0 <= i < before.key_words().len() && before.key_words()[i] == w && (
                            #[trigger] before.words_at(i)).contains(s);
                        assert(now.words_at(i).contains(s));
                    }
                    if now.has_pair(w, s) {
                        let i = choose|i: int|
                            0 <= i < now.key_words().len() && now.key_words()[i] == w && (
                            #[trigger] now.words_at(i)).contains(s);
                        assert(before.words_at(i).contains(s));
                    }
                }
            }
        }
        k
    }
    /// Lets `word` go with `key`, and makes `key` a key if it is none.
    pub fn add_pair(&mut self, key: &str, word: &str)
        requires
            old(self).wf(),
        ensures
            final(self).wf(),
            forall|w: Seq<char>| #[trigger] final(self).has_key(w)
                <==> old(self).has_key(w) || w == key@,
            forall|w: Seq<char>, s: Seq<char>|
                #[trigger] final(self).has_pair(w, s)
                    <==> old(self).has_pair(w, s) || (w == key@ && s
                    == word@),
    {
        let k = self.add_key(key);
        let ghost before = *self;
        let mut words: Vec<String> = Vec::new();
        std::mem::swap(&mut words, &mut self.values[k]);
        let ghost old_words = words@;
        insert_word(&mut words, word);
        std::mem::swap(&mut words, &mut self.values[k]);
        proof {
            let now = *self;
            assert(now.key_words() == before.key_words());
            assert forall|w: Seq<char>| #[trigger] now.has_key(w) <==> old(self).has_key(w) || w
                == key@ by {
                assert(now.has_key(w) == before.has_key(w));
            }
            assert forall|j: int| 0 <= j < now.values@.len() implies is_word_list(
                string_views((#[trigger] now.values@[j])@),
            ) by {
                if j != k {
                    assert(now.values@[j] == before.values@[j]);
                }
            }
            assert forall|w: Seq<char>, s: Seq<char>| #[trigger] now.has_pair(w, s)
                <==> before.has_pair(w, s)
                || (w == key@ && s == word@) by {
                let fresh = !string_views(old_words).contains(word@);
                if before.has_pair(w, s) {
                    let i = choose|i: int|
                        0 <= i < before.key_words().len() && before.key_words()[i] == w && (
                        #[trigger] before.words_at(i)).contains(s);
                    if i == k && fresh {
                        let at = choose|at: int|
                            0 <= at < before.words_at(i).len() && before.words_at(i)[at] == s;
                        let p = choose|p: int|
                            0 <= p <= old_words.len() && now.words_at(k as int) == string_views(
                                old_words,
                            ).insert(p, word@);
                        let at2 = if at < p {
                            at
                        } else {
                            at + 1
                        };
                        assert(now.words_at(k as int)[at2] == s);
                    }
                    assert(now.words_at(i).contains(s));
                }
                if w == key@ && s == word@ {
                    assert(now.words_at(k as int).contains(s));
                }
                if now.has_pair(w, s) && !(w == key@ && s == word@) {
                    let i = choose|i: int|
                        0 <= i < now.key_words().len() && now.key_words()[i] == w && (
                        #[trigger] now.words_at(i)).contains(s);
                    if i == k && fresh {
                        let at = choose|at: int|
                            0 <= at < now.words_at(i).len() && now.words_at(i)[at] == s;
                        let p = choose|p: int|
                            0 <= p <= old_words.len() && now.words_at(k as int) == string_views(
                                old_words,
                            ).insert(p, word@);
                        assert(at != p);
                        let at0 = if at < p {
                            at
                        } else {
                            at - 1
                        };
                        assert(before.words_at(k as int)[at0] == s);
                    }
                    assert(before.words_at(i).contains(s));
                }
            }
        }
    }

    /// The words that go with `key`, in order, if `key` is a key.
    pub fn get(&self, key: &str) -> (r: Option<&Vec<String>>)
        requires
            self.wf(),
        ensures
            r is Some <==> self.has_key(key@),
            r matches Some(words) ==> is_word_list(string_views(words@)) && forall|s: Seq<char>|
                string_views(words@).contains(s) <==> self.has_pair(key@, s),
    {
        match position_of(&self.keys, key) {
            Some(k) => {
                let words = &self.values[k];
                proof {
                    assert forall|s: Seq<char>| string_views(words@).contains(s)
                        <==> self.has_pair(key@, s) by {
                        if string_views(words@).contains(s) {
                            assert(self.words_at(k as int).contains(s));
                        }
                        if self.has_pair(key@, s) {
                            let i = choose|i: int|
                                0 <= i < self.key_words().len() && self.key_words()[i] == key@ && (
                                #[trigger] self.words_at(i)).contains(s);
                            if i < k {
                                assert(self.key_words()[i] != self.key_words()[k as int]);
                            } else if k < i {
                                assert(self.key_words()[k as int] != self.key_words()[i]);
                            }
                        }
                    }
                }
                Some(words)
            },
            None => None,
        }
    }
}

/// Whether some row has `word` in its first column.
pub open spec fn some_row_has(rows: Seq<RowView>, word: Seq<char>) -> bool {
    exists|i: int| 0 <= i < rows.len() && (#[trigger] rows[i]).0.contains(word)
}

/// Whether some row has the pair.
pub open spec fn some_row_pairs(rows: Seq<RowView>, first: Seq<char>, second: Seq<char>) -> bool {
    exists|i: int| 0 <= i < rows.len() && is_pair_row(#[trigger] rows[i], first, second)
}

/// Whether `index` is the index of `rows` by their first column: its keys are
/// the words of the first columns, and with each go the entries of the second
/// column of every row that has the key.
pub open spec fn indexes(index: WordIndex, rows: Seq<RowView>) -> bool {
    &&& index.wf()
    &&& forall|w: Seq<char>| #[trigger] index.has_key(w) <==> some_row_has(rows, w)
    &&& forall|w: Seq<char>, s: Seq<char>| #[trigger] index.has_pair(w, s)
        <==> some_row_pairs(rows, w, s)
}

/// One more element to look among.
proof fn lemma_take_contains(words: Seq<Seq<char>>, n: int, w: Seq<char>)
    requires
        0 <= n < words.len(),
    ensures
        words.take(n + 1).contains(w) <==> words.take(n).contains(w) || words[n] == w,
{
    let more = words.take(n + 1);
    let less = words.take(n);
    if less.contains(w) {
        let i = choose|i: int| 0 <= i < less.len() && less[i] == w;
        assert(more[i] == w);
    }
    if words[n] == w {
        assert(more[n] == w);
    }
    if more.contains(w) {
        let i = choose|i: int| 0 <= i < more.len() && more[i] == w;
        if i < n {
            assert(less[i] == w);
        }
    }
}

/// One more row to look among.
proof fn lemma_take_rows(rows: Seq<RowView>, n: int, w: Seq<char>, s: Seq<char>)
    requires
        0 <= n < rows.len(),
    ensures
        some_row_has(rows.take(n + 1), w) <==> some_row_has(rows.take(n), w) || rows[n].0.contains(
            w,
        ),
        some_row_pairs(rows.take(n + 1), w, s) <==> some_row_pairs(rows.take(n), w, s)
            || is_pair_row(rows[n], w, s),
{
    let more = rows.take(n + 1);
    let less = rows.take(n);
    if some_row_has(less, w) {
        let i = choose|i: int| 0 <= i < less.len() && (#[trigger] less[i]).0.contains(w);
        assert(more[i].0.contains(w));
    }
    if rows[n].0.contains(w) {
        assert(more[n].0.contains(w));
    }
    if some_row_has(more, w) {
        let i = choose|i: int| 0 <= i < more.len() && (#[trigger] more[i]).0.contains(w);
        if i < n {
            assert(less[i].0.contains(w));
        }
    }
    if some_row_pairs(less, w, s) {
        let i = choose|i: int| 0 <= i < less.len() && is_pair_row(#[trigger] less[i], w, s);
        assert(is_pair_row(more[i], w, s));
    }
    if is_pair_row(rows[n], w, s) {
        assert(is_pair_row(more[n], w, s));
    }
    if some_row_pairs(more, w, s) {
        let i = choose|i: int| 0 <= i < more.len() && is_pair_row(#[trigger] more[i], w, s);
        if i < n {
            assert(is_pair_row(less[i], w, s));
        }
    }
}

/// Enters one row into `index`.
fn index_row(index: &mut WordIndex, row: &Row, Ghost(done): Ghost<Seq<RowView>>)
    requires
        indexes(*old(index), done),
    ensures
        indexes(*final(index), done.push(row_view(*row))),
{
    let ghost f = string_views(row.0@);
    let ghost g = string_views(row.1@);
    let mut a: usize = 0;
    proof {
        assert(f.take(0).len() == 0);
    }
    while a < row.0.len()
        invariant
            a <= row.0.len(),
            f == string_views(row.0@),
            g == string_views(row.1@),
            index.wf(),
            forall|w: Seq<char>|
                #[trigger] index.has_key(w)
                    <==> some_row_has(done, w) || f.take(a as int).contains(w),
            forall|w: Seq<char>, s: Seq<char>|
                #[trigger] index.has_pair(w, s)
                    <==> some_row_pairs(done, w, s) || (f.take(a as int).contains(
                    w,
                ) && g.contains(s)),
        decreases row.0.len() - a,
    {
        let key = row.0[a].as_str();
        assert(f[a as int] == key@);
        index.add_key(key);
        let mut b: usize = 0;
        proof {
            assert(g.take(0).len() == 0);
        }
        while b < row.1.len()
            invariant
                a < row.0.len(),
                b <= row.1.len(),
                f == string_views(row.0@),
                g == string_views(row.1@),
                f[a as int] == key@,
                index.wf(),
                forall|w: Seq<char>|
                    #[trigger] index.has_key(w)
                        <==> some_row_has(done, w) || f.take(a as int).contains(w)
                        || w == key@,
                forall|w: Seq<char>, s: Seq<char>|
                    #[trigger] index.has_pair(w, s) <==> some_row_pairs(done, w, s) || (f.take(
                        a as int,
                    ).contains(w) && g.contains(s)) || (w == key@ && g.take(b as int).contains(s)),
            decreases row.1.len() - b,
        {
            let word = row.1[b].as_str();
            assert(g[b as int] == word@);
            index.add_pair(key, word);
            proof {
                assert forall|w: Seq<char>, s: Seq<char>|
                    #[trigger] index.has_pair(w, s) <==> some_row_pairs(done, w, s) || (f.take(
                        a as int,
                    ).contains(w) && g.contains(s)) || (w == key@ && g.take(b + 1).contains(s)) by {
                    lemma_take_contains(g, b as int, s);
                }
            }
            b += 1;
        }
        proof {
            assert(g.take(b as int) =~= g);
            assert forall|w: Seq<char>|
                #[trigger] index.has_key(w)
                    <==> some_row_has(done, w) || f.take(a + 1).contains(w) by {
                lemma_take_contains(f, a as int, w);
            }
            assert forall|w: Seq<char>, s: Seq<char>|
                #[trigger] index.has_pair(w, s)
                    <==> some_row_pairs(done, w, s) || (f.take(a + 1).contains(w)
                    && g.contains(s)) by {
                lemma_take_contains(f, a as int, w);
            }
        }
        a += 1;
    }
    proof {
        assert(f.take(a as int) =~= f);
        let all = done.push(row_view(*row));
        assert(all.take(done.len() as int) =~= done);
        assert(all.take(done.len() as int + 1) =~= all);
        assert forall|w: Seq<char>| #[trigger] index.has_key(w) <==> some_row_has(all, w) by {
            lemma_take_rows(all, done.len() as int, w, w);
        }
        assert forall|w: Seq<char>, s: Seq<char>|
            #[trigger] index.has_pair(w, s) <==> some_row_pairs(all, w, s) by {
            lemma_take_rows(all, done.len() as int, w, s);
        }
    }
}

/// The index of `rows` by their first column.
pub fn build_index(rows: &Vec<Row>) -> (index: WordIndex)
    ensures
        indexes(index, rows_view(rows@)),
{
    let ghost rv = rows_view(rows@);
    let mut index = WordIndex::new();
    let mut n: usize = 0;
    proof {
        assert(rv.take(0).len() == 0);
    }
    while n < rows.len()
        invariant
            n <= rows.len(),
            rv == rows_view(rows@),
            indexes(index, rv.take(n as int)),
        decreases rows.len() - n,
    {
        index_row(&mut index, &rows[n], Ghost(rv.take(n as int)));
        proof {
            assert(rv.take(n as int).push(row_view(rows@[n as int])) =~= rv.take(n + 1));
        }
        n += 1;
    }
    proof {
        assert(rv.take(n as int) =~= rv);
    }
    index
}

} // verus!
