//! Incremental vocabulary-indexed bag-of-words embedding.
//!
//! Lines are split into words on single-space boundaries; every word is
//! assigned a dense index in first-seen order, and a line embeds as the
//! occurrence-count vector over those indices. The vocabulary only grows:
//! entries are never removed or renumbered.

use vstd::prelude::*;
use crate::text::chars_of;

verus! {

/// A word: a maximal run of characters between single-space delimiters.
/// Consecutive delimiters yield empty words, which are legitimate
/// vocabulary entries of their own.
pub type Word = Vec<char>;

/// A dense embedding vector: position `i` counts the occurrences of the
/// word with vocabulary index `i`.
pub type Repr = Vec<usize>;

/// The views of a sequence of words.
pub open spec fn views_of(s: Seq<Word>) -> Seq<Seq<char>> {
    Seq::new(s.len(), |i: int| s[i]@)
}

/// The words of a line, split on every single space: consecutive spaces
/// yield empty words, and the empty line yields one empty word.
pub open spec fn split_words(s: Seq<char>) -> Seq<Seq<char>>
    decreases s.len(),
{
    if s.len() == 0 {
        seq![Seq::<char>::empty()]
    } else {
        let r = split_words(s.drop_last());
        if s.last() == ' ' {
            r.push(Seq::<char>::empty())
        } else {
            r.update(r.len() - 1, r.last().push(s.last()))
        }
    }
}

pub proof fn lemma_split_words_len(s: Seq<char>)
    ensures
        split_words(s).len() >= 1,
    decreases s.len(),
{
    if s.len() == 0 {
    } else {
        lemma_split_words_len(s.drop_last());
    }
}

/// One character extends the split: a space opens a new empty word, any
/// other character extends the last word.
proof fn lemma_split_step(s: Seq<char>, k: int, c: char)
    requires
        0 <= k < s.len(),
        c == s[k],
    ensures
        c == ' ' ==> split_words(s.take(k + 1)) == split_words(s.take(k)).push(
            Seq::<char>::empty(),
        ),
        c != ' ' ==> split_words(s.take(k + 1)) == split_words(s.take(k)).update(
            split_words(s.take(k)).len() - 1,
            split_words(s.take(k)).last().push(c),
        ),
{
    lemma_split_words_len(s.take(k));
    assert(s.take(k + 1).drop_last() =~= s.take(k));
    assert(s.take(k + 1).last() == c);
}

/// The vocabulary after registering the words `ws` in order: each word
/// not yet present is appended at the end.
pub open spec fn add_words(vocab: Seq<Seq<char>>, ws: Seq<Seq<char>>) -> Seq<Seq<char>>
    decreases ws.len(),
{
    if ws.len() == 0 {
        vocab
    } else {
        let v = if vocab.contains(ws[0]) {
            vocab
        } else {
            vocab.push(ws[0])
        };
        add_words(v, ws.drop_first())
    }
}

/// The number of occurrences of `w` among the words `ws`.
pub open spec fn count_word(ws: Seq<Seq<char>>, w: Seq<char>) -> int
    decreases ws.len(),
{
    if ws.len() == 0 {
        0
    } else {
        (if ws[0] == w {
            1int
        } else {
            0int
        }) + count_word(ws.drop_first(), w)
    }
}

/// The dense embedding of the words `ws` over `vocab`: position `i`
/// counts the occurrences of the word with index `i`; words outside the
/// vocabulary contribute nothing.
pub open spec fn repr_of(vocab: Seq<Seq<char>>, ws: Seq<Seq<char>>) -> Seq<usize> {
    Seq::new(vocab.len(), |i: int| count_word(ws, vocab[i]) as usize)
}

/// No word appears twice in the vocabulary.
pub open spec fn distinct(vocab: Seq<Seq<char>>) -> bool {
    forall|i: int, j: int| 0 <= i < j < vocab.len() ==> vocab[i] != vocab[j]
}

pub proof fn lemma_count_nonneg(ws: Seq<Seq<char>>, w: Seq<char>)
    ensures
        0 <= count_word(ws, w) <= ws.len(),
    decreases ws.len(),
{
    if ws.len() == 0 {
    } else {
        lemma_count_nonneg(ws.drop_first(), w);
    }
}

proof fn lemma_count_push(ws: Seq<Seq<char>>, x: Seq<char>, w: Seq<char>)
    ensures
        count_word(ws.push(x), w) == count_word(ws, w) + (if x == w {
            1int
        } else {
            0int
        }),
    decreases ws.len(),
{
    if ws.len() == 0 {
        let one = ws.push(x);
        assert(one[0] == x);
        assert(one.drop_first() =~= Seq::<Seq<char>>::empty());
        assert(count_word(Seq::<Seq<char>>::empty(), w) == 0);
    } else {
        assert(ws.push(x)[0] == ws[0]);
        assert(ws.push(x).drop_first() =~= ws.drop_first().push(x));
        lemma_count_push(ws.drop_first(), x, w);
    }
}

/// One word extends a prefix count by one occurrence or none.
proof fn lemma_count_take_step(ws: Seq<Seq<char>>, p: int, w: Seq<char>)
    requires
        0 <= p < ws.len(),
    ensures
        count_word(ws.take(p + 1), w) == count_word(ws.take(p), w) + (if ws[p] == w {
            1int
        } else {
            0int
        }),
{
    assert(ws.take(p + 1) =~= ws.take(p).push(ws[p]));
    lemma_count_push(ws.take(p), ws[p], w);
}

/// A word occurs among `ws` exactly when its count there is positive.
pub proof fn lemma_count_pos(ws: Seq<Seq<char>>, w: Seq<char>)
    ensures
        count_word(ws, w) > 0 <==> ws.contains(w),
    decreases ws.len(),
{
    lemma_count_nonneg(ws, w);
    if ws.len() == 0 {
    } else {
        lemma_count_pos(ws.drop_first(), w);
        lemma_count_nonneg(ws.drop_first(), w);
        if ws[0] == w {
            assert(ws.contains(w));
        } else {
            if ws.drop_first().contains(w) {
                let i = choose|i: int|
                    0 <= i < ws.drop_first().len() && ws.drop_first()[i] == w;
                assert(ws[i + 1] == w);
                assert(ws.contains(w));
            }
            if ws.contains(w) {
                let i = choose|i: int| 0 <= i < ws.len() && ws[i] == w;
                assert(i > 0);
                assert(ws.drop_first()[i - 1] == w);
                assert(ws.drop_first().contains(w));
            }
        }
    }
}

/// Registering words only appends: the old vocabulary stays an unchanged
/// prefix, so indices once assigned are stable.
pub proof fn lemma_add_words_prefix(vocab: Seq<Seq<char>>, ws: Seq<Seq<char>>)
    ensures
        add_words(vocab, ws).len() >= vocab.len(),
        add_words(vocab, ws).take(vocab.len() as int) == vocab,
    decreases ws.len(),
{
    if ws.len() == 0 {
        assert(add_words(vocab, ws).take(vocab.len() as int) =~= vocab);
    } else {
        let v = if vocab.contains(ws[0]) {
            vocab
        } else {
            vocab.push(ws[0])
        };
        lemma_add_words_prefix(v, ws.drop_first());
        assert(v.take(vocab.len() as int) =~= vocab);
        let r = add_words(vocab, ws);
        assert(r.take(v.len() as int).take(vocab.len() as int) =~= r.take(vocab.len() as int));
    }
}

/// Registering words preserves distinctness of the vocabulary.
pub proof fn lemma_add_words_distinct(vocab: Seq<Seq<char>>, ws: Seq<Seq<char>>)
    requires
        distinct(vocab),
    ensures
        distinct(add_words(vocab, ws)),
    decreases ws.len(),
{
    if ws.len() == 0 {
    } else {
        if vocab.contains(ws[0]) {
            lemma_add_words_distinct(vocab, ws.drop_first());
        } else {
            let v = vocab.push(ws[0]);
            assert forall|i: int, j: int| 0 <= i < j < v.len() implies v[i] != v[j] by {
                if j == v.len() - 1 {
                    assert(!vocab.contains(ws[0]));
                    assert(v[i] == vocab[i]);
                    if v[i] == ws[0] {
                        assert(vocab.contains(ws[0]));
                    }
                }
            }
            lemma_add_words_distinct(v, ws.drop_first());
        }
    }
}

/// The registered vocabulary holds exactly the old entries and the words
/// that were offered.
pub proof fn lemma_add_words_contains(vocab: Seq<Seq<char>>, ws: Seq<Seq<char>>, w: Seq<char>)
    ensures
        add_words(vocab, ws).contains(w) <==> vocab.contains(w) || ws.contains(w),
    decreases ws.len(),
{
    if ws.len() == 0 {
    } else {
        let v = if vocab.contains(ws[0]) {
            vocab
        } else {
            vocab.push(ws[0])
        };
        lemma_add_words_contains(v, ws.drop_first(), w);
        if v.contains(w) && !vocab.contains(w) {
            assert(w == ws[0]);
            assert(ws.contains(w));
        }
        if vocab.contains(w) {
            let i = choose|i: int| 0 <= i < vocab.len() && vocab[i] == w;
            assert(v[i] == w);
            assert(v.contains(w));
        }
        if ws.contains(w) {
            let i = choose|i: int| 0 <= i < ws.len() && ws[i] == w;
            if i == 0 {
                if vocab.contains(ws[0]) {
                } else {
                    assert(v[v.len() - 1] == w);
                    assert(v.contains(w));
                }
            } else {
                assert(ws.drop_first()[i - 1] == w);
                assert(ws.drop_first().contains(w));
            }
        }
        if ws.drop_first().contains(w) {
            let i = choose|i: int|
                0 <= i < ws.drop_first().len() && ws.drop_first()[i] == w;
            assert(ws[i + 1] == w);
            assert(ws.contains(w));
        }
    }
}

/// The position of the first occurrence of `w` among the words `ws`.
pub open spec fn first_occ(ws: Seq<Seq<char>>, w: Seq<char>) -> int
    recommends
        ws.contains(w),
    decreases ws.len(),
{
    if ws.len() == 0 {
        0
    } else if ws[0] == w {
        0
    } else {
        1 + first_occ(ws.drop_first(), w)
    }
}

pub proof fn lemma_first_occ_nonneg(ws: Seq<Seq<char>>, w: Seq<char>)
    ensures
        first_occ(ws, w) >= 0,
    decreases ws.len(),
{
    if ws.len() == 0 {
    } else if ws[0] == w {
    } else {
        lemma_first_occ_nonneg(ws.drop_first(), w);
    }
}

/// Registering appends exactly the offered words that were not yet
/// known, ordered by their first occurrence among the offered words.
proof fn lemma_add_words_order(vocab: Seq<Seq<char>>, ws: Seq<Seq<char>>)
    ensures
        forall|k: int|
            vocab.len() <= k < add_words(vocab, ws).len() ==> ws.contains(
                #[trigger] add_words(vocab, ws)[k],
            ) && !vocab.contains(add_words(vocab, ws)[k]),
        forall|i: int, j: int|
            #![trigger add_words(vocab, ws)[i], add_words(vocab, ws)[j]]
            vocab.len() <= i < j < add_words(vocab, ws).len() ==> first_occ(
                ws,
                add_words(vocab, ws)[i],
            ) < first_occ(ws, add_words(vocab, ws)[j]),
    decreases ws.len(),
{
    let r = add_words(vocab, ws);
    lemma_add_words_prefix(vocab, ws);
    if ws.len() == 0 {
    } else {
        let w0 = ws[0];
        let tail = ws.drop_first();
        if vocab.contains(w0) {
            assert(r == add_words(vocab, tail));
            lemma_add_words_order(vocab, tail);
            assert forall|k: int| vocab.len() <= k < r.len() implies ws.contains(#[trigger] r[k])
                && !vocab.contains(r[k]) by {
                assert(tail.contains(r[k]));
                let i = choose|i: int| 0 <= i < tail.len() && tail[i] == r[k];
                assert(ws[i + 1] == r[k]);
            }
            assert forall|i: int, j: int|
                #![trigger r[i], r[j]]
                vocab.len() <= i < j < r.len() implies first_occ(ws, r[i]) < first_occ(
                ws,
                r[j],
            ) by {
                assert(r[i] != w0 && r[j] != w0);
                assert(first_occ(ws, r[i]) == 1 + first_occ(tail, r[i]));
                assert(first_occ(ws, r[j]) == 1 + first_occ(tail, r[j]));
            }
        } else {
            let v = vocab.push(w0);
            assert(r == add_words(v, tail));
            lemma_add_words_order(v, tail);
            lemma_add_words_prefix(v, tail);
            assert(r.take(v.len() as int)[vocab.len() as int] == w0);
            assert(r[vocab.len() as int] == w0);
            assert(v[vocab.len() as int] == w0);
            assert(v.contains(w0));
            assert forall|k: int| vocab.len() <= k < r.len() implies ws.contains(#[trigger] r[k])
                && !vocab.contains(r[k]) by {
                if k == vocab.len() {
                    assert(ws[0] == r[k]);
                } else {
                    assert(tail.contains(r[k]) && !v.contains(r[k]));
                    let i = choose|i: int| 0 <= i < tail.len() && tail[i] == r[k];
                    assert(ws[i + 1] == r[k]);
                    if vocab.contains(r[k]) {
                        let t = choose|t: int| 0 <= t < vocab.len() && vocab[t] == r[k];
                        assert(v[t] == r[k]);
                    }
                }
            }
            assert forall|i: int, j: int|
                #![trigger r[i], r[j]]
                vocab.len() <= i < j < r.len() implies first_occ(ws, r[i]) < first_occ(
                ws,
                r[j],
            ) by {
                assert(!v.contains(r[j]));
                assert(r[j] != w0);
                assert(first_occ(ws, r[j]) == 1 + first_occ(tail, r[j]));
                lemma_first_occ_nonneg(tail, r[j]);
                if i == vocab.len() {
                    assert(first_occ(ws, r[i]) == 0);
                } else {
                    assert(!v.contains(r[i]));
                    assert(r[i] != w0);
                    assert(first_occ(ws, r[i]) == 1 + first_occ(tail, r[i]));
                }
            }
        }
    }
}

/// On a fresh vocabulary, registering a line assigns the dense indices
/// in first-seen word order: the vocabulary then holds exactly the
/// line's distinct words, ordered by first occurrence, and the line's
/// own embedding counts every one of them at least once.
pub proof fn lemma_fresh_insert_first_seen(ws: Seq<Seq<char>>)
    ensures
        distinct(add_words(Seq::<Seq<char>>::empty(), ws)),
        forall|w: Seq<char>|
            #[trigger] add_words(Seq::<Seq<char>>::empty(), ws).contains(w) <==> ws.contains(w),
        forall|i: int, j: int|
            #![trigger add_words(Seq::<Seq<char>>::empty(), ws)[i], add_words(Seq::<Seq<char>>::empty(), ws)[j]]
            0 <= i < j < add_words(Seq::<Seq<char>>::empty(), ws).len() ==> first_occ(
                ws,
                add_words(Seq::<Seq<char>>::empty(), ws)[i],
            ) < first_occ(ws, add_words(Seq::<Seq<char>>::empty(), ws)[j]),
        forall|i: int|
            0 <= i < add_words(Seq::<Seq<char>>::empty(), ws).len() ==> count_word(
                ws,
                #[trigger] add_words(Seq::<Seq<char>>::empty(), ws)[i],
            ) > 0,
{
    let e = Seq::<Seq<char>>::empty();
    let v = add_words(e, ws);
    lemma_add_words_distinct(e, ws);
    lemma_add_words_order(e, ws);
    assert forall|w: Seq<char>| #[trigger] v.contains(w) <==> ws.contains(w) by {
        lemma_add_words_contains(e, ws, w);
    }
    assert forall|i: int| 0 <= i < v.len() implies count_word(ws, #[trigger] v[i]) > 0 by {
        assert(ws.contains(v[i]));
        lemma_count_pos(ws, v[i]);
    }
}

/// The incremental embedding model: the vocabulary, in index order.
pub struct Embedding {
    words: Vec<Word>,
}

impl View for Embedding {
    type V = Seq<Seq<char>>;

    closed spec fn view(&self) -> Seq<Seq<char>> {
        views_of(self.words@)
    }
}

/// Two character vectors hold the same characters.
fn eq_chars(a: &Vec<char>, b: &Vec<char>) -> (r: bool)
    ensures
        r == (a@ == b@),
{
    if a.len() != b.len() {
        return false;
    }
    let mut k: usize = 0;
    while k < a.len()
        invariant
            k <= a@.len(),
            a@.len() == b@.len(),
            forall|t: int| 0 <= t < k ==> a@[t] == b@[t],
        decreases a@.len() - k,
    {
        if a[k] != b[k] {
            return false;
        }
        k = k + 1;
    }
    proof {
        assert(a@ =~= b@);
    }
    true
}

/// Splits a line into its words, one split at every single space.
fn split_chars(s: &Vec<char>) -> (r: Vec<Word>)
    ensures
        views_of(r@) == split_words(s@),
        r@.len() >= 1,
{
    let mut r: Vec<Word> = Vec::new();
    let mut cur: Vec<char> = Vec::new();
    let mut k: usize = 0;
    while k < s.len()
        invariant
            k <= s@.len(),
            split_words(s@.take(k as int)) == views_of(r@).push(cur@),
        decreases s@.len() - k,
    {
        let ghost prev_r = r@;
        let ghost prev_cur = cur@;
        let c = s[k];
        if c == ' ' {
            r.push(cur);
            cur = Vec::new();
            proof {
                assert(views_of(r@) =~= views_of(prev_r).push(prev_cur));
                assert(cur@ =~= Seq::<char>::empty());
            }
        } else {
            cur.push(c);
        }
        proof {
            lemma_split_step(s@, k as int, c);
            if c == ' ' {
                assert(split_words(s@.take(k + 1)) =~= views_of(r@).push(cur@));
            } else {
                assert(views_of(prev_r).push(prev_cur).last() == prev_cur);
                assert(split_words(s@.take(k + 1)) =~= views_of(r@).push(cur@));
            }
        }
        k = k + 1;
    }
    proof {
        assert(s@.take(s@.len() as int) =~= s@);
        lemma_split_words_len(s@);
    }
    let ghost prev_r = r@;
    let ghost prev_cur = cur@;
    r.push(cur);
    proof {
        assert(views_of(r@) =~= views_of(prev_r).push(prev_cur));
    }
    r
}

impl Embedding {
    /// The vocabulary never holds the same word under two indices.
    pub open spec fn wf(self) -> bool {
        distinct(self@)
    }

    /// A fresh, empty vocabulary.
    pub fn new() -> (r: Self)
        ensures
            r@ == Seq::<Seq<char>>::empty(),
            r.wf(),
    {
        let r = Embedding { words: Vec::new() };
        proof {
            assert(r@ =~= Seq::<Seq<char>>::empty());
        }
        r
    }

    /// The index of `w` in the vocabulary, if it is known.
    #[verifier::loop_isolation(false)]
    fn find_word(&self, w: &Word) -> (r: Option<usize>)
        ensures
            match r {
                Some(i) => i < self@.len() && self@[i as int] == w@,
                None => !self@.contains(w@),
            },
    {
        let n = self.words.len();
        let mut k: usize = 0;
        while k < n
            invariant
                k <= n,
                n == self@.len(),
                forall|t: int| 0 <= t < k ==> self@[t] != w@,
            decreases n - k,
        {
            if eq_chars(&self.words[k], w) {
                proof {
                    assert(self@[k as int] == w@);
                }
                return Some(k);
            }
            k = k + 1;
        }
        proof {
            if self@.contains(w@) {
                let i = choose|i: int| 0 <= i < self@.len() && self@[i] == w@;
                assert(self@[i] != w@);
            }
        }
        None
    }

    /// Registers every word of the line: each word not yet known gets the
    /// next unused index, in first-seen order; known words change
    /// nothing. The old vocabulary stays an unchanged prefix.
    pub fn insert(&mut self, line: String)
        requires
            old(self).wf(),
        ensures
            final(self).wf(),
            final(self)@ == add_words(old(self)@, split_words(line@)),
            final(self)@.len() >= old(self)@.len(),
            final(self)@.take(old(self)@.len() as int) == old(self)@,
    {
        let chars = chars_of(line.as_str());
        let mut words = split_chars(&chars);
        let ghost vocab0 = self@;
        let ghost all = split_words(line@);
        while words.len() > 0
            invariant
                self.wf(),
                add_words(self@, views_of(words@)) == add_words(vocab0, all),
            decreases words@.len(),
        {
            let ghost prev_words = words@;
            let ghost vocab_before = self@;
            let w = words.remove(0);
            proof {
                assert(views_of(prev_words)[0] == w@);
                assert(views_of(words@) =~= views_of(prev_words).drop_first());
            }
            if !self.contains_word(&w) {
                let ghost prev_vocab = self.words@;
                let ghost wv = w@;
                self.words.push(w);
                proof {
                    assert(self@ =~= views_of(prev_vocab).push(wv));
                    assert forall|i: int, j: int| 0 <= i < j < self@.len() implies self@[i]
                        != self@[j] by {
                        if j == self@.len() - 1 {
                            if self@[i] == wv {
                                assert(vocab_before.contains(wv));
                            }
                        }
                    }
                }
            }
            proof {
                assert(add_words(vocab_before, views_of(prev_words)) == add_words(
                    self@,
                    views_of(words@),
                ));
            }
        }
        proof {
            assert(views_of(words@) =~= Seq::<Seq<char>>::empty());
            lemma_add_words_prefix(vocab0, all);
        }
    }

    /// Whether the vocabulary knows this word.
    fn contains_word(&self, w: &Word) -> (r: bool)
        ensures
            r == self@.contains(w@),
    {
        match self.find_word(w) {
            Some(_) => true,
            None => false,
        }
    }

    /// The embedding of the line over the current vocabulary: a count
    /// vector as long as the vocabulary, where unknown words are silently
    /// dropped. The vocabulary itself is not changed.
    #[verifier::loop_isolation(false)]
    pub fn repr(&self, line: String) -> (r: Repr)
        requires
            self.wf(),
        ensures
            r@ == repr_of(self@, split_words(line@)),
    {
        let chars = chars_of(line.as_str());
        let words = split_chars(&chars);
        let n = self.words.len();
        let mut r: Repr = Vec::new();
        let mut k: usize = 0;
        while k < n
            invariant
                k <= n,
                r@.len() == k,
                forall|t: int| 0 <= t < k ==> r@[t] == 0,
            decreases n - k,
        {
            r.push(0);
            k = k + 1;
        }
        let ghost ws = views_of(words@);
        proof {
            assert(ws.take(0) =~= Seq::<Seq<char>>::empty());
            assert(n == self@.len());
        }
        let mut p: usize = 0;
        while p < words.len()
            invariant
                p <= words@.len(),
                r@.len() == n,
                n == self@.len(),
                ws == views_of(words@),
                forall|t: int| 0 <= t < n ==> r@[t] == count_word(
                    ws.take(p as int),
                    self@[t],
                ),
                forall|t: int| 0 <= t < n ==> r@[t] <= p,
            decreases words@.len() - p,
        {
            let ghost prev_r = r@;
            let w = &words[p];
            proof {
                assert(ws[p as int] == w@);
            }
            match self.find_word(w) {
                Some(idx) => {
                    let cur = r[idx];
                    r[idx] = cur + 1;
                    proof {
                        assert(r@ =~= prev_r.update(idx as int, (cur + 1) as usize));
                        assert forall|t: int| 0 <= t < n implies r@[t] == count_word(
                            ws.take(p + 1),
                            self@[t],
                        ) by {
                            lemma_count_take_step(ws, p as int, self@[t]);
                            if t != idx {
                                assert(self@[t] != w@);
                            }
                        }
                    }
                },
                None => {
                    proof {
                        assert forall|t: int| 0 <= t < n implies r@[t] == count_word(
                            ws.take(p + 1),
                            self@[t],
                        ) by {
                            lemma_count_take_step(ws, p as int, self@[t]);
                            assert(self@[t] != w@);
                        }
                    }
                },
            }
            p = p + 1;
        }
        proof {
            assert(ws.take(words@.len() as int) =~= ws);
            assert forall|t: int| 0 <= t < n implies r@[t] == repr_of(
                self@,
                split_words(line@),
            )[t] by {
                lemma_count_nonneg(ws, self@[t]);
            }
            assert(r@ =~= repr_of(self@, split_words(line@)));
        }
        r
    }
}

} // verus!
