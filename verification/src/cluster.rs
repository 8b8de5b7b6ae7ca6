//! The cluster buffer and its matching policy.
//!
//! Each incoming non-empty line is embedded against the current
//! vocabulary and compared with every stored representative. If the best
//! distance is under the threshold, or the buffer is full, the line
//! attaches to the closest representative and the edit script between
//! the two is recovered; otherwise the line becomes a new representative
//! with the next display attribute, and the vocabulary grows by its
//! words. Ties are broken towards the earliest-inserted representative.

use vstd::prelude::*;
use crate::color::next_color_spec;
use crate::color::Color;
use crate::levenshtein::apply_script;
use crate::levenshtein::edit_distance;
use crate::levenshtein::levenshtein_chars;
use crate::levenshtein::script_cost;
use crate::levenshtein::Levenshtein;
use crate::ratio::lemma_ratio_lt_le_trans;
use crate::ratio::ratio_le;
use crate::ratio::ratio_lt;
use crate::ratio::Ratio;
use crate::text::chars_of;
use crate::word2vec::add_words;
use crate::word2vec::repr_of;
use crate::word2vec::split_words;
use crate::word2vec::Embedding;
use crate::word2vec::Repr;
use crate::word_distance::distance_of;
use crate::word_distance::normalized_distance;

verus! {

/// A stored cluster representative: the original line, the embedding it
/// had when it was created, and its display attribute. Never changed
/// after creation; in particular its embedding is not recomputed as the
/// vocabulary grows.
pub struct Pattern {
    pub text: Vec<char>,
    pub repr: Repr,
    pub color: Color,
}

/// A copy of a vector of plain values.
fn clone_plain<T: Copy>(v: &Vec<T>) -> (r: Vec<T>)
    ensures
        r@ == v@,
{
    let mut r: Vec<T> = Vec::new();
    let mut k: usize = 0;
    while k < v.len()
        invariant
            k <= v@.len(),
            r@ =~= v@.take(k as int),
        decreases v@.len() - k,
    {
        r.push(v[k]);
        k = k + 1;
    }
    proof {
        assert(v@.take(v@.len() as int) =~= v@);
    }
    r
}

impl Clone for Pattern {
    /// The copy carries the same line, embedding and attribute.
    fn clone(&self) -> (r: Self)
        ensures
            r.text@ == self.text@,
            r.repr@ == self.repr@,
            r.color == self.color,
    {
        Pattern {
            text: clone_plain(&self.text),
            repr: clone_plain(&self.repr),
            color: self.color,
        }
    }
}

/// The distance of stored representative `i` to the query embedding.
pub open spec fn pattern_dist(prs: Seq<Pattern>, q: Seq<usize>, i: int) -> Ratio {
    distance_of(prs[i].repr@, q)
}

/// The first index among the first `n` representatives whose distance to
/// the query is minimal: a later tie does not displace an earlier
/// representative.
pub open spec fn closest_idx(prs: Seq<Pattern>, q: Seq<usize>, n: int) -> int
    decreases n,
{
    if n <= 1 {
        0
    } else {
        let p = closest_idx(prs, q, n - 1);
        if ratio_lt(pattern_dist(prs, q, n - 1), pattern_dist(prs, q, p)) {
            n - 1
        } else {
            p
        }
    }
}

pub proof fn lemma_closest_idx_bounds(prs: Seq<Pattern>, q: Seq<usize>, n: int)
    requires
        n >= 1,
    ensures
        0 <= closest_idx(prs, q, n) < n,
    decreases n,
{
    if n <= 1 {
    } else {
        lemma_closest_idx_bounds(prs, q, n - 1);
    }
}

/// The chosen representative's distance is minimal among the first `n`.
pub proof fn lemma_closest_idx_min(prs: Seq<Pattern>, q: Seq<usize>, n: int)
    requires
        1 <= n,
        forall|i: int| 0 <= i < n ==> (#[trigger] pattern_dist(prs, q, i)).wf(),
    ensures
        forall|j: int|
            0 <= j < n ==> ratio_le(
                pattern_dist(prs, q, closest_idx(prs, q, n)),
                #[trigger] pattern_dist(prs, q, j),
            ),
    decreases n,
{
    lemma_closest_idx_bounds(prs, q, n);
    if n <= 1 {
    } else {
        lemma_closest_idx_min(prs, q, n - 1);
        lemma_closest_idx_bounds(prs, q, n - 1);
        let p = closest_idx(prs, q, n - 1);
        let c = closest_idx(prs, q, n);
        let dn = pattern_dist(prs, q, n - 1);
        let dp = pattern_dist(prs, q, p);
        assert forall|j: int| 0 <= j < n implies ratio_le(
            pattern_dist(prs, q, c),
            #[trigger] pattern_dist(prs, q, j),
        ) by {
            if ratio_lt(dn, dp) {
                if j < n - 1 {
                    lemma_ratio_lt_le_trans(dn, dp, pattern_dist(prs, q, j));
                }
            } else {
                if j == n - 1 {
                    assert(ratio_le(dp, dn));
                }
            }
        }
    }
}

/// The cluster buffer: the stored representatives in insertion order,
/// the attribute cursor, the vocabulary, and the fixed configuration
/// supplied at construction.
pub struct PatternBuffer {
    pub patterns: Vec<Pattern>,
    pub current_color: Color,
    pub word_to_vec: Embedding,
    pub target: Ratio,
    pub max_size: usize,
}

/// What one processed line produced: a fresh representative, or the
/// closest existing one together with the edit script from its text to
/// the line.
pub enum AddOrClosest {
    Added(Pattern),
    Closest(Pattern, Levenshtein),
}

impl PatternBuffer {
    /// The buffer's invariant: a sound vocabulary and threshold, a
    /// positive capacity, and for every representative a line that a
    /// table can be built over and an embedding no longer than the
    /// vocabulary (the vocabulary only grows after a representative is
    /// stored).
    pub open spec fn wf(self) -> bool {
        &&& self.word_to_vec.wf()
        &&& self.target.wf()
        &&& self.max_size >= 1
        &&& forall|i: int|
            0 <= i < self.patterns@.len() ==> (#[trigger] self.patterns@[i]).text@.len()
                < usize::MAX
        &&& forall|i: int|
            0 <= i < self.patterns@.len() ==> (#[trigger] self.patterns@[i]).repr@.len()
                <= self.word_to_vec@.len()
    }

    /// The embedding of a line against the current vocabulary.
    pub open spec fn query(self, line: Seq<char>) -> Seq<usize> {
        repr_of(self.word_to_vec@, split_words(line))
    }

    /// The earliest representative at minimal distance from the line.
    pub open spec fn best(self, line: Seq<char>) -> int {
        closest_idx(self.patterns@, self.query(line), self.patterns@.len() as int)
    }

    /// That representative's distance from the line.
    pub open spec fn best_dist(self, line: Seq<char>) -> Ratio {
        pattern_dist(self.patterns@, self.query(line), self.best(line))
    }

    /// Whether this line becomes a new representative: always when the
    /// buffer is empty, otherwise only when the best distance reaches
    /// the threshold and the buffer is below capacity.
    pub open spec fn creates(self, line: Seq<char>) -> bool {
        self.patterns@.len() == 0 || (ratio_le(self.target, self.best_dist(line))
            && self.patterns@.len() < self.max_size)
    }

    /// An empty buffer with the given threshold and capacity; the
    /// attribute cursor starts one step before the first attribute
    /// handed out.
    pub fn new(target: Ratio, max_size: usize) -> (r: PatternBuffer)
        requires
            target.wf(),
            max_size >= 1,
        ensures
            r.wf(),
            r.patterns@.len() == 0,
            r.current_color == Color::BrightBlack,
            r.word_to_vec@ == Seq::<Seq<char>>::empty(),
            r.target == target,
            r.max_size == max_size,
    {
        PatternBuffer {
            patterns: Vec::new(),
            current_color: Color::BrightBlack,
            word_to_vec: Embedding::new(),
            target,
            max_size,
        }
    }

    /// Advances the attribute cursor one step along the palette cycle
    /// and hands the new attribute out.
    fn next_color(&mut self) -> (c: Color)
        ensures
            final(self).current_color == next_color_spec(old(self).current_color),
            c == final(self).current_color,
            final(self).patterns == old(self).patterns,
            final(self).word_to_vec == old(self).word_to_vec,
            final(self).target == old(self).target,
            final(self).max_size == old(self).max_size,
    {
        let color = match self.current_color {
            Color::Red => Color::Green,
            Color::Green => Color::Yellow,
            Color::Yellow => Color::Blue,
            Color::Blue => Color::Magenta,
            Color::Magenta => Color::Cyan,
            Color::Cyan => Color::White,
            Color::White => Color::BrightBlack,
            Color::BrightBlack => Color::BrightRed,
            Color::BrightRed => Color::BrightGreen,
            Color::BrightGreen => Color::BrightYellow,
            Color::BrightYellow => Color::BrightBlue,
            Color::BrightBlue => Color::BrightMagenta,
            Color::BrightMagenta => Color::BrightCyan,
            Color::BrightCyan => Color::BrightWhite,
            Color::BrightWhite => Color::Red,
            Color::Black => Color::Red,
        };
        self.current_color = color;
        color
    }

    /// Makes the line a new representative: registers its words, takes
    /// the next attribute, snapshots the line's embedding over the grown
    /// vocabulary, and appends the representative. The copy handed back
    /// carries the same line, embedding and attribute.
    fn add(&mut self, other: &str) -> (p: Pattern)
        requires
            old(self).wf(),
            other@.len() < usize::MAX,
        ensures
            final(self).wf(),
            final(self).target == old(self).target,
            final(self).max_size == old(self).max_size,
            final(self).current_color == next_color_spec(old(self).current_color),
            final(self).word_to_vec@ == add_words(old(self).word_to_vec@, split_words(other@)),
            final(self).patterns@.len() == old(self).patterns@.len() + 1,
            forall|i: int|
                0 <= i < old(self).patterns@.len() ==> final(self).patterns@[i] == old(
                    self,
                ).patterns@[i],
            final(self).patterns@.last().text@ == other@,
            final(self).patterns@.last().repr@ == repr_of(
                final(self).word_to_vec@,
                split_words(other@),
            ),
            final(self).patterns@.last().color == next_color_spec(old(self).current_color),
            p.text@ == other@,
            p.repr@ == repr_of(final(self).word_to_vec@, split_words(other@)),
            p.color == next_color_spec(old(self).current_color),
    {
        let color = self.next_color();
        self.word_to_vec.insert(other.to_owned());
        let rp = self.word_to_vec.repr(other.to_owned());
        let text = chars_of(other);
        let pattern = Pattern { text, repr: rp, color };
        let copy = pattern.clone();
        self.patterns.push(pattern);
        copy
    }

    /// The representative closest to the line under the current
    /// vocabulary's embedding, with its distance: the earliest one on
    /// ties, none only when the buffer is empty. The buffer itself is
    /// untouched.
    fn closest(&self, other: &str) -> (res: Option<(Ratio, Pattern)>)
        requires
            self.wf(),
        ensures
            (res is None) <==> self.patterns@.len() == 0,
            match res {
                Option::None => true,
                Option::Some((d, p)) => {
                    let q = self.query(other@);
                    let k = self.best(other@);
                    &&& 0 <= k < self.patterns@.len()
                    &&& d == pattern_dist(self.patterns@, q, k)
                    &&& d.wf()
                    &&& p.text@ == self.patterns@[k].text@
                    &&& p.repr@ == self.patterns@[k].repr@
                    &&& p.color == self.patterns@[k].color
                    &&& forall|j: int|
                        0 <= j < self.patterns@.len() ==> ratio_le(
                            d,
                            #[trigger] pattern_dist(self.patterns@, q, j),
                        )
                },
            },
    {
        let q = self.word_to_vec.repr(other.to_owned());
        if self.patterns.len() == 0 {
            return None;
        }
        let ghost prs = self.patterns@;
        let ghost qv = q@;
        let mut best = normalized_distance(&self.patterns[0].repr, &q);
        let mut bi: usize = 0;
        let mut k: usize = 1;
        proof {
            assert(best == pattern_dist(prs, qv, 0));
        }
        while k < self.patterns.len()
            invariant
                1 <= k <= prs.len(),
                prs == self.patterns@,
                qv == q@,
                self.wf(),
                (bi as int) == closest_idx(prs, qv, k as int),
                0 <= bi < k,
                best == pattern_dist(prs, qv, bi as int),
                best.wf(),
                forall|i: int| 0 <= i < k ==> (#[trigger] pattern_dist(prs, qv, i)).wf(),
            decreases prs.len() - k,
        {
            let d = normalized_distance(&self.patterns[k].repr, &q);
            proof {
                assert(d == pattern_dist(prs, qv, k as int));
            }
            if d.lt(&best) {
                best = d;
                bi = k;
            }
            k = k + 1;
        }
        proof {
            lemma_closest_idx_min(prs, qv, prs.len() as int);
        }
        let p = self.patterns[bi].clone();
        Some((best, p))
    }

    /// Processes one non-empty line: if it should create a
    /// representative it is added and handed back; otherwise the buffer
    /// is left untouched and the closest representative is handed back
    /// with the edit script from its stored line to the incoming one.
    pub fn add_or_closest(&mut self, other: &str) -> (r: AddOrClosest)
        requires
            old(self).wf(),
            0 < other@.len() < usize::MAX,
        ensures
            final(self).wf(),
            (r is Added) == old(self).creates(other@),
            match r {
                AddOrClosest::Added(p) => {
                    &&& final(self).target == old(self).target
                    &&& final(self).max_size == old(self).max_size
                    &&& final(self).current_color == next_color_spec(old(self).current_color)
                    &&& final(self).word_to_vec@ == add_words(
                        old(self).word_to_vec@,
                        split_words(other@),
                    )
                    &&& final(self).patterns@.len() == old(self).patterns@.len() + 1
                    &&& forall|i: int|
                        0 <= i < old(self).patterns@.len() ==> final(self).patterns@[i] == old(
                            self,
                        ).patterns@[i]
                    &&& final(self).patterns@.last().text@ == other@
                    &&& final(self).patterns@.last().repr@ == repr_of(
                        final(self).word_to_vec@,
                        split_words(other@),
                    )
                    &&& final(self).patterns@.last().color == next_color_spec(
                        old(self).current_color,
                    )
                    &&& p.text@ == other@
                    &&& p.repr@ == repr_of(final(self).word_to_vec@, split_words(other@))
                    &&& p.color == next_color_spec(old(self).current_color)
                },
                AddOrClosest::Closest(p, diff) => {
                    let q = old(self).query(other@);
                    let k = old(self).best(other@);
                    &&& *final(self) == *old(self)
                    &&& 0 <= k < old(self).patterns@.len()
                    &&& p.text@ == old(self).patterns@[k].text@
                    &&& p.repr@ == old(self).patterns@[k].repr@
                    &&& p.color == old(self).patterns@[k].color
                    &&& apply_script(diff@, old(self).patterns@[k].text@) == Some(other@)
                    &&& script_cost(diff@) == edit_distance(
                        old(self).patterns@[k].text@,
                        other@,
                    )
                },
            },
    {
        match self.closest(other) {
            Option::None => {
                let p = self.add(other);
                AddOrClosest::Added(p)
            },
            Option::Some((d, p)) => {
                if self.target.le(&d) && self.patterns.len() < self.max_size {
                    let p2 = self.add(other);
                    AddOrClosest::Added(p2)
                } else {
                    proof {
                        assert(self.patterns@[old(self).best(other@)].text@.len() < usize::MAX);
                    }
                    let line = chars_of(other);
                    let diff = levenshtein_chars(&p.text, &line);
                    AddOrClosest::Closest(p, diff)
                }
            },
        }
    }
}

} // verus!
