//! Character-level edit distance with full script recovery.
//!
//! `levenshtein` computes a minimum-cost sequence of operations that
//! transforms one character sequence into another, under unit cost for
//! insertion, deletion and substitution and zero cost for matching
//! characters. The script is returned in left-to-right order; applying it
//! to the first sequence reproduces the second exactly, and its cost is
//! exactly the Levenshtein distance of the two sequences.

use vstd::prelude::*;
use vstd::math::min;
use vstd::math::max;
use crate::text::chars_of;
use crate::ratio::Ratio;

verus! {

/// One operation of an edit script, transforming a stored sequence A into
/// an incoming sequence B in left-to-right order. `Keep` and `Substitute`
/// consume one character of each side, `Insert` one of B only, `Delete`
/// one of A only.
#[derive(Clone, Copy, PartialEq, Eq, Structural, Debug)]
pub enum LevenshteinOp {
    Keep(char),
    Insert(char),
    Delete(char),
    Substitute(char, char),
}

/// An edit script: an ordered sequence of operations.
pub type Levenshtein = Vec<LevenshteinOp>;

/// The cost of one operation: matching characters are free, every other
/// operation has unit cost.
pub open spec fn op_cost(op: LevenshteinOp) -> int {
    match op {
        LevenshteinOp::Keep(_) => 0,
        _ => 1,
    }
}

/// The total cost of a script: its number of non-Keep operations.
pub open spec fn script_cost(s: Seq<LevenshteinOp>) -> int
    decreases s.len(),
{
    if s.len() == 0 {
        0
    } else {
        op_cost(s[0]) + script_cost(s.drop_first())
    }
}

/// Applying a script to a source sequence: `Some(result)` when every
/// operation agrees with the characters of `a` it consumes and the whole
/// of `a` is consumed, `None` otherwise.
pub open spec fn apply_script(s: Seq<LevenshteinOp>, a: Seq<char>) -> Option<Seq<char>>
    decreases s.len(),
{
    if s.len() == 0 {
        if a.len() == 0 {
            Some(Seq::empty())
        } else {
            None
        }
    } else {
        match s[0] {
            LevenshteinOp::Keep(c) => {
                if a.len() > 0 && a[0] == c {
                    match apply_script(s.drop_first(), a.drop_first()) {
                        Some(r) => Some(seq![c] + r),
                        None => None,
                    }
                } else {
                    None
                }
            },
            LevenshteinOp::Substitute(x, y) => {
                if a.len() > 0 && a[0] == x {
                    match apply_script(s.drop_first(), a.drop_first()) {
                        Some(r) => Some(seq![y] + r),
                        None => None,
                    }
                } else {
                    None
                }
            },
            LevenshteinOp::Insert(c) => {
                match apply_script(s.drop_first(), a) {
                    Some(r) => Some(seq![c] + r),
                    None => None,
                }
            },
            LevenshteinOp::Delete(c) => {
                if a.len() > 0 && a[0] == c {
                    apply_script(s.drop_first(), a.drop_first())
                } else {
                    None
                }
            },
        }
    }
}

pub open spec fn min3(x: int, y: int, z: int) -> int {
    min(x, min(y, z))
}

/// The Levenshtein distance between two character sequences: the minimum
/// total cost of a script transforming `a` into `b`, with unit cost for
/// insertion, deletion and substitution.
pub open spec fn edit_distance(a: Seq<char>, b: Seq<char>) -> int
    decreases a.len() + b.len(),
{
    if a.len() == 0 {
        b.len() as int
    } else if b.len() == 0 {
        a.len() as int
    } else {
        let sub: int = if a.last() == b.last() {
            0
        } else {
            1
        };
        min3(
            edit_distance(a.drop_last(), b.drop_last()) + sub,
            edit_distance(a, b.drop_last()) + 1,
            edit_distance(a.drop_last(), b) + 1,
        )
    }
}

pub proof fn lemma_edit_distance_nonneg(a: Seq<char>, b: Seq<char>)
    ensures
        edit_distance(a, b) >= 0,
    decreases a.len() + b.len(),
{
    if a.len() == 0 || b.len() == 0 {
    } else {
        lemma_edit_distance_nonneg(a.drop_last(), b.drop_last());
        lemma_edit_distance_nonneg(a, b.drop_last());
        lemma_edit_distance_nonneg(a.drop_last(), b);
    }
}

/// The distance never exceeds the longer length: substituting along the
/// shorter side and inserting or deleting the rest is always available.
pub proof fn lemma_edit_distance_le_max(a: Seq<char>, b: Seq<char>)
    ensures
        edit_distance(a, b) <= max(a.len() as int, b.len() as int),
    decreases a.len() + b.len(),
{
    if a.len() == 0 || b.len() == 0 {
    } else {
        lemma_edit_distance_le_max(a.drop_last(), b.drop_last());
        lemma_edit_distance_nonneg(a, b.drop_last());
        lemma_edit_distance_nonneg(a.drop_last(), b);
    }
}

/// A sequence is at distance zero from itself.
pub proof fn lemma_edit_distance_self(a: Seq<char>)
    ensures
        edit_distance(a, a) == 0,
    decreases a.len(),
{
    if a.len() == 0 {
    } else {
        lemma_edit_distance_self(a.drop_last());
        lemma_edit_distance_nonneg(a, a.drop_last());
        lemma_edit_distance_nonneg(a.drop_last(), a);
    }
}

/// Symmetry of the metric: the distance from `a` to `b` equals the
/// distance from `b` to `a`, although the recovered scripts differ (the
/// roles of insertion and deletion are exchanged, see
/// `lemma_swap_script`).
pub proof fn lemma_edit_distance_sym(a: Seq<char>, b: Seq<char>)
    ensures
        edit_distance(a, b) == edit_distance(b, a),
    decreases a.len() + b.len(),
{
    if a.len() == 0 || b.len() == 0 {
    } else {
        lemma_edit_distance_sym(a.drop_last(), b.drop_last());
        lemma_edit_distance_sym(a, b.drop_last());
        lemma_edit_distance_sym(a.drop_last(), b);
    }
}

/// The mirror of one operation: insertions become deletions and vice
/// versa, substitutions swap their characters.
pub open spec fn swap_op(op: LevenshteinOp) -> LevenshteinOp {
    match op {
        LevenshteinOp::Keep(c) => LevenshteinOp::Keep(c),
        LevenshteinOp::Insert(c) => LevenshteinOp::Delete(c),
        LevenshteinOp::Delete(c) => LevenshteinOp::Insert(c),
        LevenshteinOp::Substitute(x, y) => LevenshteinOp::Substitute(y, x),
    }
}

/// The mirror of a whole script.
pub open spec fn swap_script(s: Seq<LevenshteinOp>) -> Seq<LevenshteinOp> {
    s.map_values(|op: LevenshteinOp| swap_op(op))
}

/// A script from `a` to `b`, mirrored, is a script from `b` to `a` of the
/// same cost: the underlying metric is symmetric even though the
/// recovered script is not.
pub proof fn lemma_swap_script(s: Seq<LevenshteinOp>, a: Seq<char>, b: Seq<char>)
    requires
        apply_script(s, a) == Some(b),
    ensures
        apply_script(swap_script(s), b) == Some(a),
        script_cost(swap_script(s)) == script_cost(s),
    decreases s.len(),
{
    assert(swap_script(s).len() == s.len());
    if s.len() == 0 {
        assert(a.len() == 0 && b =~= Seq::<char>::empty());
        assert(a =~= b);
    } else {
        let t = s.drop_first();
        assert(swap_script(s)[0] == swap_op(s[0]));
        assert(swap_script(s).drop_first() =~= swap_script(t));
        match s[0] {
            LevenshteinOp::Keep(c) => {
                let r = apply_script(t, a.drop_first()).unwrap();
                assert(b == seq![c] + r);
                lemma_swap_script(t, a.drop_first(), r);
                assert(b[0] == c);
                assert(b.drop_first() =~= r);
                assert(seq![c] + a.drop_first() =~= a);
            },
            LevenshteinOp::Substitute(x, y) => {
                let r = apply_script(t, a.drop_first()).unwrap();
                assert(b == seq![y] + r);
                lemma_swap_script(t, a.drop_first(), r);
                assert(b[0] == y);
                assert(b.drop_first() =~= r);
                assert(seq![x] + a.drop_first() =~= a);
            },
            LevenshteinOp::Insert(c) => {
                let r = apply_script(t, a).unwrap();
                assert(b == seq![c] + r);
                lemma_swap_script(t, a, r);
                assert(b[0] == c);
                assert(b.drop_first() =~= r);
            },
            LevenshteinOp::Delete(c) => {
                lemma_swap_script(t, a.drop_first(), b);
                assert(seq![c] + a.drop_first() =~= a);
            },
        }
    }
}

/// Costs add over concatenation of scripts.
pub proof fn lemma_cost_append(s1: Seq<LevenshteinOp>, s2: Seq<LevenshteinOp>)
    ensures
        script_cost(s1 + s2) == script_cost(s1) + script_cost(s2),
    decreases s1.len(),
{
    if s1.len() == 0 {
        assert(s1 + s2 =~= s2);
    } else {
        lemma_cost_append(s1.drop_first(), s2);
        assert((s1 + s2).drop_first() =~= s1.drop_first() + s2);
        assert((s1 + s2)[0] == s1[0]);
    }
}

/// Application distributes over concatenation: a script for `a1` followed
/// by a script for `a2` is a script for `a1 + a2`.
pub proof fn lemma_apply_append(
    s1: Seq<LevenshteinOp>,
    s2: Seq<LevenshteinOp>,
    a1: Seq<char>,
    a2: Seq<char>,
    r1: Seq<char>,
    r2: Seq<char>,
)
    requires
        apply_script(s1, a1) == Some(r1),
        apply_script(s2, a2) == Some(r2),
    ensures
        apply_script(s1 + s2, a1 + a2) == Some(r1 + r2),
    decreases s1.len(),
{
    if s1.len() == 0 {
        assert(a1.len() == 0);
        assert(r1 =~= Seq::<char>::empty());
        assert(s1 + s2 =~= s2);
        assert(a1 + a2 =~= a2);
        assert(r1 + r2 =~= r2);
    } else {
        let t = s1.drop_first();
        assert((s1 + s2)[0] == s1[0]);
        assert((s1 + s2).drop_first() =~= t + s2);
        assert((s1 + s2).len() > 0);
        match s1[0] {
            LevenshteinOp::Keep(c) => {
                let r = apply_script(t, a1.drop_first()).unwrap();
                lemma_apply_append(t, s2, a1.drop_first(), a2, r, r2);
                assert((a1 + a2)[0] == a1[0]);
                assert((a1 + a2).drop_first() =~= a1.drop_first() + a2);
                assert(r1 + r2 =~= seq![c] + (r + r2));
            },
            LevenshteinOp::Substitute(x, y) => {
                let r = apply_script(t, a1.drop_first()).unwrap();
                lemma_apply_append(t, s2, a1.drop_first(), a2, r, r2);
                assert((a1 + a2)[0] == a1[0]);
                assert((a1 + a2).drop_first() =~= a1.drop_first() + a2);
                assert(r1 + r2 =~= seq![y] + (r + r2));
            },
            LevenshteinOp::Insert(c) => {
                let r = apply_script(t, a1).unwrap();
                lemma_apply_append(t, s2, a1, a2, r, r2);
                assert((a1 + a2).len() == a1.len() + a2.len());
                assert(r1 + r2 =~= seq![c] + (r + r2));
            },
            LevenshteinOp::Delete(c) => {
                lemma_apply_append(t, s2, a1.drop_first(), a2, r1, r2);
                assert((a1 + a2)[0] == a1[0]);
                assert((a1 + a2).drop_first() =~= a1.drop_first() + a2);
            },
        }
    }
}

/// Costs add over extending a script by one operation.
pub proof fn lemma_cost_push(s: Seq<LevenshteinOp>, x: LevenshteinOp)
    ensures
        script_cost(s.push(x)) == script_cost(s) + op_cost(x),
{
    let one = seq![x];
    assert(s.push(x) =~= s + one);
    assert(one.drop_first() =~= Seq::<LevenshteinOp>::empty());
    assert(one[0] == x);
    assert(script_cost(Seq::<LevenshteinOp>::empty()) == 0);
    assert(script_cost(one) == op_cost(x));
    lemma_cost_append(s, one);
}

/// One step of a prefix sum of costs.
proof fn lemma_cost_take_step(s: Seq<LevenshteinOp>, k: int)
    requires
        0 <= k < s.len(),
    ensures
        script_cost(s.take(k + 1)) == script_cost(s.take(k)) + op_cost(s[k]),
{
    assert(s.take(k + 1) =~= s.take(k).push(s[k]));
    lemma_cost_push(s.take(k), s[k]);
}

/// Extending an all-insertions script by inserting the next character of
/// `b`.
proof fn lemma_insert_step(prev: Seq<LevenshteinOp>, b: Seq<char>, k: int, c: char)
    requires
        0 <= k < b.len(),
        c == b[k],
        apply_script(prev, Seq::<char>::empty()) == Some(b.take(k)),
        script_cost(prev) == k,
    ensures
        apply_script(prev.push(LevenshteinOp::Insert(c)), Seq::<char>::empty()) == Some(
            b.take(k + 1),
        ),
        script_cost(prev.push(LevenshteinOp::Insert(c))) == k + 1,
{
    let one = seq![LevenshteinOp::Insert(c)];
    assert(prev.push(LevenshteinOp::Insert(c)) =~= prev + one);
    assert(one.drop_first() =~= Seq::<LevenshteinOp>::empty());
    assert(one[0] == LevenshteinOp::Insert(c));
    assert(apply_script(Seq::<LevenshteinOp>::empty(), Seq::<char>::empty()) == Some(
        Seq::<char>::empty(),
    ));
    assert(seq![c] + Seq::<char>::empty() =~= seq![c]);
    assert(apply_script(one, Seq::<char>::empty()) == Some(seq![c]));
    lemma_apply_append(prev, one, Seq::<char>::empty(), Seq::<char>::empty(), b.take(k), seq![c]);
    assert(Seq::<char>::empty() + Seq::<char>::empty() =~= Seq::<char>::empty());
    assert(b.take(k) + seq![c] =~= b.take(k + 1));
    lemma_cost_push(prev, LevenshteinOp::Insert(c));
}

/// The distance of an empty prefix of `a` to a prefix of `b` is the
/// prefix length.
proof fn lemma_ed_row0(a: Seq<char>, b: Seq<char>, j: int)
    requires
        0 <= j <= b.len(),
    ensures
        edit_distance(a.take(0), b.take(j)) == j,
{
    assert(a.take(0) =~= Seq::<char>::empty());
    assert(b.take(j).len() == j);
}

/// The distance of a prefix of `a` to an empty prefix of `b` is the
/// prefix length.
proof fn lemma_ed_col0(a: Seq<char>, b: Seq<char>, i: int)
    requires
        0 <= i <= a.len(),
    ensures
        edit_distance(a.take(i), b.take(0)) == i,
{
    assert(b.take(0) =~= Seq::<char>::empty());
    assert(a.take(i).len() == i);
}

/// The recurrence of the distance on non-empty prefixes, phrased over
/// prefix lengths.
proof fn lemma_ed_step(a: Seq<char>, b: Seq<char>, i: int, j: int)
    requires
        1 <= i <= a.len(),
        1 <= j <= b.len(),
    ensures
        edit_distance(a.take(i), b.take(j)) == min3(
            edit_distance(a.take(i - 1), b.take(j - 1)) + (if a[i - 1] == b[j - 1] {
                0int
            } else {
                1int
            }),
            edit_distance(a.take(i), b.take(j - 1)) + 1,
            edit_distance(a.take(i - 1), b.take(j)) + 1,
        ),
{
    let ai = a.take(i);
    let bj = b.take(j);
    assert(ai.len() == i && bj.len() == j);
    assert(ai.drop_last() =~= a.take(i - 1));
    assert(bj.drop_last() =~= b.take(j - 1));
    assert(ai.last() == a[i - 1]);
    assert(bj.last() == b[j - 1]);
    assert(ai.take(i) =~= ai);
    assert(bj.take(j - 1) =~= b.take(j - 1));
    assert(ai.take(i - 1) =~= a.take(i - 1));
    assert(bj.take(j) =~= bj);
}

/// Prepending the character before a suffix restores the longer suffix.
proof fn lemma_cons_skip(c: char, b: Seq<char>, j: int)
    requires
        1 <= j <= b.len(),
        c == b[j - 1],
    ensures
        seq![c] + b.skip(j) == b.skip(j - 1),
{
    assert(seq![c] + b.skip(j) =~= b.skip(j - 1));
}

/// One diagonal backtrace step: prepending the Keep or Substitute that
/// consumes `a[i-1]` and produces `b[j-1]`.
proof fn lemma_bt_diag(
    prev: Seq<LevenshteinOp>,
    a: Seq<char>,
    b: Seq<char>,
    i: int,
    j: int,
    op: LevenshteinOp,
)
    requires
        1 <= i <= a.len(),
        1 <= j <= b.len(),
        apply_script(prev.reverse(), a.skip(i)) == Some(b.skip(j)),
        op == (if a[i - 1] == b[j - 1] {
            LevenshteinOp::Keep(a[i - 1])
        } else {
            LevenshteinOp::Substitute(a[i - 1], b[j - 1])
        }),
    ensures
        apply_script(prev.push(op).reverse(), a.skip(i - 1)) == Some(b.skip(j - 1)),
        script_cost(prev.push(op).reverse()) == script_cost(prev.reverse()) + (if a[i - 1] == b[j
            - 1] {
            0int
        } else {
            1int
        }),
{
    let rest = prev.reverse();
    let s = prev.push(op).reverse();
    assert(s =~= seq![op] + rest);
    assert(s[0] == op);
    assert(s.drop_first() =~= rest);
    assert(s.len() > 0);
    assert(a.skip(i - 1)[0] == a[i - 1]);
    assert(a.skip(i - 1).len() > 0);
    assert(a.skip(i - 1).drop_first() =~= a.skip(i));
    match op {
        LevenshteinOp::Keep(c) => {
            lemma_cons_skip(c, b, j);
        },
        LevenshteinOp::Substitute(x, y) => {
            lemma_cons_skip(y, b, j);
        },
        _ => {
            assert(false);
        },
    }
    assert(script_cost(s) == op_cost(op) + script_cost(rest));
}

/// One insertion backtrace step: prepending the Insert that produces
/// `b[j-1]`.
proof fn lemma_bt_ins(prev: Seq<LevenshteinOp>, a: Seq<char>, b: Seq<char>, i: int, j: int, c: char)
    requires
        0 <= i <= a.len(),
        1 <= j <= b.len(),
        c == b[j - 1],
        apply_script(prev.reverse(), a.skip(i)) == Some(b.skip(j)),
    ensures
        apply_script(prev.push(LevenshteinOp::Insert(c)).reverse(), a.skip(i)) == Some(
            b.skip(j - 1),
        ),
        script_cost(prev.push(LevenshteinOp::Insert(c)).reverse()) == script_cost(prev.reverse())
            + 1,
{
    let op = LevenshteinOp::Insert(c);
    let rest = prev.reverse();
    let s = prev.push(op).reverse();
    assert(s =~= seq![op] + rest);
    assert(s[0] == op);
    assert(s.drop_first() =~= rest);
    lemma_cons_skip(c, b, j);
    assert(script_cost(s) == op_cost(op) + script_cost(rest));
}

/// One deletion backtrace step: prepending the Delete that consumes
/// `a[i-1]`.
proof fn lemma_bt_del(prev: Seq<LevenshteinOp>, a: Seq<char>, b: Seq<char>, i: int, j: int, c: char)
    requires
        1 <= i <= a.len(),
        0 <= j <= b.len(),
        c == a[i - 1],
        apply_script(prev.reverse(), a.skip(i)) == Some(b.skip(j)),
    ensures
        apply_script(prev.push(LevenshteinOp::Delete(c)).reverse(), a.skip(i - 1)) == Some(
            b.skip(j),
        ),
        script_cost(prev.push(LevenshteinOp::Delete(c)).reverse()) == script_cost(prev.reverse())
            + 1,
{
    let op = LevenshteinOp::Delete(c);
    let rest = prev.reverse();
    let s = prev.push(op).reverse();
    assert(s =~= seq![op] + rest);
    assert(s[0] == op);
    assert(s.drop_first() =~= rest);
    assert(a.skip(i - 1)[0] == a[i - 1]);
    assert(a.skip(i - 1).len() > 0);
    assert(a.skip(i - 1).drop_first() =~= a.skip(i));
    assert(script_cost(s) == op_cost(op) + script_cost(rest));
}

/// How one cell's minimum was reached, recorded for the backtrace.
#[derive(Clone, Copy, PartialEq, Eq, Structural)]
enum Choice {
    Diag,
    Ins,
    Del,
}

struct Cell {
    cost: usize,
    mv: Choice,
}

/// The cell at `(i, j)` holds the distance of the prefixes of lengths `i`
/// and `j`, and its recorded move really achieved that minimum.
spec fn cell_ok(c: Cell, a: Seq<char>, b: Seq<char>, i: int, j: int) -> bool {
    &&& c.cost == edit_distance(a.take(i), b.take(j))
    &&& ((i > 0 || j > 0) ==> match c.mv {
        Choice::Diag => i > 0 && j > 0 && c.cost == edit_distance(a.take(i - 1), b.take(j - 1)) + (
        if a[i - 1] == b[j - 1] {
            0int
        } else {
            1int
        }),
        Choice::Ins => j > 0 && c.cost == edit_distance(a.take(i), b.take(j - 1)) + 1,
        Choice::Del => i > 0 && c.cost == edit_distance(a.take(i - 1), b.take(j)) + 1,
    })
}

spec fn row_ok(row: Seq<Cell>, a: Seq<char>, b: Seq<char>, i: int, m: int) -> bool {
    &&& row.len() == m + 1
    &&& forall|j: int| 0 <= j <= m ==> cell_ok(#[trigger] row[j], a, b, i, j)
}

/// The script read from the back: the backtrace collects operations in
/// reverse order.
fn reverse_script(v: &Levenshtein) -> (r: Levenshtein)
    ensures
        r@ == v@.reverse(),
{
    let mut r: Levenshtein = Vec::new();
    let mut k = v.len();
    while k > 0
        invariant
            k <= v.len(),
            r@.len() == v@.len() - k,
            forall|t: int| 0 <= t < r@.len() ==> r@[t] == v@[v@.len() - 1 - t],
        decreases k,
    {
        k = k - 1;
        r.push(v[k]);
    }
    assert(r@ =~= v@.reverse());
    r
}

/// The edit script from `a` to `b`, over already-extracted characters.
///
/// The returned script, applied to `a`, reproduces `b` exactly, and its
/// number of non-Keep operations is exactly the Levenshtein distance of
/// the two sequences. Where several moves tie, the diagonal move is
/// preferred over insertion and insertion over deletion.
#[verifier::loop_isolation(false)]
pub fn levenshtein_chars(a: &Vec<char>, b: &Vec<char>) -> (r: Levenshtein)
    requires
        a@.len() < usize::MAX,
        b@.len() < usize::MAX,
    ensures
        apply_script(r@, a@) == Some(b@),
        script_cost(r@) == edit_distance(a@, b@),
{
    let n = a.len();
    let m = b.len();
    if n == 0 {
        let mut r: Levenshtein = Vec::new();
        let mut k: usize = 0;
        while k < m
            invariant
                k <= m,
                apply_script(r@, Seq::<char>::empty()) == Some(b@.take(k as int)),
                script_cost(r@) == k,
            decreases m - k,
        {
            let ghost prev = r@;
            let c = b[k];
            r.push(LevenshteinOp::Insert(c));
            proof {
                lemma_insert_step(prev, b@, k as int, c);
            }
            k = k + 1;
        }
        assert(b@.take(m as int) =~= b@);
        assert(a@ =~= Seq::<char>::empty());
        return r;
    }
    // Dynamic-programming table over prefixes: entry (i, j) covers the
    // first i characters of a and the first j of b.
    let mut table: Vec<Vec<Cell>> = Vec::new();
    let mut row0: Vec<Cell> = Vec::new();
    row0.push(Cell { cost: 0, mv: Choice::Ins });
    assert(a@.take(0) =~= Seq::<char>::empty());
    assert(b@.take(0) =~= Seq::<char>::empty());
    let mut j: usize = 1;
    while j <= m
        invariant
            1 <= j <= m + 1,
            row0@.len() == j,
            forall|t: int| 0 <= t < j ==> cell_ok(#[trigger] row0@[t], a@, b@, 0, t),
        decreases m + 1 - j,
    {
        proof {
            lemma_ed_row0(a@, b@, j as int);
            lemma_ed_row0(a@, b@, j as int - 1);
        }
        row0.push(Cell { cost: j, mv: Choice::Ins });
        j = j + 1;
    }
    table.push(row0);
    let mut i: usize = 1;
    while i <= n
        invariant
            1 <= i <= n + 1,
            table@.len() == i,
            forall|r: int| 0 <= r < i ==> row_ok(#[trigger] table@[r]@, a@, b@, r, m as int),
        decreases n + 1 - i,
    {
        let mut row: Vec<Cell> = Vec::new();
        row.push(Cell { cost: i, mv: Choice::Del });
        proof {
            lemma_ed_col0(a@, b@, i as int);
            lemma_ed_col0(a@, b@, i as int - 1);
            assert(cell_ok(row@[0], a@, b@, i as int, 0));
        }
        let mut j: usize = 1;
        while j <= m
            invariant
                1 <= j <= m + 1,
                row@.len() == j,
                forall|t: int| 0 <= t < j ==> cell_ok(#[trigger] row@[t], a@, b@, i as int, t),
            decreases m + 1 - j,
        {
            let sub: usize = if a[i - 1] == b[j - 1] {
                0
            } else {
                1
            };
            proof {
                lemma_edit_distance_le_max(a@.take(i as int - 1), b@.take(j as int - 1));
                lemma_edit_distance_le_max(a@.take(i as int), b@.take(j as int - 1));
                lemma_edit_distance_le_max(a@.take(i as int - 1), b@.take(j as int));
            }
            let diag = table[i - 1][j - 1].cost + sub;
            let ins = row[j - 1].cost + 1;
            let del = table[i - 1][j].cost + 1;
            let cell = if diag <= ins && diag <= del {
                Cell { cost: diag, mv: Choice::Diag }
            } else if ins <= del {
                Cell { cost: ins, mv: Choice::Ins }
            } else {
                Cell { cost: del, mv: Choice::Del }
            };
            proof {
                lemma_ed_step(a@, b@, i as int, j as int);
                assert(cell_ok(cell, a@, b@, i as int, j as int));
            }
            row.push(cell);
            j = j + 1;
        }
        table.push(row);
        i = i + 1;
    }
    // Backtrace from (n, m) to (0, 0), collecting the script backwards.
    let mut rev: Levenshtein = Vec::new();
    let mut bi = n;
    let mut bj = m;
    proof {
        assert(a@.take(n as int) =~= a@);
        assert(b@.take(m as int) =~= b@);
        assert(a@.skip(n as int) =~= Seq::<char>::empty());
        assert(b@.skip(m as int) =~= Seq::<char>::empty());
        assert(rev@.reverse() =~= Seq::<LevenshteinOp>::empty());
    }
    while bi > 0 || bj > 0
        invariant
            bi <= n,
            bj <= m,
            apply_script(rev@.reverse(), a@.skip(bi as int)) == Some(b@.skip(bj as int)),
            script_cost(rev@.reverse()) + edit_distance(a@.take(bi as int), b@.take(bj as int))
                == edit_distance(a@, b@),
        decreases bi + bj,
    {
        let ghost prev = rev@;
        let cell = &table[bi][bj];
        proof {
            assert(cell_ok(table@[bi as int]@[bj as int], a@, b@, bi as int, bj as int));
        }
        match cell.mv {
            Choice::Diag => {
                let op = if a[bi - 1] == b[bj - 1] {
                    LevenshteinOp::Keep(a[bi - 1])
                } else {
                    LevenshteinOp::Substitute(a[bi - 1], b[bj - 1])
                };
                rev.push(op);
                proof {
                    lemma_bt_diag(prev, a@, b@, bi as int, bj as int, op);
                }
                bi = bi - 1;
                bj = bj - 1;
            },
            Choice::Ins => {
                let c = b[bj - 1];
                rev.push(LevenshteinOp::Insert(c));
                proof {
                    lemma_bt_ins(prev, a@, b@, bi as int, bj as int, c);
                }
                bj = bj - 1;
            },
            Choice::Del => {
                let c = a[bi - 1];
                rev.push(LevenshteinOp::Delete(c));
                proof {
                    lemma_bt_del(prev, a@, b@, bi as int, bj as int, c);
                }
                bi = bi - 1;
            },
        }
    }
    proof {
        assert(a@.skip(0) =~= a@);
        assert(b@.skip(0) =~= b@);
        assert(a@.take(0) =~= Seq::<char>::empty());
        assert(b@.take(0) =~= Seq::<char>::empty());
    }
    reverse_script(&rev)
}

/// The edit script from `a` to `b`: see `levenshtein_chars`.
pub fn levenshtein(a: &str, b: &str) -> (r: Levenshtein)
    requires
        a@.len() < usize::MAX,
        b@.len() < usize::MAX,
    ensures
        apply_script(r@, a@) == Some(b@),
        script_cost(r@) == edit_distance(a@, b@),
{
    let av = chars_of(a);
    let bv = chars_of(b);
    levenshtein_chars(&av, &bv)
}

/// The similarity score derived from a script and the two original
/// lengths: one minus the share of non-Keep operations in the longer
/// length, and one by convention when both sequences are empty.
pub open spec fn similarity(s: Seq<LevenshteinOp>, la: nat, lb: nat) -> Ratio {
    let d = max(la as int, lb as int);
    if d == 0 {
        Ratio { num: 1, den: 1 }
    } else {
        Ratio { num: (d - script_cost(s)) as u128, den: d as u64 }
    }
}

/// The similarity score in [0, 1] of an edit script between sequences of
/// lengths `la` and `lb`: `1 - (non-Keep operations) / max(la, lb)`, and
/// `1` by convention when both lengths are zero.
#[verifier::loop_isolation(false)]
pub fn normalize(script: &Levenshtein, la: usize, lb: usize) -> (r: Ratio)
    requires
        script_cost(script@) <= max(la as int, lb as int),
    ensures
        r == similarity(script@, la as nat, lb as nat),
        r.wf(),
{
    let d = if la >= lb {
        la
    } else {
        lb
    };
    if d == 0 {
        return Ratio::new(1, 1);
    }
    let mut count: usize = 0;
    let mut k: usize = 0;
    while k < script.len()
        invariant
            k <= script@.len(),
            count == script_cost(script@.take(k as int)),
            count <= k,
        decreases script@.len() - k,
    {
        let keep = match script[k] {
            LevenshteinOp::Keep(_) => true,
            _ => false,
        };
        proof {
            lemma_cost_take_step(script@, k as int);
        }
        if !keep {
            count = count + 1;
        }
        k = k + 1;
    }
    assert(script@.take(script@.len() as int) =~= script@);
    Ratio::new((d - count) as u128, d as u64)
}

/// No edits are needed between a line and itself, so the similarity score
/// of the recovered script is exactly one; two empty sequences score one
/// by convention.
pub proof fn lemma_self_similarity_is_one(a: Seq<char>, s: Seq<LevenshteinOp>)
    requires
        a.len() <= usize::MAX,
        script_cost(s) == edit_distance(a, a),
    ensures
        similarity(s, a.len(), a.len()).num == similarity(s, a.len(), a.len()).den as u128,
{
    lemma_edit_distance_self(a);
    if a.len() == 0 {
    } else {
        assert(similarity(s, a.len(), a.len()).num == a.len() as u128);
    }
}

} // verus!
