//! Diff segmentation: turning an edit script into display runs.
//!
//! Consecutive operations are grouped into runs, with a run boundary at
//! every operation whose underlying character is the space delimiter;
//! the delimiter operation itself is dropped. Each run carries its
//! rendered text, the shared attribute and a flag that is true only when
//! every operation in the run keeps a character; such runs are meant to
//! be rendered subdued, all others in full intensity. Between runs a
//! single separator segment is re-inserted, except before the first run.
//! Deleted characters contribute no visible text.

use vstd::prelude::*;
use crate::color::Color;
use crate::levenshtein::Levenshtein;
use crate::levenshtein::LevenshteinOp;

verus! {

/// One display run: its visible text, the attribute it is rendered in,
/// and whether it only keeps characters (rendered subdued).
pub struct Segment {
    pub text: Vec<char>,
    pub color: Color,
    pub same: bool,
}

/// Whether this operation is a run boundary: its underlying character,
/// the one that would be shown, is the space delimiter.
pub open spec fn is_delim(op: LevenshteinOp) -> bool {
    match op {
        LevenshteinOp::Keep(x) => x == ' ',
        LevenshteinOp::Substitute(_, y) => y == ' ',
        LevenshteinOp::Insert(x) => x == ' ',
        LevenshteinOp::Delete(_) => false,
    }
}

/// The visible character of an operation, if any: deletions show
/// nothing.
pub open spec fn op_char(op: LevenshteinOp) -> Option<char> {
    match op {
        LevenshteinOp::Keep(x) => Some(x),
        LevenshteinOp::Substitute(_, y) => Some(y),
        LevenshteinOp::Insert(x) => Some(x),
        LevenshteinOp::Delete(_) => None,
    }
}

/// The visible text of a run of operations.
pub open spec fn render_run(ops: Seq<LevenshteinOp>) -> Seq<char>
    decreases ops.len(),
{
    if ops.len() == 0 {
        Seq::empty()
    } else {
        render_run(ops.drop_last()) + (match op_char(ops.last()) {
            Some(c) => seq![c],
            None => Seq::<char>::empty(),
        })
    }
}

/// Whether every operation of the run keeps a character.
pub open spec fn run_same(ops: Seq<LevenshteinOp>) -> bool {
    forall|i: int| 0 <= i < ops.len() ==> (#[trigger] ops[i]) is Keep
}

/// The runs of a script, split at the delimiter operations, which are
/// dropped. There is always at least one (possibly empty) run.
pub open spec fn groups_of(ops: Seq<LevenshteinOp>) -> Seq<Seq<LevenshteinOp>>
    decreases ops.len(),
{
    if ops.len() == 0 {
        seq![Seq::<LevenshteinOp>::empty()]
    } else {
        let g = groups_of(ops.drop_last());
        if is_delim(ops.last()) {
            g.push(Seq::<LevenshteinOp>::empty())
        } else {
            g.update(g.len() - 1, g.last().push(ops.last()))
        }
    }
}

pub proof fn lemma_groups_len(ops: Seq<LevenshteinOp>)
    ensures
        groups_of(ops).len() >= 1,
    decreases ops.len(),
{
    if ops.len() == 0 {
    } else {
        lemma_groups_len(ops.drop_last());
    }
}

/// The expected display segments of a sequence of runs: the runs in
/// order as (text, same) pairs, with a plain one-space separator segment
/// between them.
pub open spec fn segments_of(gs: Seq<Seq<LevenshteinOp>>) -> Seq<(Seq<char>, bool)>
    decreases gs.len(),
{
    if gs.len() == 0 {
        Seq::empty()
    } else if gs.len() == 1 {
        seq![(render_run(gs[0]), run_same(gs[0]))]
    } else {
        segments_of(gs.drop_last()) + seq![
            (seq![' '], false),
            (render_run(gs.last()), run_same(gs.last())),
        ]
    }
}

/// The (text, same) views of built segments.
pub open spec fn seg_views(s: Seq<Segment>) -> Seq<(Seq<char>, bool)> {
    Seq::new(s.len(), |i: int| (s[i].text@, s[i].same))
}

/// One operation extends the grouping: a delimiter opens a new empty
/// run, anything else joins the last run.
proof fn lemma_groups_step(ops: Seq<LevenshteinOp>, k: int, op: LevenshteinOp)
    requires
        0 <= k < ops.len(),
        op == ops[k],
    ensures
        is_delim(op) ==> groups_of(ops.take(k + 1)) == groups_of(ops.take(k)).push(
            Seq::<LevenshteinOp>::empty(),
        ),
        !is_delim(op) ==> groups_of(ops.take(k + 1)) == groups_of(ops.take(k)).update(
            groups_of(ops.take(k)).len() - 1,
            groups_of(ops.take(k)).last().push(op),
        ),
{
    lemma_groups_len(ops.take(k));
    assert(ops.take(k + 1).drop_last() =~= ops.take(k));
    assert(ops.take(k + 1).last() == op);
}

/// Extending a run by one operation extends its text by the visible
/// character and its flag by whether the operation keeps.
proof fn lemma_run_push(run: Seq<LevenshteinOp>, op: LevenshteinOp)
    ensures
        render_run(run.push(op)) == render_run(run) + (match op_char(op) {
            Some(c) => seq![c],
            None => Seq::<char>::empty(),
        }),
        run_same(run.push(op)) == (run_same(run) && op is Keep),
{
    let r = run.push(op);
    assert(r.drop_last() =~= run);
    assert(r.last() == op);
    if run_same(run) && op is Keep {
        assert forall|i: int| 0 <= i < r.len() implies (#[trigger] r[i]) is Keep by {
            if i < run.len() {
                assert(run[i] is Keep);
            }
        }
    }
    if run_same(r) {
        assert forall|i: int| 0 <= i < run.len() implies (#[trigger] run[i]) is Keep by {
            assert(r[i] is Keep);
        }
        assert(r[r.len() - 1] is Keep);
    }
}

/// Appending one segment to the built output.
proof fn lemma_seg_views_push(s: Seq<Segment>, x: Segment)
    ensures
        seg_views(s.push(x)) == seg_views(s).push((x.text@, x.same)),
{
    assert(seg_views(s.push(x)) =~= seg_views(s).push((x.text@, x.same)));
}

/// The segments of one more run: a separator and the run, unless it is
/// the first.
proof fn lemma_segments_push(gs: Seq<Seq<LevenshteinOp>>, g: Seq<LevenshteinOp>)
    requires
        gs.len() >= 1,
    ensures
        segments_of(gs.push(g)) == segments_of(gs) + seq![
            (seq![' '], false),
            (render_run(g), run_same(g)),
        ],
{
    let e = gs.push(g);
    assert(e.drop_last() =~= gs);
    assert(e.last() == g);
    assert(e.len() >= 2);
}

/// Replacing the last run leaves the earlier segments unchanged.
proof fn lemma_segments_update_last(gs: Seq<Seq<LevenshteinOp>>, g: Seq<LevenshteinOp>)
    requires
        gs.len() >= 1,
    ensures
        segments_of(gs.update(gs.len() - 1, g)).len() == segments_of(gs).len(),
        gs.len() == 1 ==> segments_of(gs.update(gs.len() - 1, g)) == seq![
            (render_run(g), run_same(g)),
        ],
        gs.len() >= 2 ==> segments_of(gs.update(gs.len() - 1, g)) == segments_of(gs.drop_last())
            + seq![(seq![' '], false), (render_run(g), run_same(g))],
{
    let u = gs.update(gs.len() - 1, g);
    assert(u.last() == g);
    if gs.len() == 1 {
        assert(u.len() == 1);
        assert(u[0] == g);
    } else {
        assert(u.drop_last() =~= gs.drop_last());
    }
}

/// The display runs of an edit script under the given attribute: the
/// script's runs in order, each with its visible text and its all-Keep
/// flag, a single separator segment between consecutive runs, and every
/// segment carrying the attribute.
#[verifier::loop_isolation(false)]
pub fn colorize(diff: &Levenshtein, color: Color) -> (r: Vec<Segment>)
    ensures
        seg_views(r@) == segments_of(groups_of(diff@)),
        forall|i: int| 0 <= i < r@.len() ==> (#[trigger] r@[i]).color == color,
{
    let mut segs: Vec<Segment> = Vec::new();
    let mut cur: Vec<char> = Vec::new();
    let mut cur_same: bool = true;
    proof {
        assert(diff@.take(0) =~= Seq::<LevenshteinOp>::empty());
        assert(seg_views(segs@) =~= Seq::<(Seq<char>, bool)>::empty());
        assert(groups_of(Seq::<LevenshteinOp>::empty()).drop_last() =~= Seq::<
            Seq<LevenshteinOp>,
        >::empty());
    }
    let mut k: usize = 0;
    while k < diff.len()
        invariant
            k <= diff@.len(),
            seg_views(segs@) == segments_of(groups_of(diff@.take(k as int)).drop_last()),
            cur@ == render_run(groups_of(diff@.take(k as int)).last()),
            cur_same == run_same(groups_of(diff@.take(k as int)).last()),
            segs@.len() == 0 <==> groups_of(diff@.take(k as int)).len() == 1,
            forall|i: int| 0 <= i < segs@.len() ==> (#[trigger] segs@[i]).color == color,
        decreases diff@.len() - k,
    {
        let ghost gs = groups_of(diff@.take(k as int));
        proof {
            lemma_groups_len(diff@.take(k as int));
        }
        let op = diff[k];
        let (ch, keeps): (Option<char>, bool) = match op {
            LevenshteinOp::Keep(x) => (Some(x), true),
            LevenshteinOp::Substitute(_, y) => (Some(y), false),
            LevenshteinOp::Insert(x) => (Some(x), false),
            LevenshteinOp::Delete(_) => (None, false),
        };
        let delim = match ch {
            Some(c) => c == ' ',
            None => false,
        };
        proof {
            lemma_groups_step(diff@, k as int, op);
        }
        if delim {
            let ghost prev_segs = segs@;
            let run_text = cur;
            let run_same_flag = cur_same;
            if segs.len() > 0 {
                let mut sep_text: Vec<char> = Vec::new();
                sep_text.push(' ');
                let sep = Segment { text: sep_text, color, same: false };
                proof {
                    assert(sep.text@ =~= seq![' ']);
                    lemma_seg_views_push(segs@, sep);
                }
                segs.push(sep);
            }
            let ghost mid_segs = segs@;
            let run = Segment { text: run_text, color, same: run_same_flag };
            proof {
                lemma_seg_views_push(segs@, run);
            }
            segs.push(run);
            cur = Vec::new();
            cur_same = true;
            proof {
                let new_gs = groups_of(diff@.take(k + 1));
                assert(new_gs == gs.push(Seq::<LevenshteinOp>::empty()));
                assert(new_gs.drop_last() =~= gs);
                if prev_segs.len() == 0 {
                    assert(gs.len() == 1);
                    assert(seg_views(segs@) =~= segments_of(gs));
                } else {
                    assert(gs.len() >= 2);
                    lemma_segments_update_last(gs, gs.last());
                    assert(gs.update(gs.len() - 1, gs.last()) =~= gs);
                    assert(segments_of(gs) == segments_of(gs.drop_last()) + seq![
                        (seq![' '], false),
                        (render_run(gs.last()), run_same(gs.last())),
                    ]);
                    assert(seg_views(segs@) =~= segments_of(gs));
                }
                assert(cur@ =~= Seq::<char>::empty());
                assert(render_run(new_gs.last()) =~= Seq::<char>::empty());
                assert(run_same(new_gs.last()));
            }
        } else {
            let ghost prev_cur = cur@;
            match ch {
                Some(c) => {
                    cur.push(c);
                },
                None => {},
            }
            cur_same = cur_same && keeps;
            proof {
                lemma_run_push(gs.last(), op);
                let new_gs = groups_of(diff@.take(k + 1));
                assert(new_gs == gs.update(gs.len() - 1, gs.last().push(op)));
                assert(new_gs.drop_last() =~= gs.drop_last());
                assert(new_gs.last() == gs.last().push(op));
                match op_char(op) {
                    Some(c) => {
                        assert(cur@ =~= prev_cur + seq![c]);
                    },
                    None => {
                        assert(cur@ =~= prev_cur + Seq::<char>::empty());
                    },
                }
                assert(new_gs.len() == gs.len());
            }
        }
        k = k + 1;
    }
    proof {
        assert(diff@.take(diff@.len() as int) =~= diff@);
        lemma_groups_len(diff@);
    }
    let ghost gs = groups_of(diff@);
    if segs.len() > 0 {
        let mut sep_text: Vec<char> = Vec::new();
        sep_text.push(' ');
        let sep = Segment { text: sep_text, color, same: false };
        proof {
            assert(sep.text@ =~= seq![' ']);
            lemma_seg_views_push(segs@, sep);
        }
        segs.push(sep);
    }
    let ghost prev_segs = segs@;
    let run = Segment { text: cur, color, same: cur_same };
    proof {
        lemma_seg_views_push(segs@, run);
    }
    segs.push(run);
    proof {
        if gs.len() == 1 {
            assert(seg_views(segs@) =~= segments_of(gs));
        } else {
            lemma_segments_update_last(gs, gs.last());
            assert(gs.update(gs.len() - 1, gs.last()) =~= gs);
            assert(seg_views(segs@) =~= segments_of(gs));
        }
    }
    segs
}

} // verus!
