//! Global laws of the formatting core, each proved over the ghost pipeline:
//! hunk ranges are well formed and ascending, header starts never fall below
//! line 1, header counts match the classified span, rendering loses no
//! covered content, and an unchanged text renders as one all-context hunk.

use vstd::prelude::*;

use crate::model::ClassifiedLineModel;
use crate::model::DiffOpModel;
use crate::model::RangeModel;
use crate::model::RenderedLineModel;
use crate::algo::boundaries;
use crate::algo::clamp1;
use crate::algo::clamp_lo;
use crate::algo::classified_of;
use crate::algo::classify;
use crate::algo::content_of;
use crate::algo::counts_left;
use crate::algo::counts_right;
use crate::algo::header_left;
use crate::algo::header_right;
use crate::algo::hunk_body;
use crate::algo::hunk_header;
use crate::algo::is_change;
use crate::algo::left_upto;
use crate::algo::lemma_scan_wf;
use crate::algo::lemma_upto_le;
use crate::algo::lemma_upto_mono;
use crate::algo::render_hunks;
use crate::algo::render_spec;
use crate::algo::right_upto;
use crate::algo::scan;

verus! {

/// Law: hunk index ranges lie inside the classified sequence and ascend
/// strictly on both endpoints, and no hunk reaches past the start of the
/// next one. Two hunks cut by a separation of exactly `LOOKBACK_RANGE`
/// unchanged lines share that single boundary index, so the upper bound of
/// one hunk can equal the lower bound of the next, never pass it.
pub proof fn lemma_hunks_ascending(lines: Seq<ClassifiedLineModel>)
    ensures
        forall|k: int| 0 <= k < boundaries(lines).len() ==> 0 <= (#[trigger] boundaries(
            lines,
        )[k]).0 <= boundaries(lines)[k].1 < lines.len(),
        forall|k: int|
            0 <= k && k + 1 < boundaries(lines).len() ==> (#[trigger] boundaries(lines)[k]).1
                <= boundaries(lines)[k + 1].0 && boundaries(lines)[k].0 < boundaries(
                lines,
            )[k + 1].0 && boundaries(lines)[k].1 < boundaries(lines)[k + 1].1,
{
    if lines.len() > 0 {
        lemma_scan_wf(lines, 1, Option::None, 0);
    }
}

/// Law: every hunk header names a left range and a right range that start at
/// line 1 or later; the clamp in the numbering pass never lets a start fall
/// to 0.
pub proof fn lemma_header_starts_positive(ops: Seq<DiffOpModel>, k: int)
    requires
        0 <= k < boundaries(classified_of(ops)).len(),
    ensures
        header_left(
            classified_of(ops),
            boundaries(classified_of(ops))[k].0,
            boundaries(classified_of(ops))[k].1,
        ).start >= 1,
        header_right(
            classified_of(ops),
            boundaries(classified_of(ops))[k].0,
            boundaries(classified_of(ops))[k].1,
        ).start >= 1,
{
    let lines = classified_of(ops);
    lemma_hunks_ascending(lines);
    let lo = boundaries(lines)[k].0;
    assert(lines[lo].number.left == clamp1(left_upto(ops, lo + 1)));
    assert(lines[lo].number.right == clamp1(right_upto(ops, lo + 1)));
}

/// The number of entries with index in `[lo, hi]` that consume a line of
/// the left text.
pub open spec fn left_span_count(ops: Seq<DiffOpModel>, lo: int, hi: int) -> int {
    left_upto(ops, hi + 1) - left_upto(ops, lo)
}

/// The number of entries with index in `[lo, hi]` that consume a line of
/// the right text.
pub open spec fn right_span_count(ops: Seq<DiffOpModel>, lo: int, hi: int) -> int {
    right_upto(ops, hi + 1) - right_upto(ops, lo)
}

/// Law: a hunk header's left count equals the number of entries in the
/// hunk's span that consume a left line (deletions and context). The clamp
/// in the numbering pass makes this false for a hunk whose first entry is an
/// addition while the left side has already advanced, so exactly those
/// spans are left out.
pub proof fn lemma_header_left_count(ops: Seq<DiffOpModel>, k: int)
    requires
        0 <= k < boundaries(classified_of(ops)).len(),
        counts_left(ops[boundaries(classified_of(ops))[k].0]) || (left_upto(
            ops,
            boundaries(classified_of(ops))[k].0,
        ) == 0 && left_upto(ops, boundaries(classified_of(ops))[k].1 + 1) >= 1),
    ensures
        header_left(
            classified_of(ops),
            boundaries(classified_of(ops))[k].0,
            boundaries(classified_of(ops))[k].1,
        ).count == left_span_count(
            ops,
            boundaries(classified_of(ops))[k].0,
            boundaries(classified_of(ops))[k].1,
        ),
{
    let lines = classified_of(ops);
    lemma_hunks_ascending(lines);
    let lo = boundaries(lines)[k].0;
    let hi = boundaries(lines)[k].1;
    lemma_upto_mono(ops, lo + 1, hi + 1);
    lemma_upto_mono(ops, lo, lo + 1);
    lemma_upto_le(ops, lo);
    assert(lines[lo].number.left == clamp1(left_upto(ops, lo + 1)));
    assert(lines[hi].number.left == clamp1(left_upto(ops, hi + 1)));
    assert(left_upto(ops, lo + 1) == left_upto(ops, lo) + if counts_left(ops[lo]) {
        1int
    } else {
        0int
    });
}

/// Law: a hunk header's right count equals the number of entries in the
/// hunk's span that consume a right line (additions and context), with the
/// mirror-image proviso of the left-count law.
pub proof fn lemma_header_right_count(ops: Seq<DiffOpModel>, k: int)
    requires
        0 <= k < boundaries(classified_of(ops)).len(),
        counts_right(ops[boundaries(classified_of(ops))[k].0]) || (right_upto(
            ops,
            boundaries(classified_of(ops))[k].0,
        ) == 0 && right_upto(ops, boundaries(classified_of(ops))[k].1 + 1) >= 1),
    ensures
        header_right(
            classified_of(ops),
            boundaries(classified_of(ops))[k].0,
            boundaries(classified_of(ops))[k].1,
        ).count == right_span_count(
            ops,
            boundaries(classified_of(ops))[k].0,
            boundaries(classified_of(ops))[k].1,
        ),
{
    let lines = classified_of(ops);
    lemma_hunks_ascending(lines);
    let lo = boundaries(lines)[k].0;
    let hi = boundaries(lines)[k].1;
    lemma_upto_mono(ops, lo + 1, hi + 1);
    lemma_upto_mono(ops, lo, lo + 1);
    lemma_upto_le(ops, lo);
    assert(lines[lo].number.right == clamp1(right_upto(ops, lo + 1)));
    assert(lines[hi].number.right == clamp1(right_upto(ops, hi + 1)));
    assert(right_upto(ops, lo + 1) == right_upto(ops, lo) + if counts_right(ops[lo]) {
        1int
    } else {
        0int
    });
}

/// The contents of a rendered record sequence with all prefixes stripped:
/// headers contribute nothing, each body line its content, in order.
pub open spec fn stripped_contents(rs: Seq<RenderedLineModel>) -> Seq<Seq<char>>
    decreases rs.len(),
{
    if rs.len() == 0 {
        seq![]
    } else {
        match rs[0] {
            RenderedLineModel::HunkHeader { .. } => stripped_contents(rs.drop_first()),
            RenderedLineModel::Added(s) => seq![s] + stripped_contents(rs.drop_first()),
            RenderedLineModel::Removed(s) => seq![s] + stripped_contents(rs.drop_first()),
            RenderedLineModel::Unchanged(s) => seq![s] + stripped_contents(rs.drop_first()),
        }
    }
}

/// The contents of the diff entries with index in `[lo, hi]`, in order.
pub open spec fn span_contents(ops: Seq<DiffOpModel>, lo: int, hi: int) -> Seq<Seq<char>> {
    Seq::new(
        if hi + 1 - lo >= 0 {
            (hi + 1 - lo) as nat
        } else {
            0nat
        },
        |k: int| content_of(ops[lo + k]),
    )
}

/// The contents of the diff entries covered by a list of hunks, hunk by
/// hunk, in order.
pub open spec fn covered_contents(ops: Seq<DiffOpModel>, bounds: Seq<(int, int)>) -> Seq<
    Seq<char>,
>
    decreases bounds.len(),
{
    if bounds.len() == 0 {
        seq![]
    } else {
        span_contents(ops, bounds[0].0, bounds[0].1) + covered_contents(ops, bounds.drop_first())
    }
}

/// Stripping a concatenation strips each part in turn.
proof fn lemma_stripped_concat(a: Seq<RenderedLineModel>, b: Seq<RenderedLineModel>)
    ensures
        stripped_contents(a + b) == stripped_contents(a) + stripped_contents(b),
    decreases a.len(),
{
    if a.len() == 0 {
        assert(a + b =~= b);
        assert(stripped_contents(a) + stripped_contents(b) =~= stripped_contents(b));
    } else {
        assert((a + b).len() > 0);
        assert((a + b)[0] == a[0]);
        assert((a + b).drop_first() =~= a.drop_first() + b);
        lemma_stripped_concat(a.drop_first(), b);
        assert(stripped_contents(a + b) =~= stripped_contents(a) + stripped_contents(b));
    }
}

/// A hunk's body, stripped, is exactly the contents of its span: the
/// classification pass keeps every content verbatim.
proof fn lemma_body_contents(ops: Seq<DiffOpModel>, lo: int, hi: int)
    requires
        0 <= lo,
        hi < ops.len(),
    ensures
        stripped_contents(hunk_body(classified_of(ops), lo, hi)) == span_contents(ops, lo, hi),
    decreases hi + 1 - lo,
{
    let lines = classified_of(ops);
    if hi + 1 - lo <= 0 {
        assert(hunk_body(lines, lo, hi) =~= Seq::<RenderedLineModel>::empty());
        assert(span_contents(ops, lo, hi) =~= Seq::<Seq<char>>::empty());
    } else {
        assert(hunk_body(lines, lo, hi)[0] == lines[lo].line);
        assert(lines[lo].line == classify(ops[lo]));
        assert(hunk_body(lines, lo, hi).drop_first() =~= hunk_body(lines, lo + 1, hi));
        lemma_body_contents(ops, lo + 1, hi);
        assert(span_contents(ops, lo, hi) =~= seq![content_of(ops[lo])] + span_contents(
            ops,
            lo + 1,
            hi,
        ));
        assert(stripped_contents(hunk_body(lines, lo, hi)) =~= span_contents(ops, lo, hi));
    }
}

/// Rendering a list of hunks and stripping the result yields the covered
/// contents of that list.
proof fn lemma_no_loss_hunks(ops: Seq<DiffOpModel>, bounds: Seq<(int, int)>)
    requires
        forall|k: int| 0 <= k < bounds.len() ==> 0 <= (#[trigger] bounds[k]).0 && bounds[k].1
            < ops.len(),
    ensures
        stripped_contents(render_hunks(classified_of(ops), bounds)) == covered_contents(
            ops,
            bounds,
        ),
    decreases bounds.len(),
{
    let lines = classified_of(ops);
    if bounds.len() == 0 {
    } else {
        let lo = bounds[0].0;
        let hi = bounds[0].1;
        let head = seq![hunk_header(lines, lo, hi)] + hunk_body(lines, lo, hi);
        let rest = render_hunks(lines, bounds.drop_first());
        assert(render_hunks(lines, bounds) == head + rest);
        lemma_stripped_concat(head, rest);
        lemma_stripped_concat(seq![hunk_header(lines, lo, hi)], hunk_body(lines, lo, hi));
        assert(seq![hunk_header(lines, lo, hi)].drop_first()
            =~= Seq::<RenderedLineModel>::empty());
        assert(stripped_contents(Seq::<RenderedLineModel>::empty()) =~= Seq::<
            Seq<char>,
        >::empty());
        assert(stripped_contents(seq![hunk_header(lines, lo, hi)]) =~= Seq::<
            Seq<char>,
        >::empty());
        lemma_body_contents(ops, lo, hi);
        lemma_no_loss_hunks(ops, bounds.drop_first());
        assert(stripped_contents(render_hunks(lines, bounds)) =~= covered_contents(ops, bounds));
    }
}

/// Law: concatenating the contents of every rendered record, in order, after
/// stripping the prefixes, reproduces exactly the contents of the diff
/// entries covered by hunks; entries outside every hunk are elided context.
pub proof fn lemma_no_loss(ops: Seq<DiffOpModel>)
    ensures
        stripped_contents(render_spec(ops)) == covered_contents(
            ops,
            boundaries(classified_of(ops)),
        ),
{
    lemma_hunks_ascending(classified_of(ops));
    lemma_no_loss_hunks(ops, boundaries(classified_of(ops)));
}

/// The pass with an open run emits a range that reaches back to the run's
/// start and forward past every entry before the trailing unchanged tail.
proof fn lemma_scan_covers_open(lines: Seq<ClassifiedLineModel>, i: int, s: int, consec: int)
    requires
        1 <= s < i <= lines.len(),
        s <= lines.len() - 1,
        0 <= consec <= i - 1 - s,
    ensures
        exists|k: int|
            0 <= k < scan(lines, i, Option::Some(s), consec).len() && (#[trigger] scan(
                lines,
                i,
                Option::Some(s),
                consec,
            )[k]).0 <= s && scan(lines, i, Option::Some(s), consec)[k].1 >= i - 1 - consec,
    decreases lines.len() - i,
{
    let r = scan(lines, i, Option::Some(s), consec);
    let len = lines.len() as int;
    if i >= len {
        assert(r[0] == (clamp_lo(s), len - 1));
        assert(r[0].0 <= s && r[0].1 >= i - 1 - consec);
    } else if is_change(lines[i].line) {
        lemma_scan_covers_open(lines, i + 1, s, 0);
        assert(r == scan(lines, i + 1, Option::Some(s), 0));
    } else {
        if consec + 1 >= crate::algo::LOOKBACK_RANGE as int {
            let rest = scan(lines, i + 1, Option::None, consec + 1);
            let p = (clamp_lo(s), i + 1 - crate::algo::SELECT_CLEARANCE as int);
            assert(r == seq![p] + rest);
            assert(r[0] == p);
            assert(r[0].0 <= s && r[0].1 >= i - 1 - consec);
        } else {
            lemma_scan_covers_open(lines, i + 1, s, consec + 1);
            assert(r == scan(lines, i + 1, Option::Some(s), consec + 1));
        }
    }
}

/// Every changed entry the pass has not reached yet ends up inside one of
/// the ranges the pass emits.
proof fn lemma_scan_covers(
    lines: Seq<ClassifiedLineModel>,
    i: int,
    ds: Option<int>,
    consec: int,
    j: int,
)
    requires
        1 <= i <= lines.len(),
        0 <= consec <= i - 1,
        ds matches Option::Some(s) ==> 1 <= s && s < i && s <= lines.len() - 1 && consec <= i - 1
            - s,
        i <= j < lines.len(),
        is_change(lines[j].line),
    ensures
        exists|k: int|
            0 <= k < scan(lines, i, ds, consec).len() && (#[trigger] scan(lines, i, ds, consec)[k]).0
                <= j && scan(lines, i, ds, consec)[k].1 >= j,
    decreases lines.len() - i,
{
    let r = scan(lines, i, ds, consec);
    let len = lines.len() as int;
    if is_change(lines[i].line) {
        let ds2 = if ds is Some {
            ds
        } else {
            Option::Some(i)
        };
        assert(r == scan(lines, i + 1, ds2, 0));
        if i == j {
            let s2 = ds2->Some_0;
            lemma_scan_covers_open(lines, i + 1, s2, 0);
            assert forall|k: int|
                0 <= k < r.len() && (#[trigger] r[k]).0 <= s2 && r[k].1 >= i implies r[k].0 <= j
                && r[k].1 >= j by {}
            assert(exists|k: int|
                0 <= k < r.len() && (#[trigger] r[k]).0 <= j && r[k].1 >= j);
        } else {
            lemma_scan_covers(lines, i + 1, ds2, 0, j);
        }
    } else {
        match ds {
            Option::Some(s) => {
                if consec + 1 >= crate::algo::LOOKBACK_RANGE as int {
                    let rest = scan(lines, i + 1, Option::None, consec + 1);
                    let p = (clamp_lo(s), i + 1 - crate::algo::SELECT_CLEARANCE as int);
                    assert(r == seq![p] + rest);
                    lemma_scan_covers(lines, i + 1, Option::None, consec + 1, j);
                    let k0 = choose|k: int|
                        0 <= k < rest.len() && (#[trigger] rest[k]).0 <= j && rest[k].1 >= j;
                    assert(r[k0 + 1] == rest[k0]);
                    assert(r[k0 + 1].0 <= j && r[k0 + 1].1 >= j);
                } else {
                    lemma_scan_covers(lines, i + 1, ds, consec + 1, j);
                    assert(r == scan(lines, i + 1, ds, consec + 1));
                }
            },
            Option::None => {
                lemma_scan_covers(lines, i + 1, Option::None, consec + 1, j);
                assert(r == scan(lines, i + 1, Option::None, consec + 1));
            },
        }
    }
}

/// Law: every changed line at index 1 or later lies inside at least one
/// hunk. The forward pass never opens a run at index 0, so a changed line
/// there is covered only by a nearby hunk's leading clearance or by the
/// all-covering fallback.
pub proof fn lemma_changes_covered(lines: Seq<ClassifiedLineModel>, j: int)
    requires
        1 <= j < lines.len(),
        is_change(lines[j].line),
    ensures
        exists|k: int|
            0 <= k < boundaries(lines).len() && (#[trigger] boundaries(lines)[k]).0 <= j
                && boundaries(lines)[k].1 >= j,
{
    lemma_scan_covers(lines, 1, Option::None, 0, j);
    assert(scan(lines, 1, Option::None, 0).len() > 0);
    assert(boundaries(lines) == scan(lines, 1, Option::None, 0));
}

/// No run of changes, no emitted hunk: the forward pass over a sequence
/// without changed lines finds nothing.
proof fn lemma_scan_no_change(lines: Seq<ClassifiedLineModel>, i: int, consec: int)
    requires
        0 <= i,
        forall|j: int| 0 <= j < lines.len() ==> !is_change((#[trigger] lines[j]).line),
    ensures
        scan(lines, i, Option::None, consec).len() == 0,
    decreases lines.len() - i,
{
    if i < lines.len() {
        assert(!is_change(lines[i].line));
        lemma_scan_no_change(lines, i + 1, consec + 1);
        assert(scan(lines, i, Option::None, consec) == scan(
            lines,
            i + 1,
            Option::None,
            consec + 1,
        ));
    }
}

/// Both side counts advance with every entry of an all-context sequence.
proof fn lemma_upto_all_both(ops: Seq<DiffOpModel>, n: int)
    requires
        0 <= n <= ops.len(),
        forall|i: int| 0 <= i < ops.len() ==> (#[trigger] ops[i]) is Both,
    ensures
        left_upto(ops, n) == n,
        right_upto(ops, n) == n,
    decreases n,
{
    if n > 0 {
        lemma_upto_all_both(ops, n - 1);
    }
}

/// Law: diffing a text against itself yields no changed lines and the
/// single-hunk fallback covering the whole text, its header naming line 1
/// and the full length on both sides, and every body record unchanged.
pub proof fn lemma_identity(ops: Seq<DiffOpModel>)
    requires
        ops.len() >= 1,
        forall|i: int| 0 <= i < ops.len() ==> (#[trigger] ops[i]) is Both,
    ensures
        boundaries(classified_of(ops)) == seq![(0int, ops.len() - 1)],
        render_spec(ops).len() == ops.len() + 1,
        render_spec(ops)[0] == hunk_header(classified_of(ops), 0, ops.len() - 1),
        header_left(classified_of(ops), 0, ops.len() - 1) == (RangeModel {
            start: 1,
            count: ops.len() as int,
        }),
        header_right(classified_of(ops), 0, ops.len() - 1) == (RangeModel {
            start: 1,
            count: ops.len() as int,
        }),
        forall|j: int| 1 <= j < render_spec(ops).len() ==> (#[trigger] render_spec(
            ops,
        )[j]) is Unchanged,
{
    let lines = classified_of(ops);
    let last = ops.len() - 1;
    assert forall|j: int| 0 <= j < lines.len() implies !is_change((#[trigger] lines[j]).line) by {
        assert(lines[j].line == classify(ops[j]));
    }
    lemma_scan_no_change(lines, 1, 0);
    assert(boundaries(lines) =~= seq![(0int, last)]);
    lemma_upto_all_both(ops, 1);
    lemma_upto_all_both(ops, ops.len() as int);
    assert(lines[0].number.left == clamp1(left_upto(ops, 1)));
    assert(lines[last].number.left == clamp1(left_upto(ops, ops.len() as int)));
    let r = render_spec(ops);
    let single = seq![(0int, last)];
    assert(single.drop_first() =~= Seq::<(int, int)>::empty());
    assert(render_hunks(lines, Seq::<(int, int)>::empty()) =~= Seq::<RenderedLineModel>::empty());
    assert(r =~= seq![hunk_header(lines, 0, last)] + hunk_body(lines, 0, last));
    assert(hunk_body(lines, 0, last).len() == ops.len());
    assert forall|j: int| 1 <= j < r.len() implies (#[trigger] r[j]) is Unchanged by {
        assert(r[j] == hunk_body(lines, 0, last)[j - 1]);
        assert(hunk_body(lines, 0, last)[j - 1] == lines[j - 1].line);
        assert(lines[j - 1].line == classify(ops[j - 1]));
    }
}

} // verus!
