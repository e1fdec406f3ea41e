//! The formatting core: the line numbering pass, the hunk boundary detector
//! and the hunk renderer, each verified against a ghost-level description of
//! the same single forward pass.

use vstd::prelude::*;

use crate::model::ClassifiedLine;
use crate::model::ClassifiedLineModel;
use crate::model::DiffOp;
use crate::model::DiffOpModel;
use crate::model::LineNumber;
use crate::model::LineNumberModel;
use crate::model::Range;
use crate::model::RangeModel;
use crate::model::RenderedLine;
use crate::model::RenderedLineModel;
use crate::model::lines_view;
use crate::model::ops_view;
use crate::model::records_view;

verus! {

/// How many unchanged context lines surround each run of changes.
pub const SELECT_CLEARANCE: usize = 3;

/// How many consecutive unchanged lines must separate two runs of changes
/// before they are cut into separate hunks.
pub const LOOKBACK_RANGE: usize = SELECT_CLEARANCE * 2 - 1;

/// The diff entry consumes a line of the left text.
pub open spec fn counts_left(op: DiffOpModel) -> bool {
    !(op is RightOnly)
}

/// The diff entry consumes a line of the right text.
pub open spec fn counts_right(op: DiffOpModel) -> bool {
    !(op is LeftOnly)
}

/// The content string carried by a diff entry.
pub open spec fn content_of(op: DiffOpModel) -> Seq<char> {
    match op {
        DiffOpModel::LeftOnly(s) => s,
        DiffOpModel::Both(s) => s,
        DiffOpModel::RightOnly(s) => s,
    }
}

/// Relabeling of a diff entry as an output record.
pub open spec fn classify(op: DiffOpModel) -> RenderedLineModel {
    match op {
        DiffOpModel::LeftOnly(s) => RenderedLineModel::Removed(s),
        DiffOpModel::Both(s) => RenderedLineModel::Unchanged(s),
        DiffOpModel::RightOnly(s) => RenderedLineModel::Added(s),
    }
}

/// A record that stands for a changed line rather than for context.
pub open spec fn is_change(line: RenderedLineModel) -> bool {
    line is Added || line is Removed
}

/// How many of the first `n` diff entries consume a line of the left text.
pub open spec fn left_upto(ops: Seq<DiffOpModel>, n: int) -> int
    decreases n,
{
    if n <= 0 {
        0
    } else {
        left_upto(ops, n - 1) + if counts_left(ops[n - 1]) {
            1int
        } else {
            0int
        }
    }
}

/// How many of the first `n` diff entries consume a line of the right text.
pub open spec fn right_upto(ops: Seq<DiffOpModel>, n: int) -> int
    decreases n,
{
    if n <= 0 {
        0
    } else {
        right_upto(ops, n - 1) + if counts_right(ops[n - 1]) {
            1int
        } else {
            0int
        }
    }
}

/// Line numbers are clamped to a minimum of 1, so that a side that has not
/// yet advanced still reports line 1 rather than line 0.
pub open spec fn clamp1(n: int) -> int {
    if n < 1 {
        1
    } else {
        n
    }
}

/// The numbering pass: each diff entry relabeled as a record and paired with
/// the clamped per-side line counts reached at that entry.
pub open spec fn classified_of(ops: Seq<DiffOpModel>) -> Seq<ClassifiedLineModel> {
    Seq::new(
        ops.len(),
        |i: int| ClassifiedLineModel {
            number: LineNumberModel {
                left: clamp1(left_upto(ops, i + 1)),
                right: clamp1(right_upto(ops, i + 1)),
            },
            line: classify(ops[i]),
        },
    )
}

/// The lower bound of a hunk whose first changed line stands at index `s`:
/// `SELECT_CLEARANCE` lines of leading context, clamped at the start of the
/// sequence.
pub open spec fn clamp_lo(s: int) -> int {
    if s > SELECT_CLEARANCE as int {
        s - SELECT_CLEARANCE as int
    } else {
        0
    }
}

/// The boundary detector's forward pass from index `i` on, carrying the
/// first index of the open run of changes (`ds`, if one is open) and the
/// count of consecutive unchanged lines seen (`consec`). Emits one inclusive
/// index range per hunk.
pub open spec fn scan(
    lines: Seq<ClassifiedLineModel>,
    i: int,
    ds: Option<int>,
    consec: int,
) -> Seq<(int, int)>
    decreases lines.len() - i,
{
    if i >= lines.len() {
        match ds {
            Option::Some(s) => seq![(clamp_lo(s), lines.len() - 1)],
            Option::None => seq![],
        }
    } else if is_change(lines[i].line) {
        scan(
            lines,
            i + 1,
            if ds is Some {
                ds
            } else {
                Option::Some(i)
            },
            0,
        )
    } else {
        match ds {
            Option::Some(s) => if consec + 1 >= LOOKBACK_RANGE as int {
                seq![(clamp_lo(s), i + 1 - SELECT_CLEARANCE as int)] + scan(
                    lines,
                    i + 1,
                    Option::None,
                    consec + 1,
                )
            } else {
                scan(lines, i + 1, ds, consec + 1)
            },
            Option::None => scan(lines, i + 1, Option::None, consec + 1),
        }
    }
}

/// Every emitted index range lies inside the sequence with its lower bound
/// strictly below its upper bound, no range starts before `floor`, and
/// consecutive ranges ascend strictly on both endpoints, the upper bound of
/// one never passing the lower bound of the next.
pub open spec fn pairs_wf(r: Seq<(int, int)>, len: int, floor: int) -> bool {
    &&& forall|k: int| 0 <= k < r.len() ==> 0 <= (#[trigger] r[k]).0 < r[k].1 <= len - 1
    &&& forall|k: int| 0 <= k < r.len() ==> (#[trigger] r[k]).0 >= floor
    &&& forall|k: int|
        0 <= k && k + 1 < r.len() ==> (#[trigger] r[k]).1 <= r[k + 1].0 && r[k].0 < r[k + 1].0
            && r[k].1 < r[k + 1].1
}

/// No index range emitted by the pass from state `(i, ds)` on can start
/// before this bound.
pub open spec fn scan_floor(i: int, ds: Option<int>) -> int {
    match ds {
        Option::Some(s) => clamp_lo(s),
        Option::None => i - SELECT_CLEARANCE as int,
    }
}

/// The ranges the forward pass emits are well formed provided its state is:
/// the open run, if any, began at a valid index already passed, and the
/// unchanged-line count fits between that start and the current index.
pub proof fn lemma_scan_wf(
    lines: Seq<ClassifiedLineModel>,
    i: int,
    ds: Option<int>,
    consec: int,
)
    requires
        1 <= i,
        0 <= consec <= i - 1,
        ds matches Option::Some(s) ==> 1 <= s && s < i && s <= lines.len() - 1 && consec <= i - 1
            - s,
    ensures
        pairs_wf(scan(lines, i, ds, consec), lines.len() as int, scan_floor(i, ds)),
    decreases lines.len() - i,
{
    let r = scan(lines, i, ds, consec);
    let len = lines.len() as int;
    if i >= len {
        match ds {
            Option::Some(s) => {
                assert(r == seq![(clamp_lo(s), len - 1)]);
                assert(r[0] == (clamp_lo(s), len - 1));
            },
            Option::None => {},
        }
    } else if is_change(lines[i].line) {
        let ds2 = if ds is Some {
            ds
        } else {
            Option::Some(i)
        };
        lemma_scan_wf(lines, i + 1, ds2, 0);
        assert(r == scan(lines, i + 1, ds2, 0));
        assert(scan_floor(i, ds) <= scan_floor(i + 1, ds2));
    } else {
        match ds {
            Option::Some(s) => {
                if consec + 1 >= LOOKBACK_RANGE as int {
                    lemma_scan_wf(lines, i + 1, Option::None, consec + 1);
                    let rest = scan(lines, i + 1, Option::None, consec + 1);
                    let p = (clamp_lo(s), i + 1 - SELECT_CLEARANCE as int);
                    assert(r == seq![p] + rest);
                    assert(s <= i - LOOKBACK_RANGE as int);
                    assert(pairs_wf(rest, len, i + 1 - SELECT_CLEARANCE as int));
                    assert forall|k: int| 0 <= k < r.len() implies 0 <= (#[trigger] r[k]).0
                        < r[k].1 <= len - 1 && r[k].0 >= scan_floor(i, ds) by {
                        if k == 0 {
                            assert(r[0] == p);
                        } else {
                            assert(r[k] == rest[k - 1]);
                        }
                    }
                    assert forall|k: int|
                        0 <= k && k + 1 < r.len() implies (#[trigger] r[k]).1 <= r[k + 1].0
                        && r[k].0 < r[k + 1].0 && r[k].1 < r[k + 1].1 by {
                        if k == 0 {
                            assert(r[0] == p);
                            assert(r[1] == rest[0]);
                            assert(rest[0].0 >= i + 1 - SELECT_CLEARANCE as int);
                        } else {
                            assert(r[k] == rest[k - 1]);
                            assert(r[k + 1] == rest[k]);
                        }
                    }
                } else {
                    lemma_scan_wf(lines, i + 1, ds, consec + 1);
                    assert(r == scan(lines, i + 1, ds, consec + 1));
                }
            },
            Option::None => {
                lemma_scan_wf(lines, i + 1, Option::None, consec + 1);
                assert(r == scan(lines, i + 1, Option::None, consec + 1));
                assert(scan_floor(i, ds) <= scan_floor(i + 1, Option::<int>::None));
            },
        }
    }
}

/// The hunk boundaries of a classified sequence: the forward pass starting
/// at index 1, a single all-covering hunk as fallback when the pass finds
/// none, and no hunks at all for empty input.
pub open spec fn boundaries(lines: Seq<ClassifiedLineModel>) -> Seq<(int, int)> {
    if lines.len() == 0 {
        seq![]
    } else {
        let found = scan(lines, 1, Option::None, 0);
        if found.len() == 0 {
            seq![(0int, lines.len() - 1)]
        } else {
            found
        }
    }
}

/// The left-side range named by the header of the hunk spanning indices
/// `[lo, hi]`.
pub open spec fn header_left(lines: Seq<ClassifiedLineModel>, lo: int, hi: int) -> RangeModel {
    RangeModel {
        start: lines[lo].number.left,
        count: lines[hi].number.left - lines[lo].number.left + 1,
    }
}

/// The right-side range named by the header of the hunk spanning indices
/// `[lo, hi]`.
pub open spec fn header_right(lines: Seq<ClassifiedLineModel>, lo: int, hi: int) -> RangeModel {
    RangeModel {
        start: lines[lo].number.right,
        count: lines[hi].number.right - lines[lo].number.right + 1,
    }
}

/// The header record of the hunk spanning indices `[lo, hi]`.
pub open spec fn hunk_header(lines: Seq<ClassifiedLineModel>, lo: int, hi: int) -> RenderedLineModel {
    RenderedLineModel::HunkHeader {
        left: header_left(lines, lo, hi),
        right: header_right(lines, lo, hi),
    }
}

/// The body of the hunk spanning indices `[lo, hi]`: the classified records
/// of that span, verbatim and in order.
pub open spec fn hunk_body(lines: Seq<ClassifiedLineModel>, lo: int, hi: int) -> Seq<
    RenderedLineModel,
> {
    Seq::new(
        if hi + 1 - lo >= 0 {
            (hi + 1 - lo) as nat
        } else {
            0nat
        },
        |k: int| lines[lo + k].line,
    )
}

/// The rendered records of a sequence of hunks: for each hunk its header
/// followed by its body.
pub open spec fn render_hunks(
    lines: Seq<ClassifiedLineModel>,
    bounds: Seq<(int, int)>,
) -> Seq<RenderedLineModel>
    decreases bounds.len(),
{
    if bounds.len() == 0 {
        seq![]
    } else {
        seq![hunk_header(lines, bounds[0].0, bounds[0].1)] + hunk_body(
            lines,
            bounds[0].0,
            bounds[0].1,
        ) + render_hunks(lines, bounds.drop_first())
    }
}

/// The whole pipeline at the ghost level: number and classify the entries,
/// cut them into hunks, and render each hunk.
pub open spec fn render_spec(ops: Seq<DiffOpModel>) -> Seq<RenderedLineModel> {
    render_hunks(classified_of(ops), boundaries(classified_of(ops)))
}

/// The per-side counts never decrease along the sequence.
pub proof fn lemma_upto_mono(ops: Seq<DiffOpModel>, a: int, b: int)
    requires
        a <= b,
    ensures
        left_upto(ops, a) <= left_upto(ops, b),
        right_upto(ops, a) <= right_upto(ops, b),
    decreases b - a,
{
    if a < b {
        lemma_upto_mono(ops, a, b - 1);
    }
}

/// The per-side counts are bounded by how many entries were seen.
pub proof fn lemma_upto_le(ops: Seq<DiffOpModel>, n: int)
    requires
        0 <= n,
    ensures
        0 <= left_upto(ops, n) <= n,
        0 <= right_upto(ops, n) <= n,
    decreases n,
{
    if n > 0 {
        lemma_upto_le(ops, n - 1);
    }
}

/// Rendering a concatenation of hunk lists renders each list in turn.
pub proof fn lemma_render_hunks_concat(
    lines: Seq<ClassifiedLineModel>,
    a: Seq<(int, int)>,
    b: Seq<(int, int)>,
)
    ensures
        render_hunks(lines, a + b) == render_hunks(lines, a) + render_hunks(lines, b),
    decreases a.len(),
{
    if a.len() == 0 {
        assert(a + b =~= b);
        assert(render_hunks(lines, a) + render_hunks(lines, b) =~= render_hunks(lines, b));
    } else {
        assert((a + b).len() > 0);
        assert((a + b)[0] == a[0]);
        assert((a + b).drop_first() =~= a.drop_first() + b);
        lemma_render_hunks_concat(lines, a.drop_first(), b);
        assert(render_hunks(lines, a + b) =~= render_hunks(lines, a) + render_hunks(lines, b));
    }
}

/// The models of a sequence of index range pairs.
pub open spec fn bounds_view(s: Seq<(usize, usize)>) -> Seq<(int, int)> {
    s.map_values(|p: (usize, usize)| (p.0 as int, p.1 as int))
}

/// The model of an optional run start.
pub open spec fn ds_view(o: Option<usize>) -> Option<int> {
    match o {
        Option::Some(s) => Option::Some(s as int),
        Option::None => Option::None,
    }
}

/// The boundary detector: cuts the classified sequence into hunks by the
/// clearance policy, with a single all-covering hunk as fallback and no
/// hunks for empty input.
fn find_hunks(lines: &Vec<ClassifiedLine>) -> (r: Vec<(usize, usize)>)
    ensures
        bounds_view(r@) == boundaries(lines_view(lines@)),
        forall|k: int| 0 <= k < r@.len() ==> (#[trigger] r@[k]).0 <= r@[k].1 < lines@.len(),
{
    let ghost lv = lines_view(lines@);
    let mut sync_pos: Vec<(usize, usize)> = Vec::new();
    if lines.len() == 0 {
        assert(bounds_view(sync_pos@) =~= boundaries(lv));
        return sync_pos;
    }
    let mut delta_start: Option<usize> = None;
    let mut consecutive_sames: usize = 0;
    let mut i: usize = 1;
    while i < lines.len()
        invariant
            lv == lines_view(lines@),
            lv.len() == lines@.len(),
            1 <= lines@.len(),
            1 <= i <= lines@.len(),
            consecutive_sames <= i - 1,
            delta_start matches Some(s) ==> 1 <= s && s < i && s < lines@.len()
                && consecutive_sames <= i - 1 - s,
            scan(lv, 1, Option::None, 0) == bounds_view(sync_pos@) + scan(
                lv,
                i as int,
                ds_view(delta_start),
                consecutive_sames as int,
            ),
            forall|k: int| 0 <= k < sync_pos@.len() ==> (#[trigger] sync_pos@[k]).0
                <= sync_pos@[k].1 < lines@.len(),
        decreases lines@.len() - i,
    {
        let ghost prev_ds = ds_view(delta_start);
        let ghost prev_consec = consecutive_sames as int;
        assert(lv[i as int] == lines@[i as int]@);
        let changed = match &lines[i].line {
            RenderedLine::Added(_) => true,
            RenderedLine::Removed(_) => true,
            _ => false,
        };
        assert(changed == is_change(lv[i as int].line));
        if changed {
            consecutive_sames = 0;
            if delta_start.is_none() {
                delta_start = Some(i);
            }
            proof {
                assert(scan(lv, i as int, prev_ds, prev_consec) == scan(
                    lv,
                    i + 1,
                    ds_view(delta_start),
                    0,
                ));
            }
        } else {
            consecutive_sames = consecutive_sames + 1;
            if consecutive_sames >= LOOKBACK_RANGE && delta_start.is_some() {
                let s = delta_start.unwrap();
                delta_start = None;
                let lo = if s > SELECT_CLEARANCE {
                    s - SELECT_CLEARANCE
                } else {
                    0
                };
                assert(s <= i - LOOKBACK_RANGE as int);
                let hi = i + 1 - SELECT_CLEARANCE;
                proof {
                    assert(scan(lv, i as int, prev_ds, prev_consec) == seq![
                        (clamp_lo(s as int), i + 1 - SELECT_CLEARANCE as int),
                    ] + scan(lv, i + 1, Option::None, prev_consec + 1));
                    assert((lo as int, hi as int) == (
                        clamp_lo(s as int),
                        i + 1 - SELECT_CLEARANCE as int,
                    ));
                }
                let ghost prev_pos = sync_pos@;
                sync_pos.push((lo, hi));
                proof {
                    assert(bounds_view(sync_pos@) =~= bounds_view(prev_pos) + seq![
                        (lo as int, hi as int),
                    ]);
                    assert(bounds_view(sync_pos@) + scan(
                        lv,
                        i + 1,
                        ds_view(delta_start),
                        consecutive_sames as int,
                    ) =~= bounds_view(prev_pos) + scan(lv, i as int, prev_ds, prev_consec));
                }
            } else {
                proof {
                    assert(scan(lv, i as int, prev_ds, prev_consec) == scan(
                        lv,
                        i + 1,
                        ds_view(delta_start),
                        consecutive_sames as int,
                    ));
                }
            }
        }
        i = i + 1;
    }
    if delta_start.is_some() {
        let s = delta_start.unwrap();
        let ghost prev_pos = sync_pos@;
        let lo = if s > SELECT_CLEARANCE {
            s - SELECT_CLEARANCE
        } else {
            0
        };
        sync_pos.push((lo, lines.len() - 1));
        proof {
            assert(scan(lv, i as int, ds_view(Some(s)), consecutive_sames as int) == seq![
                (clamp_lo(s as int), lv.len() - 1),
            ]);
            assert(bounds_view(sync_pos@) =~= bounds_view(prev_pos) + seq![
                (lo as int, lv.len() - 1),
            ]);
            assert(bounds_view(sync_pos@) =~= scan(lv, 1, Option::None, 0));
        }
    } else {
        proof {
            assert(scan(lv, i as int, ds_view(delta_start), consecutive_sames as int)
                =~= Seq::<(int, int)>::empty());
            assert(bounds_view(sync_pos@) =~= scan(lv, 1, Option::None, 0));
        }
    }
    if sync_pos.len() == 0 {
        sync_pos.push((0, lines.len() - 1));
        proof {
            assert(scan(lv, 1, Option::None, 0).len() == 0);
            assert(bounds_view(sync_pos@) =~= seq![(0int, lv.len() - 1)]);
        }
    }
    assert(bounds_view(sync_pos@) == boundaries(lv));
    sync_pos
}

/// The numbering pass over the diff entries.
fn number_lines(diff: &Vec<DiffOp>) -> (r: Vec<ClassifiedLine>)
    ensures
        lines_view(r@) == classified_of(ops_view(diff@)),
{
    let ghost ops = ops_view(diff@);
    let mut zipped: Vec<ClassifiedLine> = Vec::new();
    let mut left: usize = 0;
    let mut right: usize = 0;
    let mut i: usize = 0;
    while i < diff.len()
        invariant
            0 <= i <= diff@.len(),
            ops == ops_view(diff@),
            ops.len() == diff@.len(),
            left <= i,
            right <= i,
            left == left_upto(ops, i as int),
            right == right_upto(ops, i as int),
            zipped@.len() == i,
            lines_view(zipped@) == classified_of(ops).take(i as int),
        decreases diff@.len() - i,
    {
        assert(ops[i as int] == diff@[i as int]@);
        let line = match &diff[i] {
            DiffOp::LeftOnly(s) => {
                left = left + 1;
                RenderedLine::Removed(s.clone())
            },
            DiffOp::Both(s) => {
                left = left + 1;
                right = right + 1;
                RenderedLine::Unchanged(s.clone())
            },
            DiffOp::RightOnly(s) => {
                right = right + 1;
                RenderedLine::Added(s.clone())
            },
        };
        let number = LineNumber {
            left: if left < 1 {
                1
            } else {
                left
            },
            right: if right < 1 {
                1
            } else {
                right
            },
        };
        zipped.push(ClassifiedLine { number, line });
        assert(left == left_upto(ops, i + 1));
        assert(right == right_upto(ops, i + 1));
        assert(lines_view(zipped@) =~= classified_of(ops).take(i + 1));
        i = i + 1;
    }
    assert(lines_view(zipped@) =~= classified_of(ops));
    zipped
}

/// The whole formatting core: numbers and classifies the diff entries, cuts
/// them into hunks, and emits one header record and the verbatim body
/// records for each hunk, exactly as the ghost pipeline describes.
pub fn render_diff(diff: &Vec<DiffOp>) -> (r: Vec<RenderedLine>)
    ensures
        records_view(r@) == render_spec(ops_view(diff@)),
        diff@.len() == 0 ==> r@.len() == 0,
{
    let ghost ops = ops_view(diff@);
    let zipped = number_lines(diff);
    let ghost lv = lines_view(zipped@);
    let bounds = find_hunks(&zipped);
    let ghost bv = bounds_view(bounds@);
    let n = zipped.len();
    let mut buf: Vec<RenderedLine> = Vec::new();
    let mut h: usize = 0;
    while h < bounds.len()
        invariant
            lv == classified_of(ops),
            lv == lines_view(zipped@),
            lv.len() == zipped@.len(),
            bv == bounds_view(bounds@),
            bv == boundaries(lv),
            bv.len() == bounds@.len(),
            forall|k: int| 0 <= k < bounds@.len() ==> (#[trigger] bounds@[k]).0 <= bounds@[k].1
                < zipped@.len(),
            0 <= h <= bounds@.len(),
            n == zipped@.len(),
            records_view(buf@) == render_hunks(lv, bv.take(h as int)),
        decreases bounds@.len() - h,
    {
        let (lo, hi) = bounds[h];
        proof {
            assert(bv[h as int] == (lo as int, hi as int));
            assert(lv[lo as int] == zipped@[lo as int]@);
            assert(lv[hi as int] == zipped@[hi as int]@);
            lemma_upto_mono(ops, lo + 1, hi + 1);
            lemma_upto_le(ops, hi + 1);
        }
        let left_start = zipped[lo].number.left;
        let left_count = zipped[hi].number.left - left_start + 1;
        let right_start = zipped[lo].number.right;
        let right_count = zipped[hi].number.right - right_start + 1;
        let header = RenderedLine::HunkHeader {
            left: Range { start: left_start, count: left_count },
            right: Range { start: right_start, count: right_count },
        };
        let ghost base = records_view(buf@);
        proof {
            assert(header@ == hunk_header(lv, lo as int, hi as int));
        }
        buf.push(header);
        proof {
            assert(records_view(buf@) =~= base + seq![hunk_header(lv, lo as int, hi as int)]);
            assert(hunk_body(lv, lo as int, lo - 1) =~= Seq::<RenderedLineModel>::empty());
        }
        let mut i: usize = lo;
        while i <= hi
            invariant
                lv == lines_view(zipped@),
                lv.len() == zipped@.len(),
                lo <= i <= hi + 1,
                hi < zipped@.len(),
                n == zipped@.len(),
                records_view(buf@) == base + seq![hunk_header(lv, lo as int, hi as int)]
                    + hunk_body(lv, lo as int, i - 1),
            decreases hi + 1 - i,
        {
            let ghost before = records_view(buf@);
            assert(lv[i as int] == zipped@[i as int]@);
            let line = zipped[i].line.duplicate();
            buf.push(line);
            proof {
                assert(records_view(buf@) =~= before + seq![lv[i as int].line]);
                assert(hunk_body(lv, lo as int, i as int) =~= hunk_body(lv, lo as int, i - 1)
                    + seq![lv[i as int].line]);
            }
            i = i + 1;
        }
        proof {
            assert(bv.take(h + 1) =~= bv.take(h as int) + seq![bv[h as int]]);
            lemma_render_hunks_concat(lv, bv.take(h as int), seq![bv[h as int]]);
            assert(seq![bv[h as int]].drop_first() =~= Seq::<(int, int)>::empty());
            assert(render_hunks(lv, Seq::<(int, int)>::empty())
                =~= Seq::<RenderedLineModel>::empty());
            assert(render_hunks(lv, seq![bv[h as int]]) =~= seq![
                hunk_header(lv, lo as int, hi as int),
            ] + hunk_body(lv, lo as int, hi as int));
            assert(records_view(buf@) =~= render_hunks(lv, bv.take(h + 1)));
        }
        h = h + 1;
    }
    proof {
        assert(bv.take(bounds@.len() as int) =~= bv);
        assert(records_view(buf@) == render_spec(ops));
        if diff@.len() == 0 {
            assert(render_spec(ops) =~= Seq::<RenderedLineModel>::empty());
        }
    }
    buf
}

} // verus!
