//! Data model: the classified input lines, the derived per-side line numbers
//! and ranges, and the rendered output records, together with the ghost
//! models that the contracts speak of.

use vstd::prelude::*;
use vstd::string::StringExecFns;

verus! {

/// One entry of the line-level diff between two texts, in sequence order:
/// a line present only on the left side, on both sides, or only on the right.
#[derive(Debug, Clone, PartialEq, Eq)]
pub enum DiffOp {
    LeftOnly(String),
    Both(String),
    RightOnly(String),
}

/// The 1-based line number on each side after processing an entry.
#[derive(Debug, Clone, Copy, PartialEq, Eq)]
pub struct LineNumber {
    pub left: usize,
    pub right: usize,
}

/// A contiguous span on one side of the diff: a starting line number and a
/// number of lines.
#[derive(Debug, Clone, Copy, PartialEq, Eq)]
pub struct Range {
    pub start: usize,
    pub count: usize,
}

/// One output record of the unified format: a hunk header, or one body line
/// carrying its content verbatim.
#[derive(Debug, Clone, PartialEq, Eq)]
pub enum RenderedLine {
    HunkHeader { left: Range, right: Range },
    Added(String),
    Removed(String),
    Unchanged(String),
}

/// One input entry relabeled as an output record, paired with the line
/// numbers both sides have reached at that entry.
#[derive(Debug, Clone, PartialEq, Eq)]
pub struct ClassifiedLine {
    pub number: LineNumber,
    pub line: RenderedLine,
}

/// Ghost model of `DiffOp`: contents as character sequences.
pub enum DiffOpModel {
    LeftOnly(Seq<char>),
    Both(Seq<char>),
    RightOnly(Seq<char>),
}

/// Ghost model of `LineNumber`.
pub struct LineNumberModel {
    pub left: int,
    pub right: int,
}

/// Ghost model of `Range`.
pub struct RangeModel {
    pub start: int,
    pub count: int,
}

/// Ghost model of `RenderedLine`.
pub enum RenderedLineModel {
    HunkHeader { left: RangeModel, right: RangeModel },
    Added(Seq<char>),
    Removed(Seq<char>),
    Unchanged(Seq<char>),
}

/// Ghost model of `ClassifiedLine`.
pub struct ClassifiedLineModel {
    pub number: LineNumberModel,
    pub line: RenderedLineModel,
}

impl View for DiffOp {
    type V = DiffOpModel;

    open spec fn view(&self) -> DiffOpModel {
        match self {
            DiffOp::LeftOnly(s) => DiffOpModel::LeftOnly(s@),
            DiffOp::Both(s) => DiffOpModel::Both(s@),
            DiffOp::RightOnly(s) => DiffOpModel::RightOnly(s@),
        }
    }
}

impl View for LineNumber {
    type V = LineNumberModel;

    open spec fn view(&self) -> LineNumberModel {
        LineNumberModel { left: self.left as int, right: self.right as int }
    }
}

impl View for Range {
    type V = RangeModel;

    open spec fn view(&self) -> RangeModel {
        RangeModel { start: self.start as int, count: self.count as int }
    }
}

impl View for RenderedLine {
    type V = RenderedLineModel;

    open spec fn view(&self) -> RenderedLineModel {
        match self {
            RenderedLine::HunkHeader { left, right } => RenderedLineModel::HunkHeader {
                left: left@,
                right: right@,
            },
            RenderedLine::Added(s) => RenderedLineModel::Added(s@),
            RenderedLine::Removed(s) => RenderedLineModel::Removed(s@),
            RenderedLine::Unchanged(s) => RenderedLineModel::Unchanged(s@),
        }
    }
}

impl View for ClassifiedLine {
    type V = ClassifiedLineModel;

    open spec fn view(&self) -> ClassifiedLineModel {
        ClassifiedLineModel { number: self.number@, line: self.line@ }
    }
}

/// The models of a sequence of diff entries.
pub open spec fn ops_view(s: Seq<DiffOp>) -> Seq<DiffOpModel> {
    s.map_values(|op: DiffOp| op@)
}

/// The models of a sequence of classified lines.
pub open spec fn lines_view(s: Seq<ClassifiedLine>) -> Seq<ClassifiedLineModel> {
    s.map_values(|l: ClassifiedLine| l@)
}

/// The models of a sequence of rendered records.
pub open spec fn records_view(s: Seq<RenderedLine>) -> Seq<RenderedLineModel> {
    s.map_values(|r: RenderedLine| r@)
}

/// The character for one decimal digit.
pub open spec fn digit_char(d: nat) -> char {
    if d == 0 {
        '0'
    } else if d == 1 {
        '1'
    } else if d == 2 {
        '2'
    } else if d == 3 {
        '3'
    } else if d == 4 {
        '4'
    } else if d == 5 {
        '5'
    } else if d == 6 {
        '6'
    } else if d == 7 {
        '7'
    } else if d == 8 {
        '8'
    } else {
        '9'
    }
}

/// The decimal notation of a number, most significant digit first, with no
/// leading zeros except for the number 0 itself.
pub open spec fn dec_rep(n: nat) -> Seq<char>
    decreases n,
{
    if n < 10 {
        seq![digit_char(n)]
    } else {
        dec_rep(n / 10).push(digit_char(n % 10))
    }
}

/// The exact textual form of one output record: the header as
/// `@@ -start,count +start,count @@`, body lines prefixed `+`, `-` or one
/// space, and an empty string for an unchanged line with empty content.
pub open spec fn line_text(r: RenderedLineModel) -> Seq<char> {
    match r {
        RenderedLineModel::HunkHeader { left, right } => "@@ -"@ + dec_rep(left.start as nat)
            + ","@ + dec_rep(left.count as nat) + " +"@ + dec_rep(right.start as nat) + ","@
            + dec_rep(right.count as nat) + " @@"@,
        RenderedLineModel::Added(s) => "+"@ + s,
        RenderedLineModel::Removed(s) => "-"@ + s,
        RenderedLineModel::Unchanged(s) => if s.len() == 0 {
            Seq::empty()
        } else {
            " "@ + s
        },
    }
}

/// Appends the character of the decimal digit `d`.
fn push_digit(out: &mut String, d: usize)
    requires
        d < 10,
    ensures
        final(out)@ == old(out)@.push(digit_char(d as nat)),
{
    if d == 0 {
        proof {
            reveal_strlit("0");
        }
        out.append("0");
    } else if d == 1 {
        proof {
            reveal_strlit("1");
        }
        out.append("1");
    } else if d == 2 {
        proof {
            reveal_strlit("2");
        }
        out.append("2");
    } else if d == 3 {
        proof {
            reveal_strlit("3");
        }
        out.append("3");
    } else if d == 4 {
        proof {
            reveal_strlit("4");
        }
        out.append("4");
    } else if d == 5 {
        proof {
            reveal_strlit("5");
        }
        out.append("5");
    } else if d == 6 {
        proof {
            reveal_strlit("6");
        }
        out.append("6");
    } else if d == 7 {
        proof {
            reveal_strlit("7");
        }
        out.append("7");
    } else if d == 8 {
        proof {
            reveal_strlit("8");
        }
        out.append("8");
    } else {
        proof {
            reveal_strlit("9");
        }
        out.append("9");
    }
    assert(out@ =~= old(out)@.push(digit_char(d as nat)));
}

/// Appends the decimal notation of `n`.
fn push_dec(out: &mut String, n: usize)
    ensures
        final(out)@ == old(out)@ + dec_rep(n as nat),
    decreases n,
{
    if n >= 10 {
        push_dec(out, n / 10);
        push_digit(out, n % 10);
    } else {
        push_digit(out, n);
    }
    assert(out@ =~= old(out)@ + dec_rep(n as nat));
}

impl RenderedLine {
    /// The record as one line of unified-format text.
    pub fn text(&self) -> (r: String)
        ensures
            r@ == line_text(self@),
    {
        match self {
            RenderedLine::HunkHeader { left, right } => {
                let mut out = String::from_str("@@ -");
                push_dec(&mut out, left.start);
                out.append(",");
                push_dec(&mut out, left.count);
                out.append(" +");
                push_dec(&mut out, right.start);
                out.append(",");
                push_dec(&mut out, right.count);
                out.append(" @@");
                assert(out@ =~= line_text(self@));
                out
            },
            RenderedLine::Added(s) => {
                let mut out = String::from_str("+");
                out.append(s.as_str());
                out
            },
            RenderedLine::Removed(s) => {
                let mut out = String::from_str("-");
                out.append(s.as_str());
                out
            },
            RenderedLine::Unchanged(s) => {
                if s.as_str().is_empty() {
                    String::new()
                } else {
                    let mut out = String::from_str(" ");
                    out.append(s.as_str());
                    out
                }
            },
        }
    }

    /// A structural copy; cloning the content strings preserves their views.
    pub fn duplicate(&self) -> (r: RenderedLine)
        ensures
            r@ == self@,
    {
        match self {
            RenderedLine::HunkHeader { left, right } => RenderedLine::HunkHeader {
                left: *left,
                right: *right,
            },
            RenderedLine::Added(s) => RenderedLine::Added(s.clone()),
            RenderedLine::Removed(s) => RenderedLine::Removed(s.clone()),
            RenderedLine::Unchanged(s) => RenderedLine::Unchanged(s.clone()),
        }
    }
}

} // verus!
