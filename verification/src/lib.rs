//! Renders a line-level diff between two texts in the unified patch format:
//! hunk headers of the form `@@ -l,c +r,c @@` followed by body lines prefixed
//! with `+`, `-` or a space. The outside diff engine supplies the classified
//! entries; the numbering, hunk-cutting and rendering core is verified.

use vstd::prelude::*;
use vstd::string::StringExecFns;

pub mod algo;
pub mod laws;
mod model;

pub use algo::render_diff;
pub use model::ClassifiedLine;
pub use model::ClassifiedLineModel;
pub use model::DiffOp;
pub use model::DiffOpModel;
pub use model::LineNumber;
pub use model::LineNumberModel;
pub use model::Range;
pub use model::RangeModel;
pub use model::RenderedLine;
pub use model::RenderedLineModel;
pub use model::line_text;
pub use model::lines_view;
pub use model::ops_view;
pub use model::records_view;

verus! {

/// A name for what the outside line-level diff engine returns: for fixed
/// left and right texts its output is one fixed sequence of entries.
pub uninterp spec fn line_diff(left: Seq<char>, right: Seq<char>) -> Seq<DiffOpModel>;

/// Relies on diff::lines: computes the line-level difference of two texts by
/// longest common subsequence; the result depends on the two texts alone.
#[verifier::external_body]
fn diff_lines(left: &str, right: &str) -> (r: Vec<DiffOp>)
    ensures
        ops_view(r@) == line_diff(left@, right@),
{
    diff::lines(left, right)
        .into_iter()
        .map(|d| match d {
            diff::Result::Left(s) => DiffOp::LeftOnly(s.to_string()),
            diff::Result::Both(_, s) => DiffOp::Both(s.to_string()),
            diff::Result::Right(s) => DiffOp::RightOnly(s.to_string()),
        })
        .collect()
}

/// The full record sequence for the difference between a local and a remote
/// text: the outside engine classifies the lines, the verified core numbers
/// them, cuts them into hunks and renders each hunk.
pub fn diff_records(local: &str, remote: &str) -> (r: Vec<RenderedLine>)
    ensures
        records_view(r@) == algo::render_spec(line_diff(local@, remote@)),
{
    let ops = diff_lines(local, remote);
    render_diff(&ops)
}

/// The timestamp named by an optional field, or no text at all.
pub open spec fn opt_str_view(o: Option<&str>) -> Seq<char> {
    match o {
        Option::Some(s) => s@,
        Option::None => Seq::empty(),
    }
}

/// A builder for converting two files into a patchfile: display names and
/// optional timestamps for the two identity header lines.
pub struct Patchfile<'a> {
    pub remote_name: &'a str,
    pub local_name: &'a str,
    pub remote_time: Option<&'a str>,
    pub local_time: Option<&'a str>,
}

impl<'a> Patchfile<'a> {
    /// Sets the same name for both files.
    pub fn new(name: &'a str) -> (r: Self)
        ensures
            r.remote_name@ == name@,
            r.local_name@ == name@,
            r.remote_time is None,
            r.local_time is None,
    {
        Patchfile { remote_name: name, local_name: name, remote_time: None, local_time: None }
    }

    /// Sets different names for both files.
    pub fn with_names(remote_name: &'a str, local_name: &'a str) -> (r: Self)
        ensures
            r.remote_name@ == remote_name@,
            r.local_name@ == local_name@,
            r.remote_time is None,
            r.local_time is None,
    {
        Patchfile { remote_name, local_name, remote_time: None, local_time: None }
    }

    /// Sets the remote file's timestamp.
    pub fn remote_time(self, remote_time: &'a str) -> (r: Self)
        ensures
            r.remote_time matches Some(t) && t@ == remote_time@,
            r.local_time == self.local_time,
            r.remote_name@ == self.remote_name@,
            r.local_name@ == self.local_name@,
    {
        Patchfile { remote_time: Some(remote_time), ..self }
    }

    /// Sets the local file's timestamp.
    pub fn local_time(self, local_time: &'a str) -> (r: Self)
        ensures
            r.local_time matches Some(t) && t@ == local_time@,
            r.remote_time == self.remote_time,
            r.remote_name@ == self.remote_name@,
            r.local_name@ == self.local_name@,
    {
        Patchfile { local_time: Some(local_time), ..self }
    }

    /// The identity header line for the local side: `--- name`, a tab, and
    /// the timestamp if one was set.
    pub fn local_header(&self) -> (r: String)
        ensures
            r@ == "--- "@ + self.local_name@ + "\t"@ + opt_str_view(self.local_time),
    {
        let mut out = String::from_str("--- ");
        out.append(self.local_name);
        out.append("\t");
        match self.local_time {
            Some(t) => out.append(t),
            None => {},
        }
        assert(out@ =~= "--- "@ + self.local_name@ + "\t"@ + opt_str_view(self.local_time));
        out
    }

    /// The identity header line for the remote side: `+++ name`, a tab, and
    /// the timestamp if one was set.
    pub fn remote_header(&self) -> (r: String)
        ensures
            r@ == "+++ "@ + self.remote_name@ + "\t"@ + opt_str_view(self.remote_time),
    {
        let mut out = String::from_str("+++ ");
        out.append(self.remote_name);
        out.append("\t");
        match self.remote_time {
            Some(t) => out.append(t),
            None => {},
        }
        assert(out@ =~= "+++ "@ + self.remote_name@ + "\t"@ + opt_str_view(self.remote_time));
        out
    }

    /// The record sequence for the difference between a local and a remote
    /// text, as `print` and `eprint` write it after the two header lines.
    pub fn records(&self, remote: &str, local: &str) -> (r: Vec<RenderedLine>)
        ensures
            records_view(r@) == algo::render_spec(line_diff(local@, remote@)),
    {
        diff_records(local, remote)
    }
}

} // verus!
