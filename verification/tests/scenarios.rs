//! Concrete behavior of the formatting pipeline: single-change and
//! two-hunk inputs, identical texts, empty texts, clamped starts, and the
//! exact textual form of every record kind.

use patchfile::DiffOp;
use patchfile::Patchfile;
use patchfile::Range;
use patchfile::RenderedLine;
use patchfile::diff_records;
use patchfile::render_diff;

fn texts(records: Vec<RenderedLine>) -> Vec<String> {
    records.into_iter().map(|d| d.text()).collect()
}

#[test]
fn scenario_one_change() {
    let out = texts(diff_records("a\nb\nc", "a\nx\nc"));
    assert_eq!(out, vec!["@@ -1,3 +1,3 @@", " a", "-b", "+x", " c"]);
}

#[test]
fn scenario_two_hunks() {
    let original = "1\n2\n3\n4\n5\n6\n7\n8\n9\n10";
    let modified = "1\nX\n3\n4\n5\n6\n7\n8\nY\n10";
    let out = texts(diff_records(original, modified));
    assert_eq!(
        out,
        vec![
            "@@ -1,5 +1,5 @@",
            " 1",
            "-2",
            "+X",
            " 3",
            " 4",
            " 5",
            "@@ -6,5 +6,5 @@",
            " 6",
            " 7",
            " 8",
            "-9",
            "+Y",
            " 10",
        ]
    );
}

#[test]
fn scenario_identical_texts() {
    // Identical texts keep the fallback behavior: one hunk covering the
    // whole sequence as context, not empty output.
    let out = texts(diff_records("same", "same"));
    assert_eq!(out, vec!["@@ -1,1 +1,1 @@", " same"]);
}

#[test]
fn scenario_empty_texts() {
    let out = diff_records("", "");
    assert_eq!(out.len(), 0);
}

#[test]
fn scenario_clamped_start() {
    // The first entry is an addition, so the left side has not advanced;
    // its recorded line number is clamped to 1.
    let out = texts(diff_records("b", "a\nb"));
    assert_eq!(out, vec!["@@ -1,1 +1,2 @@", "+a", " b"]);
}

#[test]
fn render_diff_direct_entries() {
    let ops = vec![
        DiffOp::Both("a".to_string()),
        DiffOp::LeftOnly("b".to_string()),
        DiffOp::RightOnly("x".to_string()),
        DiffOp::Both("c".to_string()),
    ];
    let out = texts(render_diff(&ops));
    assert_eq!(out, vec!["@@ -1,3 +1,3 @@", " a", "-b", "+x", " c"]);
}

#[test]
fn render_diff_empty_input() {
    let ops: Vec<DiffOp> = vec![];
    assert_eq!(render_diff(&ops).len(), 0);
}

#[test]
fn blank_context_line_renders_empty() {
    let line = RenderedLine::Unchanged(String::new());
    assert_eq!(line.text(), "");
}

#[test]
fn record_text_forms() {
    assert_eq!(RenderedLine::Added("foo".to_string()).text(), "+foo");
    assert_eq!(RenderedLine::Removed("foo".to_string()).text(), "-foo");
    assert_eq!(RenderedLine::Unchanged("foo".to_string()).text(), " foo");
    assert_eq!(RenderedLine::Added(String::new()).text(), "+");
    let header = RenderedLine::HunkHeader {
        left: Range { start: 1234567890, count: 0 },
        right: Range { start: 1, count: 42 },
    };
    assert_eq!(header.text(), "@@ -1234567890,0 +1,42 @@");
}

#[test]
fn header_lines_without_times() {
    let p = Patchfile::new("file.txt");
    assert_eq!(p.local_header(), "--- file.txt\t");
    assert_eq!(p.remote_header(), "+++ file.txt\t");
}

#[test]
fn header_lines_with_names_and_times() {
    let p = Patchfile::with_names("remote.txt", "local.txt")
        .remote_time("2024-01-02 03:04:05")
        .local_time("2023-12-31 23:59:59");
    assert_eq!(p.remote_header(), "+++ remote.txt\t2024-01-02 03:04:05");
    assert_eq!(p.local_header(), "--- local.txt\t2023-12-31 23:59:59");
}

#[test]
fn records_matches_free_function() {
    let p = Patchfile::new("f");
    let a = texts(p.records("a\nx\nc", "a\nb\nc"));
    let b = texts(diff_records("a\nb\nc", "a\nx\nc"));
    assert_eq!(a, b);
}

#[test]
fn leading_change_before_lookback_is_elided() {
    // The boundary pass starts at index 1, so a change at the very first
    // entry opens no run of its own; with the next change far away it lies
    // outside every hunk and is elided along with the context around it.
    let out = texts(diff_records("A\n1\n2\n3\n4\n5\nB", "1\n2\n3\n4\n5\nX"));
    assert_eq!(out, vec!["@@ -4,4 +3,4 @@", " 3", " 4", " 5", "-B", "+X"]);
}

#[test]
fn exact_lookback_separation_shares_boundary_index() {
    // Two changes separated by exactly five unchanged lines: the two hunks
    // share the context line at the cut, so that line is rendered twice.
    let original = "0\nA\n2\n3\n4\n5\n6\nB\n8";
    let modified = "0\nx\n2\n3\n4\n5\n6\ny\n8";
    let out = texts(diff_records(original, modified));
    assert_eq!(
        out,
        vec![
            "@@ -1,5 +1,5 @@",
            " 0",
            "-A",
            "+x",
            " 2",
            " 3",
            " 4",
            "@@ -5,5 +5,5 @@",
            " 4",
            " 5",
            " 6",
            "-B",
            "+y",
            " 8",
        ]
    );
}
