//! The classic encyclopedia example: two versions of a small document,
//! rendered as a unified diff and compared line for line.

use patchfile::diff_records;

const ORIGINAL: &str = "This part of the\ndocument has stayed the\nsame from version to\nversion.  It shouldn't\nbe shown if it doesn't\nchange.  Otherwise, that\nwould not be helping to\ncompress the size of the\nchanges.\n\nThis paragraph contains\ntext that is outdated.\nIt will be deleted in the\nnear future.\n\nIt is important to spell\ncheck this dokument. On\nthe other hand, a\nmisspelled word isn't\nthe end of the world.\nNothing in the rest of\nthis paragraph needs to\nbe changed.  Things can\nbe added after it.\n";

const NEW: &str = "This is an important\nnotice! It should\ntherefore be located at\nthe beginning of this\ndocument!\n\nThis part of the\ndocument has stayed the\nsame from version to\nversion.  It shouldn't\nbe shown if it doesn't\nchange.  Otherwise, that\nwould not be helping to\ncompress the size of the\nchanges.\n\nIt is important to spell\ncheck this document. On\nthe other hand, a\nmisspelled word isn't\nthe end of the world.\nNothing in the rest of\nthis paragraph needs to\nbe changed.  Things can\nbe added after it.\n\nThis paragraph contains\nimportant new additions\nto this document.\n";

const DIFF: &str = "@@ -1,3 +1,9 @@\n+This is an important\n+notice! It should\n+therefore be located at\n+the beginning of this\n+document!\n+\n This part of the\n document has stayed the\n same from version to\n@@ -8,13 +14,8 @@\n compress the size of the\n changes.\n\n-This paragraph contains\n-text that is outdated.\n-It will be deleted in the\n-near future.\n-\n It is important to spell\n-check this dokument. On\n+check this document. On\n the other hand, a\n misspelled word isn't\n the end of the world.\n@@ -22,4 +23,8 @@\n this paragraph needs to\n be changed.  Things can\n be added after it.\n+\n+This paragraph contains\n+important new additions\n+to this document.\n";

#[test]
fn test_diff_u_from_wikipedia() {
    assert_eq!(
        DIFF,
        diff_records(ORIGINAL, NEW)
            .into_iter()
            .map(|d| d.text())
            .collect::<Vec<String>>()
            .join("\n")
    )
}
