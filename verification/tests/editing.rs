use pi_tools::normalize::{normalize_for_match, normalize_line_for_match};

use pi_tools::edit::{
    apply_edit, compute_diff, detect_line_ending, find_exact_match, find_fuzzy_match, strip_bom,
    EditError,
};

#[test]
fn edit_unique_anchor_replaces_and_keeps_the_rest() {
    let out = apply_edit("line1\nline2\nline3", "line2", "replaced", "f.txt").unwrap();
    assert_eq!(out.output, "line1\nreplaced\nline3");
    assert_eq!(out.first_line, 2);
}

#[test]
fn edit_missing_anchor_is_not_found() {
    let err = apply_edit("line1\nline2", "absent", "x", "f.txt").unwrap_err();
    assert_eq!(err, EditError::NotFound);
    assert!(err.message().contains("not found"));
}

#[test]
fn edit_repeated_anchor_is_ambiguous() {
    let err = apply_edit("dup\nother\ndup", "dup", "x", "f.txt").unwrap_err();
    assert_eq!(err, EditError::AmbiguousExact { count: 2 });
    assert_eq!(
        err.message(),
        "Found 2 occurrences of the text. Please provide more context to make the match unique."
    );
}

#[test]
fn edit_identical_texts_are_rejected() {
    let err = apply_edit("abc", "b", "b", "f.txt").unwrap_err();
    assert_eq!(err, EditError::NoChange);
    assert_eq!(err.message(), "oldText and newText are identical. No changes to apply.");
}

#[test]
fn edit_preserves_bom_and_crlf() {
    let out = apply_edit("\u{FEFF}aa\r\nbb\r\ncc", "bb", "xx", "f.txt").unwrap();
    assert_eq!(out.output, "\u{FEFF}aa\r\nxx\r\ncc");
}

#[test]
fn edit_falls_back_to_normalized_lines() {
    // the file has a curly apostrophe where the anchor has a straight one
    let out = apply_edit("let s = \u{2019}x\u{2019};\nnext", "let s = 'x';", "let s = 'y';", "f")
        .unwrap();
    assert_eq!(out.output, "let s = 'y';\nnext");
    assert_eq!(out.first_line, 1);
}

#[test]
fn exact_match_reports_span_and_line() {
    let m = find_exact_match("ab\ncd\nef", "cd").unwrap();
    assert_eq!(m.start, 3);
    assert_eq!(m.end, 5);
    assert_eq!(m.first_line, 2);
}

#[test]
fn fuzzy_match_spans_whole_lines() {
    let m = find_fuzzy_match("aa\nb\u{00A0}b\ncc", "b b").unwrap();
    assert_eq!(m.start, 3);
    assert_eq!(m.end, 7);
    assert_eq!(m.first_line, 2);
}

#[test]
fn fuzzy_match_rejects_two_candidates() {
    let err = find_fuzzy_match("x\u{2019}\nmid\nx'", "x'").unwrap_err();
    assert_eq!(err, EditError::AmbiguousFuzzy);
}

#[test]
fn bom_stripping_round_trip() {
    let (no_bom, had) = strip_bom("\u{FEFF}hello");
    assert!(had);
    assert_eq!(no_bom, "hello");
    let (same, had2) = strip_bom("hello");
    assert!(!had2);
    assert_eq!(same, "hello");
}

#[test]
fn line_ending_detection_prefers_crlf() {
    assert_eq!(detect_line_ending("a\r\nb"), "\r\n");
    assert_eq!(detect_line_ending("a\nb"), "\n");
    assert_eq!(detect_line_ending(""), "\n");
}

#[test]
fn matching_normalization_collapses_variants() {
    assert_eq!(
        normalize_for_match("a\u{00A0}b \u{201C}q\u{201D} \u{2014} c\u{2019}d"),
        "a b \"q\" - c'd"
    );
    assert_eq!(normalize_line_for_match("x\u{2013}y  \t"), "x-y");
}

#[test]
fn diff_scans_forward_to_resynchronize() {
    // best-effort resynchronization: the old side scans for the new line
    // and, missing it, both tails are emitted as one hunk
    let d = compute_diff("a\nb\nc", "a\nx\nc", "f");
    assert_eq!(d, "--- a/f\n+++ b/f\n@@ -2,2 +2,2 @@\n-b\n-c\n+x\n+c\n");
}

#[test]
fn diff_resynchronizes_on_a_deleted_line() {
    let d = compute_diff("a\nb\nc", "a\nc", "f");
    assert_eq!(d, "--- a/f\n+++ b/f\n@@ -2,1 +2,0 @@\n-b\n");
}

#[test]
fn diff_renders_additions_at_end() {
    let d = compute_diff("a", "a\nb", "p");
    assert_eq!(d, "--- a/p\n+++ b/p\n@@ -2,0 +2,1 @@\n+b\n");
}
