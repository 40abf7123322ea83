//! Tests of the normal-dialect detector and parser.

use textpatch::{
    apply, is_normal_diff, parse_normal, parse_normal_bytes, parse_normal_bytes_multiple,
    parse_normal_multiple, ParsePatchError,
};

#[test]
fn test_is_normal_diff() {
    assert!(is_normal_diff("2c2\n< old\n---\n> new\n"));
    assert!(is_normal_diff("1,3d0\n< a\n< b\n< c\n"));
    assert!(is_normal_diff("0a1,2\n> x\n> y\n"));
    assert!(!is_normal_diff("--- a/file\n+++ b/file\n"));
    assert!(!is_normal_diff("@@ -1,3 +1,3 @@\n"));
    assert!(!is_normal_diff("diff --git a/f b/f\n"));
}

#[test]
fn test_detection_skips_blank_lines() {
    assert!(is_normal_diff("\n  \n2c2\n< old\n---\n> new\n"));
    assert!(!is_normal_diff("\n  \n"));
    assert!(!is_normal_diff(""));
}

#[test]
fn test_detection_has_no_side_effects() {
    let input = "2c2\n< old\n---\n> new\n";
    let first_detect = is_normal_diff(input);
    let second_detect = is_normal_diff(input);
    assert_eq!(first_detect, second_detect);
    let first_parse = parse_normal(input).unwrap();
    let _ = is_normal_diff(input);
    let second_parse = parse_normal(input).unwrap();
    assert_eq!(first_parse.hunks().len(), second_parse.hunks().len());
    assert_eq!(
        first_parse.hunks()[0].old_range(),
        second_parse.hunks()[0].old_range()
    );
    assert_eq!(
        first_parse.hunks()[0].new_range(),
        second_parse.hunks()[0].new_range()
    );
}

#[test]
fn test_parse_inline_change() {
    let patch = "2c2\n< old line\n---\n> new line\n";
    let diff = parse_normal(patch).unwrap();
    assert_eq!(diff.hunks().len(), 1);

    let hunk = &diff.hunks()[0];
    assert_eq!(hunk.old_range().start(), 2);
    assert_eq!(hunk.old_range().len(), 1);
    assert_eq!(hunk.new_range().start(), 2);
    assert_eq!(hunk.new_range().len(), 1);
    assert_eq!(hunk.lines().len(), 2);
}

#[test]
fn test_parse_inline_delete() {
    let patch = "2,3d1\n< line two\n< line three\n";
    let diff = parse_normal(patch).unwrap();
    assert_eq!(diff.hunks().len(), 1);

    let hunk = &diff.hunks()[0];
    assert_eq!(hunk.old_range().start(), 2);
    assert_eq!(hunk.old_range().len(), 2);
    assert_eq!(hunk.new_range().start(), 1);
    assert_eq!(hunk.new_range().len(), 0);
    assert_eq!(hunk.lines().len(), 2);
}

#[test]
fn test_parse_inline_add() {
    let patch = "0a1,2\n> added one\n> added two\n";
    let diff = parse_normal(patch).unwrap();
    assert_eq!(diff.hunks().len(), 1);

    let hunk = &diff.hunks()[0];
    assert_eq!(hunk.old_range().start(), 1);
    assert_eq!(hunk.old_range().len(), 0);
    assert_eq!(hunk.new_range().start(), 1);
    assert_eq!(hunk.new_range().len(), 2);
    assert_eq!(hunk.lines().len(), 2);
}

#[test]
fn test_parse_bytes() {
    let patch = b"2c2\n< old\n---\n> new\n";
    let diff = parse_normal_bytes(patch).unwrap();
    assert_eq!(diff.hunks().len(), 1);
}

#[test]
fn test_parse_delete_keeps_new_start_verbatim() {
    // The delete command's new range keeps the parsed new_start untouched,
    // unlike the add command's old side, which is shifted by one.
    let patch = "1,3d0\n< a\n< b\n< c\n";
    let diff = parse_normal(patch).unwrap();
    assert_eq!(diff.hunks().len(), 1);

    let hunk = &diff.hunks()[0];
    assert_eq!(hunk.old_range().start(), 1);
    assert_eq!(hunk.old_range().len(), 3);
    assert_eq!(hunk.new_range().start(), 0);
    assert_eq!(hunk.new_range().len(), 0);
    assert_eq!(hunk.lines().len(), 3);
}

#[test]
fn test_parse_missing_separator() {
    let patch = "2c2\n< old\n> new\n";
    assert_eq!(parse_normal(patch).err(), Some(ParsePatchError::HunkHeader));
}

#[test]
fn test_parse_empty_input() {
    assert_eq!(parse_normal("").err(), Some(ParsePatchError::NoHunks));
    assert_eq!(parse_normal("\n   \n").err(), Some(ParsePatchError::NoHunks));
}

#[test]
fn test_parse_truncated_change() {
    // The change command's separator is missing because the input ended.
    let patch = "2c2\n< old\n";
    assert_eq!(
        parse_normal(patch).err(),
        Some(ParsePatchError::UnexpectedEof)
    );
}

#[test]
fn test_parse_short_body_at_end_of_input() {
    let patch = "0a1,2\n> only one\n";
    assert_eq!(
        parse_normal(patch).err(),
        Some(ParsePatchError::UnexpectedEof)
    );
}

#[test]
fn test_parse_body_longer_than_announced() {
    let patch = "0a1\n> x\n> y\n";
    assert_eq!(parse_normal(patch).err(), Some(ParsePatchError::HunkHeader));
}

#[test]
fn test_parse_backward_range() {
    let patch = "3,1d0\n< a\n";
    assert_eq!(parse_normal(patch).err(), Some(ParsePatchError::HunkHeader));
}

#[test]
fn test_parse_garbage_command_line() {
    let patch = "not a diff\n";
    assert_eq!(parse_normal(patch).err(), Some(ParsePatchError::HunkHeader));
}

#[test]
fn test_parse_two_hunks() {
    let patch = "1c1\n< a\n---\n> A\n3d2\n< c\n";
    let diff = parse_normal(patch).unwrap();
    assert_eq!(diff.hunks().len(), 2);
    assert_eq!(diff.hunks()[1].old_range().start(), 3);
    assert_eq!(diff.hunks()[1].old_range().len(), 1);
}

#[test]
fn test_parse_multiple_yields_one_diff() {
    let patch = "2c2\n< old\n---\n> new\n";
    let diffs = parse_normal_multiple(patch).unwrap();
    assert_eq!(diffs.len(), 1);
    assert_eq!(diffs[0].hunks().len(), 1);

    let byte_diffs = parse_normal_bytes_multiple(patch.as_bytes()).unwrap();
    assert_eq!(byte_diffs.len(), 1);
    assert_eq!(byte_diffs[0].hunks().len(), 1);

    assert_eq!(
        parse_normal_multiple("").err(),
        Some(ParsePatchError::NoHunks)
    );
}

#[test]
fn test_roundtrip_change() {
    let old = "line 1\nline 2\nline 3\n";
    let new = "line 1\nmodified line 2\nline 3\n";
    let patch = "2c2\n< line 2\n---\n> modified line 2\n";

    let diff = parse_normal(patch).unwrap();
    let (result, _) = apply(old, &diff).unwrap();
    assert_eq!(result, new);
}

#[test]
fn test_roundtrip_delete() {
    let old = "line 1\nline 2\nline 3\n";
    let new = "line 1\nline 3\n";
    let patch = "2d1\n< line 2\n";

    let diff = parse_normal(patch).unwrap();
    let (result, _) = apply(old, &diff).unwrap();
    assert_eq!(result, new);
}

#[test]
fn test_roundtrip_add() {
    let old = "line 1\nline 3\n";
    let new = "line 1\nline 2\nline 3\n";
    let patch = "1a2\n> line 2\n";

    let diff = parse_normal(patch).unwrap();
    let (result, _) = apply(old, &diff).unwrap();
    assert_eq!(result, new);
}

#[test]
fn test_multiline_change() {
    let old = "a\nb\nc\nd\n";
    let new = "a\nB\nC\nd\n";
    let patch = "2,3c2,3\n< b\n< c\n---\n> B\n> C\n";

    let diff = parse_normal(patch).unwrap();
    let (result, stats) = apply(old, &diff).unwrap();
    assert_eq!(result, new);
    assert_eq!(stats.lines_added, 2);
    assert_eq!(stats.lines_deleted, 2);
}

#[test]
fn test_parse_range_too_large() {
    let patch = "99999999999999999999999999c1\n< a\n---\n> b\n";
    assert_eq!(parse_normal(patch).err(), Some(ParsePatchError::HunkHeader));
}

#[test]
fn test_parse_range_with_comma() {
    let diff = parse_normal("1,2d0\n< a\n< b\n").unwrap();
    let hunk = &diff.hunks()[0];
    assert_eq!(hunk.old_range().start(), 1);
    assert_eq!(hunk.old_range().len(), 2);
}
