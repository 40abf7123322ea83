//! Tests of the application engine.

use textpatch::{
    apply, apply_bytes, parse_normal, ApplyError, Diff, Hunk, HunkRange, Line, ParsePatchError,
};

#[test]
fn test_empty_diff_leaves_text_unchanged() {
    let diff = Diff::new(None, None, Vec::new());
    let old = "alpha\nbeta\n";
    let (result, stats) = apply(old, &diff).unwrap();
    assert_eq!(result, old);
    assert_eq!(stats.lines_added, 0);
    assert_eq!(stats.lines_deleted, 0);
    assert!(!stats.has_changes());
}

#[test]
fn test_stats_report_changes() {
    let diff = parse_normal("2c2\n< line 2\n---\n> edited\n").unwrap();
    let (_, stats) = apply("line 1\nline 2\n", &diff).unwrap();
    assert_eq!(stats.lines_added, 1);
    assert_eq!(stats.lines_deleted, 1);
    assert!(stats.has_changes());
}

#[test]
fn test_content_mismatch_is_rejected() {
    // A diff derived from one text must not silently apply to an unrelated
    // text whose corresponding line differs.
    let diff = parse_normal("2c2\n< old\n---\n> new\n").unwrap();
    let unrelated = "line 1\nsomething else\nline 3\n";
    assert_eq!(
        apply(unrelated, &diff).err(),
        Some(ApplyError::ContentMismatch { hunk: 0, line: 2 })
    );
}

#[test]
fn test_overlapping_hunks_are_rejected() {
    // Both hunks touch old line 2; the contents match, so only the overlap
    // check can reject the diff — before any output is produced.
    let patch = "1,2c1,2\n< a\n< b\n---\n> x\n> y\n2c3\n< b\n---\n> z\n";
    let diff = parse_normal(patch).unwrap();
    assert_eq!(diff.hunks().len(), 2);
    assert_eq!(
        apply("a\nb\nc\n", &diff).err(),
        Some(ApplyError::Overlap { hunk: 1 })
    );
}

#[test]
fn test_out_of_order_hunks_are_rejected() {
    let patch = "3d2\n< c\n1d0\n< a\n";
    let diff = parse_normal(patch).unwrap();
    assert_eq!(
        apply("a\nb\nc\n", &diff).err(),
        Some(ApplyError::Overlap { hunk: 1 })
    );
}

#[test]
fn test_hunk_beyond_source_is_rejected() {
    let diff = parse_normal("5c5\n< x\n---\n> y\n").unwrap();
    assert_eq!(
        apply("a\n", &diff).err(),
        Some(ApplyError::OutOfBounds { hunk: 0 })
    );
}

#[test]
fn test_malformed_hunk_is_rejected() {
    // The hunk announces two old lines but carries only one.
    let lines = vec![Line::Delete(b"a".to_vec(), true)];
    let hunk = Hunk::new(HunkRange::new(1, 2), HunkRange::new(1, 0), None, lines);
    let diff = Diff::new(None, None, vec![hunk]);
    assert_eq!(
        apply("a\nb\n", &diff).err(),
        Some(ApplyError::MalformedHunk { hunk: 0 })
    );
}

#[test]
fn test_parser_rejects_what_it_cannot_replay() {
    // The parser refuses a body that disagrees with its command's ranges, so
    // no parsed diff is ever rejected as malformed by the engine.
    assert_eq!(
        parse_normal("1,2d0\n< a\n").err(),
        Some(ParsePatchError::UnexpectedEof)
    );
}

#[test]
fn test_add_at_start_of_text() {
    let diff = parse_normal("0a1\n> first\n").unwrap();
    let (result, stats) = apply("x\n", &diff).unwrap();
    assert_eq!(result, "first\nx\n");
    assert_eq!(stats.lines_added, 1);
    assert_eq!(stats.lines_deleted, 0);
}

#[test]
fn test_unterminated_final_line() {
    let old = "a\nb";
    let patch = "2c2\n< b\n---\n> B";
    let diff = parse_normal(patch).unwrap();
    let (result, _) = apply(old, &diff).unwrap();
    assert_eq!(result, "a\nB");
}

#[test]
fn test_apply_bytes_matches_apply() {
    let old = "line 1\nline 2\nline 3\n";
    let patch = "2c2\n< line 2\n---\n> edited\n";
    let diff = parse_normal(patch).unwrap();
    let (text, text_stats) = apply(old, &diff).unwrap();
    let (bytes, byte_stats) = apply_bytes(old.as_bytes(), &diff).unwrap();
    assert_eq!(bytes, text.as_bytes());
    assert_eq!(text_stats, byte_stats);
}

#[test]
fn test_apply_bytes_roundtrip() {
    let diff = parse_normal_bytes_example();
    let (result, stats) = apply_bytes(b"a\nb\nc\n", &diff).unwrap();
    assert_eq!(result, b"a\nB\nc\n".to_vec());
    assert_eq!(stats.lines_added, 1);
    assert_eq!(stats.lines_deleted, 1);
}

fn parse_normal_bytes_example() -> Diff {
    textpatch::parse_normal_bytes(b"2c2\n< b\n---\n> B\n").unwrap()
}

#[test]
fn test_non_ascii_content_roundtrip() {
    let old = "héllo\nwörld\n";
    let new = "héllo\nwelt\n";
    let patch = "2c2\n< wörld\n---\n> welt\n";
    let diff = parse_normal(patch).unwrap();
    let (result, _) = apply(old, &diff).unwrap();
    assert_eq!(result, new);
}
