//! Laws of the library, each proved from the spec-level definitions that the
//! executable functions are verified against.

use vstd::prelude::*;

use crate::apply::{lemma_first_bad_at, lemma_first_bad_props, spec_apply, spec_apply_from};
use crate::lines::spec_lines;
use crate::model::{delete_count, insert_count, old_contents, wf_hunk, ApplyError, DiffV, HunkV,
    ParsePatchError};
use crate::parse_normal::{first_nonblank, is_blank, spec_is_normal_diff, spec_parse_command,
    spec_parse_normal};

verus! {

/// Total number of Insert lines in hunks `k..`.
pub open spec fn total_insert_count(hunks: Seq<HunkV>, k: int) -> int
    decreases hunks.len() - k,
{
    if k < 0 || k >= hunks.len() {
        0
    } else {
        insert_count(hunks[k].lines) + total_insert_count(hunks, k + 1)
    }
}

/// Total number of Delete lines in hunks `k..`.
pub open spec fn total_delete_count(hunks: Seq<HunkV>, k: int) -> int
    decreases hunks.len() - k,
{
    if k < 0 || k >= hunks.len() {
        0
    } else {
        delete_count(hunks[k].lines) + total_delete_count(hunks, k + 1)
    }
}

proof fn lemma_apply_stats_from(src: Seq<(Seq<u8>, bool)>, hunks: Seq<HunkV>, k: int, cursor: int)
    requires
        0 <= k,
    ensures
        spec_apply_from(src, hunks, k, cursor) matches Ok(p) ==> p.1 == total_insert_count(
            hunks,
            k,
        ) && p.2 == total_delete_count(hunks, k),
    decreases hunks.len() - k,
{
    if k < hunks.len() {
        let h = hunks[k];
        lemma_apply_stats_from(src, hunks, k + 1, h.old_range.start - 1 + h.old_range.len);
    }
}

/// Round-trip accounting: whenever application succeeds, the reported
/// statistics are exactly the Insert and Delete line counts of the diff, so
/// the tally derives from the applied diff itself.
pub proof fn lemma_apply_stats(src: Seq<(Seq<u8>, bool)>, hunks: Seq<HunkV>)
    ensures
        spec_apply(src, hunks) matches Ok(p) ==> p.1 == total_insert_count(hunks, 0) && p.2
            == total_delete_count(hunks, 0),
{
    lemma_apply_stats_from(src, hunks, 0, 0);
}

proof fn lemma_first_nonblank_props(ls: Seq<(Seq<u8>, bool)>, i: int)
    requires
        0 <= i <= ls.len(),
    ensures
        i <= first_nonblank(ls, i) <= ls.len(),
        forall|j: int| i <= j < first_nonblank(ls, i) ==> is_blank((#[trigger] ls[j]).0),
        first_nonblank(ls, i) < ls.len() ==> !is_blank(ls[first_nonblank(ls, i)].0),
    decreases ls.len() - i,
{
    if i < ls.len() && is_blank(ls[i].0) {
        lemma_first_nonblank_props(ls, i + 1);
    }
}

/// Detection soundness: the detector answers true exactly when the input has
/// a first non-blank line and that line parses as a normal-dialect command;
/// every line before it is blank. Inputs whose leading line is an anchor of
/// another dialect are refused because such lines parse as no command.
pub proof fn lemma_detection_sound(t: Seq<u8>)
    ensures
        spec_is_normal_diff(t) <==> ({
            let ls = spec_lines(t);
            let i = first_nonblank(ls, 0);
            &&& 0 <= i < ls.len()
            &&& !is_blank(ls[i].0)
            &&& (forall|j: int| 0 <= j < i ==> is_blank((#[trigger] ls[j]).0))
            &&& spec_parse_command(ls[i].0) is Some
        }),
{
    lemma_first_nonblank_props(spec_lines(t), 0);
}

/// Detection has no side effects: detection and parsing are functions of the
/// input alone, so any two detector results on the same input agree, and any
/// two parse outcomes on the same input agree, however often and in whatever
/// order the calls were made.
pub proof fn lemma_detection_no_side_effects(
    t: Seq<u8>,
    first_detect: bool,
    second_detect: bool,
    first_parse: Result<DiffV, ParsePatchError>,
    second_parse: Result<DiffV, ParsePatchError>,
)
    requires
        first_detect == spec_is_normal_diff(t),
        second_detect == spec_is_normal_diff(t),
        first_parse == spec_parse_normal(t),
        second_parse == spec_parse_normal(t),
    ensures
        first_detect == second_detect,
        first_parse == second_parse,
{
}

/// An empty diff applied to any text is the sole non-error edge case: it
/// yields the source lines unchanged and zero counts.
pub proof fn lemma_apply_empty(src: Seq<(Seq<u8>, bool)>)
    ensures
        spec_apply(src, Seq::<HunkV>::empty()) == Ok::<_, ApplyError>((src, 0int, 0int)),
{
    assert(src.skip(0) =~= src);
}

proof fn lemma_apply_validates_at(
    src: Seq<(Seq<u8>, bool)>,
    hunks: Seq<HunkV>,
    k0: int,
    cursor: int,
    k: int,
    q: int,
)
    requires
        0 <= k0 <= k < hunks.len(),
        0 <= q < old_contents(hunks[k].lines).len(),
        spec_apply_from(src, hunks, k0, cursor) is Ok,
    ensures
        hunks[k].old_range.start - 1 + q < src.len(),
        src[hunks[k].old_range.start - 1 + q].0 == old_contents(hunks[k].lines)[q],
    decreases k - k0,
{
    let h = hunks[k0];
    let target = h.old_range.start - 1;
    if k == k0 {
        lemma_first_bad_props(src, old_contents(h.lines), target, 0);
        lemma_first_bad_at(src, old_contents(h.lines), target, q);
    } else {
        lemma_apply_validates_at(src, hunks, k0 + 1, target + h.old_range.len, k, q);
    }
}

/// Mismatch safety: application succeeds only when, at every hunk, the source
/// lines hold exactly the contents the hunk's old side names, in order. A
/// diff whose corresponding source line differs is rejected with an error,
/// never silently applied to wrong output.
pub proof fn lemma_apply_validates(src: Seq<(Seq<u8>, bool)>, hunks: Seq<HunkV>, k: int, q: int)
    requires
        0 <= k < hunks.len(),
        0 <= q < old_contents(hunks[k].lines).len(),
        spec_apply(src, hunks) is Ok,
    ensures
        hunks[k].old_range.start - 1 + q < src.len(),
        src[hunks[k].old_range.start - 1 + q].0 == old_contents(hunks[k].lines)[q],
{
    lemma_apply_validates_at(src, hunks, 0, 0, k, q);
}

proof fn lemma_apply_ordered_at(
    src: Seq<(Seq<u8>, bool)>,
    hunks: Seq<HunkV>,
    k0: int,
    cursor: int,
    k: int,
)
    requires
        0 <= k0 <= k,
        k + 1 < hunks.len(),
        spec_apply_from(src, hunks, k0, cursor) is Ok,
    ensures
        hunks[k + 1].old_range.start - 1 >= hunks[k].old_range.start - 1
            + hunks[k].old_range.len,
    decreases k - k0,
{
    let h = hunks[k0];
    let target = h.old_range.start - 1;
    if k == k0 {
        assert(spec_apply_from(src, hunks, k0 + 1, target + h.old_range.len) is Ok);
    } else {
        lemma_apply_ordered_at(src, hunks, k0 + 1, target + h.old_range.len, k);
    }
}

/// Overlap rejection: a diff holding two adjacent hunks whose old ranges
/// overlap (or stand out of order) is rejected as a whole — application
/// returns an error before any output is produced.
pub proof fn lemma_apply_rejects_overlap(src: Seq<(Seq<u8>, bool)>, hunks: Seq<HunkV>, k: int)
    requires
        0 <= k < hunks.len() - 1,
        hunks[k + 1].old_range.start - 1 < hunks[k].old_range.start - 1 + hunks[k].old_range.len,
    ensures
        spec_apply(src, hunks) is Err,
{
    if spec_apply(src, hunks) is Ok {
        lemma_apply_ordered_at(src, hunks, 0, 0, k);
    }
}

proof fn lemma_wf_apply_from_no_malformed(
    src: Seq<(Seq<u8>, bool)>,
    hunks: Seq<HunkV>,
    k: int,
    cursor: int,
)
    requires
        0 <= k,
        forall|j: int| 0 <= j < hunks.len() ==> wf_hunk(#[trigger] hunks[j]),
    ensures
        spec_apply_from(src, hunks, k, cursor) matches Err(e) ==> !(e is MalformedHunk),
    decreases hunks.len() - k,
{
    if k < hunks.len() {
        let h = hunks[k];
        lemma_wf_apply_from_no_malformed(src, hunks, k + 1, h.old_range.start - 1
            + h.old_range.len);
    }
}

/// Parser and engine agree on structure: a diff whose hunks satisfy the hunk
/// invariant — as every parsed diff does — is never rejected as malformed by
/// application; it can only fail for reasons of the source text.
pub proof fn lemma_wf_apply_no_malformed(src: Seq<(Seq<u8>, bool)>, hunks: Seq<HunkV>)
    requires
        forall|j: int| 0 <= j < hunks.len() ==> wf_hunk(#[trigger] hunks[j]),
    ensures
        spec_apply(src, hunks) matches Err(e) ==> !(e is MalformedHunk),
{
    lemma_wf_apply_from_no_malformed(src, hunks, 0, 0);
}

} // verus!
