//! The application engine: replays a diff against original text.
//!
//! Hunks are visited in ascending old-range order with a line cursor over the
//! source. Unchanged lines are copied verbatim, each hunk's old side is
//! validated content-for-content against the source before it is consumed,
//! and its new side is appended in order. A diff whose hunks are out of
//! order, out of bounds, malformed or mismatched is rejected as a whole: no
//! partial output is ever returned.

use vstd::prelude::*;

use crate::lines::{join_lines, join_to_bytes, spec_lines, split_lines, views_of, RawLine};
use crate::model::{content_of, delete_count, hunk_views, insert_count, is_old_side, line_views,
    new_toks, old_contents, terminated_of, ApplyError, Diff, Hunk, HunkV, Line, LineV, Stats};
use vstd::slice::slice_to_vec;
use vstd::string::StringSliceAdditionalSpecFns;

verus! {

/// Index of the first of the expected old-side contents that disagrees with
/// the source lines starting at `target`, or `expected.len()` if all agree.
pub open spec fn first_bad(
    src: Seq<(Seq<u8>, bool)>,
    expected: Seq<Seq<u8>>,
    target: int,
    q: int,
) -> int
    decreases expected.len() - q,
{
    if q < 0 || q >= expected.len() {
        q
    } else if src[target + q].0 != expected[q] {
        q
    } else {
        first_bad(src, expected, target, q + 1)
    }
}

proof fn lemma_first_bad_skip(src: Seq<(Seq<u8>, bool)>, expected: Seq<Seq<u8>>, target: int, q: int)
    requires
        0 <= q <= expected.len(),
        forall|x: int| 0 <= x < q ==> src[target + x].0 == expected[x],
    ensures
        first_bad(src, expected, target, 0) == first_bad(src, expected, target, q),
    decreases q,
{
    if q > 0 {
        lemma_first_bad_skip(src, expected, target, q - 1);
    }
}

/// Everything before the first disagreeing index agrees.
pub proof fn lemma_first_bad_props(
    src: Seq<(Seq<u8>, bool)>,
    expected: Seq<Seq<u8>>,
    target: int,
    q: int,
)
    requires
        0 <= q <= expected.len(),
    ensures
        q <= first_bad(src, expected, target, q) <= expected.len(),
        forall|x: int|
            q <= x < first_bad(src, expected, target, q) ==> src[target + x].0 == expected[x],
    decreases expected.len() - q,
{
    if q < expected.len() && src[target + q].0 == expected[q] {
        lemma_first_bad_props(src, expected, target, q + 1);
    }
}

/// When no expected content disagrees, each one agrees with its source line.
pub proof fn lemma_first_bad_at(
    src: Seq<(Seq<u8>, bool)>,
    expected: Seq<Seq<u8>>,
    target: int,
    x: int,
)
    requires
        0 <= x < expected.len(),
        first_bad(src, expected, target, 0) == expected.len(),
    ensures
        src[target + x].0 == expected[x],
{
    lemma_first_bad_props(src, expected, target, 0);
}

/// What applying hunks `k..` to the source lines yields, with the cursor at
/// source line `cursor` (0-based): the remaining output lines and the counts
/// of inserted and deleted lines, or the error.
///
/// A hunk is rejected when its old range starts before the cursor (overlap or
/// wrong order), reaches beyond the source, disagrees with the counts its
/// ranges announce, or names old-side content the source does not hold.
pub open spec fn spec_apply_from(
    src: Seq<(Seq<u8>, bool)>,
    hunks: Seq<HunkV>,
    k: int,
    cursor: int,
) -> Result<(Seq<(Seq<u8>, bool)>, int, int), ApplyError>
    decreases hunks.len() - k,
{
    if k < 0 || k >= hunks.len() {
        Ok((src.skip(cursor), 0, 0))
    } else {
        let h = hunks[k];
        let target = h.old_range.start - 1;
        let expected = old_contents(h.lines);
        if target < cursor {
            Err(ApplyError::Overlap { hunk: k as usize })
        } else if target + h.old_range.len > src.len() {
            Err(ApplyError::OutOfBounds { hunk: k as usize })
        } else if expected.len() != h.old_range.len || new_toks(h.lines).len()
            != h.new_range.len {
            Err(ApplyError::MalformedHunk { hunk: k as usize })
        } else if first_bad(src, expected, target, 0) < expected.len() {
            Err(
                ApplyError::ContentMismatch {
                    hunk: k as usize,
                    line: (target + first_bad(src, expected, target, 0) + 1) as usize,
                },
            )
        } else {
            match spec_apply_from(src, hunks, k + 1, target + h.old_range.len) {
                Ok(p) => Ok(
                    (
                        src.subrange(cursor, target) + new_toks(h.lines) + p.0,
                        p.1 + insert_count(h.lines),
                        p.2 + delete_count(h.lines),
                    ),
                ),
                Err(e) => Err(e),
            }
        }
    }
}

/// What applying a diff's hunks to the source lines yields: the output lines
/// and the tallied line counts, or the error. An empty hunk sequence yields
/// the source lines unchanged and zero counts.
pub open spec fn spec_apply(src: Seq<(Seq<u8>, bool)>, hunks: Seq<HunkV>) -> Result<
    (Seq<(Seq<u8>, bool)>, int, int),
    ApplyError,
> {
    spec_apply_from(src, hunks, 0, 0)
}

/// The old-side contents of a prefix of a hunk's lines are a prefix of the
/// old-side contents of all of them.
pub proof fn lemma_old_contents_prefix(ls: Seq<LineV>, q: int)
    requires
        0 <= q <= ls.len(),
    ensures
        old_contents(ls.take(q)).len() <= old_contents(ls).len(),
        old_contents(ls.take(q)) == old_contents(ls).take(
            old_contents(ls.take(q)).len() as int,
        ),
    decreases ls.len() - q,
{
    if q == ls.len() {
        assert(ls.take(q) =~= ls);
        assert(old_contents(ls).take(old_contents(ls).len() as int) =~= old_contents(ls));
    } else {
        lemma_old_contents_prefix(ls, q + 1);
        assert(ls.take(q + 1).drop_last() =~= ls.take(q));
        let l1 = old_contents(ls.take(q + 1)).len() as int;
        if is_old_side(ls.take(q + 1).last()) {
            assert(old_contents(ls.take(q)) =~= old_contents(ls.take(q + 1)).drop_last());
            assert(old_contents(ls).take(l1).drop_last() =~= old_contents(ls).take(l1 - 1));
        }
    }
}

/// Compares two byte slices for content equality.
#[verifier::loop_isolation(false)]
pub fn bytes_eq(a: &[u8], b: &[u8]) -> (r: bool)
    ensures
        r == (a@ == b@),
{
    if a.len() != b.len() {
        return false;
    }
    let mut i: usize = 0;
    while i < a.len()
        invariant
            i <= a@.len(),
            a@.len() == b@.len(),
            forall|q: int| 0 <= q < i ==> a@[q] == b@[q],
        decreases a@.len() - i,
    {
        if a[i] != b[i] {
            return false;
        }
        i += 1;
    }
    proof {
        assert(a@ =~= b@);
    }
    true
}

/// The line a new-side hunk line contributes to the output.
fn line_to_raw(l: &Line) -> (r: RawLine)
    ensures
        r@ == (content_of(l@), terminated_of(l@)),
{
    match l {
        Line::Context(c, t) => RawLine { content: slice_to_vec(c.as_slice()), terminated: *t },
        Line::Insert(c, t) => RawLine { content: slice_to_vec(c.as_slice()), terminated: *t },
        Line::Delete(c, t) => RawLine { content: slice_to_vec(c.as_slice()), terminated: *t },
    }
}

/// Copies source lines `from..to` verbatim onto the output.
#[verifier::loop_isolation(false)]
fn copy_lines(out: &mut Vec<RawLine>, src: &Vec<RawLine>, from: usize, to: usize)
    requires
        from <= to <= src@.len(),
    ensures
        views_of(final(out)@) == views_of(old(out)@) + views_of(src@).subrange(
            from as int,
            to as int,
        ),
        final(out)@.len() == old(out)@.len() + (to - from),
{
    let mut x: usize = from;
    proof {
        assert(views_of(out@) =~= views_of(old(out)@) + views_of(src@).subrange(
            from as int,
            from as int,
        ));
    }
    while x < to
        invariant
            from <= x <= to,
            out@.len() == old(out)@.len() + (x - from),
            views_of(out@) == views_of(old(out)@) + views_of(src@).subrange(
                from as int,
                x as int,
            ),
        decreases to - x,
    {
        let line = src[x].duplicate();
        proof {
            assert(line@ == views_of(src@)[x as int]);
            crate::lines::lemma_views_push(out@, line);
            assert(views_of(out@).push(line@) =~= views_of(old(out)@) + views_of(src@).subrange(
                from as int,
                x + 1,
            ));
        }
        out.push(line);
        x += 1;
    }
}

/// Counts a hunk body's lines by side: old-side total, new-side total,
/// inserts, deletes.
#[verifier::loop_isolation(false)]
fn count_sides(lines: &Vec<Line>) -> (r: (usize, usize, usize, usize))
    ensures
        r.0 == old_contents(line_views(lines@)).len(),
        r.1 == new_toks(line_views(lines@)).len(),
        r.2 == insert_count(line_views(lines@)),
        r.3 == delete_count(line_views(lines@)),
        r.2 <= r.1,
        r.3 <= r.0,
{
    let ghost lv = line_views(lines@);
    let ln = lines.len();
    let mut c_old: usize = 0;
    let mut c_new: usize = 0;
    let mut c_ins: usize = 0;
    let mut c_del: usize = 0;
    let mut q: usize = 0;
    proof {
        assert(lv.take(0) =~= Seq::<LineV>::empty());
    }
    while q < ln
        invariant
            q <= ln,
            c_old == old_contents(lv.take(q as int)).len(),
            c_new == new_toks(lv.take(q as int)).len(),
            c_ins == insert_count(lv.take(q as int)),
            c_del == delete_count(lv.take(q as int)),
            c_old <= q,
            c_new <= q,
            c_ins <= c_new,
            c_del <= c_old,
        decreases ln - q,
    {
        proof {
            assert(lv.take(q + 1).drop_last() =~= lv.take(q as int));
            assert(lv.take(q + 1).last() == lines@[q as int]@);
        }
        match &lines[q] {
            Line::Context(_, _) => {
                c_old += 1;
                c_new += 1;
            },
            Line::Insert(_, _) => {
                c_new += 1;
                c_ins += 1;
            },
            Line::Delete(_, _) => {
                c_old += 1;
                c_del += 1;
            },
        }
        q += 1;
    }
    proof {
        assert(lv.take(ln as int) =~= lv);
    }
    (c_old, c_new, c_ins, c_del)
}

/// Validates a hunk's old side against the source lines at `target`: the
/// index of the first expected content that disagrees, or `None` when the
/// source holds exactly what the hunk expects.
#[verifier::loop_isolation(false)]
fn find_mismatch(src: &Vec<RawLine>, target: usize, lines: &Vec<Line>) -> (r: Option<usize>)
    requires
        target + old_contents(line_views(lines@)).len() <= src@.len(),
    ensures
        ({
            let expected = old_contents(line_views(lines@));
            let fb = first_bad(views_of(src@), expected, target as int, 0);
            match r {
                Some(c) => fb == c && c < expected.len(),
                None => fb == expected.len(),
            }
        }),
{
    let ghost lv = line_views(lines@);
    let ghost expected = old_contents(lv);
    let ghost srcv = views_of(src@);
    let n = src.len();
    let ln = lines.len();
    let mut c: usize = 0;
    let mut q: usize = 0;
    proof {
        assert(lv.take(0) =~= Seq::<LineV>::empty());
    }
    while q < ln
        invariant
            q <= ln,
            c == old_contents(lv.take(q as int)).len(),
            c <= expected.len(),
            forall|x: int| 0 <= x < c ==> srcv[target + x].0 == expected[x],
        decreases ln - q,
    {
        proof {
            assert(lv.take(q + 1).drop_last() =~= lv.take(q as int));
            assert(lv.take(q + 1).last() == lines@[q as int]@);
            lemma_old_contents_prefix(lv, q + 1);
        }
        match &lines[q] {
            Line::Context(cv, _) => {
                proof {
                    assert(is_old_side(lines@[q as int]@));
                    assert(content_of(lines@[q as int]@) == cv@);
                    assert(old_contents(lv.take(q + 1)) == old_contents(lv.take(
                    q as int)).push(cv@));
                    assert(old_contents(lv.take(q + 1)).len() == c + 1);
                    assert(old_contents(lv.take(q + 1)) == expected.take(c + 1));
                    assert(expected.take(c + 1)[c as int] == cv@);
                    assert(expected[c as int] == cv@);
                    assert(srcv[(target + c) as int].0 == src@[(target + c) as int].content@);
                }
                if !bytes_eq(src[target + c].content.as_slice(), cv.as_slice()) {
                    proof {
                        lemma_first_bad_skip(srcv, expected, target as int, c as int);
                    }
                    return Some(c);
                }
                c += 1;
            },
            Line::Delete(cv, _) => {
                proof {
                    assert(is_old_side(lines@[q as int]@));
                    assert(content_of(lines@[q as int]@) == cv@);
                    assert(old_contents(lv.take(q + 1)) == old_contents(lv.take(
                    q as int)).push(cv@));
                    assert(old_contents(lv.take(q + 1)).len() == c + 1);
                    assert(old_contents(lv.take(q + 1)) == expected.take(c + 1));
                    assert(expected.take(c + 1)[c as int] == cv@);
                    assert(expected[c as int] == cv@);
                    assert(srcv[(target + c) as int].0 == src@[(target + c) as int].content@);
                }
                if !bytes_eq(src[target + c].content.as_slice(), cv.as_slice()) {
                    proof {
                        lemma_first_bad_skip(srcv, expected, target as int, c as int);
                    }
                    return Some(c);
                }
                c += 1;
            },
            Line::Insert(_, _) => {},
        }
        q += 1;
    }
    proof {
        assert(lv.take(ln as int) =~= lv);
        lemma_first_bad_skip(srcv, expected, target as int, c as int);
    }
    None
}

/// Appends a hunk's new-side lines (Insert and Context, in order) to the
/// output.
#[verifier::loop_isolation(false)]
fn append_new_side(out: &mut Vec<RawLine>, lines: &Vec<Line>)
    ensures
        views_of(final(out)@) == views_of(old(out)@) + new_toks(line_views(lines@)),
        final(out)@.len() == old(out)@.len() + new_toks(line_views(lines@)).len(),
{
    let ghost lv = line_views(lines@);
    let ln = lines.len();
    let mut q: usize = 0;
    proof {
        assert(lv.take(0) =~= Seq::<LineV>::empty());
        assert(views_of(out@) =~= views_of(old(out)@) + new_toks(lv.take(0)));
    }
    while q < ln
        invariant
            q <= ln,
            views_of(out@) == views_of(old(out)@) + new_toks(lv.take(q as int)),
            out@.len() == old(out)@.len() + new_toks(lv.take(q as int)).len(),
        decreases ln - q,
    {
        proof {
            assert(lv.take(q + 1).drop_last() =~= lv.take(q as int));
            assert(lv.take(q + 1).last() == lines@[q as int]@);
        }
        let is_new = match &lines[q] {
            Line::Context(_, _) => true,
            Line::Insert(_, _) => true,
            Line::Delete(_, _) => false,
        };
        if is_new {
            let line = line_to_raw(&lines[q]);
            proof {
                assert(views_of(out@.push(line)) =~= views_of(out@).push(line@));
                assert(views_of(old(out)@) + new_toks(lv.take(q + 1)) =~= (views_of(old(out)@)
                    + new_toks(lv.take(q as int))).push(line@));
            }
            out.push(line);
        }
        q += 1;
    }
    proof {
        assert(lv.take(ln as int) =~= lv);
    }
}

/// Applies a diff's hunks to the source lines.
#[verifier::loop_isolation(false)]
fn apply_hunks(src: &Vec<RawLine>, hunks: &Vec<Hunk>) -> (r: Result<
    (Vec<RawLine>, Stats),
    ApplyError,
>)
    ensures
        (match spec_apply(views_of(src@), hunk_views(hunks@)) {
            Ok(p) => r matches Ok(x) && views_of(x.0@) == p.0 && x.1.lines_added == p.1
                && x.1.lines_deleted == p.2,
            Err(e) => r matches Err(x) && x == e,
        }),
{
    let ghost srcv = views_of(src@);
    let ghost hv = hunk_views(hunks@);
    let n = src.len();
    let m = hunks.len();
    let mut out: Vec<RawLine> = Vec::new();
    let mut cursor: usize = 0;
    let mut added: usize = 0;
    let mut deleted: usize = 0;
    let mut k: usize = 0;
    proof {
        assert(views_of(out@) =~= Seq::<(Seq<u8>, bool)>::empty());
    }
    while k < m
        invariant
            k <= m,
            cursor <= n,
            added <= out@.len(),
            deleted <= cursor,
            spec_apply(srcv, hv) == (match spec_apply_from(srcv, hv, k as int, cursor as int) {
                Ok(p) => Ok::<_, ApplyError>(
                    (views_of(out@) + p.0, added + p.1, deleted + p.2),
                ),
                Err(e) => Err::<(Seq<(Seq<u8>, bool)>, int, int), _>(e),
            }),
        decreases m - k,
    {
        let ghost k0 = k as int;
        let ghost cursor0 = cursor as int;
        let h = &hunks[k];
        let hr = h.old_range();
        let nr = h.new_range();
        let body = h.lines();
        proof {
            assert(hv[k0] == hunks@[k0]@);
            assert(srcv.len() == n);
            assert(line_views(body@) == hv[k0].lines);
        }
        if hr.start() <= cursor {
            proof {
                assert(spec_apply_from(srcv, hv, k0, cursor0) == Err::<
                    (Seq<(Seq<u8>, bool)>, int, int),
                    ApplyError,
                >(ApplyError::Overlap { hunk: k }));
            }
            return Err(ApplyError::Overlap { hunk: k });
        }
        let target = hr.start() - 1;
        if hr.len() > n || target > n - hr.len() {
            proof {
                assert(spec_apply_from(srcv, hv, k0, cursor0) == Err::<
                    (Seq<(Seq<u8>, bool)>, int, int),
                    ApplyError,
                >(ApplyError::OutOfBounds { hunk: k }));
            }
            return Err(ApplyError::OutOfBounds { hunk: k });
        }
        let (c_old, c_new, c_ins, c_del) = count_sides(body);
        if c_old != hr.len() || c_new != nr.len() {
            proof {
                assert(spec_apply_from(srcv, hv, k0, cursor0) == Err::<
                    (Seq<(Seq<u8>, bool)>, int, int),
                    ApplyError,
                >(ApplyError::MalformedHunk { hunk: k }));
            }
            return Err(ApplyError::MalformedHunk { hunk: k });
        }
        match find_mismatch(src, target, body) {
            Some(c) => {
                proof {
                    assert(spec_apply_from(srcv, hv, k0, cursor0) == Err::<
                        (Seq<(Seq<u8>, bool)>, int, int),
                        ApplyError,
                    >(ApplyError::ContentMismatch { hunk: k, line: (target + c + 1) as usize }));
                }
                return Err(ApplyError::ContentMismatch { hunk: k, line: target + c + 1 });
            },
            None => {},
        }
        let ghost out0v = views_of(out@);
        let ghost added0 = added as int;
        let ghost deleted0 = deleted as int;
        copy_lines(&mut out, src, cursor, target);
        append_new_side(&mut out, body);
        let after_new = out.len();
        proof {
            assert(views_of(out@) =~= out0v + srcv.subrange(cursor0, target as int) + new_toks(
                hv[k0].lines,
            ));
            assert(added + c_ins <= after_new);
            assert(deleted + c_del <= target + c_old);
        }
        added = added + c_ins;
        deleted = deleted + c_del;
        cursor = target + hr.len();
        k += 1;
        proof {
            let h0 = hv[k0];
            let t = h0.old_range.start - 1;
            assert(t == target as int);
            match spec_apply_from(srcv, hv, k as int, cursor as int) {
                Ok(p) => {
                    assert(spec_apply_from(srcv, hv, k0, cursor0) == Ok::<_, ApplyError>(
                        (
                            srcv.subrange(cursor0, t) + new_toks(h0.lines) + p.0,
                            p.1 + insert_count(h0.lines),
                            p.2 + delete_count(h0.lines),
                        ),
                    ));
                    assert(views_of(out@) + p.0 =~= out0v + (srcv.subrange(cursor0, t)
                        + new_toks(h0.lines) + p.0));
                },
                Err(e) => {
                    assert(spec_apply_from(srcv, hv, k0, cursor0) == Err::<
                        (Seq<(Seq<u8>, bool)>, int, int),
                        ApplyError,
                    >(e));
                },
            }
        }
    }
    copy_lines(&mut out, src, cursor, n);
    proof {
        assert(srcv.skip(cursor as int) =~= views_of(src@).subrange(cursor as int, n as int));
    }
    Ok((out, Stats { lines_added: added, lines_deleted: deleted }))
}

/// Applies a diff to original byte text, producing the patched bytes and the
/// change statistics, or a structured error. An empty diff yields the
/// original text unchanged with zero counts; no partial output is ever
/// returned on failure.
pub fn apply_bytes(original: &[u8], diff: &Diff) -> (r: Result<(Vec<u8>, Stats), ApplyError>)
    ensures
        (match spec_apply(spec_lines(original@), diff@.hunks) {
            Ok(p) => r matches Ok(x) && x.0@ == join_lines(p.0) && x.1.lines_added == p.1
                && x.1.lines_deleted == p.2,
            Err(e) => r matches Err(x) && x == e,
        }),
{
    let src = split_lines(original);
    match apply_hunks(&src, diff.hunks()) {
        Ok((out, st)) => Ok((join_to_bytes(&out), st)),
        Err(e) => Err(e),
    }
}

/// Every new-side line of a body whose contents are all valid UTF-8 has
/// valid UTF-8 content.
proof fn lemma_new_toks_valid(ls: Seq<LineV>)
    requires
        forall|q: int| 0 <= q < ls.len() ==> vstd::utf8::valid_utf8(content_of(#[trigger] ls[q])),
    ensures
        forall|x: int|
            0 <= x < new_toks(ls).len() ==> vstd::utf8::valid_utf8((#[trigger] new_toks(ls)[x]).0),
    decreases ls.len(),
{
    if ls.len() > 0 {
        assert forall|q: int|
            0 <= q < ls.drop_last().len() implies vstd::utf8::valid_utf8(content_of(
            #[trigger] ls.drop_last()[q],
        )) by {
            assert(ls.drop_last()[q] == ls[q]);
        }
        lemma_new_toks_valid(ls.drop_last());
        assert(vstd::utf8::valid_utf8(content_of(ls.last())));
        assert forall|x: int|
            0 <= x < new_toks(ls).len() implies vstd::utf8::valid_utf8(
            (#[trigger] new_toks(ls)[x]).0,
        ) by {
            if crate::model::is_new_side(ls.last()) {
                if x < new_toks(ls).len() - 1 {
                    assert(new_toks(ls)[x] == new_toks(ls.drop_last())[x]);
                } else {
                    assert(new_toks(ls)[x].0 == content_of(ls.last()));
                }
            } else {
                assert(new_toks(ls)[x] == new_toks(ls.drop_last())[x]);
            }
        }
    }
}

/// When application succeeds, every output line content is valid UTF-8,
/// provided the source lines and the diff lines are.
proof fn lemma_apply_from_valid(src: Seq<(Seq<u8>, bool)>, hunks: Seq<HunkV>, k: int, cursor: int)
    requires
        forall|x: int| 0 <= x < src.len() ==> vstd::utf8::valid_utf8((#[trigger] src[x]).0),
        forall|kk: int, q: int|
            0 <= kk < hunks.len() && 0 <= q < hunks[kk].lines.len() ==> vstd::utf8::valid_utf8(
                content_of(#[trigger] hunks[kk].lines[q]),
            ),
        0 <= cursor <= src.len(),
        0 <= k,
    ensures
        spec_apply_from(src, hunks, k, cursor) matches Ok(p) ==> forall|x: int|
            0 <= x < p.0.len() ==> vstd::utf8::valid_utf8((#[trigger] p.0[x]).0),
    decreases hunks.len() - k,
{
    if k >= hunks.len() {
        assert forall|x: int|
            0 <= x < src.skip(cursor).len() implies vstd::utf8::valid_utf8(
            (#[trigger] src.skip(cursor)[x]).0,
        ) by {
            assert(src.skip(cursor)[x] == src[cursor + x]);
        }
    } else {
        let h = hunks[k];
        let target = h.old_range.start - 1;
        if spec_apply_from(src, hunks, k, cursor) is Ok {
            lemma_apply_from_valid(src, hunks, k + 1, target + h.old_range.len);
            assert forall|q: int|
                0 <= q < h.lines.len() implies vstd::utf8::valid_utf8(content_of(
                #[trigger] h.lines[q],
            )) by {
                assert(hunks[k].lines[q] == h.lines[q]);
            }
            lemma_new_toks_valid(h.lines);
            let p = spec_apply_from(src, hunks, k, cursor)->Ok_0;
            let rest = spec_apply_from(src, hunks, k + 1, target + h.old_range.len)->Ok_0;
            assert forall|x: int|
                0 <= x < p.0.len() implies vstd::utf8::valid_utf8((#[trigger] p.0[x]).0) by {
                let a = src.subrange(cursor, target);
                let b = new_toks(h.lines);
                if x < a.len() {
                    assert(p.0[x] == src[cursor + x]);
                } else if x < a.len() + b.len() {
                    assert(p.0[x] == b[x - a.len()]);
                } else {
                    assert(p.0[x] == rest.0[x - a.len() - b.len()]);
                }
            }
        }
    }
}

/// Relies on `String::from_utf8`: it succeeds exactly on valid UTF-8 input,
/// and then returns the string whose characters are the decoding of those
/// bytes. The caller proves validity, so the error arm is never taken.
#[verifier::external_body]
fn string_from_utf8(bytes: Vec<u8>) -> (r: String)
    requires
        vstd::utf8::valid_utf8(bytes@),
    ensures
        r@ == vstd::utf8::decode_utf8(bytes@),
{
    match String::from_utf8(bytes) {
        Ok(s) => s,
        Err(_) => String::new(),
    }
}

/// Applies a diff to original character text, producing the patched text and
/// the change statistics, or a structured error. The diff must carry
/// character-validated content, as any diff parsed from character text does.
/// An empty diff yields the original text unchanged with zero counts; no
/// partial output is ever returned on failure.
pub fn apply(original: &str, diff: &Diff) -> (r: Result<(String, Stats), ApplyError>)
    requires
        crate::model::utf8_lines(diff@),
    ensures
        (match spec_apply(spec_lines(original.spec_bytes()), diff@.hunks) {
            Ok(p) => r matches Ok(x) && x.0@ == vstd::utf8::decode_utf8(join_lines(p.0))
                && vstd::utf8::encode_utf8(x.0@) == join_lines(p.0) && x.1.lines_added == p.1
                && x.1.lines_deleted == p.2,
            Err(e) => r matches Err(x) && x == e,
        }),
{
    let ghost srcv = spec_lines(original.spec_bytes());
    match apply_bytes(original.as_bytes(), diff) {
        Ok((bytes, st)) => {
            proof {
                vstd::utf8::encode_utf8_valid_utf8(original@);
                crate::lines::lemma_spec_lines_valid(original.spec_bytes());
                lemma_apply_from_valid(srcv, diff@.hunks, 0, 0);
                let p = spec_apply(srcv, diff@.hunks)->Ok_0;
                crate::lines::lemma_join_lines_valid(p.0);
                vstd::utf8::decode_utf8_encode_utf8(bytes@);
            }
            let text = string_from_utf8(bytes);
            Ok((text, st))
        },
        Err(e) => Err(e),
    }
}

} // verus!
