//! The canonical change representation: lines, hunks, diffs, statistics and
//! the error taxonomies of parsing and application.
//!
//! Every dialect parser produces these values and the application engine
//! consumes them, so application never depends on the dialect of origin.

use vstd::prelude::*;

verus! {

/// Why a patch text failed to parse.
#[derive(Clone, Copy, PartialEq, Eq, Structural, Debug)]
pub enum ParsePatchError {
    /// A line expected to be a command line or separator failed to parse,
    /// or a hunk body did not match the ranges its command announced.
    HunkHeader,
    /// More hunk content was required but the input ended.
    UnexpectedEof,
    /// The input contained no hunk at all.
    NoHunks,
}

/// Why a diff could not be applied to a source text.
#[derive(Clone, Copy, PartialEq, Eq, Structural, Debug)]
pub enum ApplyError {
    /// A source line did not match the content the hunk expected there.
    /// `line` is the 1-based number of the first mismatching source line.
    ContentMismatch { hunk: usize, line: usize },
    /// The hunk's old range reaches beyond the end of the source text.
    OutOfBounds { hunk: usize },
    /// The hunk's old range overlaps or precedes an earlier hunk's.
    Overlap { hunk: usize },
    /// The hunk's lines disagree with the counts its ranges announce.
    MalformedHunk { hunk: usize },
}

/// A 1-based line range: the first line touched and how many lines are
/// touched. `len == 0` marks a pure insertion or deletion point anchored
/// immediately after line `start - 1`.
#[derive(Clone, Copy, PartialEq, Eq, Structural, Debug)]
pub struct HunkRange {
    pub start: usize,
    pub len: usize,
}

impl HunkRange {
    pub fn new(start: usize, len: usize) -> (r: HunkRange)
        ensures
            r == (HunkRange { start, len }),
    {
        HunkRange { start, len }
    }

    pub fn start(&self) -> (r: usize)
        ensures
            r == self.start,
    {
        self.start
    }

    pub fn len(&self) -> (r: usize)
        ensures
            r == self.len,
    {
        self.len
    }
}

/// The model of one diff line: which side it belongs to, its content bytes
/// and whether it carried a terminating newline.
#[verifier::ext_equal]
pub enum LineV {
    Context { content: Seq<u8>, terminated: bool },
    Insert { content: Seq<u8>, terminated: bool },
    Delete { content: Seq<u8>, terminated: bool },
}

/// One line of a hunk body.
pub enum Line {
    /// A line common to both texts, kept for positional anchoring.
    Context(Vec<u8>, bool),
    /// A line present only in the new text.
    Insert(Vec<u8>, bool),
    /// A line present only in the old text.
    Delete(Vec<u8>, bool),
}

impl View for Line {
    type V = LineV;

    open spec fn view(&self) -> LineV {
        match self {
            Line::Context(c, t) => LineV::Context { content: c@, terminated: *t },
            Line::Insert(c, t) => LineV::Insert { content: c@, terminated: *t },
            Line::Delete(c, t) => LineV::Delete { content: c@, terminated: *t },
        }
    }
}

pub open spec fn content_of(l: LineV) -> Seq<u8> {
    match l {
        LineV::Context { content, .. } => content,
        LineV::Insert { content, .. } => content,
        LineV::Delete { content, .. } => content,
    }
}

pub open spec fn terminated_of(l: LineV) -> bool {
    match l {
        LineV::Context { terminated, .. } => terminated,
        LineV::Insert { terminated, .. } => terminated,
        LineV::Delete { terminated, .. } => terminated,
    }
}

/// Whether the line occupies a position of the old text.
pub open spec fn is_old_side(l: LineV) -> bool {
    l is Delete || l is Context
}

/// Whether the line occupies a position of the new text.
pub open spec fn is_new_side(l: LineV) -> bool {
    l is Insert || l is Context
}

/// The contents the hunk expects to find in the old text, in order.
pub open spec fn old_contents(ls: Seq<LineV>) -> Seq<Seq<u8>>
    decreases ls.len(),
{
    if ls.len() == 0 {
        Seq::empty()
    } else if is_old_side(ls.last()) {
        old_contents(ls.drop_last()).push(content_of(ls.last()))
    } else {
        old_contents(ls.drop_last())
    }
}

/// The lines the hunk contributes to the new text, in order.
pub open spec fn new_toks(ls: Seq<LineV>) -> Seq<(Seq<u8>, bool)>
    decreases ls.len(),
{
    if ls.len() == 0 {
        Seq::empty()
    } else if is_new_side(ls.last()) {
        new_toks(ls.drop_last()).push((content_of(ls.last()), terminated_of(ls.last())))
    } else {
        new_toks(ls.drop_last())
    }
}

pub open spec fn insert_count(ls: Seq<LineV>) -> int
    decreases ls.len(),
{
    if ls.len() == 0 {
        0
    } else {
        insert_count(ls.drop_last()) + if ls.last() is Insert {
            1int
        } else {
            0int
        }
    }
}

pub open spec fn delete_count(ls: Seq<LineV>) -> int
    decreases ls.len(),
{
    if ls.len() == 0 {
        0
    } else {
        delete_count(ls.drop_last()) + if ls.last() is Delete {
            1int
        } else {
            0int
        }
    }
}

/// Splitting a body splits its side projections and counts.
pub proof fn lemma_sides_app(a: Seq<LineV>, b: Seq<LineV>)
    ensures
        old_contents(a + b) == old_contents(a) + old_contents(b),
        new_toks(a + b) == new_toks(a) + new_toks(b),
        insert_count(a + b) == insert_count(a) + insert_count(b),
        delete_count(a + b) == delete_count(a) + delete_count(b),
    decreases b.len(),
{
    if b.len() == 0 {
        assert(a + b =~= a);
        assert(old_contents(a) + old_contents(b) =~= old_contents(a));
        assert(new_toks(a) + new_toks(b) =~= new_toks(a));
    } else {
        lemma_sides_app(a, b.drop_last());
        assert((a + b).drop_last() =~= a + b.drop_last());
        assert((a + b).last() == b.last());
        if is_old_side(b.last()) {
            assert(old_contents(a) + old_contents(b) =~= (old_contents(a) + old_contents(
                b.drop_last(),
            )).push(content_of(b.last())));
        }
        if is_new_side(b.last()) {
            assert(new_toks(a) + new_toks(b) =~= (new_toks(a) + new_toks(b.drop_last())).push(
                (content_of(b.last()), terminated_of(b.last())),
            ));
        }
    }
}

/// The model of one hunk.
#[verifier::ext_equal]
pub struct HunkV {
    pub old_range: HunkRange,
    pub new_range: HunkRange,
    pub header: Option<Seq<u8>>,
    pub lines: Seq<LineV>,
}

/// The hunk invariant: the lines on each side agree with the announced range.
pub open spec fn wf_hunk(h: HunkV) -> bool {
    &&& old_contents(h.lines).len() == h.old_range.len
    &&& new_toks(h.lines).len() == h.new_range.len
}

/// One contiguous change unit: a range in each text, an optional header and
/// the ordered lines of its body.
pub struct Hunk {
    old_range: HunkRange,
    new_range: HunkRange,
    header: Option<Vec<u8>>,
    lines: Vec<Line>,
}

pub open spec fn line_views(ls: Seq<Line>) -> Seq<LineV> {
    Seq::new(ls.len(), |i: int| ls[i]@)
}

impl View for Hunk {
    type V = HunkV;

    closed spec fn view(&self) -> HunkV {
        HunkV {
            old_range: self.old_range,
            new_range: self.new_range,
            header: match &self.header {
                Some(h) => Some(h@),
                None => None,
            },
            lines: line_views(self.lines@),
        }
    }
}

impl Hunk {
    pub fn new(old_range: HunkRange, new_range: HunkRange, header: Option<Vec<u8>>, lines: Vec<
        Line,
    >) -> (r: Hunk)
        ensures
            r@ == (HunkV {
                old_range,
                new_range,
                header: match header {
                    Some(h) => Some(h@),
                    None => None::<Seq<u8>>,
                },
                lines: line_views(lines@),
            }),
    {
        let r = Hunk { old_range, new_range, header, lines };
        proof {
            assert(r@ =~= (HunkV {
                old_range,
                new_range,
                header: match r.header {
                    Some(h) => Some(h@),
                    None => None::<Seq<u8>>,
                },
                lines: line_views(r.lines@),
            }));
        }
        r
    }

    pub fn old_range(&self) -> (r: HunkRange)
        ensures
            r == self@.old_range,
    {
        self.old_range
    }

    pub fn new_range(&self) -> (r: HunkRange)
        ensures
            r == self@.new_range,
    {
        self.new_range
    }

    pub fn header(&self) -> (r: &Option<Vec<u8>>)
        ensures
            self@.header matches Some(h) ==> r matches Some(v) && v@ == h,
            self@.header is None ==> r is None,
    {
        &self.header
    }

    pub fn lines(&self) -> (r: &Vec<Line>)
        ensures
            line_views(r@) == self@.lines,
    {
        &self.lines
    }
}

/// The model of a diff.
#[verifier::ext_equal]
pub struct DiffV {
    pub old_file: Option<Seq<u8>>,
    pub new_file: Option<Seq<u8>>,
    pub hunks: Seq<HunkV>,
}

pub open spec fn hunk_views(hs: Seq<Hunk>) -> Seq<HunkV> {
    Seq::new(hs.len(), |i: int| hs[i]@)
}

/// An ordered sequence of hunks, with optional file labels.
pub struct Diff {
    old_file: Option<Vec<u8>>,
    new_file: Option<Vec<u8>>,
    hunks: Vec<Hunk>,
}

impl View for Diff {
    type V = DiffV;

    closed spec fn view(&self) -> DiffV {
        DiffV {
            old_file: match &self.old_file {
                Some(f) => Some(f@),
                None => None,
            },
            new_file: match &self.new_file {
                Some(f) => Some(f@),
                None => None,
            },
            hunks: hunk_views(self.hunks@),
        }
    }
}

impl Diff {
    pub fn new(old_file: Option<Vec<u8>>, new_file: Option<Vec<u8>>, hunks: Vec<Hunk>) -> (r: Diff)
        ensures
            r@ == (DiffV {
                old_file: match old_file {
                    Some(f) => Some(f@),
                    None => None::<Seq<u8>>,
                },
                new_file: match new_file {
                    Some(f) => Some(f@),
                    None => None::<Seq<u8>>,
                },
                hunks: hunk_views(hunks@),
            }),
    {
        let r = Diff { old_file, new_file, hunks };
        proof {
            assert(r@ =~= (DiffV {
                old_file: match r.old_file {
                    Some(f) => Some(f@),
                    None => None::<Seq<u8>>,
                },
                new_file: match r.new_file {
                    Some(f) => Some(f@),
                    None => None::<Seq<u8>>,
                },
                hunks: hunk_views(r.hunks@),
            }));
        }
        r
    }

    pub fn hunks(&self) -> (r: &Vec<Hunk>)
        ensures
            hunk_views(r@) == self@.hunks,
    {
        &self.hunks
    }

    pub fn old_file(&self) -> (r: &Option<Vec<u8>>)
        ensures
            self@.old_file matches Some(f) ==> r matches Some(v) && v@ == f,
            self@.old_file is None ==> r is None,
    {
        &self.old_file
    }

    pub fn new_file(&self) -> (r: &Option<Vec<u8>>)
        ensures
            self@.new_file matches Some(f) ==> r matches Some(v) && v@ == f,
            self@.new_file is None ==> r is None,
    {
        &self.new_file
    }
}

/// The diff invariant on hunk bodies: every hunk's lines agree with the
/// counts its ranges announce.
pub open spec fn wf_diff(d: DiffV) -> bool {
    forall|k: int| 0 <= k < d.hunks.len() ==> wf_hunk(#[trigger] d.hunks[k])
}

/// Whether every line content of the diff is valid UTF-8 — what it means for
/// a diff to carry character-validated content.
pub open spec fn utf8_lines(d: DiffV) -> bool {
    forall|k: int, q: int|
        0 <= k < d.hunks.len() && 0 <= q < d.hunks[k].lines.len()
            ==> vstd::utf8::valid_utf8(content_of(#[trigger] d.hunks[k].lines[q]))
}

/// Line counts tallied while a diff is applied.
#[derive(Clone, Copy, PartialEq, Eq, Structural, Debug)]
pub struct Stats {
    pub lines_added: usize,
    pub lines_deleted: usize,
}

impl Stats {
    /// Whether applying the diff changed anything at all.
    pub fn has_changes(&self) -> (r: bool)
        ensures
            r == (self.lines_added > 0 || self.lines_deleted > 0),
    {
        self.lines_added > 0 || self.lines_deleted > 0
    }
}

} // verus!
