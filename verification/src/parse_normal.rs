//! Parser and detector for the traditional ("normal") diff dialect.
//!
//! A normal diff is a sequence of hunks, each introduced by a command line
//! `NaR`, `NcR` or `NdR`, where `N` and `R` are 1-based line numbers or
//! `start,end` ranges. Old-text lines are prefixed `< `, new-text lines `> `,
//! and a change command carries a literal `---` separator between them.
//!
//! The grammar and its semantics are written down as spec functions over the
//! line decomposition of the input bytes; the executable parser is proved to
//! return exactly the diff (or error) those definitions denote.

use vstd::prelude::*;

use crate::lines::{first_occ, lemma_first_occ_is, spec_lines, split_lines, views_of, RawLine};
use crate::model::{Diff, DiffV, Hunk, HunkRange, HunkV, Line, LineV, ParsePatchError};
use vstd::slice::{slice_subrange, slice_to_vec};
use vstd::string::StringSliceAdditionalSpecFns;

verus! {

/// The byte `,` separating the two ends of a range.
pub const COMMA: u8 = 44;

/// The byte `<` prefixing old-text lines.
pub const OLD_MARK: u8 = 60;

/// The byte `>` prefixing new-text lines.
pub const NEW_MARK: u8 = 62;

/// The byte `-`; three of them form a change command's separator line.
pub const DASH: u8 = 45;

/// The byte ` `.
pub const SPACE: u8 = 32;

/// An ASCII whitespace byte: horizontal tab through carriage return, or space.
pub open spec fn is_ws_byte(b: u8) -> bool {
    9 <= b <= 13 || b == SPACE
}

/// A line consisting of whitespace only (an empty line in particular); such
/// lines are skipped between hunks.
pub open spec fn is_blank(s: Seq<u8>) -> bool {
    forall|j: int| 0 <= j < s.len() ==> is_ws_byte(s[j])
}

pub open spec fn is_digit(b: u8) -> bool {
    48 <= b <= 57
}

/// A non-empty run of ASCII digits.
pub open spec fn is_digits(s: Seq<u8>) -> bool {
    s.len() >= 1 && forall|j: int| 0 <= j < s.len() ==> is_digit(s[j])
}

/// The number the digit run denotes.
pub open spec fn digits_val(s: Seq<u8>) -> int
    decreases s.len(),
{
    if s.len() == 0 {
        0
    } else {
        digits_val(s.drop_last()) * 10 + (s.last() - 48)
    }
}

proof fn lemma_digits_val_nonneg(s: Seq<u8>)
    requires
        forall|j: int| 0 <= j < s.len() ==> is_digit(s[j]),
    ensures
        digits_val(s) >= 0,
    decreases s.len(),
{
    if s.len() > 0 {
        lemma_digits_val_nonneg(s.drop_last());
    }
}

/// Once a digit prefix already exceeds a bound, the whole run does too.
proof fn lemma_digits_val_prefix_le(s: Seq<u8>, i: int)
    requires
        0 <= i <= s.len(),
        forall|j: int| 0 <= j < s.len() ==> is_digit(s[j]),
    ensures
        digits_val(s.take(i)) <= digits_val(s),
    decreases s.len() - i,
{
    if i < s.len() {
        assert(s.take(i + 1).drop_last() =~= s.take(i));
        lemma_digits_val_nonneg(s.take(i));
        lemma_digits_val_prefix_le(s, i + 1);
    } else {
        assert(s.take(i) =~= s);
    }
}

/// The parsed value of a range part: a single number `N` stands for `N,N`.
pub open spec fn spec_parse_range(s: Seq<u8>) -> Option<(usize, usize)> {
    let p = first_occ(s, COMMA);
    if p < s.len() {
        let l = s.take(p);
        let r = s.skip(p + 1);
        if is_digits(l) && is_digits(r) && digits_val(l) <= usize::MAX && digits_val(r)
            <= usize::MAX {
            Some((digits_val(l) as usize, digits_val(r) as usize))
        } else {
            None
        }
    } else {
        if is_digits(s) && digits_val(s) <= usize::MAX {
            Some((digits_val(s) as usize, digits_val(s) as usize))
        } else {
            None
        }
    }
}

/// The three hunk commands of the dialect.
#[derive(Clone, Copy, PartialEq, Eq, Structural, Debug)]
pub enum CmdKind {
    Add,
    Change,
    Delete,
}

/// A parsed command line such as `3c3`, `1,2d5` or `0a1,3`.
#[derive(Clone, Copy, PartialEq, Eq, Structural, Debug)]
pub struct NormalCommand {
    pub old_start: usize,
    pub old_end: usize,
    pub kind: CmdKind,
    pub new_start: usize,
    pub new_end: usize,
}

pub open spec fn is_cmd_byte(b: u8) -> bool {
    b == 97 || b == 99 || b == 100
}

pub open spec fn kind_of(b: u8) -> CmdKind {
    if b == 97 {
        CmdKind::Add
    } else if b == 99 {
        CmdKind::Change
    } else {
        CmdKind::Delete
    }
}

/// Index of the first command byte (`a`, `c` or `d`) in `s`, or `s.len()`.
pub open spec fn first_cmd(s: Seq<u8>) -> int
    decreases s.len(),
{
    if s.len() == 0 {
        0
    } else if is_cmd_byte(s[0]) {
        0
    } else {
        1 + first_cmd(s.drop_first())
    }
}

pub proof fn lemma_first_cmd(s: Seq<u8>)
    ensures
        0 <= first_cmd(s) <= s.len(),
        forall|j: int| 0 <= j < first_cmd(s) ==> !is_cmd_byte(s[j]),
        first_cmd(s) < s.len() ==> is_cmd_byte(s[first_cmd(s)]),
    decreases s.len(),
{
    if s.len() > 0 && !is_cmd_byte(s[0]) {
        lemma_first_cmd(s.drop_first());
        assert forall|j: int| 0 <= j < first_cmd(s) implies !is_cmd_byte(s[j]) by {
            if j > 0 {
                assert(s.drop_first()[j - 1] == s[j]);
            }
        }
    }
}

pub proof fn lemma_first_cmd_is(s: Seq<u8>, k: int)
    requires
        0 <= k <= s.len(),
        forall|j: int| 0 <= j < k ==> !is_cmd_byte(s[j]),
        k < s.len() ==> is_cmd_byte(s[k]),
    ensures
        first_cmd(s) == k,
{
    lemma_first_cmd(s);
}

/// The command a line denotes: the first command byte splits the line into
/// the old range (left) and the new range (right).
pub open spec fn spec_parse_command(s: Seq<u8>) -> Option<NormalCommand> {
    let p = first_cmd(s);
    if p < s.len() {
        match (spec_parse_range(s.take(p)), spec_parse_range(s.skip(p + 1))) {
            (Some(o), Some(n)) => Some(
                NormalCommand {
                    old_start: o.0,
                    old_end: o.1,
                    kind: kind_of(s[p]),
                    new_start: n.0,
                    new_end: n.1,
                },
            ),
            _ => None,
        }
    } else {
        None
    }
}

/// Whether a line carries the body prefix `c` followed by a space.
pub open spec fn has_prefix(s: Seq<u8>, c: u8) -> bool {
    s.len() >= 2 && s[0] == c && s[1] == SPACE
}

/// How many consecutive lines from `i` carry the body prefix `c`.
pub open spec fn count_prefixed(ls: Seq<(Seq<u8>, bool)>, i: int, c: u8) -> int
    decreases ls.len() - i,
{
    if i < 0 || i >= ls.len() || !has_prefix(ls[i].0, c) {
        0
    } else {
        1 + count_prefixed(ls, i + 1, c)
    }
}

pub proof fn lemma_count_prefixed_bounds(ls: Seq<(Seq<u8>, bool)>, i: int, c: u8)
    requires
        0 <= i <= ls.len(),
    ensures
        0 <= count_prefixed(ls, i, c) <= ls.len() - i,
    decreases ls.len() - i,
{
    if i < ls.len() && has_prefix(ls[i].0, c) {
        lemma_count_prefixed_bounds(ls, i + 1, c);
    }
}

/// Checks whether a byte slice is all whitespace.
#[verifier::loop_isolation(false)]
pub fn line_is_blank(s: &[u8]) -> (r: bool)
    ensures
        r == is_blank(s@),
{
    let mut j: usize = 0;
    while j < s.len()
        invariant
            j <= s@.len(),
            forall|q: int| 0 <= q < j ==> is_ws_byte(s@[q]),
        decreases s@.len() - j,
    {
        let b = s[j];
        if !(9 <= b && b <= 13 || b == SPACE) {
            return false;
        }
        j += 1;
    }
    true
}

/// Parses a non-empty run of ASCII digits as a `usize`.
#[verifier::loop_isolation(false)]
fn parse_digits(s: &[u8]) -> (r: Option<usize>)
    ensures
        r is Some <==> is_digits(s@) && digits_val(s@) <= usize::MAX,
        r matches Some(v) ==> v as int == digits_val(s@),
{
    if s.len() == 0 {
        return None;
    }
    let mut j: usize = 0;
    while j < s.len()
        invariant
            j <= s@.len(),
            forall|q: int| 0 <= q < j ==> is_digit(s@[q]),
        decreases s@.len() - j,
    {
        let b = s[j];
        if !(48 <= b && b <= 57) {
            return None;
        }
        j += 1;
    }
    let mut val: usize = 0;
    let mut i: usize = 0;
    proof {
        assert(s@.take(0) =~= Seq::<u8>::empty());
    }
    while i < s.len()
        invariant
            i <= s@.len(),
            val as int == digits_val(s@.take(i as int)),
        decreases s@.len() - i,
    {
        let d = s[i] - 48;
        proof {
            assert(s@.take(i + 1).drop_last() =~= s@.take(i as int));
            assert(s@.take(i + 1).last() == s@[i as int]);
        }
        let step = match val.checked_mul(10) {
            Some(m) => m.checked_add(d as usize),
            None => None,
        };
        match step {
            Some(v) => {
                val = v;
            },
            None => {
                proof {
                    lemma_digits_val_prefix_le(s@, i + 1);
                    assert(s@.take(s@.len() as int) =~= s@);
                }
                return None;
            },
        }
        i += 1;
    }
    proof {
        assert(s@.take(s@.len() as int) =~= s@);
    }
    Some(val)
}

/// Finds the first occurrence of `b` in `s` (or `s.len()`).
#[verifier::loop_isolation(false)]
fn find_first(s: &[u8], b: u8) -> (r: usize)
    ensures
        r as int == first_occ(s@, b),
        r <= s@.len(),
{
    let mut j: usize = 0;
    while j < s.len() && s[j] != b
        invariant
            j <= s@.len(),
            forall|q: int| 0 <= q < j ==> s@[q] != b,
        decreases s@.len() - j,
    {
        j += 1;
    }
    proof {
        lemma_first_occ_is(s@, b, j as int);
    }
    j
}

/// Finds the first command byte in `s` (or `s.len()`).
#[verifier::loop_isolation(false)]
fn find_cmd(s: &[u8]) -> (r: usize)
    ensures
        r as int == first_cmd(s@),
        r <= s@.len(),
{
    let mut j: usize = 0;
    while j < s.len() && !(s[j] == 97 || s[j] == 99 || s[j] == 100)
        invariant
            j <= s@.len(),
            forall|q: int| 0 <= q < j ==> !is_cmd_byte(s@[q]),
        decreases s@.len() - j,
    {
        j += 1;
    }
    proof {
        lemma_first_cmd_is(s@, j as int);
    }
    j
}

/// Parses a range part: `N` or `N,M`.
fn parse_range(s: &[u8]) -> (r: Option<(usize, usize)>)
    ensures
        r == spec_parse_range(s@),
{
    let p = find_first(s, COMMA);
    if p < s.len() {
        let left = slice_subrange(s, 0, p);
        let right = slice_subrange(s, p + 1, s.len());
        proof {
            assert(left@ =~= s@.take(p as int));
            assert(right@ =~= s@.skip(p + 1));
        }
        match (parse_digits(left), parse_digits(right)) {
            (Some(a), Some(b)) => Some((a, b)),
            _ => None,
        }
    } else {
        match parse_digits(s) {
            Some(v) => Some((v, v)),
            None => None,
        }
    }
}

/// Parses a command line such as `3c3`, `1,2d5` or `0a1,3`.
pub fn parse_command_line(s: &[u8]) -> (r: Option<NormalCommand>)
    ensures
        r == spec_parse_command(s@),
{
    let p = find_cmd(s);
    if p < s.len() {
        let left = slice_subrange(s, 0, p);
        let right = slice_subrange(s, p + 1, s.len());
        proof {
            assert(left@ =~= s@.take(p as int));
            assert(right@ =~= s@.skip(p + 1));
        }
        match (parse_range(left), parse_range(right)) {
            (Some(o), Some(n)) => {
                let b = s[p];
                let kind = if b == 97 {
                    CmdKind::Add
                } else if b == 99 {
                    CmdKind::Change
                } else {
                    CmdKind::Delete
                };
                Some(
                    NormalCommand {
                        old_start: o.0,
                        old_end: o.1,
                        kind,
                        new_start: n.0,
                        new_end: n.1,
                    },
                )
            },
            _ => None,
        }
    } else {
        None
    }
}

/// The Insert lines built from `c` body lines starting at `i`, with their
/// two-byte prefix stripped.
pub open spec fn insert_lines(ls: Seq<(Seq<u8>, bool)>, i: int, c: int) -> Seq<LineV> {
    Seq::new(
        c as nat,
        |q: int| LineV::Insert { content: ls[i + q].0.skip(2), terminated: ls[i + q].1 },
    )
}

/// The Delete lines built from `c` body lines starting at `i`, with their
/// two-byte prefix stripped.
pub open spec fn delete_lines(ls: Seq<(Seq<u8>, bool)>, i: int, c: int) -> Seq<LineV> {
    Seq::new(
        c as nat,
        |q: int| LineV::Delete { content: ls[i + q].0.skip(2), terminated: ls[i + q].1 },
    )
}

/// The `---` separator required between the two sides of a change command.
pub open spec fn separator() -> Seq<u8> {
    seq![DASH, DASH, DASH]
}

/// One hunk parsed at line `i` (a non-blank line): the hunk it denotes and
/// the index of the first line after its body, or the error.
///
/// A command whose body does not hold exactly the number of lines its ranges
/// announce is rejected, as is a range running backwards or one whose length
/// cannot be represented: every parsed hunk satisfies the hunk invariant.
pub open spec fn spec_parse_one_hunk(ls: Seq<(Seq<u8>, bool)>, i: int) -> Result<
    (HunkV, int),
    ParsePatchError,
> {
    match spec_parse_command(ls[i].0) {
        None => Err(ParsePatchError::HunkHeader),
        Some(cmd) => match cmd.kind {
            CmdKind::Add => {
                if cmd.old_start == usize::MAX || cmd.new_end < cmd.new_start || cmd.new_end
                    - cmd.new_start == usize::MAX {
                    Err(ParsePatchError::HunkHeader)
                } else {
                    let need = cmd.new_end - cmd.new_start + 1;
                    let c = count_prefixed(ls, i + 1, NEW_MARK);
                    if c != need {
                        if c < need && i + 1 + c == ls.len() {
                            Err(ParsePatchError::UnexpectedEof)
                        } else {
                            Err(ParsePatchError::HunkHeader)
                        }
                    } else {
                        Ok(
                            (
                                HunkV {
                                    old_range: HunkRange {
                                        start: (cmd.old_start + 1) as usize,
                                        len: 0,
                                    },
                                    new_range: HunkRange {
                                        start: cmd.new_start,
                                        len: need as usize,
                                    },
                                    header: None,
                                    lines: insert_lines(ls, i + 1, c),
                                },
                                i + 1 + c,
                            ),
                        )
                    }
                }
            },
            CmdKind::Delete => {
                if cmd.old_end < cmd.old_start || cmd.old_end - cmd.old_start == usize::MAX {
                    Err(ParsePatchError::HunkHeader)
                } else {
                    let need = cmd.old_end - cmd.old_start + 1;
                    let c = count_prefixed(ls, i + 1, OLD_MARK);
                    if c != need {
                        if c < need && i + 1 + c == ls.len() {
                            Err(ParsePatchError::UnexpectedEof)
                        } else {
                            Err(ParsePatchError::HunkHeader)
                        }
                    } else {
                        Ok(
                            (
                                HunkV {
                                    old_range: HunkRange {
                                        start: cmd.old_start,
                                        len: need as usize,
                                    },
                                    new_range: HunkRange { start: cmd.new_start, len: 0 },
                                    header: None,
                                    lines: delete_lines(ls, i + 1, c),
                                },
                                i + 1 + c,
                            ),
                        )
                    }
                }
            },
            CmdKind::Change => {
                if cmd.old_end < cmd.old_start || cmd.old_end - cmd.old_start == usize::MAX
                    || cmd.new_end < cmd.new_start || cmd.new_end - cmd.new_start == usize::MAX {
                    Err(ParsePatchError::HunkHeader)
                } else {
                    let oneed = cmd.old_end - cmd.old_start + 1;
                    let nneed = cmd.new_end - cmd.new_start + 1;
                    let c1 = count_prefixed(ls, i + 1, OLD_MARK);
                    let j = i + 1 + c1;
                    if c1 != oneed {
                        if c1 < oneed && j == ls.len() {
                            Err(ParsePatchError::UnexpectedEof)
                        } else {
                            Err(ParsePatchError::HunkHeader)
                        }
                    } else if j >= ls.len() {
                        Err(ParsePatchError::UnexpectedEof)
                    } else if ls[j].0 != separator() {
                        Err(ParsePatchError::HunkHeader)
                    } else {
                        let c2 = count_prefixed(ls, j + 1, NEW_MARK);
                        if c2 != nneed {
                            if c2 < nneed && j + 1 + c2 == ls.len() {
                                Err(ParsePatchError::UnexpectedEof)
                            } else {
                                Err(ParsePatchError::HunkHeader)
                            }
                        } else {
                            Ok(
                                (
                                    HunkV {
                                        old_range: HunkRange {
                                            start: cmd.old_start,
                                            len: oneed as usize,
                                        },
                                        new_range: HunkRange {
                                            start: cmd.new_start,
                                            len: nneed as usize,
                                        },
                                        header: None,
                                        lines: delete_lines(ls, i + 1, c1) + insert_lines(
                                            ls,
                                            j + 1,
                                            c2,
                                        ),
                                    },
                                    j + 1 + c2,
                                ),
                            )
                        }
                    }
                }
            },
        },
    }
}

/// A successfully parsed hunk consumes its command line and body: the parse
/// position advances, and never beyond the end of the input.
pub proof fn lemma_one_hunk_advances(ls: Seq<(Seq<u8>, bool)>, i: int)
    requires
        0 <= i < ls.len(),
    ensures
        spec_parse_one_hunk(ls, i) matches Ok(p) ==> i < p.1 <= ls.len(),
{
    lemma_count_prefixed_bounds(ls, i + 1, NEW_MARK);
    lemma_count_prefixed_bounds(ls, i + 1, OLD_MARK);
    if spec_parse_one_hunk(ls, i) is Ok {
        match spec_parse_command(ls[i].0) {
            Some(cmd) => {
                if cmd.kind is Change {
                    let c1 = count_prefixed(ls, i + 1, OLD_MARK);
                    lemma_count_prefixed_bounds(ls, i + 1 + c1 + 1, NEW_MARK);
                }
            },
            None => {},
        }
    }
}

/// The hunks parsed from line `i` on, appended to those already parsed.
/// Blank lines between hunks are skipped; an input whose lines yield no hunk
/// at all is an error.
pub open spec fn spec_parse_hunks_from(
    ls: Seq<(Seq<u8>, bool)>,
    i: int,
    acc: Seq<HunkV>,
) -> Result<Seq<HunkV>, ParsePatchError>
    decreases ls.len() - i,
{
    if i >= ls.len() {
        if acc.len() == 0 {
            Err(ParsePatchError::NoHunks)
        } else {
            Ok(acc)
        }
    } else if is_blank(ls[i].0) {
        spec_parse_hunks_from(ls, i + 1, acc)
    } else {
        match spec_parse_one_hunk(ls, i) {
            Ok(p) => {
                let j = if p.1 <= i {
                    i + 1
                } else if p.1 > ls.len() {
                    ls.len() as int
                } else {
                    p.1
                };
                spec_parse_hunks_from(ls, j, acc.push(p.0))
            },
            Err(e) => Err(e),
        }
    }
}

/// The diff a normal-dialect byte text denotes, or the parse error.
pub open spec fn spec_parse_normal(t: Seq<u8>) -> Result<DiffV, ParsePatchError> {
    match spec_parse_hunks_from(spec_lines(t), 0, Seq::empty()) {
        Ok(hs) => Ok(DiffV { old_file: None, new_file: None, hunks: hs }),
        Err(e) => Err(e),
    }
}

/// Index of the first non-blank line at or after `i`, or `ls.len()`.
pub open spec fn first_nonblank(ls: Seq<(Seq<u8>, bool)>, i: int) -> int
    decreases ls.len() - i,
{
    if i < 0 || i >= ls.len() {
        i
    } else if is_blank(ls[i].0) {
        first_nonblank(ls, i + 1)
    } else {
        i
    }
}

/// Whether a byte text looks like a normal diff: its first non-blank line
/// parses as a command line. Range ordering is not enforced here; the parser
/// rejects backward ranges explicitly.
pub open spec fn spec_is_normal_diff(t: Seq<u8>) -> bool {
    let ls = spec_lines(t);
    let i = first_nonblank(ls, 0);
    i < ls.len() && spec_parse_command(ls[i].0) is Some
}

/// Counts the consecutive lines from `i` whose content starts with the body
/// prefix `c` followed by a space.
#[verifier::loop_isolation(false)]
fn count_body(lines: &Vec<RawLine>, i: usize, c: u8) -> (r: usize)
    requires
        i <= lines@.len(),
    ensures
        r as int == count_prefixed(views_of(lines@), i as int, c),
        i + r <= lines@.len(),
        forall|q: int| i <= q < i + r ==> has_prefix(views_of(lines@)[q].0, c),
{
    let ghost views = views_of(lines@);
    let mut j: usize = i;
    loop
        invariant
            i <= j <= lines@.len(),
            count_prefixed(views, i as int, c) == (j - i) + count_prefixed(views, j as int, c),
            forall|q: int| i <= q < j ==> has_prefix(views[q].0, c),
        decreases lines@.len() - j,
    {
        if j >= lines.len() {
            break;
        }
        let l = &lines[j];
        let pref = l.content.len() >= 2 && l.content[0] == c && l.content[1] == SPACE;
        proof {
            assert(views[j as int].0 == lines@[j as int].content@);
        }
        if !pref {
            break;
        }
        j += 1;
    }
    j - i
}

/// Builds the Insert or Delete lines of a hunk body from `c` prefixed lines
/// starting at `i`, stripping the two-byte prefix.
#[verifier::loop_isolation(false)]
fn collect_body(lines: &Vec<RawLine>, i: usize, c: usize, insert: bool) -> (r: Vec<Line>)
    requires
        i + c <= lines@.len(),
        forall|q: int|
            i <= q < i + c ==> views_of(lines@)[q].0.len() >= 2,
    ensures
        crate::model::line_views(r@) == if insert {
            insert_lines(views_of(lines@), i as int, c as int)
        } else {
            delete_lines(views_of(lines@), i as int, c as int)
        },
{
    let ghost views = views_of(lines@);
    let n = lines.len();
    proof {
        assert(lines@.len() <= usize::MAX);
    }
    let mut out: Vec<Line> = Vec::new();
    let mut q: usize = 0;
    proof {
        if insert {
            assert(crate::model::line_views(out@) =~= insert_lines(views, i as int, 0));
        } else {
            assert(crate::model::line_views(out@) =~= delete_lines(views, i as int, 0));
        }
    }
    while q < c
        invariant
            q <= c,
            crate::model::line_views(out@) == if insert {
                insert_lines(views, i as int, q as int)
            } else {
                delete_lines(views, i as int, q as int)
            },
        decreases c - q,
    {
        let l = &lines[i + q];
        proof {
            assert(views[i + q].0 == lines@[(i + q) as int].content@);
        }
        let content = slice_to_vec(slice_subrange(l.content.as_slice(), 2, l.content.len()));
        let line = if insert {
            Line::Insert(content, l.terminated)
        } else {
            Line::Delete(content, l.terminated)
        };
        proof {
            assert(line@ == if insert {
                LineV::Insert { content: views[i + q].0.skip(2), terminated: views[i + q].1 }
            } else {
                LineV::Delete { content: views[i + q].0.skip(2), terminated: views[i + q].1 }
            }) by {
                assert(lines@[(i + q) as int].content@.subrange(2, lines@[(i + q) as int].content@.len() as int)
                    =~= views[i + q].0.skip(2));
            }
            assert(crate::model::line_views(out@.push(line)) =~= crate::model::line_views(
            out@).push(line@));
            if insert {
                assert(insert_lines(views, i as int, q + 1) =~= insert_lines(
                views, i as int, q as int).push(line@));
            } else {
                assert(delete_lines(views, i as int, q + 1) =~= delete_lines(
                views, i as int, q as int).push(line@));
            }
        }
        out.push(line);
        q += 1;
    }
    out
}

/// Parses one hunk whose command line stands at line `i`.
#[verifier::loop_isolation(false)]
fn parse_one_hunk(lines: &Vec<RawLine>, i: usize) -> (r: Result<(Hunk, usize), ParsePatchError>)
    requires
        i < lines@.len(),
    ensures
        (match spec_parse_one_hunk(views_of(lines@), i as int) {
            Ok(p) => r matches Ok(x) && x.0@ == p.0 && x.1 as int == p.1,
            Err(e) => r matches Err(x) && x == e,
        }),
{
    let ghost views = views_of(lines@);
    let n = lines.len();
    proof {
        assert(lines@.len() <= usize::MAX);
        assert(views[i as int].0 == lines@[i as int].content@);
    }
    let cmd = match parse_command_line(lines[i].content.as_slice()) {
        Some(c) => c,
        None => {
            return Err(ParsePatchError::HunkHeader);
        },
    };
    match cmd.kind {
        CmdKind::Add => {
            if cmd.old_start == usize::MAX || cmd.new_end < cmd.new_start {
                return Err(ParsePatchError::HunkHeader);
            }
            let d = cmd.new_end - cmd.new_start;
            if d == usize::MAX {
                return Err(ParsePatchError::HunkHeader);
            }
            let need = d + 1;
            let c = count_body(lines, i + 1, NEW_MARK);
            if c != need {
                if c < need && i + 1 + c == lines.len() {
                    return Err(ParsePatchError::UnexpectedEof);
                } else {
                    return Err(ParsePatchError::HunkHeader);
                }
            }
            let body = collect_body(lines, i + 1, c, true);
            let h = Hunk::new(
                HunkRange::new(cmd.old_start + 1, 0),
                HunkRange::new(cmd.new_start, need),
                None,
                body,
            );
            proof {
                assert(h@ =~= spec_parse_one_hunk(views, i as int)->Ok_0.0);
            }
            Ok((h, i + 1 + c))
        },
        CmdKind::Delete => {
            if cmd.old_end < cmd.old_start {
                return Err(ParsePatchError::HunkHeader);
            }
            let d = cmd.old_end - cmd.old_start;
            if d == usize::MAX {
                return Err(ParsePatchError::HunkHeader);
            }
            let need = d + 1;
            let c = count_body(lines, i + 1, OLD_MARK);
            if c != need {
                if c < need && i + 1 + c == lines.len() {
                    return Err(ParsePatchError::UnexpectedEof);
                } else {
                    return Err(ParsePatchError::HunkHeader);
                }
            }
            let body = collect_body(lines, i + 1, c, false);
            let h = Hunk::new(
                HunkRange::new(cmd.old_start, need),
                HunkRange::new(cmd.new_start, 0),
                None,
                body,
            );
            proof {
                assert(h@ =~= spec_parse_one_hunk(views, i as int)->Ok_0.0);
            }
            Ok((h, i + 1 + c))
        },
        CmdKind::Change => {
            if cmd.old_end < cmd.old_start || cmd.new_end < cmd.new_start {
                return Err(ParsePatchError::HunkHeader);
            }
            let do_ = cmd.old_end - cmd.old_start;
            let dn = cmd.new_end - cmd.new_start;
            if do_ == usize::MAX || dn == usize::MAX {
                return Err(ParsePatchError::HunkHeader);
            }
            let oneed = do_ + 1;
            let nneed = dn + 1;
            let c1 = count_body(lines, i + 1, OLD_MARK);
            let j = i + 1 + c1;
            if c1 != oneed {
                if c1 < oneed && j == lines.len() {
                    return Err(ParsePatchError::UnexpectedEof);
                } else {
                    return Err(ParsePatchError::HunkHeader);
                }
            }
            if j >= lines.len() {
                return Err(ParsePatchError::UnexpectedEof);
            }
            proof {
                assert(views[j as int].0 == lines@[j as int].content@);
            }
            let sep = &lines[j].content;
            let is_sep = sep.len() == 3 && sep[0] == DASH && sep[1] == DASH && sep[2] == DASH;
            proof {
                if is_sep {
                    assert(views[j as int].0 =~= separator());
                } else {
                    assert(views[j as int].0 != separator()) by {
                        if views[j as int].0 == separator() {
                            assert(sep@.len() == 3 && sep@[0] == DASH && sep@[1] == DASH
                                && sep@[2] == DASH);
                        }
                    }
                }
            }
            if !is_sep {
                return Err(ParsePatchError::HunkHeader);
            }
            let c2 = count_body(lines, j + 1, NEW_MARK);
            if c2 != nneed {
                if c2 < nneed && j + 1 + c2 == lines.len() {
                    return Err(ParsePatchError::UnexpectedEof);
                } else {
                    return Err(ParsePatchError::HunkHeader);
                }
            }
            let mut body = collect_body(lines, i + 1, c1, false);
            let mut inserts = collect_body(lines, j + 1, c2, true);
            let ghost body0 = body@;
            let ghost inserts0 = inserts@;
            body.append(&mut inserts);
            proof {
                assert(crate::model::line_views(body0 + inserts0) =~= crate::model::line_views(
                body0) + crate::model::line_views(inserts0));
            }
            let h = Hunk::new(
                HunkRange::new(cmd.old_start, oneed),
                HunkRange::new(cmd.new_start, nneed),
                None,
                body,
            );
            proof {
                assert(h@ =~= spec_parse_one_hunk(views, i as int)->Ok_0.0);
            }
            Ok((h, j + 1 + c2))
        },
    }
}

/// Parses the hunks of a normal diff from its lines.
#[verifier::loop_isolation(false)]
fn parse_hunks(lines: &Vec<RawLine>) -> (r: Result<Vec<Hunk>, ParsePatchError>)
    ensures
        (match spec_parse_hunks_from(views_of(lines@), 0, Seq::empty()) {
            Ok(hs) => r matches Ok(v) && crate::model::hunk_views(v@) == hs,
            Err(e) => r matches Err(x) && x == e,
        }),
{
    let ghost views = views_of(lines@);
    let mut hunks: Vec<Hunk> = Vec::new();
    let mut i: usize = 0;
    proof {
        assert(crate::model::hunk_views(hunks@) =~= Seq::<HunkV>::empty());
    }
    while i < lines.len()
        invariant
            i <= lines@.len(),
            spec_parse_hunks_from(views, 0, Seq::empty()) == spec_parse_hunks_from(
                views,
                i as int,
                crate::model::hunk_views(hunks@),
            ),
        decreases lines@.len() - i,
    {
        proof {
            assert(views[i as int].0 == lines@[i as int].content@);
        }
        if line_is_blank(lines[i].content.as_slice()) {
            i += 1;
        } else {
            match parse_one_hunk(lines, i) {
                Ok((h, j)) => {
                    proof {
                        lemma_one_hunk_advances(views, i as int);
                        assert(crate::model::hunk_views(hunks@.push(h)) =~= crate::model::hunk_views(
                        hunks@).push(h@));
                    }
                    hunks.push(h);
                    i = j;
                },
                Err(e) => {
                    return Err(e);
                },
            }
        }
    }
    if hunks.len() == 0 {
        Err(ParsePatchError::NoHunks)
    } else {
        Ok(hunks)
    }
}

/// Detects whether a byte text looks like a normal diff: its first non-blank
/// line parses as a command line. Cheap and free of side effects; it commits
/// to nothing about the rest of the input.
#[verifier::loop_isolation(false)]
pub fn is_normal_diff_bytes(input: &[u8]) -> (r: bool)
    ensures
        r == spec_is_normal_diff(input@),
{
    let lines = split_lines(input);
    let ghost views = views_of(lines@);
    let mut i: usize = 0;
    while i < lines.len()
        invariant
            i <= lines@.len(),
            first_nonblank(views, 0) == first_nonblank(views, i as int),
        decreases lines@.len() - i,
    {
        proof {
            assert(views[i as int].0 == lines@[i as int].content@);
        }
        if !line_is_blank(lines[i].content.as_slice()) {
            return parse_command_line(lines[i].content.as_slice()).is_some();
        }
        i += 1;
    }
    false
}

/// Detects whether a text looks like a normal diff (as opposed to dialects
/// with bracketed range-pair anchors or `diff --git` headers, whose leading
/// lines do not parse as a command).
pub fn is_normal_diff(input: &str) -> (r: bool)
    ensures
        r == spec_is_normal_diff(input.spec_bytes()),
{
    is_normal_diff_bytes(input.as_bytes())
}

/// Parses a normal diff from a byte text. Every hunk of the parsed diff
/// satisfies the hunk invariant, and when the input is valid UTF-8, so is
/// every parsed line content.
pub fn parse_normal_bytes(input: &[u8]) -> (r: Result<Diff, ParsePatchError>)
    ensures
        (match spec_parse_normal(input@) {
            Ok(d) => r matches Ok(v) && v@ == d,
            Err(e) => r matches Err(x) && x == e,
        }),
        r matches Ok(v) ==> crate::model::wf_diff(v@),
        (vstd::utf8::valid_utf8(input@) && r is Ok) ==> crate::model::utf8_lines(r->Ok_0@),
{
    let lines = split_lines(input);
    match parse_hunks(&lines) {
        Ok(hunks) => {
            let ghost hv = crate::model::hunk_views(hunks@);
            let d = Diff::new(None, None, hunks);
            proof {
                assert(d@ =~= spec_parse_normal(input@)->Ok_0);
                lemma_parse_from_wf(spec_lines(input@), 0, Seq::empty());
                if vstd::utf8::valid_utf8(input@) {
                    crate::lines::lemma_spec_lines_valid(input@);
                    lemma_parse_from_utf8(spec_lines(input@), 0, Seq::empty());
                }
            }
            Ok(d)
        },
        Err(e) => Err(e),
    }
}

/// Parses a normal diff from a character text. Every hunk of the parsed diff
/// satisfies the hunk invariant, and every parsed line content is valid
/// UTF-8, so the diff can be applied to character text.
pub fn parse_normal(input: &str) -> (r: Result<Diff, ParsePatchError>)
    ensures
        (match spec_parse_normal(input.spec_bytes()) {
            Ok(d) => r matches Ok(v) && v@ == d,
            Err(e) => r matches Err(x) && x == e,
        }),
        r matches Ok(v) ==> crate::model::wf_diff(v@) && crate::model::utf8_lines(v@),
{
    proof {
        vstd::utf8::encode_utf8_valid_utf8(input@);
    }
    parse_normal_bytes(input.as_bytes())
}

/// Parses what the normal dialect holds of a multi-file patch text. The
/// dialect has no multi-file separator convention, so the result is always a
/// one-element collection around the single parsed diff.
pub fn parse_normal_multiple(input: &str) -> (r: Result<Vec<Diff>, ParsePatchError>)
    ensures
        (match spec_parse_normal(input.spec_bytes()) {
            Ok(d) => r matches Ok(v) && v@.len() == 1 && v@[0]@ == d,
            Err(e) => r matches Err(x) && x == e,
        }),
        r matches Ok(v) ==> crate::model::wf_diff(v@[0]@) && crate::model::utf8_lines(v@[0]@),
{
    match parse_normal(input) {
        Ok(d) => Ok(vec![d]),
        Err(e) => Err(e),
    }
}

/// Byte-text counterpart of `parse_normal_multiple`.
pub fn parse_normal_bytes_multiple(input: &[u8]) -> (r: Result<Vec<Diff>, ParsePatchError>)
    ensures
        (match spec_parse_normal(input@) {
            Ok(d) => r matches Ok(v) && v@.len() == 1 && v@[0]@ == d,
            Err(e) => r matches Err(x) && x == e,
        }),
        r matches Ok(v) ==> crate::model::wf_diff(v@[0]@),
        (vstd::utf8::valid_utf8(input@) && r is Ok) ==> crate::model::utf8_lines(r->Ok_0@[0]@),
{
    match parse_normal_bytes(input) {
        Ok(d) => Ok(vec![d]),
        Err(e) => Err(e),
    }
}

pub proof fn lemma_count_prefixed_range(ls: Seq<(Seq<u8>, bool)>, i: int, c: u8)
    requires
        0 <= i <= ls.len(),
    ensures
        forall|q: int|
            i <= q < i + count_prefixed(ls, i, c) ==> has_prefix((#[trigger] ls[q]).0, c),
    decreases ls.len() - i,
{
    if i < ls.len() && has_prefix(ls[i].0, c) {
        lemma_count_prefixed_range(ls, i + 1, c);
    }
}

proof fn lemma_insert_lines_sides(ls: Seq<(Seq<u8>, bool)>, i: int, c: int)
    requires
        c >= 0,
    ensures
        crate::model::old_contents(insert_lines(ls, i, c)).len() == 0,
        crate::model::new_toks(insert_lines(ls, i, c)).len() == c,
        crate::model::insert_count(insert_lines(ls, i, c)) == c,
        crate::model::delete_count(insert_lines(ls, i, c)) == 0,
    decreases c,
{
    if c > 0 {
        lemma_insert_lines_sides(ls, i, c - 1);
        assert(insert_lines(ls, i, c).drop_last() =~= insert_lines(ls, i, c - 1));
    } else {
        assert(insert_lines(ls, i, 0) =~= Seq::<LineV>::empty());
    }
}

proof fn lemma_delete_lines_sides(ls: Seq<(Seq<u8>, bool)>, i: int, c: int)
    requires
        c >= 0,
    ensures
        crate::model::old_contents(delete_lines(ls, i, c)).len() == c,
        crate::model::new_toks(delete_lines(ls, i, c)).len() == 0,
        crate::model::insert_count(delete_lines(ls, i, c)) == 0,
        crate::model::delete_count(delete_lines(ls, i, c)) == c,
    decreases c,
{
    if c > 0 {
        lemma_delete_lines_sides(ls, i, c - 1);
        assert(delete_lines(ls, i, c).drop_last() =~= delete_lines(ls, i, c - 1));
    } else {
        assert(delete_lines(ls, i, 0) =~= Seq::<LineV>::empty());
    }
}

/// Every hunk the parser yields satisfies the hunk invariant: its body agrees
/// with the counts its ranges announce.
pub proof fn lemma_one_hunk_wf(ls: Seq<(Seq<u8>, bool)>, i: int)
    requires
        0 <= i < ls.len(),
    ensures
        spec_parse_one_hunk(ls, i) matches Ok(p) ==> crate::model::wf_hunk(p.0),
{
    if spec_parse_one_hunk(ls, i) is Ok {
        let cmd = spec_parse_command(ls[i].0)->Some_0;
        match cmd.kind {
            CmdKind::Add => {
                lemma_insert_lines_sides(ls, i + 1, count_prefixed(ls, i + 1, NEW_MARK));
            },
            CmdKind::Delete => {
                lemma_delete_lines_sides(ls, i + 1, count_prefixed(ls, i + 1, OLD_MARK));
            },
            CmdKind::Change => {
                let c1 = count_prefixed(ls, i + 1, OLD_MARK);
                let j = i + 1 + c1;
                let c2 = count_prefixed(ls, j + 1, NEW_MARK);
                lemma_delete_lines_sides(ls, i + 1, c1);
                lemma_insert_lines_sides(ls, j + 1, c2);
                crate::model::lemma_sides_app(
                    delete_lines(ls, i + 1, c1),
                    insert_lines(ls, j + 1, c2),
                );
            },
        }
    }
}

/// Stripping the two ASCII prefix bytes of a body line keeps its content
/// valid UTF-8.
proof fn lemma_strip_valid(s: Seq<u8>, c: u8)
    requires
        vstd::utf8::valid_utf8(s),
        has_prefix(s, c),
        c <= 0x7f,
    ensures
        vstd::utf8::valid_utf8(s.skip(2)),
{
    crate::lines::lemma_ascii_head_valid(s);
    assert(s.skip(1)[0] == s[1]);
    crate::lines::lemma_ascii_head_valid(s.skip(1));
    assert(s.skip(1).skip(1) =~= s.skip(2));
}

/// Every line content of a hunk parsed from valid UTF-8 input is valid UTF-8.
pub proof fn lemma_one_hunk_utf8(ls: Seq<(Seq<u8>, bool)>, i: int)
    requires
        0 <= i < ls.len(),
        forall|x: int| 0 <= x < ls.len() ==> vstd::utf8::valid_utf8((#[trigger] ls[x]).0),
    ensures
        spec_parse_one_hunk(ls, i) matches Ok(p) ==> forall|q: int|
            0 <= q < p.0.lines.len() ==> vstd::utf8::valid_utf8(
                crate::model::content_of(#[trigger] p.0.lines[q]),
            ),
{
    lemma_count_prefixed_bounds(ls, i + 1, NEW_MARK);
    lemma_count_prefixed_bounds(ls, i + 1, OLD_MARK);
    lemma_count_prefixed_range(ls, i + 1, NEW_MARK);
    lemma_count_prefixed_range(ls, i + 1, OLD_MARK);
    if spec_parse_one_hunk(ls, i) is Ok {
        let p = spec_parse_one_hunk(ls, i)->Ok_0;
        let cmd = spec_parse_command(ls[i].0)->Some_0;
        match cmd.kind {
            CmdKind::Add => {
                let c = count_prefixed(ls, i + 1, NEW_MARK);
                assert forall|q: int|
                    0 <= q < p.0.lines.len() implies vstd::utf8::valid_utf8(
                    crate::model::content_of(#[trigger] p.0.lines[q]),
                ) by {
                    lemma_strip_valid(ls[i + 1 + q].0, NEW_MARK);
                }
            },
            CmdKind::Delete => {
                let c = count_prefixed(ls, i + 1, OLD_MARK);
                assert forall|q: int|
                    0 <= q < p.0.lines.len() implies vstd::utf8::valid_utf8(
                    crate::model::content_of(#[trigger] p.0.lines[q]),
                ) by {
                    lemma_strip_valid(ls[i + 1 + q].0, OLD_MARK);
                }
            },
            CmdKind::Change => {
                let c1 = count_prefixed(ls, i + 1, OLD_MARK);
                let j = i + 1 + c1;
                let c2 = count_prefixed(ls, j + 1, NEW_MARK);
                lemma_count_prefixed_bounds(ls, j + 1, NEW_MARK);
                lemma_count_prefixed_range(ls, j + 1, NEW_MARK);
                assert forall|q: int|
                    0 <= q < p.0.lines.len() implies vstd::utf8::valid_utf8(
                    crate::model::content_of(#[trigger] p.0.lines[q]),
                ) by {
                    let dels = delete_lines(ls, i + 1, c1);
                    let inss = insert_lines(ls, j + 1, c2);
                    if q < c1 {
                        assert(p.0.lines[q] == dels[q]);
                        lemma_strip_valid(ls[i + 1 + q].0, OLD_MARK);
                    } else {
                        assert(p.0.lines[q] == inss[q - c1]);
                        lemma_strip_valid(ls[j + 1 + (q - c1)].0, NEW_MARK);
                    }
                }
            },
        }
    }
}

/// Every hunk in a parsed sequence satisfies the hunk invariant.
pub proof fn lemma_parse_from_wf(ls: Seq<(Seq<u8>, bool)>, i: int, acc: Seq<HunkV>)
    requires
        0 <= i,
        forall|k: int| 0 <= k < acc.len() ==> crate::model::wf_hunk(#[trigger] acc[k]),
    ensures
        spec_parse_hunks_from(ls, i, acc) matches Ok(hs) ==> forall|k: int|
            0 <= k < hs.len() ==> crate::model::wf_hunk(#[trigger] hs[k]),
    decreases ls.len() - i,
{
    if i >= ls.len() {
    } else if is_blank(ls[i].0) {
        lemma_parse_from_wf(ls, i + 1, acc);
    } else {
        match spec_parse_one_hunk(ls, i) {
            Ok(p) => {
                lemma_one_hunk_wf(ls, i);
                lemma_one_hunk_advances(ls, i);
                assert forall|k: int|
                    0 <= k < acc.push(p.0).len() implies crate::model::wf_hunk(
                    #[trigger] acc.push(p.0)[k],
                ) by {
                    if k < acc.len() {
                        assert(acc.push(p.0)[k] == acc[k]);
                    }
                }
                lemma_parse_from_wf(ls, p.1, acc.push(p.0));
            },
            Err(_) => {},
        }
    }
}

/// Every line content of every hunk parsed from valid UTF-8 input is valid
/// UTF-8.
pub proof fn lemma_parse_from_utf8(ls: Seq<(Seq<u8>, bool)>, i: int, acc: Seq<HunkV>)
    requires
        0 <= i,
        forall|x: int| 0 <= x < ls.len() ==> vstd::utf8::valid_utf8((#[trigger] ls[x]).0),
        forall|k: int, q: int|
            0 <= k < acc.len() && 0 <= q < acc[k].lines.len() ==> vstd::utf8::valid_utf8(
                crate::model::content_of(#[trigger] acc[k].lines[q]),
            ),
    ensures
        spec_parse_hunks_from(ls, i, acc) matches Ok(hs) ==> forall|k: int, q: int|
            0 <= k < hs.len() && 0 <= q < hs[k].lines.len() ==> vstd::utf8::valid_utf8(
                crate::model::content_of(#[trigger] hs[k].lines[q]),
            ),
    decreases ls.len() - i,
{
    if i >= ls.len() {
    } else if is_blank(ls[i].0) {
        lemma_parse_from_utf8(ls, i + 1, acc);
    } else {
        match spec_parse_one_hunk(ls, i) {
            Ok(p) => {
                lemma_one_hunk_utf8(ls, i);
                lemma_one_hunk_advances(ls, i);
                assert forall|k: int, q: int|
                    0 <= k < acc.push(p.0).len() && 0 <= q < acc.push(p.0)[k].lines.len()
                    implies vstd::utf8::valid_utf8(crate::model::content_of(
                    #[trigger] acc.push(p.0)[k].lines[q],
                )) by {
                    if k < acc.len() {
                        assert(acc.push(p.0)[k] == acc[k]);
                    } else {
                        assert(acc.push(p.0)[k] == p.0);
                    }
                }
                lemma_parse_from_utf8(ls, p.1, acc.push(p.0));
            },
            Err(_) => {},
        }
    }
}

} // verus!
