//! Line decomposition of byte texts.
//!
//! A text is split at newline bytes into physical lines; each line keeps its
//! content (without the terminator) and whether a terminating newline was
//! present, so that joining the lines back together restores the text exactly.

use vstd::prelude::*;

verus! {

/// The line terminator byte (`\n`).
pub const NL: u8 = 10;

/// One physical line: its content without the terminator, and whether a
/// terminating newline byte followed it in the text.
pub struct RawLine {
    pub content: Vec<u8>,
    pub terminated: bool,
}

impl View for RawLine {
    type V = (Seq<u8>, bool);

    open spec fn view(&self) -> (Seq<u8>, bool) {
        (self.content@, self.terminated)
    }
}

impl RawLine {
    /// A copy of this line with equal content and terminator flag.
    pub fn duplicate(&self) -> (r: RawLine)
        ensures
            r@ == self@,
    {
        RawLine { content: vstd::slice::slice_to_vec(self.content.as_slice()), terminated: self.terminated }
    }
}

/// The views of a sequence of lines, in order.
pub open spec fn views_of(ls: Seq<RawLine>) -> Seq<(Seq<u8>, bool)> {
    Seq::new(ls.len(), |i: int| ls[i]@)
}

/// Index of the first occurrence of byte `b` in `t`, or `t.len()` if absent.
pub open spec fn first_occ(t: Seq<u8>, b: u8) -> int
    decreases t.len(),
{
    if t.len() == 0 {
        0
    } else if t[0] == b {
        0
    } else {
        1 + first_occ(t.drop_first(), b)
    }
}

pub proof fn lemma_first_occ(t: Seq<u8>, b: u8)
    ensures
        0 <= first_occ(t, b) <= t.len(),
        forall|j: int| 0 <= j < first_occ(t, b) ==> t[j] != b,
        first_occ(t, b) < t.len() ==> t[first_occ(t, b)] == b,
    decreases t.len(),
{
    if t.len() > 0 && t[0] != b {
        lemma_first_occ(t.drop_first(), b);
        assert forall|j: int| 0 <= j < first_occ(t, b) implies t[j] != b by {
            if j > 0 {
                assert(t.drop_first()[j - 1] == t[j]);
            }
        }
    }
}

/// `first_occ` is the unique index with the scanned-prefix property.
pub proof fn lemma_first_occ_is(t: Seq<u8>, b: u8, k: int)
    requires
        0 <= k <= t.len(),
        forall|j: int| 0 <= j < k ==> t[j] != b,
        k < t.len() ==> t[k] == b,
    ensures
        first_occ(t, b) == k,
{
    lemma_first_occ(t, b);
}

#[via_fn]
proof fn spec_lines_decreases(t: Seq<u8>) {
    lemma_first_occ(t, NL);
}

/// The physical lines of a byte text: content up to each newline (which is
/// consumed), and finally the unterminated tail if the text does not end in a
/// newline. An empty text has no lines.
pub open spec fn spec_lines(t: Seq<u8>) -> Seq<(Seq<u8>, bool)>
    decreases t.len(),
    via spec_lines_decreases
{
    if t.len() == 0 {
        Seq::empty()
    } else {
        let p = first_occ(t, NL);
        if p < t.len() {
            seq![(t.take(p), true)] + spec_lines(t.skip(p + 1))
        } else {
            seq![(t, false)]
        }
    }
}

/// The bytes a line contributes to the text it came from.
pub open spec fn line_bytes(l: (Seq<u8>, bool)) -> Seq<u8> {
    if l.1 {
        l.0 + seq![NL]
    } else {
        l.0
    }
}

/// Concatenation of the bytes of all lines, in order.
pub open spec fn join_lines(ls: Seq<(Seq<u8>, bool)>) -> Seq<u8>
    decreases ls.len(),
{
    if ls.len() == 0 {
        Seq::empty()
    } else {
        line_bytes(ls[0]) + join_lines(ls.drop_first())
    }
}

pub proof fn lemma_join_lines_app(a: Seq<(Seq<u8>, bool)>, c: Seq<(Seq<u8>, bool)>)
    ensures
        join_lines(a + c) == join_lines(a) + join_lines(c),
    decreases a.len(),
{
    if a.len() == 0 {
        assert(a + c =~= c);
        assert(join_lines(a) + join_lines(c) =~= join_lines(c));
    } else {
        lemma_join_lines_app(a.drop_first(), c);
        assert((a + c).drop_first() =~= a.drop_first() + c);
        assert(line_bytes((a + c)[0]) + (join_lines(a.drop_first()) + join_lines(c)) =~= (
        line_bytes(a[0]) + join_lines(a.drop_first())) + join_lines(c));
    }
}

pub proof fn lemma_join_lines_push(a: Seq<(Seq<u8>, bool)>, l: (Seq<u8>, bool))
    ensures
        join_lines(a.push(l)) == join_lines(a) + line_bytes(l),
{
    assert(a.push(l) =~= a + seq![l]);
    lemma_join_lines_app(a, seq![l]);
    assert(seq![l].drop_first() =~= Seq::<(Seq<u8>, bool)>::empty());
    assert(join_lines(Seq::<(Seq<u8>, bool)>::empty()) =~= Seq::<u8>::empty());
    assert(join_lines(seq![l]) =~= line_bytes(l));
}

/// Joining the lines of a text restores the text exactly.
pub proof fn lemma_join_spec_lines(t: Seq<u8>)
    ensures
        join_lines(spec_lines(t)) == t,
    decreases t.len(),
{
    if t.len() > 0 {
        lemma_first_occ(t, NL);
        let p = first_occ(t, NL);
        if p < t.len() {
            lemma_join_spec_lines(t.skip(p + 1));
            let head = seq![(t.take(p), true)];
            let rest = spec_lines(t.skip(p + 1));
            assert((head + rest).drop_first() =~= rest);
            assert(line_bytes((t.take(p), true)) == t.take(p) + seq![NL]);
            assert((t.take(p) + seq![NL]) + t.skip(p + 1) =~= t);
        } else {
            assert(seq![(t, false)].drop_first() =~= Seq::<(Seq<u8>, bool)>::empty());
            assert(join_lines(Seq::<(Seq<u8>, bool)>::empty()) =~= Seq::<u8>::empty());
            assert(join_lines(seq![(t, false)]) =~= t);
        }
    }
}

pub proof fn lemma_views_push(ls: Seq<RawLine>, l: RawLine)
    ensures
        views_of(ls.push(l)) == views_of(ls).push(l@),
{
    assert(views_of(ls.push(l)) =~= views_of(ls).push(l@));
}

/// Splits a byte text into its physical lines.
#[verifier::loop_isolation(false)]
pub fn split_lines(t: &[u8]) -> (r: Vec<RawLine>)
    ensures
        views_of(r@) == spec_lines(t@),
{
    let mut out: Vec<RawLine> = Vec::new();
    let mut pos: usize = 0;
    proof {
        assert(t@.skip(0) =~= t@);
        assert(views_of(out@) =~= Seq::<(Seq<u8>, bool)>::empty());
    }
    while pos < t.len()
        invariant
            pos <= t@.len(),
            spec_lines(t@) == views_of(out@) + spec_lines(t@.skip(pos as int)),
        decreases t@.len() - pos,
    {
        let ghost rem = t@.skip(pos as int);
        let mut j: usize = pos;
        while j < t.len() && t[j] != NL
            invariant
                pos <= j <= t@.len(),
                forall|q: int| pos <= q < j ==> t@[q] != NL,
            decreases t@.len() - j,
        {
            j += 1;
        }
        proof {
            assert forall|q: int| 0 <= q < j - pos implies rem[q] != NL by {
                assert(rem[q] == t@[pos + q]);
            }
            if j < t@.len() {
                assert(rem[j - pos] == t@[j as int]);
            }
            lemma_first_occ_is(rem, NL, j - pos);
        }
        if j < t.len() {
            let content = vstd::slice::slice_to_vec(vstd::slice::slice_subrange(t, pos, j));
            let line = RawLine { content, terminated: true };
            proof {
                assert(rem.take(j - pos) =~= t@.subrange(pos as int, j as int));
                assert(rem.skip(j - pos + 1) =~= t@.skip(j + 1));
                lemma_views_push(out@, line);
                assert(views_of(out@.push(line)) + spec_lines(t@.skip(j + 1)) =~= views_of(out@)
                    + spec_lines(rem));
            }
            out.push(line);
            pos = j + 1;
        } else {
            let content = vstd::slice::slice_to_vec(vstd::slice::slice_subrange(t, pos, j));
            let line = RawLine { content, terminated: false };
            proof {
                assert(t@.subrange(pos as int, j as int) =~= rem);
                lemma_views_push(out@, line);
                assert(spec_lines(rem) =~= seq![(rem, false)]);
                assert(views_of(out@.push(line)) + spec_lines(t@.skip(j as int)) =~= views_of(
                out@) + spec_lines(rem));
                assert(t@.skip(j as int) =~= Seq::<u8>::empty());
            }
            out.push(line);
            pos = j;
            proof {
                assert(spec_lines(t@.skip(pos as int)) =~= Seq::<(Seq<u8>, bool)>::empty());
            }
            break;
        }
    }
    proof {
        assert(t@.skip(pos as int) =~= Seq::<u8>::empty());
        assert(views_of(out@) + spec_lines(t@.skip(pos as int)) =~= views_of(out@));
    }
    out
}

/// Appends the bytes of `s` to `out`.
#[verifier::loop_isolation(false)]
pub fn push_bytes(out: &mut Vec<u8>, s: &[u8])
    ensures
        final(out)@ == old(out)@ + s@,
{
    let mut i: usize = 0;
    while i < s.len()
        invariant
            i <= s@.len(),
            out@ == old(out)@ + s@.take(i as int),
        decreases s@.len() - i,
    {
        let b = s[i];
        out.push(b);
        proof {
            assert((old(out)@ + s@.take(i as int)).push(b) =~= old(out)@ + s@.take(i + 1));
        }
        i += 1;
    }
    proof {
        assert(old(out)@ + s@.take(s@.len() as int) =~= old(out)@ + s@);
    }
}

/// Concatenates the bytes of all lines, in order.
#[verifier::loop_isolation(false)]
pub fn join_to_bytes(ls: &Vec<RawLine>) -> (r: Vec<u8>)
    ensures
        r@ == join_lines(views_of(ls@)),
{
    let mut out: Vec<u8> = Vec::new();
    let mut k: usize = 0;
    proof {
        assert(views_of(ls@).take(0) =~= Seq::<(Seq<u8>, bool)>::empty());
    }
    while k < ls.len()
        invariant
            k <= ls@.len(),
            out@ == join_lines(views_of(ls@).take(k as int)),
        decreases ls@.len() - k,
    {
        push_bytes(&mut out, ls[k].content.as_slice());
        if ls[k].terminated {
            out.push(NL);
        }
        proof {
            assert(views_of(ls@).take(k + 1) =~= views_of(ls@).take(k as int).push(ls@[k as int]@));
            lemma_join_lines_push(views_of(ls@).take(k as int), ls@[k as int]@);
            if ls@[k as int].terminated {
                assert(out@ =~= join_lines(views_of(ls@).take(k as int)) + line_bytes(
                ls@[k as int]@));
            } else {
                assert(out@ =~= join_lines(views_of(ls@).take(k as int)) + line_bytes(
                ls@[k as int]@));
            }
        }
        k += 1;
    }
    proof {
        assert(views_of(ls@).take(ls@.len() as int) =~= views_of(ls@));
    }
    out
}

/// A valid UTF-8 text that starts with an ASCII byte stays valid once that
/// byte is removed.
pub proof fn lemma_ascii_head_valid(s: Seq<u8>)
    requires
        vstd::utf8::valid_utf8(s),
        s.len() > 0,
        s[0] <= 0x7f,
    ensures
        vstd::utf8::valid_utf8(s.skip(1)),
{
    assert(vstd::utf8::is_leading_byte_width_1(s[0]));
    assert(vstd::utf8::length_of_first_scalar(s) == 1);
    assert(vstd::utf8::pop_first_scalar(s) =~= s.skip(1));
}

/// A single newline byte is valid UTF-8.
pub proof fn lemma_nl_valid()
    ensures
        vstd::utf8::valid_utf8(seq![NL]),
{
    let s = seq![NL];
    assert(vstd::utf8::is_leading_byte_width_1(s[0]));
    assert(vstd::utf8::length_of_first_scalar(s) == 1);
    assert(10u8 & 0x7f == 10u8) by (bit_vector);
    assert(vstd::utf8::decode_first_codepoint(s) == 10u32);
    assert(vstd::utf8::valid_first_scalar(s));
    assert(vstd::utf8::pop_first_scalar(s) =~= Seq::<u8>::empty());
    assert(vstd::utf8::valid_utf8(Seq::<u8>::empty()));
}

/// Every line content of a valid UTF-8 text is itself valid UTF-8.
pub proof fn lemma_spec_lines_valid(t: Seq<u8>)
    requires
        vstd::utf8::valid_utf8(t),
    ensures
        forall|x: int|
            0 <= x < spec_lines(t).len() ==> vstd::utf8::valid_utf8(
                (#[trigger] spec_lines(t)[x]).0,
            ),
    decreases t.len(),
{
    if t.len() > 0 {
        lemma_first_occ(t, NL);
        let p = first_occ(t, NL);
        if p < t.len() {
            vstd::utf8::is_char_boundary_iff_not_is_continuation_byte(t, p);
            assert(vstd::utf8::is_char_boundary(t, p));
            vstd::utf8::valid_utf8_split(t, p);
            assert(t.subrange(0, p) =~= t.take(p));
            let rest = t.subrange(p, t.len() as int);
            assert(rest[0] == NL);
            lemma_ascii_head_valid(rest);
            assert(rest.skip(1) =~= t.skip(p + 1));
            lemma_spec_lines_valid(t.skip(p + 1));
            let head = seq![(t.take(p), true)];
            let tail = spec_lines(t.skip(p + 1));
            assert forall|x: int| 0 <= x < spec_lines(t).len() implies vstd::utf8::valid_utf8(
                (#[trigger] spec_lines(t)[x]).0,
            ) by {
                if x > 0 {
                    assert(spec_lines(t)[x] == tail[x - 1]);
                }
            }
        }
    }
}

/// Joining lines whose contents are all valid UTF-8 yields valid UTF-8.
pub proof fn lemma_join_lines_valid(ls: Seq<(Seq<u8>, bool)>)
    requires
        forall|x: int| 0 <= x < ls.len() ==> vstd::utf8::valid_utf8((#[trigger] ls[x]).0),
    ensures
        vstd::utf8::valid_utf8(join_lines(ls)),
    decreases ls.len(),
{
    if ls.len() == 0 {
        assert(vstd::utf8::valid_utf8(Seq::<u8>::empty()));
    } else {
        assert forall|x: int|
            0 <= x < ls.drop_first().len() implies vstd::utf8::valid_utf8(
            (#[trigger] ls.drop_first()[x]).0,
        ) by {
            assert(ls.drop_first()[x] == ls[x + 1]);
        }
        lemma_join_lines_valid(ls.drop_first());
        assert(vstd::utf8::valid_utf8(ls[0].0));
        if ls[0].1 {
            lemma_nl_valid();
            vstd::utf8::valid_utf8_concat(ls[0].0, seq![NL]);
        }
        vstd::utf8::valid_utf8_concat(line_bytes(ls[0]), join_lines(ls.drop_first()));
    }
}

} // verus!
