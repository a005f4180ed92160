//! `CombinedStrView`: a borrowed byte range of a `CombinedStr`, which may span segments.
use core::ops::Bound;
use std::borrow::Cow;
use std::ops::{Add, AddAssign};
use vstd::prelude::*;
use vstd::slice::slice_subrange;
use vstd::std_specs::cmp::PartialEqSpecImpl;
use vstd::std_specs::convert::FromSpecImpl;
use vstd::std_specs::ops::AddSpecImpl;
use vstd::string::StringSliceAdditionalSpecFns;
use vstd::utf8::{encode_utf8, is_char_boundary, valid_utf8};

use crate::combined_str::{
    cow_is_empty, joined_strs, joined_text, lemma_joined_text_bytes, lemma_segment_bytes_valid,
    segment_bytes, total_bytes, CombinedStr,
};
use crate::iter::SegmentStream;
use crate::segments::{
    holding, joined, lemma_boundary_local, lemma_boundary_prefix, lemma_holding,
    lemma_holding_unique, lemma_joined_concat, lemma_joined_single, lemma_joined_subrange,
    lemma_joined_take_step, lemma_offset_end, lemma_offset_monotone, lemma_segment_in_joined,
    offset,
};

verus! {

broadcast use vstd::utf8::group_utf8_lib;

/// The first segment, then the middle ones, then the last.
pub open spec fn three_parts<'a>(first: &'a str, middle: Seq<&'a str>, last: &'a str) -> Seq<&'a str> {
    seq![first] + middle + seq![last]
}

/// Segments joined around a middle run are the outer segments' bytes around the middle's.
pub proof fn lemma_three_parts_bytes(first: &str, middle: Seq<&str>, last: &str)
    ensures
        joined_strs(three_parts(first, middle, last)) == first.spec_bytes() + joined_strs(middle)
            + last.spec_bytes(),
{
    let a = segment_bytes(seq![first]);
    let m = segment_bytes(middle);
    let c = segment_bytes(seq![last]);
    assert(segment_bytes(three_parts(first, middle, last)) =~= a + m + c);
    lemma_joined_concat(a + m, c);
    lemma_joined_concat(a, m);
    assert(a =~= seq![first.spec_bytes()]);
    assert(c =~= seq![last.spec_bytes()]);
    lemma_joined_single(first.spec_bytes());
    lemma_joined_single(last.spec_bytes());
}

/// The bytes of the pieces that a view of bytes `start..end` of the segments
/// `strs` holds: the part of the segment holding byte `start` from there on,
/// every whole segment up to the one holding byte `end - 1`, and the part of
/// that one up to `end`. A range inside one segment gives that part and an
/// empty piece; an empty range gives two empty pieces.
pub open spec fn range_pieces(strs: Seq<&str>, start: int, end: int) -> Seq<Seq<u8>> {
    let sb = segment_bytes(strs);
    if start == end {
        seq![Seq::empty(), Seq::empty()]
    } else {
        let f = holding(sb, start) as int;
        let l = holding(sb, end - 1) as int;
        let from = start - offset(sb, f);
        if f == l {
            seq![sb[f].subrange(from, end - offset(sb, f)), Seq::empty()]
        } else {
            seq![sb[f].skip(from)] + sb.subrange(f + 1, l) + seq![sb[l].take(end - offset(sb, l))]
        }
    }
}

/// The pieces of a range join to exactly the bytes of that range.
pub proof fn lemma_range_pieces_bytes(strs: Seq<&str>, start: int, end: int)
    requires
        0 <= start <= end <= joined_strs(strs).len(),
    ensures
        joined(range_pieces(strs, start, end)) == joined_strs(strs).subrange(start, end),
{
    let sb = segment_bytes(strs);
    let j = joined(sb);
    let pieces = range_pieces(strs, start, end);
    let e: Seq<u8> = Seq::empty();
    if start == end {
        lemma_joined_concat(seq![e], seq![e]);
        lemma_joined_single(e);
        assert(seq![e] + seq![e] =~= pieces);
        assert(j.subrange(start, end) =~= e + e);
    } else {
        let f = holding(sb, start) as int;
        let l = holding(sb, end - 1) as int;
        lemma_holding(sb, start);
        lemma_holding(sb, end - 1);
        lemma_offset_end(sb);
        if l < f {
            lemma_offset_monotone(sb, l + 1, f);
        }
        lemma_segment_in_joined(sb, f);
        lemma_segment_in_joined(sb, l);
        lemma_joined_take_step(sb, f);
        lemma_joined_take_step(sb, l);
        if f == l {
            let a = sb[f].subrange(start - offset(sb, f), end - offset(sb, f));
            lemma_joined_concat(seq![a], seq![e]);
            lemma_joined_single(a);
            lemma_joined_single(e);
            assert(seq![a] + seq![e] =~= pieces);
            assert(a =~= j.subrange(start, end));
        } else {
            let a = sb[f].skip(start - offset(sb, f));
            let m = sb.subrange(f + 1, l);
            let c = sb[l].take(end - offset(sb, l));
            lemma_joined_concat(seq![a] + m, seq![c]);
            lemma_joined_concat(seq![a], m);
            lemma_joined_single(a);
            lemma_joined_single(c);
            lemma_joined_subrange(sb, f + 1, l);
            lemma_offset_monotone(sb, f + 1, l);
            assert(a =~= j.subrange(start, offset(sb, f + 1) as int));
            assert(c =~= j.subrange(offset(sb, l) as int, end));
            assert(j.subrange(start, end) =~= a + joined(m) + c);
        }
    }
}

/// The range `start..end` if it lies within `len` bytes and does not run backwards.
pub open spec fn checked_range(start: int, end: int, len: nat) -> Option<(int, int)> {
    if start <= end && end <= len {
        Some((start, end))
    } else {
        None
    }
}

/// Where a range with lower bound `b` starts; `None` if that does not fit in a `usize`.
pub open spec fn bound_start(b: Bound<usize>) -> Option<int> {
    match b {
        Bound::Included(s) => Some(s as int),
        Bound::Excluded(s) => if s < usize::MAX {
            Some(s + 1)
        } else {
            None
        },
        Bound::Unbounded => Some(0),
    }
}

/// Where a range with upper bound `b` ends in `len` bytes; `None` if that does not fit
/// in a `usize`.
pub open spec fn bound_end(b: Bound<usize>, len: nat) -> Option<int> {
    match b {
        Bound::Included(e) => if e < usize::MAX {
            Some(e + 1)
        } else {
            None
        },
        Bound::Excluded(e) => Some(e as int),
        Bound::Unbounded => Some(len as int),
    }
}

/// The half-open range that a pair of bounds selects in `len` bytes, if any.
pub open spec fn resolved_bounds(bounds: (Bound<usize>, Bound<usize>), len: nat) -> Option<(int, int)> {
    match (bound_start(bounds.0), bound_end(bounds.1, len)) {
        (Some(s), Some(e)) => checked_range(s, e, len),
        _ => None,
    }
}

/// A borrowed view into a [`CombinedStr`](crate::CombinedStr), representing a
/// sub-range that may span several segments.
///
/// It holds the trimmed first slice, the whole segments in between (borrowed
/// from the original segment array), and the trimmed last slice. When the
/// range falls within a single segment, `middle` is empty and `last` is `""`.
#[derive(Debug, Clone, Copy)]
pub struct CombinedStrView<'a> {
    first: &'a str,
    middle: &'a [&'a str],
    last: &'a str,
}

impl<'a> View for CombinedStrView<'a> {
    type V = Seq<u8>;

    /// The bytes of the view, in order.
    open spec fn view(&self) -> Seq<u8> {
        joined_strs(self.segments())
    }
}

impl<'a> CombinedStrView<'a> {
    /// The segments of the view: the first slice, the middle ones, the last slice.
    pub closed spec fn segments(&self) -> Seq<&'a str> {
        three_parts(self.first, self.middle@, self.last)
    }

    #[verifier::type_invariant]
    spec fn inv(&self) -> bool {
        joined_strs(self.segments()).len() <= usize::MAX
    }

    /// Returns the total byte length of this view.
    pub fn len(&self) -> (n: usize)
        ensures
            n == self@.len(),
    {
        proof {
            use_type_invariant(self);
            lemma_three_parts_bytes(self.first, self.middle@, self.last);
        }
        let a: usize = self.first.len();
        let b: usize = total_bytes(self.middle);
        let c: usize = self.last.len();
        a + b + c
    }

    /// Returns `true` if this view contains no bytes.
    pub fn is_empty(&self) -> (b: bool)
        ensures
            b == (self@.len() == 0),
    {
        self.len() == 0
    }

    /// Turns the view into an iterator over its segments.
    pub fn into_iter(self) -> (it: CombinedStrViewIter<'a>)
        ensures
            it@ == self.segments(),
    {
        let it = CombinedStrViewIter {
            first: Some(self.first),
            middle: self.middle,
            pos: 0,
            last: Some(self.last),
        };
        assert(self.middle@.skip(0) =~= self.middle@);
        assert(it@ =~= self.segments());
        it
    }
}

/// The segment, if any, held in an option, as a run of zero or one segments.
pub open spec fn opt_seq<'a>(o: Option<&'a str>) -> Seq<&'a str> {
    match o {
        Some(s) => seq![s],
        None => Seq::empty(),
    }
}

/// An iterator over the string segments of a [`CombinedStrView`].
pub struct CombinedStrViewIter<'a> {
    first: Option<&'a str>,
    middle: &'a [&'a str],
    pos: usize,
    last: Option<&'a str>,
}

impl<'a> View for CombinedStrViewIter<'a> {
    type V = Seq<&'a str>;

    /// The segments still to come.
    closed spec fn view(&self) -> Seq<&'a str> {
        opt_seq(self.first) + self.middle@.skip(self.pos as int) + opt_seq(self.last)
    }
}

impl<'a> CombinedStrViewIter<'a> {
    #[verifier::type_invariant]
    spec fn inv(&self) -> bool {
        self.pos <= self.middle@.len()
    }

    /// Returns the next segment, or `None` once every segment has been returned.
    pub fn next(&mut self) -> (r: Option<&'a str>)
        ensures
            old(self)@.len() == 0 ==> r is None && final(self)@.len() == 0,
            old(self)@.len() > 0 ==> r == Some(old(self)@[0]) && final(self)@ == old(self)@.drop_first(),
    {
        proof {
            use_type_invariant(&*self);
        }
        let ghost before = self@;
        if let Some(first) = self.first {
            self.first = None;
            assert(self@ =~= before.drop_first());
            return Some(first);
        }
        if self.pos < self.middle.len() {
            let seg = self.middle[self.pos];
            self.pos = self.pos + 1;
            assert(self@ =~= before.drop_first());
            return Some(seg);
        }
        if let Some(last) = self.last {
            self.last = None;
            assert(self@ =~= before.drop_first());
            Some(last)
        } else {
            None
        }
    }
}

impl<'a> SegmentStream<'a> for CombinedStrViewIter<'a> {
    open spec fn remaining(&self) -> Seq<&'a str> {
        self@
    }

    fn next_segment(&mut self) -> (r: Option<&'a str>) {
        self.next()
    }
}

/// Compares two byte slices element by element.
pub(crate) fn bytes_match(a: &[u8], b: &[u8]) -> (r: bool)
    ensures
        r == (a@ == b@),
{
    if a.len() != b.len() {
        return false;
    }
    let mut i: usize = 0;
    while i < a.len()
        invariant
            i <= a@.len(),
            a@.len() == b@.len(),
            a@.take(i as int) == b@.take(i as int),
        decreases a@.len() - i,
    {
        if a[i] != b[i] {
            assert(a@[i as int] != b@[i as int]);
            return false;
        }
        assert(a@.take(i + 1) =~= a@.take(i as int).push(a@[i as int]));
        assert(b@.take(i + 1) =~= b@.take(i as int).push(b@[i as int]));
        i = i + 1;
    }
    assert(a@.take(i as int) =~= a@);
    assert(b@.take(i as int) =~= b@);
    true
}

/// Compares two streams of segments of equal total length byte by byte,
/// walking both at once without joining either.
fn same_bytes<'a, 'b, A: SegmentStream<'a>, B: SegmentStream<'b>>(a0: A, b0: B) -> (r: bool)
    requires
        joined_strs(a0.remaining()).len() == joined_strs(b0.remaining()).len(),
    ensures
        r == (joined_strs(a0.remaining()) == joined_strs(b0.remaining())),
{
    let mut a = a0;
    let mut b = b0;
    let ghost sa = segment_bytes(a0.remaining());
    let ghost sbb = segment_bytes(b0.remaining());
    let ghost ja = joined(sa);
    let ghost jb = joined(sbb);
    let ghost mut ta: int = 0;
    let ghost mut tb: int = 0;
    proof {
        reveal_strlit("");
        lemma_offset_end(sa);
        lemma_offset_end(sbb);
    }
    let mut a_buf: &'a [u8] = "".as_bytes();
    let mut b_buf: &'b [u8] = "".as_bytes();
    loop
        invariant
            sa == segment_bytes(a0.remaining()),
            sbb == segment_bytes(b0.remaining()),
            ja == joined(sa),
            jb == joined(sbb),
            ja.len() == jb.len(),
            offset(sa, sa.len() as int) == ja.len(),
            offset(sbb, sbb.len() as int) == jb.len(),
            0 <= ta <= sa.len(),
            0 <= tb <= sbb.len(),
            a.remaining() == a0.remaining().skip(ta),
            b.remaining() == b0.remaining().skip(tb),
            a_buf@.len() <= offset(sa, ta) <= ja.len(),
            b_buf@.len() <= offset(sbb, tb) <= jb.len(),
            a_buf@ == ja.subrange(offset(sa, ta) - a_buf@.len(), offset(sa, ta) as int),
            b_buf@ == jb.subrange(offset(sbb, tb) - b_buf@.len(), offset(sbb, tb) as int),
            offset(sa, ta) - a_buf@.len() == offset(sbb, tb) - b_buf@.len(),
            ja.take(offset(sa, ta) - a_buf@.len()) == jb.take(offset(sbb, tb) - b_buf@.len()),
        decreases (sa.len() - ta) + (sbb.len() - tb), a_buf@.len() + b_buf@.len(),
    {
        let ghost pos = offset(sa, ta) - a_buf@.len();
        if a_buf.len() == 0 {
            let ghost rest = a.remaining();
            match a.next_segment() {
                Some(s) => {
                    proof {
                        assert(rest[0] == a0.remaining()[ta]);
                        lemma_joined_take_step(sa, ta);
                        lemma_segment_in_joined(sa, ta);
                        ta = ta + 1;
                        assert(a.remaining() =~= a0.remaining().skip(ta));
                    }
                    a_buf = s.as_bytes();
                },
                None => {
                    proof {
                        assert(ja.take(pos) =~= ja);
                        lemma_offset_monotone(sbb, tb, sbb.len() as int);
                        assert(jb.take(pos) =~= jb);
                    }
                    return true;
                },
            }
        } else if b_buf.len() == 0 {
            let ghost rest = b.remaining();
            match b.next_segment() {
                Some(s) => {
                    proof {
                        assert(rest[0] == b0.remaining()[tb]);
                        lemma_joined_take_step(sbb, tb);
                        lemma_segment_in_joined(sbb, tb);
                        tb = tb + 1;
                        assert(b.remaining() =~= b0.remaining().skip(tb));
                    }
                    b_buf = s.as_bytes();
                },
                None => {
                    proof {
                        assert(jb.take(pos) =~= jb);
                        lemma_offset_monotone(sa, ta, sa.len() as int);
                        assert(ja.take(pos) =~= ja);
                    }
                    return true;
                },
            }
        } else {
            let n: usize = if a_buf.len() < b_buf.len() {
                a_buf.len()
            } else {
                b_buf.len()
            };
            let a_head: &'a [u8] = slice_subrange(a_buf, 0, n);
            let b_head: &'b [u8] = slice_subrange(b_buf, 0, n);
            if !bytes_match(a_head, b_head) {
                proof {
                    assert(a_head@ == ja.subrange(pos, pos + n));
                    assert(b_head@ == jb.subrange(pos, pos + n));
                }
                return false;
            }
            proof {
                assert(ja.take(pos + n) =~= ja.take(pos) + a_head@);
                assert(jb.take(pos + n) =~= jb.take(pos) + b_head@);
            }
            a_buf = slice_subrange(a_buf, n, a_buf.len());
            b_buf = slice_subrange(b_buf, n, b_buf.len());
        }
    }
}

impl<'a> CombinedStrView<'a> {
    /// Resolves a `(Bound<usize>, Bound<usize>)` pair into a half-open `start..end`
    /// range within `len` bytes. Returns `None` if the range is invalid.
    pub(crate) fn resolve_bounds(bounds: &(Bound<usize>, Bound<usize>), len: usize) -> (r: Option<
        (usize, usize),
    >)
        ensures
            r matches Some((s, e)) ==> resolved_bounds(*bounds, len as nat) == Some((s as int, e as int)),
            r is None ==> resolved_bounds(*bounds, len as nat) is None,
    {
        let start = match bounds.0 {
            Bound::Included(s) => s,
            Bound::Excluded(s) => s.checked_add(1)?,
            Bound::Unbounded => 0,
        };
        let end = match bounds.1 {
            Bound::Included(e) => e.checked_add(1)?,
            Bound::Excluded(e) => e,
            Bound::Unbounded => len,
        };
        if start > end || end > len {
            return None;
        }
        Some((start, end))
    }

    /// Produces the view of bytes `start..end` of `slice` by walking its segments.
    pub(crate) fn from_range<const N: usize>(
        slice: &'a CombinedStr<'a, N>,
        start: usize,
        end: usize,
    ) -> (r: CombinedStrView<'a>)
        requires
            slice.fits(),
            start <= end <= slice@.len(),
            start < end ==> is_char_boundary(slice@, start as int) && is_char_boundary(
                slice@,
                end as int,
            ),
        ensures
            segment_bytes(r.segments()) == range_pieces(slice.strs@, start as int, end as int),
            r@ == slice@.subrange(start as int, end as int),
    {
        proof {
            lemma_range_pieces_bytes(slice.strs@, start as int, end as int);
        }
        let all: &'a [&'a str] = slice.strs.as_slice();
        if start == end {
            let none: &'a [&'a str] = slice_subrange(all, 0, 0);
            proof {
                reveal_strlit("");
                lemma_three_parts_bytes("", none@, "");
                assert(segment_bytes(none@) =~= Seq::empty());
            }
            let r = CombinedStrView { first: "", middle: none, last: "" };
            assert(segment_bytes(r.segments()) =~= range_pieces(slice.strs@, start as int, end as int));
            return r;
        }
        let ghost sb = segment_bytes(slice.strs@);
        proof {
            lemma_offset_end(sb);
            lemma_segment_bytes_valid(slice.strs@);
        }
        let mut seg_start: usize = 0;
        let mut first_seg: Option<usize> = None;
        let mut first_offset: usize = 0;
        let mut last_seg: usize = 0;
        let mut last_offset: usize = 0;
        let mut i: usize = 0;
        loop
            invariant_except_break
                i < N,
                seg_start == offset(sb, i as int),
                seg_start < end,
                first_seg is None ==> seg_start <= start,
            invariant
                sb == segment_bytes(slice.strs@),
                sb.len() == N,
                start < end <= joined(sb).len() <= usize::MAX,
                offset(sb, N as int) == joined(sb).len(),
                first_seg matches Some(f) ==> f <= i && first_offset == offset(sb, f as int)
                    && first_offset <= start < offset(sb, f + 1),
            ensures
                first_seg matches Some(f) ==> f <= last_seg && first_offset == offset(sb, f as int)
                    && first_offset <= start < offset(sb, f + 1),
                first_seg is Some,
                last_seg < N,
                last_offset == offset(sb, last_seg as int),
                last_offset < end <= offset(sb, last_seg + 1),
            decreases N - i,
        {
            proof {
                lemma_joined_take_step(sb, i as int);
                lemma_offset_monotone(sb, i + 1, N as int);
            }
            let seg_end: usize = seg_start + slice.strs[i].len();
            if first_seg.is_none() && start < seg_end {
                first_seg = Some(i);
                first_offset = seg_start;
            }
            if end <= seg_end {
                last_seg = i;
                last_offset = seg_start;
                break;
            }
            seg_start = seg_end;
            if i + 1 == N {
                assert(false);
            }
            i = i + 1;
        }
        let first_idx: usize = first_seg.unwrap();
        let last_idx: usize = last_seg;
        let local_start: usize = start - first_offset;
        proof {
            lemma_holding_unique(sb, start as int, first_idx as int);
            lemma_holding_unique(sb, end - 1, last_idx as int);
            lemma_joined_take_step(sb, first_idx as int);
            lemma_joined_take_step(sb, last_idx as int);
            lemma_boundary_local(sb, first_idx as int, local_start as int);
        }
        if first_idx == last_idx {
            let local_end: usize = end - first_offset;
            let seg: &'a str = slice.strs[first_idx];
            proof {
                lemma_boundary_local(sb, first_idx as int, local_end as int);
            }
            let head: &'a str = seg.split_at(local_end).0;
            proof {
                assert(head.spec_bytes() =~= seg.spec_bytes().take(local_end as int));
                assert(valid_utf8(head.spec_bytes()));
                assert(valid_utf8(seg.spec_bytes()));
                lemma_boundary_prefix(seg.spec_bytes(), local_end as int, local_start as int);
            }
            let piece: &'a str = head.split_at(local_start).1;
            let none: &'a [&'a str] = slice_subrange(all, 0, 0);
            proof {
                reveal_strlit("");
            }
            assert(sb[first_idx as int] == seg.spec_bytes());
            assert(piece.spec_bytes() =~= seg.spec_bytes().subrange(local_start as int, local_end as int));
            assert(""@ =~= Seq::<char>::empty());
            assert(segment_bytes(three_parts(piece, none@, "")) =~= range_pieces(
                slice.strs@,
                start as int,
                end as int,
            ));
            CombinedStrView { first: piece, middle: none, last: "" }
        } else {
            let local_end: usize = end - last_offset;
            proof {
                lemma_boundary_local(sb, last_idx as int, local_end as int);
            }
            let first: &'a str = slice.strs[first_idx].split_at(local_start).1;
            let middle: &'a [&'a str] = slice_subrange(all, first_idx + 1, last_idx);
            let last: &'a str = slice.strs[last_idx].split_at(local_end).0;
            assert(segment_bytes(three_parts(first, middle@, last)) =~= range_pieces(
                slice.strs@,
                start as int,
                end as int,
            ));
            CombinedStrView { first, middle, last }
        }
    }

    /// Compares a stream of segments against a contiguous byte slice.
    pub(crate) fn segments_eq_bytes<S: SegmentStream<'a>>(segs: S, other: &[u8]) -> (r: bool)
        ensures
            r == (joined_strs(segs.remaining()) == other@),
    {
        let mut segments = segs;
        let ghost all = segments.remaining();
        let ghost sb = segment_bytes(all);
        let mut pos: usize = 0;
        let ghost mut taken: int = 0;
        proof {
            lemma_offset_end(sb);
        }
        loop
            invariant
                sb == segment_bytes(all),
                all == segs.remaining(),
                sb.len() == all.len(),
                0 <= taken <= all.len(),
                segments.remaining() == all.skip(taken),
                pos == offset(sb, taken),
                pos <= other@.len(),
                other@.take(pos as int) == joined(sb.take(taken)),
            decreases all.len() - taken,
        {
            let ghost rest = segments.remaining();
            match segments.next_segment() {
                None => {
                    assert(all.skip(taken).len() == 0);
                    proof {
                        lemma_offset_end(sb);
                        assert(sb.take(taken) =~= sb);
                    }
                    if pos == other.len() {
                        assert(other@.take(pos as int) =~= other@);
                    }
                    return pos == other.len();
                },
                Some(seg) => {
                    assert(rest[0] == all[taken]);
                    let seg_bytes: &[u8] = seg.as_bytes();
                    proof {
                        lemma_joined_take_step(sb, taken);
                        lemma_segment_in_joined(sb, taken);
                        lemma_offset_end(sb);
                    }
                    if other.len() - pos < seg_bytes.len() {
                        return false;
                    }
                    let candidate: &[u8] = slice_subrange(other, pos, pos + seg_bytes.len());
                    if !bytes_match(candidate, seg_bytes) {
                        assert(joined(sb).subrange(pos as int, pos + seg_bytes@.len()) == seg_bytes@);
                        assert(other@.subrange(pos as int, pos + seg_bytes@.len()) == candidate@);
                        return false;
                    }
                    assert(other@.take(pos + seg_bytes@.len()) =~= other@.take(pos as int) + candidate@);
                    pos = pos + seg_bytes.len();
                    proof {
                        taken = taken + 1;
                    }
                    assert(segments.remaining() =~= all.skip(taken));
                },
            }
        }
    }
}

impl<'a> CombinedStrView<'a> {
    /// The characters of the view, in order.
    pub open spec fn text(&self) -> Seq<char> {
        joined_text(self.segments())
    }

    /// Writes all segments one after another into a new `String`.
    pub fn to_string(&self) -> (r: String)
        ensures
            r@ == self.text(),
            encode_utf8(r@) == self@,
    {
        let mut r = String::new();
        r.append(self.first);
        proof {
            let t = three_parts(self.first, self.middle@, self.last);
            assert(t.take(1).drop_last() =~= Seq::<&str>::empty());
            assert(t.take(1).last() == self.first);
            assert(joined_text(Seq::<&str>::empty()) =~= Seq::<char>::empty());
            assert(r@ =~= joined_text(t.take(1)));
        }
        let mut i: usize = 0;
        while i < self.middle.len()
            invariant
                i <= self.middle@.len(),
                r@ == joined_text(three_parts(self.first, self.middle@, self.last).take(i + 1)),
            decreases self.middle@.len() - i,
        {
            proof {
                let t = three_parts(self.first, self.middle@, self.last);
                assert(t.take(i + 2).drop_last() =~= t.take(i + 1));
                assert(t[i + 1] == self.middle@[i as int]);
            }
            r.append(self.middle[i]);
            i = i + 1;
        }
        r.append(self.last);
        proof {
            let t = three_parts(self.first, self.middle@, self.last);
            assert(t.take(1).drop_last() =~= Seq::<&str>::empty());
            assert(t.take(i + 2) =~= t);
            assert(t.take(i + 2).drop_last() =~= t.take(i + 1));
            lemma_joined_text_bytes(t);
        }
        r
    }
}

impl<'a, 'b> PartialEq<CombinedStrView<'b>> for CombinedStrView<'a> {
    /// Two views are equal when they hold the same bytes, however these are split
    /// into segments.
    fn eq(&self, other: &CombinedStrView<'b>) -> (r: bool)
        ensures
            r == (self@ == other@),
    {
        if self.len() != other.len() {
            return false;
        }
        same_bytes(self.into_iter(), other.into_iter())
    }
}

impl<'a, 'b> PartialEqSpecImpl<CombinedStrView<'b>> for CombinedStrView<'a> {
    open spec fn obeys_eq_spec() -> bool {
        true
    }

    open spec fn eq_spec(&self, other: &CombinedStrView<'b>) -> bool {
        self@ == other@
    }
}

impl<'a> Eq for CombinedStrView<'a> {

}

impl<'a> PartialEq<str> for CombinedStrView<'a> {
    fn eq(&self, other: &str) -> (r: bool)
        ensures
            r == (self@ == other.spec_bytes()),
    {
        CombinedStrView::segments_eq_bytes(self.into_iter(), other.as_bytes())
    }
}

impl<'a> PartialEqSpecImpl<str> for CombinedStrView<'a> {
    open spec fn obeys_eq_spec() -> bool {
        true
    }

    open spec fn eq_spec(&self, other: &str) -> bool {
        self@ == other.spec_bytes()
    }
}

impl<'a, 'b, const N: usize> PartialEq<CombinedStr<'b, N>> for CombinedStrView<'a> {
    fn eq(&self, other: &CombinedStr<'b, N>) -> (r: bool)
        ensures
            r == (self@ == other@),
    {
        proof {
            use_type_invariant(self);
        }
        let other_len = match other.checked_len() {
            Some(n) => n,
            None => return false,
        };
        if self.len() != other_len {
            return false;
        }
        same_bytes(self.into_iter(), other.into_iter())
    }
}

impl<'a, 'b, const N: usize> PartialEqSpecImpl<CombinedStr<'b, N>> for CombinedStrView<'a> {
    open spec fn obeys_eq_spec() -> bool {
        true
    }

    open spec fn eq_spec(&self, other: &CombinedStr<'b, N>) -> bool {
        self@ == other@
    }
}

impl<'a, 'b, const N: usize> PartialEq<CombinedStrView<'b>> for CombinedStr<'a, N> {
    fn eq(&self, other: &CombinedStrView<'b>) -> (r: bool)
        ensures
            r == (self@ == other@),
    {
        other.eq(self)
    }
}

impl<'a, 'b, const N: usize> PartialEqSpecImpl<CombinedStrView<'b>> for CombinedStr<'a, N> {
    open spec fn obeys_eq_spec() -> bool {
        true
    }

    open spec fn eq_spec(&self, other: &CombinedStrView<'b>) -> bool {
        self@ == other@
    }
}

impl<'a> PartialEq<String> for CombinedStrView<'a> {
    fn eq(&self, other: &String) -> (r: bool)
        ensures
            r == (self@ == encode_utf8(other@)),
    {
        self.eq(other.as_str())
    }
}

impl<'a> PartialEqSpecImpl<String> for CombinedStrView<'a> {
    open spec fn obeys_eq_spec() -> bool {
        true
    }

    open spec fn eq_spec(&self, other: &String) -> bool {
        self@ == encode_utf8(other@)
    }
}

impl<'a> PartialEq<CombinedStrView<'a>> for String {
    fn eq(&self, other: &CombinedStrView<'a>) -> (r: bool)
        ensures
            r == (other@ == encode_utf8(self@)),
    {
        other.eq(self.as_str())
    }
}

impl<'a> PartialEqSpecImpl<CombinedStrView<'a>> for String {
    open spec fn obeys_eq_spec() -> bool {
        true
    }

    open spec fn eq_spec(&self, other: &CombinedStrView<'a>) -> bool {
        other@ == encode_utf8(self@)
    }
}

impl<'a, 'b> PartialEq<Cow<'b, str>> for CombinedStrView<'a> {
    fn eq(&self, other: &Cow<'b, str>) -> (r: bool)
        ensures
            r == (self@ == encode_utf8(other@)),
    {
        match other {
            Cow::Borrowed(b) => self.eq(*b),
            Cow::Owned(o) => self.eq(o.as_str()),
        }
    }
}

impl<'a, 'b> PartialEqSpecImpl<Cow<'b, str>> for CombinedStrView<'a> {
    open spec fn obeys_eq_spec() -> bool {
        true
    }

    open spec fn eq_spec(&self, other: &Cow<'b, str>) -> bool {
        self@ == encode_utf8(other@)
    }
}

impl<'a, 'b> PartialEq<CombinedStrView<'a>> for Cow<'b, str> {
    fn eq(&self, other: &CombinedStrView<'a>) -> (r: bool)
        ensures
            r == (other@ == encode_utf8(self@)),
    {
        match self {
            Cow::Borrowed(b) => other.eq(*b),
            Cow::Owned(o) => other.eq(o.as_str()),
        }
    }
}

impl<'a, 'b> PartialEqSpecImpl<CombinedStrView<'a>> for Cow<'b, str> {
    open spec fn obeys_eq_spec() -> bool {
        true
    }

    open spec fn eq_spec(&self, other: &CombinedStrView<'a>) -> bool {
        other@ == encode_utf8(self@)
    }
}

// `String` values are not built in specifications, so the conversion's result is
// stated on the function itself rather than through `from_spec`.
impl<'a> FromSpecImpl<CombinedStrView<'a>> for String {
    open spec fn obeys_from_spec() -> bool {
        false
    }

    open spec fn from_spec(v: CombinedStrView<'a>) -> String {
        choose|s: String| s@ == v.text()
    }
}

impl<'a> From<CombinedStrView<'a>> for String {
    /// Collects the segments of the view into a `String`.
    fn from(value: CombinedStrView<'a>) -> (r: String)
        ensures
            r@ == value.text(),
    {
        value.to_string()
    }
}

// The conversion's result is stated on `from` itself.
impl<'a> FromSpecImpl<CombinedStrView<'a>> for Cow<'a, str> {
    open spec fn obeys_from_spec() -> bool {
        false
    }

    open spec fn from_spec(v: CombinedStrView<'a>) -> Cow<'a, str> {
        choose|s: Cow<'a, str>| s@ == v.text()
    }
}

impl<'a> From<CombinedStrView<'a>> for Cow<'a, str> {
    /// Collects the segments of the view into an owned `Cow<str>`.
    fn from(value: CombinedStrView<'a>) -> (r: Cow<'a, str>)
        ensures
            r@ == value.text(),
            r is Owned,
    {
        Cow::Owned(value.to_string())
    }
}

impl<'a> AddAssign<CombinedStrView<'a>> for String {
    /// Appends the segments of `rhs` to this `String` in place.
    fn add_assign(&mut self, rhs: CombinedStrView<'a>)
        ensures
            final(self)@ == old(self)@ + rhs.text(),
    {
        let ghost start = self@;
        let ghost t = three_parts(rhs.first, rhs.middle@, rhs.last);
        self.append(rhs.first);
        proof {
            assert(t.take(1).drop_last() =~= Seq::<&str>::empty());
            assert(t.take(1).last() == rhs.first);
            assert(joined_text(Seq::<&str>::empty()) =~= Seq::<char>::empty());
            assert(self@ =~= start + joined_text(t.take(1)));
        }
        let mut i: usize = 0;
        while i < rhs.middle.len()
            invariant
                i <= rhs.middle@.len(),
                t == three_parts(rhs.first, rhs.middle@, rhs.last),
                self@ == start + joined_text(t.take(i + 1)),
            decreases rhs.middle@.len() - i,
        {
            proof {
                assert(t.take(i + 2).drop_last() =~= t.take(i + 1));
                assert(t[i + 1] == rhs.middle@[i as int]);
            }
            self.append(rhs.middle[i]);
            i = i + 1;
        }
        self.append(rhs.last);
        proof {
            assert(t.take(i + 2) =~= t);
            assert(t.take(i + 2).drop_last() =~= t.take(i + 1));
        }
    }
}

// The sum is stated on `add` itself.
impl<'a> AddSpecImpl<CombinedStrView<'a>> for String {
    open spec fn obeys_add_spec() -> bool {
        false
    }

    open spec fn add_req(self, rhs: CombinedStrView<'a>) -> bool {
        true
    }

    open spec fn add_spec(self, rhs: CombinedStrView<'a>) -> String {
        choose|s: String| s@ == self@ + rhs.text()
    }
}

impl<'a> Add<CombinedStrView<'a>> for String {
    type Output = String;

    /// Appends the segments of `rhs` to this `String`, returning the result.
    fn add(self, rhs: CombinedStrView<'a>) -> (r: String)
        ensures
            r@ == self@ + rhs.text(),
    {
        let mut s = self;
        s.add_assign(rhs);
        s
    }
}

impl<'a> AddAssign<CombinedStrView<'a>> for Cow<'a, str> {
    /// Appends the segments of `rhs` to this `Cow<str>` in place. An empty `Cow`
    /// becomes owned; a borrowed one stays borrowed when nothing is appended.
    fn add_assign(&mut self, rhs: CombinedStrView<'a>)
        ensures
            final(self)@ == old(self)@ + rhs.text(),
            *final(self) is Owned <==> (*old(self) is Owned || old(self)@.len() == 0
                || rhs.text().len() > 0),
    {
        proof {
            lemma_joined_text_bytes(rhs.segments());
        }
        if cow_is_empty(self) {
            *self = Cow::Owned(String::from(rhs));
            assert(self@ =~= old(self)@ + rhs.text());
        } else if !rhs.is_empty() {
            if let Cow::Borrowed(lhs) = *self {
                let mut s = String::new();
                s.append(lhs);
                *self = Cow::Owned(s);
            }
            match self {
                Cow::Owned(s) => s.add_assign(rhs),
                Cow::Borrowed(_) => {},
            }
        } else {
            assert(rhs.text() =~= Seq::<char>::empty());
            assert(self@ =~= old(self)@ + rhs.text());
        }
    }
}

// The sum is stated on `add` itself.
impl<'a> AddSpecImpl<CombinedStrView<'a>> for Cow<'a, str> {
    open spec fn obeys_add_spec() -> bool {
        false
    }

    open spec fn add_req(self, rhs: CombinedStrView<'a>) -> bool {
        true
    }

    open spec fn add_spec(self, rhs: CombinedStrView<'a>) -> Cow<'a, str> {
        choose|s: Cow<'a, str>| s@ == self@ + rhs.text()
    }
}

impl<'a> Add<CombinedStrView<'a>> for Cow<'a, str> {
    type Output = Cow<'a, str>;

    /// Appends the segments of `rhs` to this `Cow<str>`, returning the result.
    fn add(self, rhs: CombinedStrView<'a>) -> (r: Cow<'a, str>)
        ensures
            r@ == self@ + rhs.text(),
    {
        let mut c = self;
        c.add_assign(rhs);
        c
    }
}

} // verus!
