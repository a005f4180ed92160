//! Properties that relate several operations of the library.
use core::ops::{Bound, Range, RangeFrom, RangeFull, RangeInclusive, RangeTo, RangeToInclusive};
use std::borrow::Cow;
use vstd::prelude::*;
use vstd::std_specs::cmp::PartialEqSpec;
use vstd::std_specs::convert::FromSpec;
use vstd::string::StringSliceAdditionalSpecFns;
use vstd::utf8::{decode_utf8, encode_utf8, valid_utf8};

use crate::combined_str::{
    joined_strs, lemma_joined_text_bytes, lemma_segment_bytes_valid, segment_bytes, CombinedStr,
};
use crate::index::{is_range_view, CombinedStrIndex};
use crate::segments::{
    joined, lemma_holding_unique, lemma_joined_concat, lemma_joined_valid, lemma_offset_monotone,
    offset,
};
use crate::view::{lemma_range_pieces_bytes, range_pieces, CombinedStrView};

verus! {

broadcast use vstd::utf8::group_utf8_lib;

/// The combined bytes of a `CombinedStr` are valid UTF-8: they are the
/// encoding of its characters, segment after segment.
pub proof fn law_combined_is_utf8<const N: usize>(s: CombinedStr<N>)
    ensures
        s@ == encode_utf8(s.text()),
        valid_utf8(s@),
{
    lemma_joined_text_bytes(s.strs@);
    lemma_segment_bytes_valid(s.strs@);
    lemma_joined_valid(segment_bytes(s.strs@));
}

/// Putting two runs of segments one after the other puts their bytes one
/// after the other, so combined lengths add up.
pub proof fn law_concat_bytes(a: Seq<&str>, b: Seq<&str>)
    ensures
        joined_strs(a + b) == joined_strs(a) + joined_strs(b),
        joined_strs(a + b).len() == joined_strs(a).len() + joined_strs(b).len(),
{
    assert(segment_bytes(a + b) =~= segment_bytes(a) + segment_bytes(b));
    lemma_joined_concat(segment_bytes(a), segment_bytes(b));
}

/// A view of bytes `start..end` holds `end - start` bytes.
pub proof fn law_view_len<const N: usize>(v: CombinedStrView, s: CombinedStr<N>, start: int, end: int)
    requires
        0 <= start <= end <= s@.len(),
        is_range_view(v, s, start, end),
    ensures
        v@.len() == end - start,
{
}

/// Comparing a `String` with a `CombinedStr` gives the same answer in either order.
pub proof fn law_eq_string_symmetric<const N: usize>(c: CombinedStr<N>, s: String)
    ensures
        c.eq_spec(&s) == s.eq_spec(&c),
{
}

/// Comparing a `Cow<str>` with a `CombinedStr` gives the same answer in either order.
pub proof fn law_eq_cow_symmetric<const N: usize>(c: CombinedStr<N>, s: Cow<str>)
    ensures
        c.eq_spec(&s) == s.eq_spec(&c),
{
}

/// Comparing a view with a `CombinedStr` gives the same answer in either order.
pub proof fn law_eq_view_symmetric<const N: usize>(c: CombinedStr<N>, v: CombinedStrView)
    ensures
        c.eq_spec(&v) == v.eq_spec(&c),
{
}

/// Views compare by content: two views are equal exactly when they hold the same
/// bytes, and a view equals a string exactly when their bytes agree.
pub proof fn law_view_eq_is_content(a: CombinedStrView, b: CombinedStrView, s: &str)
    ensures
        a.eq_spec(&b) == (a@ == b@),
        a.eq_spec(s) == (a@ == s.spec_bytes()),
        a.eq_spec(&b) == b.eq_spec(&a),
{
}

/// Every form of range selects the same bytes as the pair of bounds it stands for.
pub proof fn law_range_forms_agree<const N: usize>(
    r: Range<usize>,
    to: RangeTo<usize>,
    from: RangeFrom<usize>,
    full: RangeFull,
    to_incl: RangeToInclusive<usize>,
    len: nat,
)
    requires
        len <= usize::MAX,
    ensures
        CombinedStrIndex::<N>::selects(&r, len) == CombinedStrIndex::<N>::selects(
            &(Bound::Included(r.start), Bound::Excluded(r.end)),
            len,
        ),
        CombinedStrIndex::<N>::selects(&to, len) == CombinedStrIndex::<N>::selects(
            &(Bound::Unbounded, Bound::Excluded(to.end)),
            len,
        ),
        CombinedStrIndex::<N>::selects(&from, len) == CombinedStrIndex::<N>::selects(
            &(Bound::Included(from.start), Bound::Unbounded),
            len,
        ),
        CombinedStrIndex::<N>::selects(&full, len) == CombinedStrIndex::<N>::selects(
            &(Bound::<usize>::Unbounded, Bound::<usize>::Unbounded),
            len,
        ),
        to_incl.end < usize::MAX ==> CombinedStrIndex::<N>::selects(&to_incl, len)
            == CombinedStrIndex::<N>::selects(&(Bound::Unbounded, Bound::Included(to_incl.end)), len),
{
}

/// An inclusive range that has not been iterated selects the same bytes as the pair
/// of inclusive bounds, unless its end is `usize::MAX`, where the range saturates
/// and the bound overflows.
pub proof fn law_inclusive_range_agrees<const N: usize>(r: RangeInclusive<usize>, len: nat)
    requires
        len <= usize::MAX,
        !r@.exhausted,
        r@.end < usize::MAX,
    ensures
        CombinedStrIndex::<N>::selects(&r, len) == CombinedStrIndex::<N>::selects(
            &(Bound::Included(r@.start), Bound::Included(r@.end)),
            len,
        ),
{
}

/// Encoding is one-to-one: two texts agree exactly when their UTF-8 bytes agree.
proof fn lemma_encode_injective(a: Seq<char>, b: Seq<char>)
    ensures
        (encode_utf8(a) == encode_utf8(b)) == (a == b),
{
    if encode_utf8(a) == encode_utf8(b) {
        assert(decode_utf8(encode_utf8(a)) == a);
        assert(decode_utf8(encode_utf8(b)) == b);
    }
}

/// A `CombinedStr` equals a string slice exactly when the segments' bytes, laid
/// end to end, are the string's bytes: all of the string is compared, so a string
/// of another length never equals it, and equality is equality of the characters.
pub proof fn law_eq_str_is_content<const N: usize>(c: CombinedStr<N>, s: &str)
    ensures
        c.eq_spec(s) <==> c@ == s.spec_bytes(),
        s.spec_bytes().len() != c@.len() ==> !c.eq_spec(s),
        c.eq_spec(s) <==> c.text() == s@,
{
    law_combined_is_utf8(c);
    lemma_encode_injective(c.text(), s@);
}

/// A `CombinedStr` equals a `String` (in either order) exactly when its bytes are the
/// UTF-8 encoding of the whole `String`, the same answer as comparing with a slice
/// holding the same text.
pub proof fn law_eq_string_is_content<const N: usize>(c: CombinedStr<N>, t: String, s: &str)
    ensures
        c.eq_spec(&t) <==> c@ == encode_utf8(t@),
        t.eq_spec(&c) <==> c@ == encode_utf8(t@),
        encode_utf8(t@).len() != c@.len() ==> !c.eq_spec(&t) && !t.eq_spec(&c),
        c.eq_spec(&t) <==> c.text() == t@,
        s@ == t@ ==> (c.eq_spec(&t) <==> c.eq_spec(s)),
{
    law_combined_is_utf8(c);
    lemma_encode_injective(c.text(), t@);
}

/// A `CombinedStr` equals a `Cow<str>` (in either order) exactly when its bytes are the
/// UTF-8 encoding of the whole text the `Cow` holds, borrowed or owned.
pub proof fn law_eq_cow_is_content<const N: usize>(c: CombinedStr<N>, t: Cow<str>, s: &str)
    ensures
        c.eq_spec(&t) <==> c@ == encode_utf8(t@),
        t.eq_spec(&c) <==> c@ == encode_utf8(t@),
        encode_utf8(t@).len() != c@.len() ==> !c.eq_spec(&t) && !t.eq_spec(&c),
        c.eq_spec(&t) <==> c.text() == t@,
        s@ == t@ ==> (c.eq_spec(&t) <==> c.eq_spec(s)),
{
    law_combined_is_utf8(c);
    lemma_encode_injective(c.text(), t@);
}

/// Two `CombinedStr`s are equal exactly when every segment, the first included,
/// holds the same text as its counterpart; equal ones hold the same bytes and text,
/// and every `CombinedStr` equals itself.
pub proof fn law_combined_eq_is_segmentwise<const N: usize>(a: CombinedStr<N>, b: CombinedStr<N>)
    ensures
        a.eq_spec(&b) <==> (forall|i: int| 0 <= i < N ==> (#[trigger] a.strs@[i])@ == b.strs@[i]@),
        N > 0 && a.strs@[0]@ != b.strs@[0]@ ==> !a.eq_spec(&b),
        a.eq_spec(&b) ==> a@ == b@ && a.text() == b.text(),
        a.eq_spec(&b) == b.eq_spec(&a),
        a.eq_spec(&a),
{
    if a.eq_spec(&b) {
        assert(segment_bytes(a.strs@) =~= segment_bytes(b.strs@)) by {
            assert forall|i: int| 0 <= i < N implies segment_bytes(a.strs@)[i] == segment_bytes(
                b.strs@,
            )[i] by {
                assert(a.strs@[i]@ == b.strs@[i]@);
            }
        }
        law_combined_is_utf8(a);
        law_combined_is_utf8(b);
        lemma_encode_injective(a.text(), b.text());
    }
}

/// A view equals a `CombinedStr`, a slice, a `String` or a `Cow<str>` (in either
/// order) exactly when it holds the same bytes; comparing with a `String` or `Cow`
/// gives the same answer as comparing with a slice of the same text.
pub proof fn law_view_eq_all_forms<const N: usize>(
    v: CombinedStrView,
    c: CombinedStr<N>,
    s: &str,
    t: String,
    w: Cow<str>,
)
    ensures
        v.eq_spec(&c) <==> v@ == c@,
        c.eq_spec(&v) <==> v@ == c@,
        v@.len() != c@.len() ==> !v.eq_spec(&c) && !c.eq_spec(&v),
        v.eq_spec(s) <==> v@ == s.spec_bytes(),
        v.eq_spec(s) <==> v.text() == s@,
        v.eq_spec(&t) <==> v@ == encode_utf8(t@),
        t.eq_spec(&v) <==> v@ == encode_utf8(t@),
        encode_utf8(t@).len() != v@.len() ==> !v.eq_spec(&t) && !t.eq_spec(&v),
        s@ == t@ ==> (v.eq_spec(&t) <==> v.eq_spec(s)),
        v.eq_spec(&w) <==> v@ == encode_utf8(w@),
        w.eq_spec(&v) <==> v@ == encode_utf8(w@),
        s@ == w@ ==> (v.eq_spec(&w) <==> v.eq_spec(s)),
{
    lemma_joined_text_bytes(v.segments());
    lemma_encode_injective(v.text(), s@);
}

/// Views compare by the bytes they hold, whatever their segments: two views are equal
/// exactly when they hold the same bytes, views of different lengths never are, and
/// every view equals itself.
pub proof fn law_view_eq_view(a: CombinedStrView, b: CombinedStrView)
    ensures
        a.eq_spec(&b) <==> a@ == b@,
        a@.len() != b@.len() ==> !a.eq_spec(&b),
        a.eq_spec(&a),
        a.eq_spec(&b) ==> a.text() == b.text(),
{
    lemma_joined_text_bytes(a.segments());
    lemma_joined_text_bytes(b.segments());
    lemma_encode_injective(a.text(), b.text());
}

/// The byte range each standard range form selects in a string of `len` bytes:
/// `start..end` for the bounds it denotes, whenever `start <= end <= len`, and
/// nothing otherwise. A range may end exactly at `len`.
pub proof fn law_range_selects<const N: usize>(
    r: Range<usize>,
    to: RangeTo<usize>,
    from: RangeFrom<usize>,
    full: RangeFull,
    to_incl: RangeToInclusive<usize>,
    incl: RangeInclusive<usize>,
    len: nat,
)
    ensures
        CombinedStrIndex::<N>::selects(&r, len) == (if r.start <= r.end && r.end <= len {
            Some((r.start as int, r.end as int))
        } else {
            None
        }),
        CombinedStrIndex::<N>::selects(&to, len) == (if to.end <= len {
            Some((0int, to.end as int))
        } else {
            None
        }),
        CombinedStrIndex::<N>::selects(&from, len) == (if from.start <= len {
            Some((from.start as int, len as int))
        } else {
            None
        }),
        CombinedStrIndex::<N>::selects(&full, len) == Some((0int, len as int)),
        CombinedStrIndex::<N>::selects(&to_incl, len) == ({
            let end: int = if to_incl.end == usize::MAX {
                usize::MAX as int
            } else {
                to_incl.end + 1
            };
            if end <= len {
                Some((0int, end))
            } else {
                None
            }
        }),
        !incl@.exhausted ==> CombinedStrIndex::<N>::selects(&incl, len) == ({
            let end: int = if incl@.end == usize::MAX {
                usize::MAX as int
            } else {
                incl@.end + 1
            };
            if incl@.start <= end && end <= len {
                Some((incl@.start as int, end))
            } else {
                None
            }
        }),
{
}

/// The byte range a pair of bounds selects in a string of `len` bytes: an included
/// start counts from that byte, an excluded one from the next, an unbounded one from
/// zero; an included end takes one byte more, an excluded one stops there, an
/// unbounded one runs to `len`. A bound whose `+ 1` does not fit in a `usize` selects
/// nothing; otherwise the range is selected whenever `start <= end <= len`.
pub proof fn law_bounds_select<const N: usize>(b: (Bound<usize>, Bound<usize>), len: nat)
    ensures
        CombinedStrIndex::<N>::selects(&b, len) == ({
            let start: Option<int> = match b.0 {
                Bound::Included(x) => Some(x as int),
                Bound::Excluded(x) => if x == usize::MAX {
                    None
                } else {
                    Some(x + 1)
                },
                Bound::Unbounded => Some(0int),
            };
            let end: Option<int> = match b.1 {
                Bound::Included(x) => if x == usize::MAX {
                    None
                } else {
                    Some(x + 1)
                },
                Bound::Excluded(x) => Some(x as int),
                Bound::Unbounded => Some(len as int),
            };
            match (start, end) {
                (Some(s), Some(e)) => if s <= e && e <= len {
                    Some((s, e))
                } else {
                    None
                },
                _ => None,
            }
        }),
        match b {
            (Bound::Unbounded, Bound::Excluded(e)) => CombinedStrIndex::<N>::selects(&b, len) is Some
                <==> e <= len,
            _ => true,
        },
{
}

/// Building a `CombinedStr` from an array keeps the array as its segments, and
/// building one from a single slice makes that slice its only segment.
pub proof fn law_from_keeps_segments<const N: usize>(arr: [&str; N], one: &str)
    ensures
        <CombinedStr<N> as FromSpec<[&str; N]>>::from_spec(arr).strs == arr,
        <CombinedStr<N> as FromSpec<[&str; N]>>::obeys_from_spec(),
        <CombinedStr<1> as FromSpec<&str>>::from_spec(one).strs@ == seq![one],
        <CombinedStr<1> as FromSpec<&str>>::obeys_from_spec(),
{
    assert(<CombinedStr<1> as FromSpec<&str>>::from_spec(one).strs@ =~= seq![one]);
}

/// How a view of bytes `start..end` is cut from the segments: given the segment `f`
/// that holds byte `start` and the segment `l` that holds byte `end - 1`, it is the
/// rest of segment `f` from `start`, the whole segments strictly between `f` and `l`,
/// and segment `l` up to `end`; inside one segment it is that part followed by an
/// empty piece; an empty range is two empty pieces.
pub proof fn law_range_pieces_shape(strs: Seq<&str>, start: int, end: int, f: int, l: int)
    requires
        0 <= start <= end <= joined_strs(strs).len(),
        start < end ==> 0 <= f < strs.len() && offset(segment_bytes(strs), f) <= start < offset(
            segment_bytes(strs),
            f + 1,
        ),
        start < end ==> 0 <= l < strs.len() && offset(segment_bytes(strs), l) < end <= offset(
            segment_bytes(strs),
            l + 1,
        ),
    ensures
        start == end ==> range_pieces(strs, start, end) == seq![Seq::<u8>::empty(), Seq::<u8>::empty()],
        start < end ==> f <= l,
        start < end && f == l ==> range_pieces(strs, start, end) == seq![
            strs[f].spec_bytes().subrange(
                start - offset(segment_bytes(strs), f),
                end - offset(segment_bytes(strs), f),
            ),
            Seq::<u8>::empty(),
        ],
        start < end && f < l ==> range_pieces(strs, start, end) == seq![
            strs[f].spec_bytes().skip(start - offset(segment_bytes(strs), f)),
        ] + segment_bytes(strs.subrange(f + 1, l)) + seq![
            strs[l].spec_bytes().take(end - offset(segment_bytes(strs), l)),
        ],
        joined(range_pieces(strs, start, end)) == joined_strs(strs).subrange(start, end),
{
    let sb = segment_bytes(strs);
    lemma_range_pieces_bytes(strs, start, end);
    if start < end {
        lemma_holding_unique(sb, start, f);
        lemma_holding_unique(sb, end - 1, l);
        if l < f {
            lemma_offset_monotone(sb, l + 1, f);
        }
        if f < l {
            assert(sb.subrange(f + 1, l) =~= segment_bytes(strs.subrange(f + 1, l)));
        }
    }
}

} // verus!
