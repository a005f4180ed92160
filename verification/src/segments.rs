//! The byte model of a run of string segments: the segments laid end to end,
//! the offset at which each one starts, and which segment holds a given byte.
use vstd::prelude::*;
use vstd::utf8::{encode_utf8, is_char_boundary, is_continuation_byte, valid_utf8};

verus! {

broadcast use vstd::utf8::group_utf8_lib;

/// The segments laid end to end.
pub open spec fn joined(segs: Seq<Seq<u8>>) -> Seq<u8>
    decreases segs.len(),
{
    if segs.len() == 0 {
        Seq::empty()
    } else {
        joined(segs.drop_last()) + segs.last()
    }
}

/// The position in the joined bytes at which segment `i` starts
/// (for `i == segs.len()`, the total length).
pub open spec fn offset(segs: Seq<Seq<u8>>, i: int) -> nat {
    joined(segs.take(i)).len()
}

/// The index of the segment that holds byte `pos` of the joined bytes:
/// the number of segments that end at or before `pos`.
/// It is `segs.len()` when `pos` lies past the end.
pub open spec fn holding(segs: Seq<Seq<u8>>, pos: int) -> nat
    decreases segs.len(),
{
    if segs.len() == 0 {
        0
    } else if joined(segs).len() <= pos {
        segs.len()
    } else {
        holding(segs.drop_last(), pos)
    }
}

/// Every segment is valid UTF-8.
pub open spec fn all_valid_utf8(segs: Seq<Seq<u8>>) -> bool {
    forall|i: int| 0 <= i < segs.len() ==> valid_utf8(#[trigger] segs[i])
}

pub proof fn lemma_joined_single(b: Seq<u8>)
    ensures
        joined(seq![b]) == b,
{
    assert(seq![b].drop_last() =~= Seq::<Seq<u8>>::empty());
    assert(joined(Seq::<Seq<u8>>::empty()) + b =~= b);
}

/// Joining distributes over concatenation of segment runs.
pub proof fn lemma_joined_concat(a: Seq<Seq<u8>>, b: Seq<Seq<u8>>)
    ensures
        joined(a + b) == joined(a) + joined(b),
    decreases b.len(),
{
    if b.len() == 0 {
        assert(a + b =~= a);
        assert(joined(a) + joined(b) =~= joined(a));
    } else {
        lemma_joined_concat(a, b.drop_last());
        assert((a + b).drop_last() =~= a + b.drop_last());
        assert((a + b).last() == b.last());
        assert(joined(a) + joined(b) =~= joined(a) + joined(b.drop_last()) + b.last());
    }
}

/// The first `i + 1` segments join to the first `i` followed by segment `i`.
pub proof fn lemma_joined_take_step(s: Seq<Seq<u8>>, i: int)
    requires
        0 <= i < s.len(),
    ensures
        joined(s.take(i + 1)) == joined(s.take(i)) + s[i],
        offset(s, i + 1) == offset(s, i) + s[i].len(),
{
    assert(s.take(i + 1).drop_last() =~= s.take(i));
}

/// All segments together join to `offset(s, s.len())` bytes.
pub proof fn lemma_offset_end(s: Seq<Seq<u8>>)
    ensures
        offset(s, s.len() as int) == joined(s).len(),
        offset(s, 0) == 0,
{
    assert(s.take(s.len() as int) =~= s);
    assert(s.take(0) =~= Seq::<Seq<u8>>::empty());
}

/// Offsets never decrease.
pub proof fn lemma_offset_monotone(s: Seq<Seq<u8>>, i: int, j: int)
    requires
        0 <= i <= j <= s.len(),
    ensures
        offset(s, i) <= offset(s, j),
{
    let t = s.take(j);
    lemma_joined_concat(t.take(i), t.skip(i));
    assert(t.take(i) + t.skip(i) =~= t);
    assert(t.take(i) =~= s.take(i));
}

/// The segments `a..b` join to the joined bytes between their offsets.
pub proof fn lemma_joined_subrange(s: Seq<Seq<u8>>, a: int, b: int)
    requires
        0 <= a <= b <= s.len(),
    ensures
        joined(s.subrange(a, b)) == joined(s).subrange(offset(s, a) as int, offset(s, b) as int),
{
    let pre = s.take(a);
    let mid = s.subrange(a, b);
    let post = s.skip(b);
    lemma_joined_concat(pre, mid);
    lemma_joined_concat(pre + mid, post);
    assert(pre + mid =~= s.take(b));
    assert(pre + mid + post =~= s);
    let j = joined(s);
    assert(j.subrange(offset(s, a) as int, offset(s, b) as int) =~= joined(mid));
}

/// Segment `k` is exactly the joined bytes between its offset and the next.
pub proof fn lemma_segment_in_joined(s: Seq<Seq<u8>>, k: int)
    requires
        0 <= k < s.len(),
    ensures
        joined(s).subrange(offset(s, k) as int, offset(s, k + 1) as int) == s[k],
        offset(s, k + 1) <= joined(s).len(),
{
    lemma_joined_subrange(s, k, k + 1);
    assert(s.subrange(k, k + 1) =~= seq![s[k]]);
    lemma_joined_single(s[k]);
    lemma_offset_monotone(s, k + 1, s.len() as int);
    lemma_offset_end(s);
}

/// What `holding` returns: the segment whose byte range contains `pos`.
pub proof fn lemma_holding(s: Seq<Seq<u8>>, pos: int)
    requires
        0 <= pos,
    ensures
        holding(s, pos) <= s.len(),
        offset(s, holding(s, pos) as int) <= pos,
        holding(s, pos) < s.len() ==> pos < offset(s, holding(s, pos) as int + 1),
        holding(s, pos) == s.len() <==> joined(s).len() <= pos,
    decreases s.len(),
{
    lemma_offset_end(s);
    if s.len() == 0 {
    } else if joined(s).len() <= pos {
    } else {
        let d = s.drop_last();
        lemma_holding(d, pos);
        let k = holding(d, pos) as int;
        assert(s.take(k) =~= d.take(k));
        if k < d.len() {
            assert(s.take(k + 1) =~= d.take(k + 1));
        } else {
            lemma_offset_end(d);
        }
    }
}

/// The segment holding `pos` is the only one whose byte range contains it.
pub proof fn lemma_holding_unique(s: Seq<Seq<u8>>, pos: int, i: int)
    requires
        0 <= i < s.len(),
        offset(s, i) <= pos < offset(s, i + 1),
    ensures
        holding(s, pos) == i,
{
    lemma_holding(s, pos);
    let k = holding(s, pos) as int;
    if k < i {
        lemma_offset_monotone(s, k + 1, i);
    } else if k > i {
        lemma_offset_monotone(s, i + 1, k);
    }
}

/// Byte `pos` of the joined bytes is the matching byte of the segment holding it.
pub proof fn lemma_joined_index(s: Seq<Seq<u8>>, k: int, pos: int)
    requires
        0 <= k < s.len(),
        offset(s, k) <= pos < offset(s, k + 1),
    ensures
        joined(s)[pos] == s[k][pos - offset(s, k)],
        pos < joined(s).len(),
{
    lemma_segment_in_joined(s, k);
    let j = joined(s);
    assert(j.subrange(offset(s, k) as int, offset(s, k + 1) as int)[pos - offset(s, k)] == j[pos]);
}

/// Valid segments join to a valid sequence.
pub proof fn lemma_joined_valid(s: Seq<Seq<u8>>)
    requires
        all_valid_utf8(s),
    ensures
        valid_utf8(joined(s)),
    decreases s.len(),
{
    if s.len() > 0 {
        lemma_joined_valid(s.drop_last());
        assert(valid_utf8(s.last()));
    }
}

/// Within valid segments, a position is a character boundary of the joined bytes
/// exactly when it is one of the segment it falls in; both ends of a segment are.
pub proof fn lemma_boundary_local(s: Seq<Seq<u8>>, k: int, local: int)
    requires
        all_valid_utf8(s),
        0 <= k < s.len(),
        0 <= local <= s[k].len(),
    ensures
        is_char_boundary(joined(s), offset(s, k) + local) == is_char_boundary(s[k], local),
{
    let j = joined(s);
    let b = s[k];
    let p = offset(s, k) + local;
    lemma_joined_valid(s);
    assert(valid_utf8(b));
    lemma_joined_take_step(s, k);
    lemma_segment_in_joined(s, k);
    if local < b.len() {
        lemma_joined_index(s, k, p);
        assert(is_char_boundary(j, p) <==> !is_continuation_byte(j[p]));
        assert(is_char_boundary(b, local) <==> !is_continuation_byte(b[local]));
    } else {
        assert(is_char_boundary(b, b.len() as int));
        if p < j.len() {
            lemma_holding(s, p);
            let m = holding(s, p) as int;
            if m <= k {
                lemma_offset_monotone(s, m + 1, k + 1);
            }
            lemma_offset_monotone(s, k + 1, m);
            lemma_joined_index(s, m, p);
            lemma_joined_take_step(s, m);
            let c = s[m];
            assert(c.len() > 0);
            assert(valid_utf8(c));
            assert(is_char_boundary(c, 0));
            assert(is_char_boundary(c, 0) <==> !is_continuation_byte(c[0]));
            assert(is_char_boundary(j, p) <==> !is_continuation_byte(j[p]));
        } else {
            assert(is_char_boundary(j, j.len() as int));
        }
    }
}

/// Segments that are all empty join to nothing.
pub proof fn lemma_joined_all_empty(s: Seq<Seq<u8>>)
    requires
        forall|i: int| 0 <= i < s.len() ==> (#[trigger] s[i]).len() == 0,
    ensures
        joined(s) == Seq::<u8>::empty(),
    decreases s.len(),
{
    if s.len() > 0 {
        lemma_joined_all_empty(s.drop_last());
        assert(s.last().len() == 0);
        assert(joined(s) =~= Seq::<u8>::empty());
    }
}

/// Encoding text piece by piece gives the encoding of the whole.
pub proof fn lemma_encode_concat(a: Seq<char>, b: Seq<char>)
    ensures
        encode_utf8(a + b) == encode_utf8(a) + encode_utf8(b),
    decreases a.len(),
{
    if a.len() == 0 {
        assert(a + b =~= b);
        assert(encode_utf8(a) =~= Seq::<u8>::empty());
        assert(encode_utf8(a) + encode_utf8(b) =~= encode_utf8(b));
    } else {
        lemma_encode_concat(a.drop_first(), b);
        assert((a + b)[0] == a[0]);
        assert((a + b).drop_first() =~= a.drop_first() + b);
    }
}

/// Cutting a valid sequence short keeps the character boundaries before the cut.
pub proof fn lemma_boundary_prefix(b: Seq<u8>, n: int, j: int)
    requires
        valid_utf8(b),
        valid_utf8(b.take(n)),
        0 <= j < n <= b.len(),
    ensures
        is_char_boundary(b.take(n), j) == is_char_boundary(b, j),
{
    assert(b.take(n)[j] == b[j]);
    assert(is_char_boundary(b.take(n), j) <==> !is_continuation_byte(b.take(n)[j]));
    assert(is_char_boundary(b, j) <==> !is_continuation_byte(b[j]));
}

} // verus!
