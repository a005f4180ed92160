//! `CombinedStr`: N string slices presented as one logical string.
use std::borrow::Cow;
use std::ops::{Add, AddAssign};
use vstd::prelude::*;
use vstd::std_specs::cmp::PartialEqSpecImpl;
use vstd::std_specs::convert::FromSpecImpl;
use vstd::std_specs::ops::AddSpecImpl;
use vstd::string::StringSliceAdditionalSpecFns;
use vstd::utf8::{decode_utf8, encode_utf8, valid_utf8};

use crate::segments::{
    all_valid_utf8, joined, lemma_encode_concat, lemma_joined_all_empty, lemma_joined_concat,
    lemma_joined_single, lemma_joined_take_step, lemma_offset_end, lemma_offset_monotone, offset,
};
use crate::view::{bytes_match, CombinedStrView};

verus! {

broadcast use vstd::utf8::group_utf8_lib;

/// The bytes of each segment, in order.
pub open spec fn segment_bytes(strs: Seq<&str>) -> Seq<Seq<u8>> {
    strs.map_values(|s: &str| s.spec_bytes())
}

/// The bytes of the segments laid end to end.
pub open spec fn joined_strs(strs: Seq<&str>) -> Seq<u8> {
    joined(segment_bytes(strs))
}

/// String slices are always valid UTF-8.
pub proof fn lemma_segment_bytes_valid(strs: Seq<&str>)
    ensures
        all_valid_utf8(segment_bytes(strs)),
{
    assert forall|i: int| 0 <= i < segment_bytes(strs).len() implies valid_utf8(
        #[trigger] segment_bytes(strs)[i],
    ) by {
        assert(segment_bytes(strs)[i] == strs[i].spec_bytes());
    }
}

/// The total number of bytes in a slice of segments.
pub(crate) fn total_bytes(segs: &[&str]) -> (n: usize)
    requires
        joined_strs(segs@).len() <= usize::MAX,
    ensures
        n == joined_strs(segs@).len(),
{
    let ghost sb = segment_bytes(segs@);
    let mut total: usize = 0;
    let mut i: usize = 0;
    while i < segs.len()
        invariant
            i <= segs@.len(),
            sb == segment_bytes(segs@),
            total == offset(sb, i as int),
            joined(sb).len() <= usize::MAX,
        decreases segs@.len() - i,
    {
        let s: &str = segs[i];
        proof {
            lemma_joined_take_step(sb, i as int);
            lemma_offset_monotone(sb, i + 1, sb.len() as int);
            lemma_offset_end(sb);
        }
        total = total + s.len();
        i = i + 1;
    }
    proof {
        lemma_offset_end(sb);
    }
    total
}

/// The characters of the segments laid end to end.
pub open spec fn joined_text(strs: Seq<&str>) -> Seq<char>
    decreases strs.len(),
{
    if strs.len() == 0 {
        Seq::empty()
    } else {
        joined_text(strs.drop_last()) + strs.last()@
    }
}

/// The joined characters encode to the joined bytes.
pub proof fn lemma_joined_text_bytes(strs: Seq<&str>)
    ensures
        encode_utf8(joined_text(strs)) == joined_strs(strs),
    decreases strs.len(),
{
    if strs.len() == 0 {
        assert(encode_utf8(Seq::<char>::empty()) =~= Seq::<u8>::empty());
    } else {
        lemma_joined_text_bytes(strs.drop_last());
        lemma_encode_concat(joined_text(strs.drop_last()), strs.last()@);
        assert(segment_bytes(strs).drop_last() =~= segment_bytes(strs.drop_last()));
    }
}

/// A combined view of N string slices, treated as a single contiguous string.
///
/// It borrows its segments and allocates nothing; `N` is the number of segments.
#[derive(Debug, Clone, Copy, PartialOrd, Ord, Hash)]
pub struct CombinedStr<'a, const N: usize> {
    pub strs: [&'a str; N],
}

impl<'a, const N: usize> View for CombinedStr<'a, N> {
    type V = Seq<u8>;

    /// The bytes of all segments, in order, with no separator.
    open spec fn view(&self) -> Seq<u8> {
        joined_strs(self.strs@)
    }
}

impl<'a, const N: usize> CombinedStr<'a, N> {
    /// The characters of all segments, in order.
    pub open spec fn text(&self) -> Seq<char> {
        joined_text(self.strs@)
    }

    /// The combined length can be counted in a `usize`.
    pub open spec fn fits(&self) -> bool {
        self@.len() <= usize::MAX
    }

    /// Holds the given segments, in order.
    pub fn new(strs: [&'a str; N]) -> (res: Self)
        ensures
            res.strs == strs,
    {
        Self { strs }
    }

    /// Returns each segment as a byte slice.
    pub fn as_bytes(&self) -> (res: [&[u8]; N])
        ensures
            forall|i: int| 0 <= i < N ==> (#[trigger] res@[i])@ == self.strs@[i].spec_bytes(),
    {
        let mut res: [&[u8]; N] = [("").as_bytes(); N];
        let mut i: usize = 0;
        while i < N
            invariant
                i <= N,
                res@.len() == N,
                self.strs@.len() == N,
                forall|j: int| 0 <= j < i ==> (#[trigger] res@[j])@ == self.strs@[j].spec_bytes(),
            decreases N - i,
        {
            let b: &[u8] = self.strs[i].as_bytes();
            res[i] = b;
            i = i + 1;
        }
        res
    }

    /// Returns the total byte length across all segments.
    pub fn len(&self) -> (n: usize)
        requires
            self.fits(),
        ensures
            n == self@.len(),
    {
        total_bytes(self.strs.as_slice())
    }

    /// The total byte length, or `None` when it does not fit in a `usize`.
    pub(crate) fn checked_len(&self) -> (r: Option<usize>)
        ensures
            r matches Some(n) ==> self.fits() && n == self@.len(),
            r is None ==> !self.fits(),
    {
        let ghost sb = segment_bytes(self.strs@);
        proof {
            lemma_offset_end(sb);
        }
        let mut total: usize = 0;
        let mut i: usize = 0;
        while i < N
            invariant
                i <= N,
                sb == segment_bytes(self.strs@),
                sb.len() == N,
                total == offset(sb, i as int),
                offset(sb, N as int) == self@.len(),
            decreases N - i,
        {
            proof {
                lemma_joined_take_step(sb, i as int);
                lemma_offset_monotone(sb, i + 1, N as int);
            }
            let l: usize = self.strs[i].as_bytes().len();
            match total.checked_add(l) {
                Some(t) => total = t,
                None => return None,
            }
            i = i + 1;
        }
        Some(total)
    }

    /// Returns `true` if the total length across all segments is zero.
    pub fn is_empty(&self) -> (b: bool)
        requires
            self.fits(),
        ensures
            b == (self@.len() == 0),
    {
        self.len() == 0
    }
}

impl<'a, const N: usize> CombinedStr<'a, N> {
    /// Writes all segments one after another, with no separator, into a new `String`.
    pub fn to_string(&self) -> (r: String)
        ensures
            r@ == self.text(),
            encode_utf8(r@) == self@,
    {
        let mut r = String::new();
        let mut i: usize = 0;
        while i < N
            invariant
                i <= N,
                self.strs@.len() == N,
                r@ == joined_text(self.strs@.take(i as int)),
            decreases N - i,
        {
            proof {
                assert(self.strs@.take(i + 1).drop_last() =~= self.strs@.take(i as int));
            }
            r.append(self.strs[i]);
            i = i + 1;
        }
        proof {
            assert(self.strs@.take(N as int) =~= self.strs@);
            lemma_joined_text_bytes(self.strs@);
        }
        r
    }
}

impl<'a, const N: usize> Default for CombinedStr<'a, N> {
    /// Returns a `CombinedStr` where every segment is an empty string slice.
    fn default() -> (r: Self)
        ensures
            forall|i: int| 0 <= i < N ==> (#[trigger] r.strs@[i])@ == Seq::<char>::empty(),
            r@ == Seq::<u8>::empty(),
    {
        proof {
            reveal_strlit("");
        }
        let r = Self { strs: [""; N] };
        proof {
            assert forall|i: int| 0 <= i < N implies (#[trigger] r.strs@[i])@ == Seq::<char>::empty() by {
                assert(r.strs@[i] == "");
            }
            let sb = segment_bytes(r.strs@);
            assert forall|i: int| 0 <= i < sb.len() implies (#[trigger] sb[i]).len() == 0 by {
                assert(r.strs@[i]@ =~= Seq::<char>::empty());
                assert(encode_utf8(Seq::<char>::empty()) =~= Seq::<u8>::empty());
            }
            lemma_joined_all_empty(sb);
        }
        r
    }
}

impl<'a, const N: usize> From<[&'a str; N]> for CombinedStr<'a, N> {
    /// Constructs a `CombinedStr` from a fixed-size array of string slices.
    fn from(strs: [&'a str; N]) -> (r: Self) {
        Self { strs }
    }
}

impl<'a, const N: usize> FromSpecImpl<[&'a str; N]> for CombinedStr<'a, N> {
    open spec fn obeys_from_spec() -> bool {
        true
    }

    open spec fn from_spec(v: [&'a str; N]) -> Self {
        CombinedStr { strs: v }
    }
}

impl<'a> From<&'a str> for CombinedStr<'a, 1> {
    /// Constructs a single-segment `CombinedStr` from a `&str`.
    fn from(s: &'a str) -> (r: Self) {
        Self { strs: [s] }
    }
}

impl<'a> FromSpecImpl<&'a str> for CombinedStr<'a, 1> {
    open spec fn obeys_from_spec() -> bool {
        true
    }

    open spec fn from_spec(v: &'a str) -> Self {
        CombinedStr { strs: [v] }
    }
}

impl<'a, const N: usize> PartialEq for CombinedStr<'a, N> {
    /// Two `CombinedStr`s are equal when their segments are equal one by one.
    fn eq(&self, other: &Self) -> (r: bool)
        ensures
            r == (forall|i: int| 0 <= i < N ==> (#[trigger] self.strs@[i])@ == other.strs@[i]@),
    {
        let mut i: usize = 0;
        while i < N
            invariant
                i <= N,
                self.strs@.len() == N,
                other.strs@.len() == N,
                forall|j: int| 0 <= j < i ==> (#[trigger] self.strs@[j])@ == other.strs@[j]@,
            decreases N - i,
        {
            let a: &str = self.strs[i];
            let b: &str = other.strs[i];
            if !bytes_match(a.as_bytes(), b.as_bytes()) {
                return false;
            }
            proof {
                assert(decode_utf8(encode_utf8(a@)) == a@);
                assert(decode_utf8(encode_utf8(b@)) == b@);
            }
            i = i + 1;
        }
        true
    }
}

impl<'a, const N: usize> PartialEqSpecImpl for CombinedStr<'a, N> {
    open spec fn obeys_eq_spec() -> bool {
        true
    }

    open spec fn eq_spec(&self, other: &Self) -> bool {
        forall|i: int| 0 <= i < N ==> (#[trigger] self.strs@[i])@ == other.strs@[i]@
    }
}

impl<'a, const N: usize> Eq for CombinedStr<'a, N> {

}

impl<'a, const N: usize> PartialEq<str> for CombinedStr<'a, N> {
    /// Returns `true` if the concatenation of all segments equals `other`,
    /// comparing without any allocation.
    fn eq(&self, other: &str) -> (r: bool)
        ensures
            r == (self@ == other.spec_bytes()),
    {
        CombinedStrView::segments_eq_bytes(self.into_iter(), other.as_bytes())
    }
}

impl<'a, const N: usize> PartialEqSpecImpl<str> for CombinedStr<'a, N> {
    open spec fn obeys_eq_spec() -> bool {
        true
    }

    open spec fn eq_spec(&self, other: &str) -> bool {
        self@ == other.spec_bytes()
    }
}

impl<'a, const N: usize> PartialEq<String> for CombinedStr<'a, N> {
    fn eq(&self, other: &String) -> (r: bool)
        ensures
            r == (self@ == encode_utf8(other@)),
    {
        self.eq(other.as_str())
    }
}

impl<'a, const N: usize> PartialEqSpecImpl<String> for CombinedStr<'a, N> {
    open spec fn obeys_eq_spec() -> bool {
        true
    }

    open spec fn eq_spec(&self, other: &String) -> bool {
        self@ == encode_utf8(other@)
    }
}

impl<'a, const N: usize> PartialEq<CombinedStr<'a, N>> for String {
    fn eq(&self, other: &CombinedStr<'a, N>) -> (r: bool)
        ensures
            r == (other@ == encode_utf8(self@)),
    {
        other.eq(self.as_str())
    }
}

impl<'a, const N: usize> PartialEqSpecImpl<CombinedStr<'a, N>> for String {
    open spec fn obeys_eq_spec() -> bool {
        true
    }

    open spec fn eq_spec(&self, other: &CombinedStr<'a, N>) -> bool {
        other@ == encode_utf8(self@)
    }
}

impl<'a, 'b, const N: usize> PartialEq<Cow<'b, str>> for CombinedStr<'a, N> {
    fn eq(&self, other: &Cow<'b, str>) -> (r: bool)
        ensures
            r == (self@ == encode_utf8(other@)),
    {
        match other {
            Cow::Borrowed(b) => self.eq(*b),
            Cow::Owned(o) => self.eq(o.as_str()),
        }
    }
}

impl<'a, 'b, const N: usize> PartialEqSpecImpl<Cow<'b, str>> for CombinedStr<'a, N> {
    open spec fn obeys_eq_spec() -> bool {
        true
    }

    open spec fn eq_spec(&self, other: &Cow<'b, str>) -> bool {
        self@ == encode_utf8(other@)
    }
}

impl<'a, 'b, const N: usize> PartialEq<CombinedStr<'a, N>> for Cow<'b, str> {
    fn eq(&self, other: &CombinedStr<'a, N>) -> (r: bool)
        ensures
            r == (other@ == encode_utf8(self@)),
    {
        match self {
            Cow::Borrowed(b) => other.eq(*b),
            Cow::Owned(o) => other.eq(o.as_str()),
        }
    }
}

impl<'a, 'b, const N: usize> PartialEqSpecImpl<CombinedStr<'a, N>> for Cow<'b, str> {
    open spec fn obeys_eq_spec() -> bool {
        true
    }

    open spec fn eq_spec(&self, other: &CombinedStr<'a, N>) -> bool {
        other@ == encode_utf8(self@)
    }
}

impl<'a, const N: usize> CombinedStr<'a, N> {
    /// Appends a string slice as a new segment, producing a `CombinedStr` with
    /// one more segment (`K` must be `N + 1`).
    pub fn add_str<const K: usize>(self, rhs: &'a str) -> (r: CombinedStr<'a, K>)
        requires
            K == N + 1,
        ensures
            r.strs@ == self.strs@.push(rhs),
            r@ == self@ + rhs.spec_bytes(),
    {
        let mut out: [&'a str; K] = [""; K];
        let mut i: usize = 0;
        while i < N
            invariant
                i <= N,
                K == N + 1,
                out@.len() == K,
                self.strs@.len() == N,
                forall|j: int| 0 <= j < i ==> out@[j] == self.strs@[j],
            decreases N - i,
        {
            out[i] = self.strs[i];
            i = i + 1;
        }
        out[N] = rhs;
        let r = CombinedStr::new(out);
        proof {
            assert(r.strs@ =~= self.strs@.push(rhs));
            lemma_joined_concat(segment_bytes(self.strs@), seq![rhs.spec_bytes()]);
            lemma_joined_single(rhs.spec_bytes());
            assert(segment_bytes(r.strs@) =~= segment_bytes(self.strs@) + seq![rhs.spec_bytes()]);
        }
        r
    }

    /// Concatenates two `CombinedStr`s into one whose segment count is the sum of
    /// theirs (`K` must be `N + M`).
    pub fn add<const M: usize, const K: usize>(self, rhs: CombinedStr<'a, M>) -> (r: CombinedStr<'a, K>)
        requires
            K == N + M,
        ensures
            r.strs@ == self.strs@ + rhs.strs@,
            r@ == self@ + rhs@,
    {
        let mut out: [&'a str; K] = [""; K];
        let mut i: usize = 0;
        while i < N
            invariant
                i <= N,
                K == N + M,
                out@.len() == K,
                self.strs@.len() == N,
                forall|j: int| 0 <= j < i ==> out@[j] == self.strs@[j],
            decreases N - i,
        {
            out[i] = self.strs[i];
            i = i + 1;
        }
        while i < N + M
            invariant
                N <= i <= N + M,
                K == N + M,
                out@.len() == K,
                self.strs@.len() == N,
                rhs.strs@.len() == M,
                forall|j: int| 0 <= j < N ==> out@[j] == self.strs@[j],
                forall|j: int| N <= j < i ==> out@[j] == rhs.strs@[j - N],
            decreases N + M - i,
        {
            out[i] = rhs.strs[i - N];
            i = i + 1;
        }
        let r = CombinedStr::new(out);
        proof {
            assert(r.strs@ =~= self.strs@ + rhs.strs@);
            assert(segment_bytes(r.strs@) =~= segment_bytes(self.strs@) + segment_bytes(rhs.strs@));
            lemma_joined_concat(segment_bytes(self.strs@), segment_bytes(rhs.strs@));
        }
        r
    }
}

impl<'a, const N: usize> AddAssign<CombinedStr<'a, N>> for String {
    /// Appends all segments of `other` to this `String` in place.
    fn add_assign(&mut self, other: CombinedStr<'a, N>)
        ensures
            final(self)@ == old(self)@ + other.text(),
    {
        let ghost start = self@;
        let mut i: usize = 0;
        while i < N
            invariant
                i <= N,
                other.strs@.len() == N,
                self@ == start + joined_text(other.strs@.take(i as int)),
            decreases N - i,
        {
            proof {
                assert(other.strs@.take(i + 1).drop_last() =~= other.strs@.take(i as int));
            }
            self.append(other.strs[i]);
            i = i + 1;
        }
        assert(other.strs@.take(N as int) =~= other.strs@);
    }
}

// As for `From`, the sum is stated on `add` itself.
impl<'a, const N: usize> AddSpecImpl<CombinedStr<'a, N>> for String {
    open spec fn obeys_add_spec() -> bool {
        false
    }

    open spec fn add_req(self, rhs: CombinedStr<'a, N>) -> bool {
        true
    }

    open spec fn add_spec(self, rhs: CombinedStr<'a, N>) -> String {
        choose|s: String| s@ == self@ + rhs.text()
    }
}

impl<'a, const N: usize> Add<CombinedStr<'a, N>> for String {
    type Output = String;

    /// Appends all segments of `rhs` to this `String`, returning the result.
    fn add(self, rhs: CombinedStr<'a, N>) -> (r: String)
        ensures
            r@ == self@ + rhs.text(),
    {
        let mut s = self;
        s.add_assign(rhs);
        s
    }
}

// `String` values are not built in specifications, so the conversion's result is
// stated on the function itself rather than through `from_spec`.
impl<'a, const N: usize> FromSpecImpl<CombinedStr<'a, N>> for String {
    open spec fn obeys_from_spec() -> bool {
        false
    }

    open spec fn from_spec(v: CombinedStr<'a, N>) -> String {
        choose|s: String| s@ == v.text()
    }
}

impl<'a, const N: usize> From<CombinedStr<'a, N>> for String {
    /// Collects all segments into a `String`.
    fn from(value: CombinedStr<'a, N>) -> (r: String)
        ensures
            r@ == value.text(),
    {
        value.to_string()
    }
}

impl<'a, const N: usize> CombinedStr<'a, N> {
    /// `true` when no segment holds a byte. Unlike `is_empty`, it never adds up lengths.
    pub(crate) fn all_segments_empty(&self) -> (b: bool)
        ensures
            b == (self@.len() == 0),
            b == (self.text().len() == 0),
    {
        let ghost sb = segment_bytes(self.strs@);
        proof {
            lemma_offset_end(sb);
            lemma_joined_text_bytes(self.strs@);
        }
        let mut i: usize = 0;
        while i < N
            invariant
                i <= N,
                sb == segment_bytes(self.strs@),
                sb.len() == N,
                offset(sb, i as int) == 0,
                offset(sb, N as int) == self@.len(),
                encode_utf8(self.text()) == self@,
            decreases N - i,
        {
            proof {
                lemma_joined_take_step(sb, i as int);
                lemma_offset_monotone(sb, i + 1, N as int);
            }
            if self.strs[i].as_bytes().len() != 0 {
                return false;
            }
            i = i + 1;
        }
        true
    }
}

/// Whether a `Cow<str>` holds no characters.
pub(crate) fn cow_is_empty(c: &Cow<str>) -> (b: bool)
    ensures
        b == (c@.len() == 0),
{
    match c {
        Cow::Borrowed(b) => b.is_empty(),
        Cow::Owned(o) => o.as_str().is_empty(),
    }
}

impl<'a, const N: usize> AddAssign<CombinedStr<'a, N>> for Cow<'a, str> {
    /// Appends all segments of `rhs` to this `Cow<str>` in place. An empty `Cow`
    /// becomes owned; a borrowed one stays borrowed when nothing is appended.
    fn add_assign(&mut self, rhs: CombinedStr<'a, N>)
        ensures
            final(self)@ == old(self)@ + rhs.text(),
            *final(self) is Owned <==> (*old(self) is Owned || old(self)@.len() == 0
                || rhs.text().len() > 0),
    {
        if cow_is_empty(self) {
            *self = Cow::Owned(rhs.to_string());
            assert(self@ =~= old(self)@ + rhs.text());
        } else if !rhs.all_segments_empty() {
            if let Cow::Borrowed(lhs) = *self {
                let mut s = String::new();
                s.append(lhs);
                *self = Cow::Owned(s);
            }
            match self {
                Cow::Owned(s) => s.add_assign(rhs),
                Cow::Borrowed(_) => {},
            }
        } else {
            assert(self@ =~= old(self)@ + rhs.text());
        }
    }
}

// The sum is stated on `add` itself.
impl<'a, const N: usize> AddSpecImpl<CombinedStr<'a, N>> for Cow<'a, str> {
    open spec fn obeys_add_spec() -> bool {
        false
    }

    open spec fn add_req(self, rhs: CombinedStr<'a, N>) -> bool {
        true
    }

    open spec fn add_spec(self, rhs: CombinedStr<'a, N>) -> Cow<'a, str> {
        choose|s: Cow<'a, str>| s@ == self@ + rhs.text()
    }
}

impl<'a, const N: usize> Add<CombinedStr<'a, N>> for Cow<'a, str> {
    type Output = Cow<'a, str>;

    /// Appends all segments of `rhs` to this `Cow<str>`, returning the result.
    fn add(self, rhs: CombinedStr<'a, N>) -> (r: Cow<'a, str>)
        ensures
            r@ == self@ + rhs.text(),
    {
        let mut c = self;
        c.add_assign(rhs);
        c
    }
}

// The conversion's result is stated on `from` itself.
impl<'a, const N: usize> FromSpecImpl<CombinedStr<'a, N>> for Cow<'a, str> {
    open spec fn obeys_from_spec() -> bool {
        false
    }

    open spec fn from_spec(v: CombinedStr<'a, N>) -> Cow<'a, str> {
        choose|s: Cow<'a, str>| s@ == v.text()
    }
}

impl<'a, const N: usize> From<CombinedStr<'a, N>> for Cow<'a, str> {
    /// Collects all segments into an owned `Cow<str>`.
    fn from(value: CombinedStr<'a, N>) -> (r: Cow<'a, str>)
        ensures
            r@ == value.text(),
            r is Owned,
    {
        Cow::Owned(value.to_string())
    }
}

impl<'a, const N: usize> AsRef<[&'a str]> for CombinedStr<'a, N> {
    /// Returns the underlying segments as a slice.
    fn as_ref(&self) -> (r: &[&'a str])
        ensures
            r@ == self.strs@,
    {
        self.strs.as_slice()
    }
}

} // verus!
