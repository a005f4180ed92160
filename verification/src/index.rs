//! Indexing a `CombinedStr` by byte range, giving a `CombinedStrView`.
use core::ops::{Bound, Range, RangeFrom, RangeFull, RangeInclusive, RangeTo, RangeToInclusive};
use vstd::prelude::*;
use vstd::utf8::is_char_boundary;

use crate::combined_str::{segment_bytes, CombinedStr};
use crate::ranges::{inclusive_end, inclusive_start, range_inclusive_end, range_inclusive_start};
use crate::sealed::Sealed;
use crate::view::{checked_range, range_pieces, resolved_bounds, CombinedStrView};

verus! {

/// `x + 1`, or `usize::MAX` where that would not fit.
pub open spec fn saturating_succ(x: usize) -> int {
    if x == usize::MAX {
        usize::MAX as int
    } else {
        x + 1
    }
}

/// A non-empty selected range starts and ends on character boundaries.
pub open spec fn cuts_on_char_boundaries(bytes: Seq<u8>, sel: Option<(int, int)>) -> bool {
    sel matches Some((s, e)) ==> s == e || (is_char_boundary(bytes, s) && is_char_boundary(bytes, e))
}

/// `v` is the view of bytes `start..end` of `slice`.
pub open spec fn is_range_view<const N: usize>(
    v: CombinedStrView,
    slice: CombinedStr<N>,
    start: int,
    end: int,
) -> bool {
    &&& v@ == slice@.subrange(start, end)
    &&& segment_bytes(v.segments()) == range_pieces(slice.strs@, start, end)
}

/// `v` is the view of the selected range of `slice`.
pub open spec fn is_selected_view<const N: usize>(
    v: CombinedStrView,
    slice: CombinedStr<N>,
    sel: Option<(int, int)>,
) -> bool {
    match sel {
        Some((start, end)) => is_range_view(v, slice, start, end),
        None => false,
    }
}

/// A sealed trait for indexing into a [`CombinedStr`] by range, returning a
/// [`CombinedStrView`].
///
/// Implemented for all standard range types over `usize` and for
/// `(Bound<usize>, Bound<usize>)`.
pub trait CombinedStrIndex<const N: usize>: Sealed {
    /// The byte range this index selects in a string of `len` bytes, or `None`
    /// when it selects none (out of bounds, reversed, or not representable).
    spec fn selects(&self, len: nat) -> Option<(int, int)>;

    /// Returns a view for the given range, or `None` if the range is out of bounds.
    fn get<'a>(&self, slice: &'a CombinedStr<'a, N>) -> (r: Option<CombinedStrView<'a>>)
        requires
            slice.fits(),
            cuts_on_char_boundaries(slice@, self.selects(slice@.len())),
        ensures
            r is Some <==> self.selects(slice@.len()) is Some,
            r matches Some(v) ==> is_selected_view(v, *slice, self.selects(slice@.len())),
    ;

    /// Returns a view for the given range, which must be in bounds.
    fn index<'a>(self, slice: &'a CombinedStr<'a, N>) -> (v: CombinedStrView<'a>)
        requires
            slice.fits(),
            self.selects(slice@.len()) is Some,
            cuts_on_char_boundaries(slice@, self.selects(slice@.len())),
        ensures
            is_selected_view(v, *slice, self.selects(slice@.len())),
    ;
}

impl<const N: usize> CombinedStrIndex<N> for Range<usize> {
    open spec fn selects(&self, len: nat) -> Option<(int, int)> {
        checked_range(self.start as int, self.end as int, len)
    }

    fn get<'a>(&self, slice: &'a CombinedStr<'a, N>) -> (r: Option<CombinedStrView<'a>>) {
        let len = slice.len();
        let (start, end) = (self.start, self.end);
        if start > end || end > len {
            return None;
        }
        Some(CombinedStrView::from_range(slice, start, end))
    }

    fn index<'a>(self, slice: &'a CombinedStr<'a, N>) -> (v: CombinedStrView<'a>) {
        CombinedStrIndex::get(&self, slice).unwrap()
    }
}

impl<const N: usize> CombinedStrIndex<N> for RangeTo<usize> {
    open spec fn selects(&self, len: nat) -> Option<(int, int)> {
        checked_range(0, self.end as int, len)
    }

    fn get<'a>(&self, slice: &'a CombinedStr<'a, N>) -> (r: Option<CombinedStrView<'a>>) {
        let len = slice.len();
        let (start, end) = (0, self.end);
        if start > end || end > len {
            return None;
        }
        Some(CombinedStrView::from_range(slice, start, end))
    }

    fn index<'a>(self, slice: &'a CombinedStr<'a, N>) -> (v: CombinedStrView<'a>) {
        CombinedStrIndex::get(&self, slice).unwrap()
    }
}

impl<const N: usize> CombinedStrIndex<N> for RangeFrom<usize> {
    open spec fn selects(&self, len: nat) -> Option<(int, int)> {
        checked_range(self.start as int, len as int, len)
    }

    fn get<'a>(&self, slice: &'a CombinedStr<'a, N>) -> (r: Option<CombinedStrView<'a>>) {
        let len = slice.len();
        let (start, end) = (self.start, len);
        if start > end || end > len {
            return None;
        }
        Some(CombinedStrView::from_range(slice, start, end))
    }

    fn index<'a>(self, slice: &'a CombinedStr<'a, N>) -> (v: CombinedStrView<'a>) {
        CombinedStrIndex::get(&self, slice).unwrap()
    }
}

impl<const N: usize> CombinedStrIndex<N> for RangeFull {
    open spec fn selects(&self, len: nat) -> Option<(int, int)> {
        checked_range(0, len as int, len)
    }

    fn get<'a>(&self, slice: &'a CombinedStr<'a, N>) -> (r: Option<CombinedStrView<'a>>) {
        let len = slice.len();
        let (start, end) = (0, len);
        if start > end || end > len {
            return None;
        }
        Some(CombinedStrView::from_range(slice, start, end))
    }

    fn index<'a>(self, slice: &'a CombinedStr<'a, N>) -> (v: CombinedStrView<'a>) {
        CombinedStrIndex::get(&self, slice).unwrap()
    }
}

impl<const N: usize> CombinedStrIndex<N> for RangeInclusive<usize> {
    open spec fn selects(&self, len: nat) -> Option<(int, int)> {
        // After iteration to exhaustion the bounds reported are left unspecified.
        let (start, end) = if self@.exhausted {
            (inclusive_start(self@), inclusive_end(self@))
        } else {
            (self@.start, self@.end)
        };
        checked_range(start as int, saturating_succ(end), len)
    }

    fn get<'a>(&self, slice: &'a CombinedStr<'a, N>) -> (r: Option<CombinedStrView<'a>>) {
        let len = slice.len();
        let (start, end) = (range_inclusive_start(self), range_inclusive_end(self).saturating_add(1));
        if start > end || end > len {
            return None;
        }
        Some(CombinedStrView::from_range(slice, start, end))
    }

    fn index<'a>(self, slice: &'a CombinedStr<'a, N>) -> (v: CombinedStrView<'a>) {
        CombinedStrIndex::get(&self, slice).unwrap()
    }
}

impl<const N: usize> CombinedStrIndex<N> for RangeToInclusive<usize> {
    open spec fn selects(&self, len: nat) -> Option<(int, int)> {
        checked_range(0, saturating_succ(self.end), len)
    }

    fn get<'a>(&self, slice: &'a CombinedStr<'a, N>) -> (r: Option<CombinedStrView<'a>>) {
        let len = slice.len();
        let (start, end) = (0, self.end.saturating_add(1));
        if start > end || end > len {
            return None;
        }
        Some(CombinedStrView::from_range(slice, start, end))
    }

    fn index<'a>(self, slice: &'a CombinedStr<'a, N>) -> (v: CombinedStrView<'a>) {
        CombinedStrIndex::get(&self, slice).unwrap()
    }
}

impl<const N: usize> CombinedStrIndex<N> for (Bound<usize>, Bound<usize>) {
    open spec fn selects(&self, len: nat) -> Option<(int, int)> {
        resolved_bounds(*self, len)
    }

    fn get<'a>(&self, slice: &'a CombinedStr<'a, N>) -> (r: Option<CombinedStrView<'a>>) {
        let (start, end) = CombinedStrView::resolve_bounds(self, slice.len())?;
        Some(CombinedStrView::from_range(slice, start, end))
    }

    fn index<'a>(self, slice: &'a CombinedStr<'a, N>) -> (v: CombinedStrView<'a>) {
        CombinedStrIndex::get(&self, slice).unwrap()
    }
}

} // verus!
