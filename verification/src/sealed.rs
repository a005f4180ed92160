//! The set of index types that `CombinedStrIndex` accepts, closed to other crates.
use core::ops::{Bound, Range, RangeFrom, RangeFull, RangeInclusive, RangeTo, RangeToInclusive};
use vstd::prelude::*;

verus! {

/// Marks the range types a `CombinedStr` can be indexed by.
pub trait Sealed {

}

impl Sealed for Range<usize> {

}

impl Sealed for RangeTo<usize> {

}

impl Sealed for RangeFrom<usize> {

}

impl Sealed for RangeFull {

}

impl Sealed for RangeInclusive<usize> {

}

impl Sealed for RangeToInclusive<usize> {

}

impl Sealed for (Bound<usize>, Bound<usize>) {

}

} // verus!
