//! Declarations that let verified code read the standard range types and `Bound`.
//!
//! `RangeTo`, `RangeFrom`, `RangeFull`, `RangeToInclusive` and `Bound` have public
//! fields or variants, which Verus reads directly. `RangeInclusive` keeps its fields
//! private; its two accessors are called through the wrappers below.
use core::ops::{Bound, RangeFrom, RangeFull, RangeInclusive, RangeTo, RangeToInclusive};
use vstd::prelude::*;
use vstd::std_specs::range::RangeInclusiveView;

verus! {

#[verifier::external_type_specification]
#[verifier::reject_recursive_types(Idx)]
pub struct ExRangeTo<Idx>(RangeTo<Idx>);

#[verifier::external_type_specification]
#[verifier::reject_recursive_types(Idx)]
pub struct ExRangeFrom<Idx>(RangeFrom<Idx>);

#[verifier::external_type_specification]
pub struct ExRangeFull(RangeFull);

#[verifier::external_type_specification]
#[verifier::reject_recursive_types(Idx)]
pub struct ExRangeToInclusive<Idx>(RangeToInclusive<Idx>);

#[verifier::external_type_specification]
#[verifier::reject_recursive_types(T)]
pub struct ExBound<T>(Bound<T>);

/// What `RangeInclusive::start` returns for a range in state `r`.
pub uninterp spec fn inclusive_start(r: RangeInclusiveView<usize>) -> usize;

/// What `RangeInclusive::end` returns for a range in state `r`.
pub uninterp spec fn inclusive_end(r: RangeInclusiveView<usize>) -> usize;

/// Calls `RangeInclusive::start`. Its result depends on the range's state alone;
/// as its documentation says, it is the lower bound the range was built with
/// unless the range has been iterated to exhaustion, when it is left unspecified.
#[verifier::external_body]
pub(crate) fn range_inclusive_start(r: &RangeInclusive<usize>) -> (s: usize)
    ensures
        s == inclusive_start(r@),
        !r@.exhausted ==> s == r@.start,
{
    *r.start()
}

/// Calls `RangeInclusive::end`. Its result depends on the range's state alone;
/// as its documentation says, it is the upper bound the range was built with
/// unless the range has been iterated to exhaustion, when it is left unspecified.
#[verifier::external_body]
pub(crate) fn range_inclusive_end(r: &RangeInclusive<usize>) -> (e: usize)
    ensures
        e == inclusive_end(r@),
        !r@.exhausted ==> e == r@.end,
{
    *r.end()
}

} // verus!
