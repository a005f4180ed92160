//! Walking the segments of a `CombinedStr` one at a time.
use vstd::prelude::*;

use crate::combined_str::CombinedStr;

verus! {

/// A stream of string segments, consumed front to back.
pub(crate) trait SegmentStream<'a>: Sized {
    /// The segments not yet handed out, in order.
    spec fn remaining(&self) -> Seq<&'a str>;

    /// Hands out the next segment, or `None` once all are gone.
    fn next_segment(&mut self) -> (r: Option<&'a str>)
        ensures
            old(self).remaining().len() == 0 ==> r is None && final(self).remaining().len() == 0,
            old(self).remaining().len() > 0 ==> r == Some(old(self).remaining()[0])
                && final(self).remaining() == old(self).remaining().drop_first(),
    ;
}

/// An iterator over the string segments of a [`CombinedStr`].
///
/// Yields each segment in order, then `None` from then on.
pub struct CombinedStrIter<'a, const N: usize> {
    strs: [&'a str; N],
    current: usize,
}

impl<'a, const N: usize> View for CombinedStrIter<'a, N> {
    type V = Seq<&'a str>;

    /// The segments still to come.
    closed spec fn view(&self) -> Seq<&'a str> {
        self.strs@.skip(self.current as int)
    }
}

impl<'a, const N: usize> CombinedStrIter<'a, N> {
    #[verifier::type_invariant]
    spec fn inv(&self) -> bool {
        self.current <= N
    }

    /// Returns the next segment, or `None` once every segment has been returned.
    pub fn next(&mut self) -> (r: Option<&'a str>)
        ensures
            old(self)@.len() == 0 ==> r is None && final(self)@.len() == 0,
            old(self)@.len() > 0 ==> r == Some(old(self)@[0]) && final(self)@ == old(self)@.drop_first(),
    {
        proof {
            use_type_invariant(&*self);
        }
        if self.current < N {
            let s = self.strs[self.current];
            self.current = self.current + 1;
            assert(self.strs@.skip(self.current as int) =~= old(self).strs@.skip(old(self).current as int).drop_first());
            Some(s)
        } else {
            None
        }
    }
}

impl<'a, const N: usize> SegmentStream<'a> for CombinedStrIter<'a, N> {
    open spec fn remaining(&self) -> Seq<&'a str> {
        self@
    }

    fn next_segment(&mut self) -> (r: Option<&'a str>) {
        self.next()
    }
}

impl<'a, const N: usize> CombinedStr<'a, N> {
    /// Turns the combined string into an iterator over its segments.
    pub fn into_iter(self) -> (it: CombinedStrIter<'a, N>)
        ensures
            it@ == self.strs@,
    {
        let it = CombinedStrIter { strs: self.strs, current: 0 };
        assert(it.strs@.skip(0) =~= self.strs@);
        it
    }
}

} // verus!
