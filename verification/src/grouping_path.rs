use smallvec::SmallVec;
use vstd::prelude::*;

use crate::groups::GroupPathSegment;

verus! {

/// The path from the outermost group down to a value, innermost segment first, held in
/// a `smallvec::SmallVec` with room for eight segments inline.
#[verifier::external_body]
pub struct GroupingPath {
    segments: SmallVec<[GroupPathSegment; 8]>,
}

/// The segments that a grouping path holds, first to last.
pub uninterp spec fn path_segments(path: GroupingPath) -> Seq<GroupPathSegment>;

impl GroupingPath {
    /// An empty path: `SmallVec::new`. Claimed: it holds no segment.
    #[verifier::external_body]
    pub(crate) fn new() -> (res: Self)
        ensures
            path_segments(res) == Seq::<GroupPathSegment>::empty(),
    {
        GroupingPath { segments: SmallVec::new() }
    }

    /// Appends a segment: `SmallVec::push`. Claimed: the segment comes last.
    #[verifier::external_body]
    pub(crate) fn push(&mut self, segment: GroupPathSegment)
        ensures
            path_segments(*final(self)) == path_segments(*old(self)).push(segment),
    {
        self.segments.push(segment);
    }

    /// Puts a segment first: `SmallVec::insert` at index 0. Claimed: the segment comes
    /// before the others, which keep their order.
    #[verifier::external_body]
    pub(crate) fn push_front(&mut self, segment: GroupPathSegment)
        ensures
            path_segments(*final(self)) == seq![segment] + path_segments(*old(self)),
    {
        self.segments.insert(0, segment);
    }

    /// The segments: `SmallVec::as_slice`. Claimed: exactly the held segments, in order.
    #[verifier::external_body]
    pub(crate) fn as_slice(&self) -> (res: &[GroupPathSegment])
        ensures
            res@ == path_segments(*self),
    {
        self.segments.as_slice()
    }
}

} // verus!
