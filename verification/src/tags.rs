use vstd::prelude::*;

verus! {

/// Number of workspace tags.
pub const TAG_COUNT: u32 = 9;

/// A set of tags, one bit per tag. A client's membership set and a
/// monitor's visible set are both `TagSet`s.
#[derive(Clone, Copy, Debug, PartialEq, Eq, Structural)]
pub struct TagSet {
    pub bits: u32,
}

impl TagSet {
    /// True when no tag bit is set.
    pub open spec fn spec_is_empty(self) -> bool {
        self.bits == 0
    }

    /// True when tag `i` is a member.
    pub open spec fn spec_has(self, i: int) -> bool {
        self.bits & (1u32 << i) != 0
    }

    /// The empty tag set.
    pub fn empty() -> (r: TagSet)
        ensures
            r.bits == 0,
            r.spec_is_empty(),
    {
        TagSet { bits: 0 }
    }

    /// The tag set holding exactly the tag at `index`.
    pub fn single(index: u32) -> (r: TagSet)
        requires
            index < TAG_COUNT,
        ensures
            r.bits == 1u32 << index,
            !r.spec_is_empty(),
            r.spec_has(index as int),
    {
        let bits: u32 = 1u32 << index;
        proof {
            assert(1u32 << index != 0 && (1u32 << index) & (1u32 << index) != 0) by (bit_vector)
                requires index < 9u32;
        }
        TagSet { bits }
    }

    /// Membership test for the tag at `index`.
    pub fn has(&self, index: u32) -> (r: bool)
        requires
            index < TAG_COUNT,
        ensures
            r == self.spec_has(index as int),
    {
        self.bits & (1u32 << index) != 0
    }

    /// True when no tag bit is set.
    pub fn is_empty(&self) -> (r: bool)
        ensures
            r == self.spec_is_empty(),
    {
        self.bits == 0
    }

    /// True when the two sets share at least one tag. A client is visible
    /// on a monitor exactly when its membership set overlaps the monitor's
    /// visible set.
    pub fn overlaps(&self, other: &TagSet) -> (r: bool)
        ensures
            r == (self.bits & other.bits != 0),
    {
        self.bits & other.bits != 0
    }

    /// Union of two tag sets.
    pub fn union(&self, other: &TagSet) -> (r: TagSet)
        ensures
            r.bits == self.bits | other.bits,
    {
        TagSet { bits: self.bits | other.bits }
    }

    /// Toggle the tag at `index`.
    pub fn toggle(&self, index: u32) -> (r: TagSet)
        requires
            index < TAG_COUNT,
        ensures
            r.bits == self.bits ^ (1u32 << index),
    {
        TagSet { bits: self.bits ^ (1u32 << index) }
    }
}

} // verus!
