//! Boxes by their two corners, and the box that encloses a group of boxes.
use vstd::prelude::*;
use crate::scalar::Scalar;
use crate::vec3::Vec3;

verus! {

/// The bits of the greatest finite number.
pub const MAX_BITS: u32 = 0x7f7f_ffff;

/// The bits of the least finite number.
pub const MIN_BITS: u32 = 0xff7f_ffff;

/// An axis-aligned box: its lowest and its highest corner.
#[derive(Clone, Copy, Debug)]
pub struct AABB {
    pub mins: Vec3,
    pub maxs: Vec3,
}

impl AABB {
    /// The box that encloses nothing yet: the lowest corner at the greatest
    /// finite number, the highest at the least.
    pub open spec fn nothing() -> AABB {
        AABB {
            mins: Vec3 {
                x: Scalar { bits: MAX_BITS },
                y: Scalar { bits: MAX_BITS },
                z: Scalar { bits: MAX_BITS },
            },
            maxs: Vec3 {
                x: Scalar { bits: MIN_BITS },
                y: Scalar { bits: MIN_BITS },
                z: Scalar { bits: MIN_BITS },
            },
        }
    }

    /// The box grown to hold another.
    pub open spec fn grown(self, other: AABB) -> AABB {
        AABB { mins: self.mins.lowest(other.mins), maxs: self.maxs.highest(other.maxs) }
    }

    /// Whether the other box lies within this one: none of its lower bounds
    /// is less than this box's, and none of this box's upper bounds is less
    /// than the other's.
    pub open spec fn encloses(self, other: AABB) -> bool {
        self.mins.nowhere_above(other.mins) && other.maxs.nowhere_above(self.maxs)
    }

    /// Whether the corners are in order: no upper bound is less than its
    /// lower bound.
    pub open spec fn is_ordered(self) -> bool {
        self.mins.nowhere_above(self.maxs)
    }

    /// Whether all six bounds are numbers.
    pub open spec fn is_numbers(self) -> bool {
        self.mins.is_numbers() && self.maxs.is_numbers()
    }

    pub fn new(mins: Vec3, maxs: Vec3) -> (aabb: AABB)
        ensures
            aabb.mins == mins,
            aabb.maxs == maxs,
    {
        AABB { mins, maxs }
    }

    /// The box that encloses the boxes of a group: axis by axis the least of
    /// the lower bounds and the greatest of the upper ones.
    pub fn enclosing(members: &Vec<AABB>) -> (aabb: AABB)
        ensures
            aabb == enclosing_of(members@),
            aabb.is_numbers(),
            forall|i: int| 0 <= i < members@.len() ==> aabb.encloses(#[trigger] members@[i]),
    {
        let mut mins = Vec3::splat(Scalar::from_bits(MAX_BITS));
        let mut maxs = Vec3::splat(Scalar::from_bits(MIN_BITS));
        let mut i: usize = 0;
        while i < members.len()
            invariant
                i <= members@.len(),
                (AABB { mins, maxs }) == enclosing_of(members@.take(i as int)),
            decreases members@.len() - i,
        {
            proof {
                assert(members@.take(i + 1).drop_last() =~= members@.take(i as int));
            }
            mins = mins.min(members[i].mins);
            maxs = maxs.max(members[i].maxs);
            i += 1;
        }
        proof {
            assert(members@.take(i as int) =~= members@);
            lemma_enclosing_is_numbers(members@);
            assert forall|k: int| 0 <= k < members@.len() implies enclosing_of(members@).encloses(
                #[trigger] members@[k],
            ) by {
                lemma_enclosing_encloses(members@, k);
            }
        }
        AABB { mins, maxs }
    }
}

/// The box that encloses a row of boxes, grown from nothing by one box after
/// the other.
pub open spec fn enclosing_of(members: Seq<AABB>) -> AABB
    decreases members.len(),
{
    if members.len() == 0 {
        AABB::nothing()
    } else {
        enclosing_of(members.drop_last()).grown(members.last())
    }
}

/// The bounds of an enclosing box are numbers, whatever the members hold.
pub proof fn lemma_enclosing_is_numbers(members: Seq<AABB>)
    ensures
        enclosing_of(members).is_numbers(),
    decreases members.len(),
{
    if members.len() > 0 {
        lemma_enclosing_is_numbers(members.drop_last());
    }
}

/// A box that is grown still encloses what it enclosed.
pub proof fn lemma_grown_keeps(aabb: AABB, other: AABB, inner: AABB)
    requires
        aabb.is_numbers(),
        aabb.encloses(inner),
    ensures
        aabb.grown(other).encloses(inner),
        aabb.grown(other).encloses(other),
{
}

/// The box of a group encloses the box of each member.
pub proof fn lemma_enclosing_encloses(members: Seq<AABB>, i: int)
    requires
        0 <= i < members.len(),
    ensures
        enclosing_of(members).encloses(members[i]),
    decreases members.len(),
{
    let front = members.drop_last();
    lemma_enclosing_is_numbers(front);
    if i < front.len() {
        lemma_enclosing_encloses(front, i);
        assert(front[i] == members[i]);
        lemma_grown_keeps(enclosing_of(front), members.last(), members[i]);
    } else {
        assert(members[i] == members.last());
    }
}

/// The box of a group with a member is in order, where the member's bounds
/// are numbers in order.
pub proof fn lemma_enclosing_is_ordered(members: Seq<AABB>, i: int)
    requires
        0 <= i < members.len(),
        members[i].is_numbers(),
        members[i].is_ordered(),
    ensures
        enclosing_of(members).is_ordered(),
{
    lemma_enclosing_encloses(members, i);
    lemma_enclosing_is_numbers(members);
}

} // verus!
