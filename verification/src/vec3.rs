//! Triples of numbers, and their bounds axis by axis.
use vstd::prelude::*;
use crate::scalar::Scalar;

verus! {

/// A point, or a direction: three numbers.
#[derive(Clone, Copy, Debug)]
pub struct Vec3 {
    pub x: Scalar,
    pub y: Scalar,
    pub z: Scalar,
}

/// The smaller of a bound kept so far and a candidate: the candidate where it
/// is less, else the bound. A candidate that is a NaN never takes the place.
pub open spec fn lower(kept: Scalar, candidate: Scalar) -> Scalar {
    if candidate.less(kept) {
        candidate
    } else {
        kept
    }
}

/// The greater of a bound kept so far and a candidate.
pub open spec fn upper(kept: Scalar, candidate: Scalar) -> Scalar {
    if kept.less(candidate) {
        candidate
    } else {
        kept
    }
}

impl Vec3 {
    /// Axis by axis, the smaller of the two.
    pub open spec fn lowest(self, other: Vec3) -> Vec3 {
        Vec3 { x: lower(self.x, other.x), y: lower(self.y, other.y), z: lower(self.z, other.z) }
    }

    /// Axis by axis, the greater of the two.
    pub open spec fn highest(self, other: Vec3) -> Vec3 {
        Vec3 { x: upper(self.x, other.x), y: upper(self.y, other.y), z: upper(self.z, other.z) }
    }

    /// Whether no number of `other` is less than its like in `self`.
    pub open spec fn nowhere_above(self, other: Vec3) -> bool {
        !other.x.less(self.x) && !other.y.less(self.y) && !other.z.less(self.z)
    }

    /// Whether no number of `self` is a NaN.
    pub open spec fn is_numbers(self) -> bool {
        !self.x.is_nan() && !self.y.is_nan() && !self.z.is_nan()
    }

    pub fn new(x: Scalar, y: Scalar, z: Scalar) -> (v: Vec3)
        ensures
            v.x == x,
            v.y == y,
            v.z == z,
    {
        Vec3 { x, y, z }
    }

    /// The triple that holds one number three times.
    pub fn splat(value: Scalar) -> (v: Vec3)
        ensures
            v.x == value,
            v.y == value,
            v.z == value,
    {
        Vec3 { x: value, y: value, z: value }
    }

    /// Axis by axis, the smaller of the two.
    pub fn min(self, other: Vec3) -> (v: Vec3)
        ensures
            v == self.lowest(other),
    {
        Vec3 {
            x: if other.x.lt(self.x) {
                other.x
            } else {
                self.x
            },
            y: if other.y.lt(self.y) {
                other.y
            } else {
                self.y
            },
            z: if other.z.lt(self.z) {
                other.z
            } else {
                self.z
            },
        }
    }

    /// Axis by axis, the greater of the two.
    pub fn max(self, other: Vec3) -> (v: Vec3)
        ensures
            v == self.highest(other),
    {
        Vec3 {
            x: if self.x.lt(other.x) {
                other.x
            } else {
                self.x
            },
            y: if self.y.lt(other.y) {
                other.y
            } else {
                self.y
            },
            z: if self.z.lt(other.z) {
                other.z
            } else {
                self.z
            },
        }
    }
}

} // verus!
