//! Whether a ray meets a sphere, decided from the two numbers of the
//! geometric solution.
use vstd::prelude::*;
use crate::scalar::Scalar;

verus! {

/// Whether the near root exists. `projection` is the offset from the ray's
/// origin to the centre, projected on the ray's direction; `discriminant` is
/// the squared radius less the squared distance from the centre to the ray's
/// line. A negative projection puts the centre behind the origin, a negative
/// discriminant lets the line pass beside the sphere. The discriminant is
/// the right one only for a direction of unit length, which is what the
/// callers give. A NaN is not negative.
pub open spec fn has_near_root(projection: Scalar, discriminant: Scalar) -> bool {
    !projection.less(Scalar::zero()) && !discriminant.less(Scalar::zero())
}

/// Whether the ray meets the sphere at its near root. Where it does, the
/// distance is the projection less the discriminant's square root; an origin
/// inside the sphere gives a negative distance, which is reported as it is.
pub fn near_root_exists(projection: Scalar, discriminant: Scalar) -> (hit: bool)
    ensures
        hit == has_near_root(projection, discriminant),
        projection.less(Scalar::zero()) ==> !hit,
{
    if projection.is_negative() {
        false
    } else {
        !discriminant.is_negative()
    }
}

} // verus!
