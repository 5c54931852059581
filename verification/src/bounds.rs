//! The slab test on the bounds of a shape.
//!
//! On each axis a ray crosses the two planes of the box at two parameters,
//! `(plane - origin) / direction`. The caller divides; the test on the six
//! quotients is here. A direction of zero makes a quotient infinite, and an
//! origin on a plane with a direction of zero makes it a NaN: both are taken
//! as they come, by the order of `Scalar`.
use vstd::prelude::*;
use crate::scalar::Scalar;

verus! {

/// The two parameters at which a ray crosses the planes of one axis, in the
/// order of the box's corners: `at_min` for the lower plane, `at_max` for the
/// upper one.
#[derive(Clone, Copy, Debug)]
pub struct Slab {
    pub at_min: Scalar,
    pub at_max: Scalar,
}

impl Slab {
    /// The parameter at which the ray enters the slab: the crossings are
    /// exchanged where the lower plane's is the greater.
    pub open spec fn near(self) -> Scalar {
        if self.at_max.less(self.at_min) {
            self.at_max
        } else {
            self.at_min
        }
    }

    /// The parameter at which the ray leaves the slab.
    pub open spec fn far(self) -> Scalar {
        if self.at_max.less(self.at_min) {
            self.at_min
        } else {
            self.at_max
        }
    }

    /// Whether one of the two crossings is a NaN.
    pub open spec fn has_nan(self) -> bool {
        self.at_min.is_nan() || self.at_max.is_nan()
    }

    pub fn new(at_min: Scalar, at_max: Scalar) -> (s: Slab)
        ensures
            s.at_min == at_min,
            s.at_max == at_max,
    {
        Slab { at_min, at_max }
    }

    /// The crossings in the order in which the ray meets them.
    pub fn ordered(self) -> (r: (Scalar, Scalar))
        ensures
            r.0 == self.near(),
            r.1 == self.far(),
    {
        if self.at_min.gt(self.at_max) {
            (self.at_max, self.at_min)
        } else {
            (self.at_min, self.at_max)
        }
    }
}

/// The greater of two entry parameters: `b` where it is greater, else `a`.
pub open spec fn later(a: Scalar, b: Scalar) -> Scalar {
    if a.less(b) {
        b
    } else {
        a
    }
}

/// The smaller of two exit parameters: `b` where it is smaller, else `a`.
pub open spec fn earlier(a: Scalar, b: Scalar) -> Scalar {
    if b.less(a) {
        b
    } else {
        a
    }
}

/// What the slab test answers: the X interval is cut down to what it shares
/// with the Y interval, and what is left must meet the Z interval. Two
/// intervals miss each other where one begins after the other has ended.
pub open spec fn slabs_overlap(x: Slab, y: Slab, z: Slab) -> bool {
    let near = later(x.near(), y.near());
    let far = earlier(x.far(), y.far());
    &&& !y.far().less(x.near())
    &&& !x.far().less(y.near())
    &&& !z.far().less(near)
    &&& !far.less(z.near())
}

/// The slab test on the six crossing parameters of a ray.
pub fn intersects_bounds(x: Slab, y: Slab, z: Slab) -> (hit: bool)
    ensures
        hit == slabs_overlap(x, y, z),
{
    let (mut near, mut far) = x.ordered();
    let (near_y, far_y) = y.ordered();
    if near.gt(far_y) || near_y.gt(far) {
        return false;
    }
    if near_y.gt(near) {
        near = near_y;
    }
    if far_y.lt(far) {
        far = far_y;
    }
    let (near_z, far_z) = z.ordered();
    if near.gt(far_z) || near_z.gt(far) {
        return false;
    }
    true
}

/// The greatest of three values.
pub open spec fn max3(a: int, b: int, c: int) -> int {
    if a >= b && a >= c {
        a
    } else if b >= c {
        b
    } else {
        c
    }
}

/// The least of three values.
pub open spec fn min3(a: int, b: int, c: int) -> int {
    if a <= b && a <= c {
        a
    } else if b <= c {
        b
    } else {
        c
    }
}

/// Where no crossing is a NaN, the slab test answers whether the three
/// intervals have a parameter in common: whether the last entry comes no later
/// than the first exit.
pub proof fn lemma_overlap_is_common_interval(x: Slab, y: Slab, z: Slab)
    requires
        !x.has_nan(),
        !y.has_nan(),
        !z.has_nan(),
    ensures
        slabs_overlap(x, y, z) <==> max3(x.near().value(), y.near().value(), z.near().value())
            <= min3(x.far().value(), y.far().value(), z.far().value()),
{
}

/// Whether the interval of `inner` lies within that of `outer`.
pub open spec fn within(inner: Slab, outer: Slab) -> bool {
    outer.near().value() <= inner.near().value() && inner.far().value() <= outer.far().value()
}

/// The slab test is a filter that widening keeps open: where a ray passes the
/// test on three intervals, it passes on any three that contain them. So a
/// box that encloses another is crossed by every ray that crosses the inner
/// one, as long as the division keeps the order of the planes. This holds
/// where no crossing is a NaN.
pub proof fn lemma_wider_slabs_keep_the_hit(
    x: Slab,
    y: Slab,
    z: Slab,
    wide_x: Slab,
    wide_y: Slab,
    wide_z: Slab,
)
    requires
        !x.has_nan() && !y.has_nan() && !z.has_nan(),
        !wide_x.has_nan() && !wide_y.has_nan() && !wide_z.has_nan(),
        within(x, wide_x),
        within(y, wide_y),
        within(z, wide_z),
        slabs_overlap(x, y, z),
    ensures
        slabs_overlap(wide_x, wide_y, wide_z),
{
    lemma_overlap_is_common_interval(x, y, z);
    lemma_overlap_is_common_interval(wide_x, wide_y, wide_z);
}

/// The slab test does not depend on the order in which the two crossings of
/// an axis are given: a ray that runs down an axis is tested as one that runs
/// up. This holds where no crossing is a NaN.
pub proof fn lemma_overlap_ignores_plane_order(x: Slab, y: Slab, z: Slab)
    requires
        !x.has_nan(),
        !y.has_nan(),
        !z.has_nan(),
    ensures
        slabs_overlap(x, y, z) == slabs_overlap(
            Slab { at_min: x.at_max, at_max: x.at_min },
            Slab { at_min: y.at_max, at_max: y.at_min },
            Slab { at_min: z.at_max, at_max: z.at_min },
        ),
{
    let xs = Slab { at_min: x.at_max, at_max: x.at_min };
    let ys = Slab { at_min: y.at_max, at_max: y.at_min };
    let zs = Slab { at_min: z.at_max, at_max: z.at_min };
    lemma_overlap_is_common_interval(x, y, z);
    lemma_overlap_is_common_interval(xs, ys, zs);
}

} // verus!
