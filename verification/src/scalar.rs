//! Binary32 numbers by bit pattern, and their order.
use vstd::prelude::*;
use vstd::arithmetic::power2::{
    lemma_pow2_pos,
    lemma_pow2_strictly_increases,
    lemma_pow2_unfold,
    pow2,
};

verus! {

/// The bit that holds the sign of a binary32 number.
pub const SIGN_BIT: u32 = 0x8000_0000;

/// The magnitude bits of positive infinity; every larger magnitude is a NaN.
pub const INFINITY_BITS: u32 = 0x7f80_0000;

/// The number of magnitude patterns that share one exponent.
pub const FRACTIONS: u32 = 0x80_0000;

/// The absolute value that magnitude bits stand for, in units of 2^-149, the
/// least positive number of the format: the fraction alone below the first
/// exponent, else the fraction under its hidden bit, doubled with each further
/// exponent. Infinity gets the value that its exponent would give a finite
/// number, which is above every finite one.
pub open spec fn scaled(magnitude: int) -> int {
    let exponent = magnitude / (FRACTIONS as int);
    let fraction = magnitude % (FRACTIONS as int);
    if exponent == 0 {
        fraction
    } else {
        (FRACTIONS + fraction) * pow2((exponent - 1) as nat)
    }
}

/// An IEEE 754 binary32 number, held by its bit pattern.
///
/// What a pattern means is its `value`, and two numbers compare as their
/// values do. Among the numbers (everything but NaN) the magnitude bits grow
/// with the absolute value, so the order can be read off the bits: `rank` is
/// that reading, and `lemma_rank_orders_as_value` is the proof.
#[derive(Clone, Copy, Debug)]
pub struct Scalar {
    pub bits: u32,
}

impl Scalar {
    /// The bits without the sign.
    pub open spec fn magnitude(self) -> int {
        if self.bits >= SIGN_BIT {
            self.bits - SIGN_BIT
        } else {
            self.bits as int
        }
    }

    /// Whether the sign bit is set.
    pub open spec fn sign(self) -> bool {
        self.bits >= SIGN_BIT
    }

    /// Whether the pattern is a NaN.
    pub open spec fn is_nan(self) -> bool {
        self.magnitude() > INFINITY_BITS
    }

    /// The bits read as a signed magnitude. Both zeros have rank 0, the
    /// infinities have the outermost ranks among the numbers.
    pub open spec fn rank(self) -> int {
        if self.sign() {
            -self.magnitude()
        } else {
            self.magnitude()
        }
    }

    /// The number that the pattern stands for, in units of 2^-149. Both
    /// zeros have the value 0.
    pub open spec fn value(self) -> int {
        if self.sign() {
            -scaled(self.magnitude())
        } else {
            scaled(self.magnitude())
        }
    }

    /// `self < other` as IEEE 754 defines it: false as soon as one side is a
    /// NaN.
    pub open spec fn less(self, other: Scalar) -> bool {
        !self.is_nan() && !other.is_nan() && self.value() < other.value()
    }

    /// `self == other` as IEEE 754 defines it: a NaN equals nothing, and the
    /// two zeros are equal.
    pub open spec fn same(self, other: Scalar) -> bool {
        !self.is_nan() && !other.is_nan() && self.value() == other.value()
    }

    /// Positive zero.
    pub open spec fn zero() -> Scalar {
        Scalar { bits: 0 }
    }

    pub fn from_bits(bits: u32) -> (s: Scalar)
        ensures
            s.bits == bits,
    {
        Scalar { bits }
    }

    pub fn to_bits(self) -> (bits: u32)
        ensures
            bits == self.bits,
    {
        self.bits
    }

    fn magnitude_bits(self) -> (m: u32)
        ensures
            m == self.magnitude(),
    {
        if self.bits >= SIGN_BIT {
            self.bits - SIGN_BIT
        } else {
            self.bits
        }
    }

    pub fn is_nan_value(self) -> (r: bool)
        ensures
            r == self.is_nan(),
    {
        self.magnitude_bits() > INFINITY_BITS
    }

    /// `self < other`.
    pub fn lt(self, other: Scalar) -> (r: bool)
        ensures
            r == self.less(other),
    {
        let a: u32 = self.magnitude_bits();
        let b: u32 = other.magnitude_bits();
        if a > INFINITY_BITS || b > INFINITY_BITS {
            return false;
        }
        proof {
            lemma_rank_orders_as_value(self, other);
        }
        let a_negative = self.bits >= SIGN_BIT;
        let b_negative = other.bits >= SIGN_BIT;
        if a_negative {
            if b_negative {
                a > b
            } else {
                a > 0 || b > 0
            }
        } else {
            if b_negative {
                false
            } else {
                a < b
            }
        }
    }

    /// `self > other`.
    pub fn gt(self, other: Scalar) -> (r: bool)
        ensures
            r == other.less(self),
    {
        other.lt(self)
    }

    /// `self == other`, by value and not by bits.
    pub fn eq_value(self, other: Scalar) -> (r: bool)
        ensures
            r == self.same(other),
    {
        let a: u32 = self.magnitude_bits();
        let b: u32 = other.magnitude_bits();
        if a > INFINITY_BITS || b > INFINITY_BITS {
            return false;
        }
        proof {
            lemma_rank_orders_as_value(self, other);
        }
        (a == 0 && b == 0) || self.bits == other.bits
    }

    /// `self < 0`.
    pub fn is_negative(self) -> (r: bool)
        ensures
            r == self.less(Scalar::zero()),
    {
        self.lt(Scalar { bits: 0 })
    }

    /// `self > 0`.
    pub fn is_positive(self) -> (r: bool)
        ensures
            r == Scalar::zero().less(self),
    {
        Scalar { bits: 0 }.lt(self)
    }
}

/// Greater magnitude bits stand for a greater absolute value.
pub proof fn lemma_scaled_grows(low: int, high: int)
    requires
        0 <= low < high,
    ensures
        0 <= scaled(low) < scaled(high),
{
    let f = FRACTIONS as int;
    let e1 = low / f;
    let f1 = low % f;
    let e2 = high / f;
    let f2 = high % f;
    assert(low == e1 * f + f1 && 0 <= f1 < f && 0 <= e1) by (nonlinear_arith)
        requires
            f == 0x80_0000,
            0 <= low,
            e1 == low / f,
            f1 == low % f,
    ;
    assert(high == e2 * f + f2 && 0 <= f2 < f && 0 <= e2) by (nonlinear_arith)
        requires
            f == 0x80_0000,
            0 <= high,
            e2 == high / f,
            f2 == high % f,
    ;
    assert(e1 <= e2) by (nonlinear_arith)
        requires
            low == e1 * f + f1,
            high == e2 * f + f2,
            0 <= f1 < f,
            0 <= f2 < f,
            low < high,
    ;
    if e1 == e2 {
        if e1 > 0 {
            let p = pow2((e1 - 1) as nat) as int;
            lemma_pow2_pos((e1 - 1) as nat);
            assert(0 <= (f + f1) * p < (f + f2) * p) by (nonlinear_arith)
                requires
                    0 <= f1 < f2,
                    f > 0,
                    p > 0,
            ;
        }
    } else {
        let top = pow2((e2 - 1) as nat) as int;
        lemma_pow2_pos((e2 - 1) as nat);
        assert(f * top <= (f + f2) * top) by (nonlinear_arith)
            requires
                0 <= f2,
                top > 0,
        ;
        if e1 == 0 {
            assert(f * 1 <= f * top) by (nonlinear_arith)
                requires
                    f > 0,
                    top >= 1,
            ;
        } else {
            let p = pow2((e1 - 1) as nat) as int;
            lemma_pow2_pos((e1 - 1) as nat);
            lemma_pow2_unfold(e1 as nat);
            if e1 < e2 - 1 {
                lemma_pow2_strictly_increases(e1 as nat, (e2 - 1) as nat);
            }
            assert(0 <= (f + f1) * p < f * (2 * p)) by (nonlinear_arith)
                requires
                    0 <= f1 < f,
                    p > 0,
            ;
            assert(f * (2 * p) <= f * top) by (nonlinear_arith)
                requires
                    f > 0,
                    2 * p <= top,
            ;
        }
    }
}

/// The order of the ranks is the order of the values: two numbers compare as
/// their bits do, read as signed magnitudes.
pub proof fn lemma_rank_orders_as_value(a: Scalar, b: Scalar)
    ensures
        a.rank() < b.rank() <==> a.value() < b.value(),
        a.rank() == b.rank() <==> a.value() == b.value(),
        a.less(b) <==> !a.is_nan() && !b.is_nan() && a.rank() < b.rank(),
{
    let m = a.magnitude();
    let n = b.magnitude();
    assert(scaled(0) == 0);
    if m < n {
        lemma_scaled_grows(m, n);
    }
    if n < m {
        lemma_scaled_grows(n, m);
    }
    if 0 < m {
        lemma_scaled_grows(0, m);
    }
    if 0 < n {
        lemma_scaled_grows(0, n);
    }
}

/// `less` is a strict order: nothing is less than itself, and of two values
/// at most one is less than the other.
pub proof fn lemma_less_is_strict(a: Scalar, b: Scalar)
    ensures
        !a.less(a),
        !(a.less(b) && b.less(a)),
{
}

/// `less` is transitive.
pub proof fn lemma_less_is_transitive(a: Scalar, b: Scalar, c: Scalar)
    requires
        a.less(b),
        b.less(c),
    ensures
        a.less(c),
{
}

/// Two numbers are comparable: one is less than the other, or they are the
/// same. A NaN is comparable with nothing, itself included.
pub proof fn lemma_numbers_are_comparable(a: Scalar, b: Scalar)
    ensures
        (!a.is_nan() && !b.is_nan()) <==> (a.less(b) || b.less(a) || a.same(b)),
{
}

} // verus!
