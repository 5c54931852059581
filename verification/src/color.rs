//! Colours for the presentation: a level cut down to a channel of eight
//! bits, and three channels packed for a frame buffer.
use vstd::prelude::*;
use vstd::arithmetic::div_mod::{
    lemma_basic_div,
    lemma_div_is_ordered,
    lemma_div_multiples_vanish_quotient,
};
use vstd::arithmetic::power2::{lemma2_to64, lemma_pow2_adds, lemma_pow2_pos, lemma_pow2_unfold, pow2};
use crate::scalar::{
    lemma_scaled_grows,
    scaled,
    Scalar,
    FRACTIONS,
    INFINITY_BITS,
    SIGN_BIT,
};

verus! {

/// The number one, in the units of `Scalar::value`.
pub open spec fn unit() -> int {
    pow2(149) as int
}

/// The channel that a level gives: its whole part, cut off and not rounded,
/// kept within 0 and 255. A NaN gives 0.
pub open spec fn channel_of(level: Scalar) -> int {
    if level.is_nan() || level.value() <= 0 {
        0
    } else if level.value() >= 255 * unit() {
        255
    } else {
        level.value() / unit()
    }
}

/// The bits of the number one.
pub const ONE_BITS: u32 = 0x3f80_0000;

/// The bits of the number 256.
pub const TOP_BITS: u32 = 0x4380_0000;

/// Cuts a level, already scaled to the range of a channel, down to the
/// channel.
pub fn to_channel(level: Scalar) -> (channel: u8)
    ensures
        channel == channel_of(level),
{
    let bits: u32 = level.to_bits();
    if bits >= SIGN_BIT {
        proof {
            if level.magnitude() > 0 {
                lemma_scaled_grows(0, level.magnitude());
            }
        }
        return 0;
    }
    if bits > INFINITY_BITS {
        return 0;
    }
    proof {
        lemma2_to64();
        lemma_pow2_adds(23, 126);
        lemma_pow2_adds(8, 149);
        lemma_pow2_adds(23, 134);
        assert(scaled(ONE_BITS as int) == pow2(23) * pow2(126));
        assert(scaled(TOP_BITS as int) == pow2(23) * pow2(134));
    }
    if bits < ONE_BITS {
        proof {
            lemma_scaled_grows(bits as int, ONE_BITS as int);
            lemma_basic_div(level.value(), unit());
        }
        return 0;
    }
    if bits >= TOP_BITS {
        proof {
            if bits > TOP_BITS {
                lemma_scaled_grows(TOP_BITS as int, bits as int);
            }
            lemma_pow2_pos(149);
            assert(pow2(8) * pow2(149) == 256 * unit());
            assert(scaled(TOP_BITS as int) == 256 * unit());
        }
        return 255;
    }
    let exponent: u32 = bits / FRACTIONS;
    let fraction: u32 = bits % FRACTIONS;
    let mut divisor: u32 = FRACTIONS;
    let mut k: u32 = 127;
    while k < exponent
        invariant
            127 <= k <= exponent <= 134,
            divisor == pow2((150 - k) as nat),
        decreases exponent - k,
    {
        proof {
            lemma_pow2_unfold((150 - k) as nat);
        }
        divisor = divisor / 2;
        k += 1;
    }
    let whole: u32 = (FRACTIONS + fraction) / divisor;
    proof {
        let p = pow2((exponent - 1) as nat) as int;
        let q = divisor as int;
        let a = (FRACTIONS + fraction) as int;
        lemma_pow2_pos((exponent - 1) as nat);
        lemma_pow2_pos((150 - exponent) as nat);
        lemma_pow2_adds((exponent - 1) as nat, (150 - exponent) as nat);
        assert(unit() == p * q);
        assert(level.value() == a * p);
        assert(a * p == p * a) by (nonlinear_arith);
        lemma_div_multiples_vanish_quotient(p, a, q);
        assert(level.value() / unit() == whole);
        assert(level.value() > 0) by (nonlinear_arith)
            requires
                level.value() == a * p,
                a > 0,
                p > 0,
        ;
        assert(whole >= 255 ==> level.value() >= 255 * unit()) by (nonlinear_arith)
            requires
                level.value() / unit() == whole,
                unit() > 0,
        ;
        assert(whole < 255 ==> level.value() < 255 * unit()) by (nonlinear_arith)
            requires
                level.value() / unit() == whole,
                unit() > 0,
        ;
    }
    if whole >= 255 {
        255
    } else {
        whole as u8
    }
}

/// A brighter level never gives a darker channel.
pub proof fn lemma_channel_is_monotone(dim: Scalar, bright: Scalar)
    requires
        !dim.is_nan(),
        !bright.is_nan(),
        !bright.less(dim),
    ensures
        0 <= channel_of(dim) <= channel_of(bright) <= 255,
{
    lemma_pow2_pos(149);
    lemma_div_is_ordered(dim.value(), bright.value(), unit());
    if 0 <= dim.value() {
        lemma_div_is_ordered(0, dim.value(), unit());
    }
    if 0 <= bright.value() {
        lemma_div_is_ordered(0, bright.value(), unit());
    }
    if bright.value() <= 255 * unit() {
        lemma_div_is_ordered(bright.value(), 255 * unit(), unit());
    }
    if dim.value() <= 255 * unit() {
        lemma_div_is_ordered(dim.value(), 255 * unit(), unit());
    }
    assert((255 * unit()) / unit() == 255) by (nonlinear_arith)
        requires
            unit() > 0,
    ;
    assert(0int / unit() == 0) by (nonlinear_arith)
        requires
            unit() > 0,
    ;
}

/// The colour of a frame buffer: opaque, then red, green and blue, eight bits
/// each.
pub open spec fn packed(red: u8, green: u8, blue: u8) -> int {
    0xff00_0000 + red * 0x1_0000 + green * 0x100 + blue
}

/// Packs three channels into the colour of a frame buffer.
pub fn to_fb_color(red: u8, green: u8, blue: u8) -> (color: u32)
    ensures
        color == packed(red, green, blue),
        (color >> 16) & 0xff == red,
        (color >> 8) & 0xff == green,
        color & 0xff == blue,
        color >> 24 == 0xff,
{
    let r: u32 = red as u32;
    let g: u32 = green as u32;
    let b: u32 = blue as u32;
    let color: u32 = (255u32 << 24) | (r << 16) | (g << 8) | b;
    proof {
        assert(r < 256 && g < 256 && b < 256 ==> ((255u32 << 24) | (r << 16) | (g << 8) | b)
            == 0xff00_0000u32 + r * 0x1_0000u32 + g * 0x100u32 + b) by (bit_vector);
        assert(r < 256 && g < 256 && b < 256 ==> {
            let c = (255u32 << 24) | (r << 16) | (g << 8) | b;
            (c >> 16) & 0xff == r && (c >> 8) & 0xff == g && c & 0xff == b && c >> 24 == 0xff
        }) by (bit_vector);
    }
    color
}

} // verus!
