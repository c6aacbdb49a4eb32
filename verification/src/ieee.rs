//! Ordering of single-precision numbers given by their bit patterns.

use vstd::arithmetic::div_mod::lemma_div_multiples_vanish;
use vstd::arithmetic::power2::{lemma2_to64, lemma_pow2_strictly_increases, pow2};
use vstd::prelude::*;

verus! {

/// The pattern of positive zero.
pub const ZERO: u32 = 0;

/// The pattern of the largest finite number.
pub const LARGEST_FINITE: u32 = 0x7f7f_ffff;

/// The pattern of positive infinity; every larger magnitude is not a number.
pub const INFINITY: u32 = 0x7f80_0000;

/// The sign bit.
pub const SIGN: u32 = 0x8000_0000;

/// The pattern with its sign bit cleared.
pub open spec fn magnitude(bits: u32) -> u32 {
    if bits >= SIGN {
        (bits - SIGN) as u32
    } else {
        bits
    }
}

/// Whether the sign bit is set.
pub open spec fn is_negative(bits: u32) -> bool {
    bits >= SIGN
}

/// Whether the pattern is not a number.
pub open spec fn is_nan(bits: u32) -> bool {
    magnitude(bits) > INFINITY
}

/// An integer that orders the patterns as the numbers they stand for are
/// ordered: both zeros get the rank 0.
pub open spec fn rank(bits: u32) -> int {
    if is_negative(bits) {
        -(magnitude(bits) as int)
    } else {
        magnitude(bits) as int
    }
}

/// `a < b` on the numbers: false as soon as one of them is not a number.
pub open spec fn less(a: u32, b: u32) -> bool {
    !is_nan(a) && !is_nan(b) && rank(a) < rank(b)
}

/// `a <= b` on the numbers: false as soon as one of them is not a number.
pub open spec fn at_most(a: u32, b: u32) -> bool {
    !is_nan(a) && !is_nan(b) && rank(a) <= rank(b)
}

fn magnitude_of(bits: u32) -> (m: u32)
    ensures
        m == magnitude(bits),
{
    if bits >= SIGN {
        bits - SIGN
    } else {
        bits
    }
}

fn rank_of(bits: u32) -> (r: i64)
    ensures
        r == rank(bits),
{
    let m: u32 = magnitude_of(bits);
    if bits >= SIGN {
        0i64 - (m as i64)
    } else {
        m as i64
    }
}

/// Whether the pattern is not a number.
pub fn not_a_number(bits: u32) -> (r: bool)
    ensures
        r == is_nan(bits),
{
    magnitude_of(bits) > INFINITY
}

/// `a < b` on the numbers that the patterns stand for.
pub fn less_than(a: u32, b: u32) -> (r: bool)
    ensures
        r == less(a, b),
{
    !not_a_number(a) && !not_a_number(b) && rank_of(a) < rank_of(b)
}

/// `a <= b` on the numbers that the patterns stand for.
pub fn no_more_than(a: u32, b: u32) -> (r: bool)
    ensures
        r == at_most(a, b),
{
    !not_a_number(a) && !not_a_number(b) && rank_of(a) <= rank_of(b)
}

/// `a > b` on the numbers that the patterns stand for.
pub fn greater_than(a: u32, b: u32) -> (r: bool)
    ensures
        r == less(b, a),
{
    less_than(b, a)
}

/// The pattern of one.
pub const ONE: u32 = 0x3f80_0000;

/// The pattern of 255, the largest value of a color channel.
pub const CHANNEL_MAX: u32 = 0x437f_0000;

/// The exponent field of the pattern. A finite pattern with an exponent `e`
/// above zero and a fraction `f` stands for a number of the magnitude
/// `(2^23 + f) * 2^(e - 150)`.
pub open spec fn exponent(bits: u32) -> int {
    magnitude(bits) as int / 0x80_0000
}

/// The fraction field of the pattern.
pub open spec fn fraction(bits: u32) -> int {
    magnitude(bits) as int % 0x80_0000
}

/// Whether the pattern stands for the whole number `v`, which is not
/// negative and below `2^24`.
pub open spec fn is_whole(bits: u32, v: int) -> bool {
    if v == 0 {
        bits == ZERO
    } else {
        &&& bits < INFINITY
        &&& 127 <= exponent(bits) <= 150
        &&& 0x80_0000 + fraction(bits) == v * pow2((150 - exponent(bits)) as nat)
    }
}

/// The value of a color channel that a number is narrowed to: the number
/// clamped to the range from 0 to 255 and cut off after the point, and 0
/// for what is not a number.
pub open spec fn channel_of(bits: u32) -> int {
    if is_nan(bits) || is_negative(bits) || magnitude(bits) < ONE {
        0
    } else if magnitude(bits) >= CHANNEL_MAX {
        255
    } else {
        (0x80_0000 + fraction(bits)) / (pow2((150 - exponent(bits)) as nat) as int)
    }
}

/// The products with the powers of two by which the patterns of the
/// channel values are scaled.
proof fn lemma_scaled(v: int, n: nat)
    requires
        16 <= n <= 23,
    ensures
        n == 16 ==> pow2(n) == 0x1_0000 && v * pow2(n) == v * 0x1_0000,
        n == 17 ==> pow2(n) == 0x2_0000 && v * pow2(n) == v * 0x2_0000,
        n == 18 ==> pow2(n) == 0x4_0000 && v * pow2(n) == v * 0x4_0000,
        n == 19 ==> pow2(n) == 0x8_0000 && v * pow2(n) == v * 0x8_0000,
        n == 20 ==> pow2(n) == 0x10_0000 && v * pow2(n) == v * 0x10_0000,
        n == 21 ==> pow2(n) == 0x20_0000 && v * pow2(n) == v * 0x20_0000,
        n == 22 ==> pow2(n) == 0x40_0000 && v * pow2(n) == v * 0x40_0000,
        n == 23 ==> pow2(n) == 0x80_0000 && v * pow2(n) == v * 0x80_0000,
{
    lemma2_to64();
}

/// A channel value scaled by less than `2^16` stays below `2^23`.
proof fn lemma_scaled_too_little(v: int, n: nat)
    requires
        0 <= v <= 255,
        n < 16,
    ensures
        v * pow2(n) < 0x80_0000,
{
    lemma2_to64();
    if n < 15 {
        lemma_pow2_strictly_increases(n, 15);
    }
    assert(v * pow2(n) <= 255 * 0x8000) by (nonlinear_arith)
        requires
            0 <= v <= 255,
            0 <= pow2(n) <= 0x8000,
    ;
}

/// A multiple of `d` divided by `d`.
proof fn lemma_exact_quotient(x: int, d: int, v: int)
    requires
        0 < d,
        x == v * d,
    ensures
        x / d == v,
{
    lemma_div_multiples_vanish(v, d);
    assert(v * d == d * v) by (nonlinear_arith);
}

/// The exponent and the fraction of the pattern of a channel value.
proof fn lemma_whole_fields(bits: u32, v: int)
    requires
        1 <= v <= 255,
        is_whole(bits, v),
    ensures
        bits == 0x80_0000 * exponent(bits) + fraction(bits),
        127 <= exponent(bits) <= 134,
        v < 2 <==> exponent(bits) == 127,
        2 <= v < 4 <==> exponent(bits) == 128,
        4 <= v < 8 <==> exponent(bits) == 129,
        8 <= v < 16 <==> exponent(bits) == 130,
        16 <= v < 32 <==> exponent(bits) == 131,
        32 <= v < 64 <==> exponent(bits) == 132,
        64 <= v < 128 <==> exponent(bits) == 133,
        128 <= v <==> exponent(bits) == 134,
        exponent(bits) == 127 ==> fraction(bits) == v * 0x80_0000 - 0x80_0000,
        exponent(bits) == 128 ==> fraction(bits) == v * 0x40_0000 - 0x80_0000,
        exponent(bits) == 129 ==> fraction(bits) == v * 0x20_0000 - 0x80_0000,
        exponent(bits) == 130 ==> fraction(bits) == v * 0x10_0000 - 0x80_0000,
        exponent(bits) == 131 ==> fraction(bits) == v * 0x8_0000 - 0x80_0000,
        exponent(bits) == 132 ==> fraction(bits) == v * 0x4_0000 - 0x80_0000,
        exponent(bits) == 133 ==> fraction(bits) == v * 0x2_0000 - 0x80_0000,
        exponent(bits) == 134 ==> fraction(bits) == v * 0x1_0000 - 0x80_0000,
{
    let e = exponent(bits);
    let n = (150 - e) as nat;
    assert(magnitude(bits) == bits);
    if n < 16 {
        lemma_scaled_too_little(v, n);
    } else {
        lemma_scaled(v, n);
    }
}

/// Narrowing the pattern of a channel value gives the value back.
pub proof fn lemma_channel_of_whole(bits: u32, v: int)
    requires
        0 <= v <= 255,
        is_whole(bits, v),
    ensures
        channel_of(bits) == v,
{
    if v != 0 {
        lemma_whole_fields(bits, v);
        let n = (150 - exponent(bits)) as nat;
        lemma_scaled(v, n);
        assert(magnitude(bits) == bits);
        lemma_exact_quotient(0x80_0000 + fraction(bits), pow2(n) as int, v);
    }
}

/// At most one pattern stands for a channel value.
pub proof fn lemma_whole_unique(a: u32, b: u32, v: int)
    requires
        0 <= v <= 255,
        is_whole(a, v),
        is_whole(b, v),
    ensures
        a == b,
{
    if v != 0 {
        lemma_whole_fields(a, v);
        lemma_whole_fields(b, v);
    }
}

/// The pattern of the number that a color channel holds.
pub fn from_channel(v: u8) -> (bits: u32)
    ensures
        is_whole(bits, v as int),
{
    if v == 0 {
        return ZERO;
    }
    let mut scaled: u32 = v as u32;
    let mut e: u32 = 134;
    while scaled < 128
        invariant
            1 <= scaled <= 255,
            127 <= e <= 134,
            e == 134 ==> scaled == v,
            e == 133 ==> scaled == v * 2,
            e == 132 ==> scaled == v * 4,
            e == 131 ==> scaled == v * 8,
            e == 130 ==> scaled == v * 16,
            e == 129 ==> scaled == v * 32,
            e == 128 ==> scaled == v * 64,
            e == 127 ==> scaled == v * 128,
        decreases e,
    {
        scaled = scaled * 2;
        e = e - 1;
    }
    let bits: u32 = e * 0x80_0000 + (scaled - 128) * 0x1_0000;
    proof {
        assert(magnitude(bits) == bits);
        assert(exponent(bits) == e);
        assert(fraction(bits) == (scaled - 128) * 0x1_0000);
        lemma_scaled(v as int, (150 - e) as nat);
    }
    bits
}

/// The value of a color channel that a number is narrowed to.
pub fn to_channel(bits: u32) -> (v: u8)
    ensures
        v == channel_of(bits),
{
    let m: u32 = magnitude_of(bits);
    if m > INFINITY || bits >= SIGN || m < ONE {
        return 0;
    }
    if m >= CHANNEL_MAX {
        return 255;
    }
    let e: u32 = m / 0x80_0000;
    let f: u32 = m % 0x80_0000;
    let divisor: u32 = if e == 134 {
        0x1_0000
    } else if e == 133 {
        0x2_0000
    } else if e == 132 {
        0x4_0000
    } else if e == 131 {
        0x8_0000
    } else if e == 130 {
        0x10_0000
    } else if e == 129 {
        0x20_0000
    } else if e == 128 {
        0x40_0000
    } else {
        0x80_0000
    };
    proof {
        assert(127 <= e <= 134);
        assert(e == exponent(bits));
        assert(f == fraction(bits));
        lemma_scaled(1, (150 - e) as nat);
        assert(divisor == pow2((150 - e) as nat));
        assert((0x80_0000 + f) / (divisor as int) <= 255);
    }
    ((0x80_0000 + f) / divisor) as u8
}

} // verus!
