//! The fixed-point arithmetic of the SILK layer.
//!
//! A value in "Q*n*" stands for itself divided by two to the power of *n*.
//! The specifications are over the integers: a right shift is a division that
//! rounds down, and an operation that may leave the 32-bit range wraps.

use vstd::arithmetic::power2::pow2;
use vstd::prelude::*;

use crate::range::{bit_length, ilog, lemma_bit_length, lemma_bit_length_at_most};

verus! {

/// The signed 16-bit integer in the low half of a word.
pub open spec fn low16(x: int) -> int {
    (x + 0x8000) % 0x1_0000 - 0x8000
}

/// The signed 32-bit integer with the same low bits.
pub open spec fn wrap32(x: int) -> int {
    (x + 0x8000_0000) % 0x1_0000_0000 - 0x8000_0000
}

/// The nearest value within the signed 16-bit range.
pub open spec fn sat16(x: int) -> int {
    clamped(x, -0x8000, 0x7FFF)
}

/// The nearest value within the signed 32-bit range.
pub open spec fn sat32(x: int) -> int {
    clamped(x, -0x8000_0000, 0x7FFF_FFFF)
}

/// The value of `lo..=hi` nearest to `x`.
pub open spec fn clamped(x: int, lo: int, hi: int) -> int {
    if x < lo {
        lo
    } else if x > hi {
        hi
    } else {
        x
    }
}

/// The smaller of two values.
pub open spec fn least(x: int, y: int) -> int {
    if x < y {
        x
    } else {
        y
    }
}

/// The larger of two values.
pub open spec fn most(x: int, y: int) -> int {
    if x > y {
        x
    } else {
        y
    }
}

/// A word times the low half of another, in units of 2^16.
pub open spec fn smulwb_of(a: int, b: int) -> int {
    (a * low16(b)) / 0x1_0000
}

/// A word plus such a product.
pub open spec fn smlawb_of(a: int, b: int, c: int) -> int {
    wrap32(a + smulwb_of(b, c))
}

/// The product of two low halves.
pub open spec fn smulbb_of(a: int, b: int) -> int {
    low16(a) * low16(b)
}

/// The product of two high halves.
pub open spec fn smultt_of(a: int, b: int) -> int {
    (a / 0x1_0000) * (b / 0x1_0000)
}

/// The product of two words, in units of 2^16.
pub open spec fn smulww_of(a: int, b: int) -> int {
    wrap32((a * b) / 0x1_0000)
}

/// A right shift that rounds to the nearest integer, halves upwards.
pub open spec fn rounded_shift(x: int, n: nat) -> int {
    (x + pow2((n - 1) as nat)) / pow2(n) as int
}

/// The number of leading zero bits of a word.
pub open spec fn leading_zeros(x: int) -> int {
    if x < 0 {
        0
    } else {
        32 - bit_length(x)
    }
}

/// The low half of `x`, with its sign.
pub fn sign_extend16(x: i32) -> (r: i32)
    ensures
        r == low16(x as int),
        -0x8000 <= r <= 0x7FFF,
{
    let r = x as i16;
    assert(r == (x + 0x8000) % 0x1_0000 - 0x8000) by (bit_vector)
        requires
            r == x as i16,
    ;
    r as i32
}

/// `x` reduced to 32 bits.
pub fn truncate32(x: i64) -> (r: i32)
    ensures
        r == wrap32(x as int),
{
    let r = x as i32;
    assert(r == (x + 0x8000_0000) % 0x1_0000_0000 - 0x8000_0000) by (bit_vector)
        requires
            r == x as i32,
    ;
    r
}

/// `x` shifted right by `n` bits, rounding down.
pub fn shift_down(x: i64, n: u32) -> (r: i64)
    requires
        n < 64,
    ensures
        r == x as int / pow2(n as nat) as int,
        x >= 0 ==> 0 <= r <= x,
        x < 0 ==> x <= r < 0,
{
    proof {
        vstd::arithmetic::power2::lemma_pow2_pos(n as nat);
    }
    if x >= 0 {
        proof {
            vstd::bits::lemma_u64_shr_is_div(x as u64, n as u64);
            lemma_quotient(x as int, pow2(n as nat) as int);
        }
        (x as u64 >> n as u64) as i64
    } else {
        let y: u64 = (-1 - x) as u64;
        proof {
            vstd::bits::lemma_u64_shr_is_div(y, n as u64);
            lemma_quotient(y as int, pow2(n as nat) as int);
            lemma_negative_quotient(x as int, pow2(n as nat) as int);
        }
        -1 - (y >> n as u64) as i64
    }
}

proof fn lemma_quotient(y: int, d: int)
    by (nonlinear_arith)
    requires
        y >= 0,
        d > 0,
    ensures
        0 <= y / d <= y,
{
}

proof fn lemma_negative_quotient(x: int, d: int)
    requires
        x < 0,
        d > 0,
    ensures
        x / d == -1 - (-1 - x) / d,
{
    let y = -1 - x;
    let q = y / d;
    let r = y % d;
    vstd::arithmetic::div_mod::lemma_fundamental_div_mod(y, d);
    assert(x == (-1 - q) * d + (d - 1 - r)) by (nonlinear_arith)
        requires
            y == d * q + r,
            x == -1 - y,
    ;
    vstd::arithmetic::div_mod::lemma_fundamental_div_mod_converse(x, d, -1 - q, d - 1 - r);
}

/// `x` shifted left by `n` bits, dropping what leaves the word.
pub fn shift_up(x: i32, n: u32) -> (r: i32)
    requires
        n < 31,
    ensures
        r == wrap32(x * pow2(n as nat)),
{
    proof {
        vstd::arithmetic::power2::lemma_pow2_pos(n as nat);
        vstd::arithmetic::power2::lemma2_to64();
        if n < 31 {
            vstd::arithmetic::power2::lemma_pow2_strictly_increases(n as nat, 31);
        }
        vstd::bits::lemma_u32_shl_is_mul(1, n);
        vstd::bits::lemma_u64_shl_is_mul(1, n as u64);
    }
    let factor: i64 = (1u64 << n as u64) as i64;
    assert(-0x4000_0000_0000_0000 <= x * factor <= 0x4000_0000_0000_0000) by (nonlinear_arith)
        requires
            -0x8000_0000 <= x <= 0x7FFF_FFFF,
            0 < factor <= 0x8000_0000,
    ;
    truncate32(x as i64 * factor)
}

/// The word nearest to `x`.
pub fn saturate32(x: i64) -> (r: i32)
    ensures
        r == sat32(x as int),
{
    if x < -0x8000_0000 {
        -0x8000_0000
    } else if x > 0x7FFF_FFFF {
        0x7FFF_FFFF
    } else {
        x as i32
    }
}

/// The half word nearest to `x`.
pub fn saturate16(x: i32) -> (r: i16)
    ensures
        r == sat16(x as int),
{
    if x < -0x8000 {
        -0x8000
    } else if x > 0x7FFF {
        0x7FFF
    } else {
        x as i16
    }
}

/// `a` times the low half of `b`, in units of 2^16.
pub fn smulwb(a: i32, b: i32) -> (r: i32)
    ensures
        r == smulwb_of(a as int, b as int),
        -0x4000_0000 <= r <= 0x4000_0000,
{
    let half = sign_extend16(b);
    assert(-0x4000_0000_0000 <= a * half <= 0x4000_0000_0000) by (nonlinear_arith)
        requires
            -0x8000_0000 <= a <= 0x7FFF_FFFF,
            -0x8000 <= half <= 0x7FFF,
    ;
    let product: i64 = a as i64 * half as i64;
    proof {
        vstd::arithmetic::power2::lemma2_to64();
    }
    shift_down(product, 16) as i32
}

/// `a` plus `b` times the low half of `c`.
pub fn smlawb(a: i32, b: i32, c: i32) -> (r: i32)
    ensures
        r == smlawb_of(a as int, b as int, c as int),
{
    let sum: i64 = a as i64 + smulwb(b, c) as i64;
    truncate32(sum)
}

/// The product of the low halves of `a` and `b`.
pub fn smulbb(a: i32, b: i32) -> (r: i32)
    ensures
        r == smulbb_of(a as int, b as int),
        -0x3FFF_8000 <= r <= 0x4000_0000,
{
    let x = sign_extend16(a);
    let y = sign_extend16(b);
    assert(-0x3FFF_8000 <= x * y <= 0x4000_0000) by (nonlinear_arith)
        requires
            -0x8000 <= x <= 0x7FFF,
            -0x8000 <= y <= 0x7FFF,
    ;
    x * y
}

/// `a` plus the product of the low halves of `b` and `c`.
pub fn smlabb(a: i32, b: i32, c: i32) -> (r: i32)
    ensures
        r == wrap32(a + smulbb_of(b as int, c as int)),
{
    let sum: i64 = a as i64 + smulbb(b, c) as i64;
    truncate32(sum)
}

/// The product of the high halves of `a` and `b`.
pub fn smultt(a: i32, b: i32) -> (r: i32)
    ensures
        r == smultt_of(a as int, b as int),
        -0x3FFF_8000 <= r <= 0x4000_0000,
{
    proof {
        vstd::arithmetic::power2::lemma2_to64();
    }
    let x = shift_down(a as i64, 16) as i32;
    let y = shift_down(b as i64, 16) as i32;
    assert(-0x3FFF_8000 <= x * y <= 0x4000_0000) by (nonlinear_arith)
        requires
            -0x8000 <= x <= 0x7FFF,
            -0x8000 <= y <= 0x7FFF,
    ;
    x * y
}

/// The product of `a` and `b`, in units of 2^16.
pub fn smulww(a: i32, b: i32) -> (r: i32)
    ensures
        r == smulww_of(a as int, b as int),
{
    assert(-0x4000_0000_0000_0000 <= a * b <= 0x4000_0000_0000_0000) by (nonlinear_arith)
        requires
            -0x8000_0000 <= a <= 0x7FFF_FFFF,
            -0x8000_0000 <= b <= 0x7FFF_FFFF,
    ;
    proof {
        vstd::arithmetic::power2::lemma2_to64();
    }
    truncate32(shift_down(a as i64 * b as i64, 16))
}

/// The sum of two half words, saturated.
pub fn add_sat16(a: i16, b: i16) -> (r: i16)
    ensures
        r == sat16(a + b),
{
    saturate16(a as i32 + b as i32)
}

/// The sum of two words, saturated.
pub fn add_sat32(a: i32, b: i32) -> (r: i32)
    ensures
        r == sat32(a + b),
{
    saturate32(a as i64 + b as i64)
}

/// `a` shifted left by `n` bits, saturated to what a shift can reach.
pub fn lshift_sat32(a: i32, n: u32) -> (r: i32)
    requires
        n < 31,
    ensures
        r == clamped(
            a as int,
            -0x8000_0000 / pow2(n as nat) as int,
            0x7FFF_FFFFint / pow2(n as nat) as int,
        ) * pow2(n as nat),
{
    let lo = shift_down(-0x8000_0000, n) as i32;
    let hi = shift_down(0x7FFF_FFFF, n) as i32;
    let x = if a < lo {
        lo
    } else if a > hi {
        hi
    } else {
        a
    };
    proof {
        let d = pow2(n as nat) as int;
        vstd::arithmetic::power2::lemma_pow2_pos(n as nat);
        vstd::arithmetic::div_mod::lemma_fundamental_div_mod(-0x8000_0000, d);
        vstd::arithmetic::div_mod::lemma_fundamental_div_mod(0x7FFF_FFFF, d);
        assert(-0x8000_0000 <= x * d <= 0x7FFF_FFFF) by {
            lemma_lowest(n as nat);
            assert(lo * d <= x * d <= hi * d) by (nonlinear_arith)
                requires
                    lo <= x <= hi,
                    d > 0,
            ;
            assert(hi * d == d * hi) by (nonlinear_arith);
        }
    }
    shift_up(x, n)
}

proof fn lemma_lowest(n: nat)
    requires
        n < 31,
    ensures
        (-0x8000_0000 / pow2(n) as int) * pow2(n) == -0x8000_0000,
{
    vstd::arithmetic::power2::lemma2_to64();
    vstd::arithmetic::power2::lemma_pow2_pos(n);
    vstd::arithmetic::power2::lemma_pow2_adds(n, (31 - n) as nat);
    let d = pow2(n) as int;
    let e = pow2((31 - n) as nat) as int;
    assert(-0x8000_0000 == (-e) * d) by (nonlinear_arith)
        requires
            d * e == 0x8000_0000,
    ;
    vstd::arithmetic::div_mod::lemma_fundamental_div_mod_converse(-0x8000_0000, d, -e, 0);
}

/// `x` shifted right by `n` bits, rounding to nearest.
pub fn rshift_round(x: i32, n: u32) -> (r: i32)
    requires
        1 <= n < 32,
    ensures
        r == rounded_shift(x as int, n as nat),
{
    proof {
        vstd::arithmetic::power2::lemma2_to64();
        vstd::arithmetic::power2::lemma_pow2_pos((n - 1) as nat);
        vstd::arithmetic::power2::lemma_pow2_pos(n as nat);
        if n < 32 {
            vstd::arithmetic::power2::lemma_pow2_strictly_increases((n - 1) as nat, 31);
        }
        vstd::arithmetic::power2::lemma_pow2_unfold(n as nat);
        vstd::bits::lemma_u64_shl_is_mul(1, (n - 1) as u64);
        let half = pow2((n - 1) as nat) as int;
        assert(-0x8000_0000 <= (x + half) / (2 * half) <= 0x7FFF_FFFF) by (nonlinear_arith)
            requires
                -0x8000_0000 <= x <= 0x7FFF_FFFF,
                1 <= half <= 0x8000_0000,
        ;
    }
    let half: i64 = (1u64 << (n - 1) as u64) as i64;
    shift_down(x as i64 + half, n) as i32
}

/// The number of leading zero bits of `x`.
pub fn clz32(x: i32) -> (r: i32)
    ensures
        r == leading_zeros(x as int),
        0 <= r <= 32,
        x > 0 ==> 1 <= r <= 31,
{
    if x < 0 {
        0
    } else {
        proof {
            if x > 0 {
                lemma_bit_length(x as int);
            }
            vstd::arithmetic::power2::lemma2_to64();
            lemma_bit_length_at_most(x as int, 31);
        }
        32 - ilog(x as u32) as i32
    }
}

/// `a` plus `b` shifted right by `n` bits, modulo 2^32.
pub fn add_rshift_uint(a: u32, b: u32, n: u32) -> (r: u32)
    requires
        n < 32,
    ensures
        r == (a + b as int / pow2(n as nat) as int) % 0x1_0000_0000,
{
    a.wrapping_add(shift_down(b as i64, n) as u32)
}

/// The exponent of the leading one of `x`.
pub open spec fn exponent(x: int) -> int {
    bit_length(x) - 1
}

/// The seven bits behind the leading one of `x`: the fraction, in Q7, by which
/// `x` exceeds its leading power of two.
pub open spec fn fraction_q7(x: int) -> int {
    (128 * x) / pow2(exponent(x) as nat) as int - 128
}

/// 128 times the logarithm of a word to base two, with a parabola between
/// powers of two. A word is read without its sign; that of zero is -128.
pub open spec fn lin2log_of(x: int) -> int {
    let u = x % 0x1_0000_0000;
    if u == 0 {
        -128
    } else {
        let f = fraction_q7(u);
        f + (f * (128 - f) * 179) / 0x1_0000 + 128 * exponent(u)
    }
}

/// Two to the power of `q` over 128, with a parabola between the powers of
/// two. It is zero below the range and saturates above it.
pub open spec fn log2lin_of(q: int) -> int {
    if q < 0 {
        0
    } else if q >= 3967 {
        0x7FFF_FFFF
    } else {
        let f = q % 128;
        let power = pow2((q / 128) as nat) as int;
        power + (power * (f + (f * (128 - f) * -174) / 0x1_0000)) / 128
    }
}

/// An approximation of the square root.
pub open spec fn sqrt_approx_of(x: int) -> int {
    if x <= 0 {
        0
    } else {
        let zeros = leading_zeros(x);
        let start: int = if zeros % 2 == 1 {
            32768
        } else {
            46214
        };
        let y = start / pow2((zeros / 2) as nat) as int;
        y + (y * (213 * fraction_q7(x))) / 0x1_0000
    }
}

/// An approximation of 2^q / b for positive `b`: a first estimate from the top
/// half of the normalised divisor, then one step of refinement.
pub open spec fn inverse_of(b: int, q: int) -> int {
    let headroom = leading_zeros(b) - 1;
    let normalised = b * pow2(headroom as nat);
    let inverse = 0x1FFF_FFFFint / (normalised / 0x1_0000);
    let error = wrap32(8 * (0x2000_0000 - smulwb_of(normalised, inverse)));
    let refined = wrap32(inverse * 0x1_0000 + (error * inverse) / 0x1_0000);
    let shift = 61 - headroom - q;
    if shift <= 0 {
        let d = pow2((-shift) as nat) as int;
        clamped(refined, -0x8000_0000 / d, 0x7FFF_FFFFint / d) * d
    } else if shift < 32 {
        refined / pow2(shift as nat) as int
    } else {
        0
    }
}

/// The next state of the linear congruential generator.
pub open spec fn rand_of(seed: int) -> int {
    wrap32(907_633_515 + seed * 196_314_165)
}

proof fn lemma_fraction(x: int)
    requires
        x > 0,
    ensures
        0 <= fraction_q7(x) < 128,
        exponent(x) >= 0,
{
    lemma_bit_length(x);
    let e = exponent(x) as nat;
    vstd::arithmetic::power2::lemma_pow2_unfold(bit_length(x));
    let d = pow2(e) as int;
    assert(128 <= (128 * x) / d < 256) by (nonlinear_arith)
        requires
            d <= x < 2 * d,
            d > 0,
    ;
}

/// The fraction of the positive word `x`, whose leading one is at bit `e`.
fn fraction(x: u32, e: u32) -> (f: u32)
    requires
        x > 0,
        e == exponent(x as int),
    ensures
        f == fraction_q7(x as int),
        f < 128,
{
    proof {
        lemma_fraction(x as int);
        vstd::arithmetic::power2::lemma2_to64();
        lemma_bit_length_at_most(x as int, 32);
    }
    let scaled = shift_down(128 * x as i64, e);
    (scaled - 128) as u32
}

/// 128 times the base-two logarithm of `x`.
pub fn lin2log(x: i32) -> (r: i32)
    ensures
        r == lin2log_of(x as int),
        -128 <= r <= 4106,
{
    let u = x as u32;
    assert(u == (x + 0) % 0x1_0000_0000) by (bit_vector)
        requires
            u == x as u32,
    ;
    if u == 0 {
        return -128;
    }
    let e = ilog(u) - 1;
    let f = fraction(u, e) as i32;
    proof {
        vstd::arithmetic::power2::lemma2_to64();
        lemma_bit_length_at_most(u as int, 32);
    }
    assert(0 <= f * (128 - f) <= 4096) by (nonlinear_arith)
        requires
            0 <= f < 128,
    ;
    assert((f * (128 - f)) * 179 == f * (128 - f) * 179);
    let bump = smulwb(f * (128 - f), 179);
    f + bump + 128 * e as i32
}

/// Two to the power of `q` over 128.
pub fn log2lin(q: i32) -> (r: i32)
    ensures
        r == log2lin_of(q as int),
        r >= 0,
        q >= 0 ==> r > 0,
{
    if q < 0 {
        return 0;
    }
    if q >= 3967 {
        return 0x7FFF_FFFF;
    }
    let e = (q / 128) as u32;
    let f = q % 128;
    proof {
        vstd::arithmetic::power2::lemma2_to64();
        vstd::arithmetic::power2::lemma_pow2_pos(e as nat);
        if e < 30 {
            vstd::arithmetic::power2::lemma_pow2_strictly_increases(e as nat, 30);
        }
        vstd::bits::lemma_u64_shl_is_mul(1, e as u64);
    }
    assert(0 <= f * (128 - f) <= 4096) by (nonlinear_arith)
        requires
            0 <= f < 128,
    ;
    let dip = smulwb(f * (128 - f), -174);
    assert(-f <= dip <= 0) by {
        assert(-65536 * f <= f * (128 - f) * -174 <= 0) by (nonlinear_arith)
            requires
                0 <= f < 128,
        ;
    }
    let c = (f + dip) as i64;
    let power: i64 = (1u64 << e as u64) as i64;
    assert(0 <= power * c <= 128 * 0x4000_0000) by (nonlinear_arith)
        requires
            0 <= c < 128,
            0 < power <= 0x4000_0000,
    ;
    assert(power * c / 128 < power) by (nonlinear_arith)
        requires
            0 <= c < 128,
            0 < power,
    ;
    proof {
        assert(f * (128 - f) * -174 == (f * (128 - f)) * -174);
    }
    (power + power * c / 128) as i32
}

/// An approximation of the square root of `x`.
pub fn sqrt_approx(x: i32) -> (r: i32)
    ensures
        r == sqrt_approx_of(x as int),
        0 <= r <= 0x1_0000,
{
    if x <= 0 {
        return 0;
    }
    let zeros = clz32(x) as u32;
    let start: i64 = if zeros % 2 == 1 { 32768 } else { 46214 };
    let f = fraction(x as u32, 31 - zeros) as i32;
    let y = shift_down(start, zeros / 2) as i32;
    proof {
        assert(zeros / 2 >= 0);
        vstd::arithmetic::power2::lemma2_to64();
    }
    let bump = smulwb(y, 213 * f);
    assert(0 <= y * (213 * f) <= 46214 * 27051) by (nonlinear_arith)
        requires
            0 <= y <= 46214,
            0 <= f < 128,
    ;
    assert(smulwb_of(y as int, 213 * f) == (y * (213 * f)) / 0x1_0000);
    y + bump
}

/// An approximation of 2^q / b.
pub fn inverse32_var_q(b: i32, q: u32) -> (r: i32)
    requires
        b > 0,
        1 <= q <= 61,
    ensures
        r == inverse_of(b as int, q as int),
{
    let headroom = (clz32(b) - 1) as u32;
    let ghost power = pow2(headroom as nat) as int;
    proof {
        vstd::arithmetic::power2::lemma2_to64();
        lemma_bit_length(b as int);
        let l = bit_length(b as int);
        assert(headroom == 31 - l);
        vstd::arithmetic::power2::lemma_pow2_adds(headroom as nat, l);
        vstd::arithmetic::power2::lemma_pow2_adds(headroom as nat, (l - 1) as nat);
        vstd::arithmetic::power2::lemma_pow2_pos(headroom as nat);
        assert(0x4000_0000 <= b * power < 0x8000_0000) by (nonlinear_arith)
            requires
                power > 0,
                pow2((l - 1) as nat) <= b < pow2(l),
                power * pow2(l) == 0x8000_0000,
                power * pow2((l - 1) as nat) == 0x4000_0000,
        ;
    }
    let normalised = shift_up(b, headroom);
    assert(normalised == b * power);
    let top = shift_down(normalised as i64, 16) as i32;
    let inverse = 0x1FFF_FFFF / top;
    assert(16384 <= top <= 32767);
    assert(16384 <= inverse <= 32767) by {
        assert(0x1FFF_FFFFint / top as int >= 16384) by (nonlinear_arith)
            requires
                16384 <= top <= 32767,
        ;
        assert(0x1FFF_FFFFint / top as int <= 32767) by (nonlinear_arith)
            requires
                16384 <= top <= 32767,
        ;
    }
    let error = truncate32(8 * (0x2000_0000 - smulwb(normalised, inverse) as i64));
    assert(-0x4000_0000_0000 <= error * inverse <= 0x4000_0000_0000) by (nonlinear_arith)
        requires
            -0x8000_0000 <= error <= 0x7FFF_FFFF,
            0 <= inverse <= 32767,
    ;
    let refined = truncate32(
        inverse as i64 * 0x1_0000 + shift_down(error as i64 * inverse as i64, 16),
    );
    let shift: i32 = 61 - headroom as i32 - q as i32;
    if shift <= 0 {
        lshift_sat32(refined, (-shift) as u32)
    } else if shift < 32 {
        shift_down(refined as i64, shift as u32) as i32
    } else {
        0
    }
}

/// The next state of the linear congruential generator that draws noise.
pub fn silk_rand(seed: i32) -> (r: i32)
    ensures
        r == rand_of(seed as int),
{
    assert(-0x4000_0000_0000_0000 <= seed * 196_314_165 <= 0x4000_0000_0000_0000)
        by (nonlinear_arith)
        requires
            -0x8000_0000 <= seed <= 0x7FFF_FFFF,
    ;
    truncate32(907_633_515 + seed as i64 * 196_314_165)
}

/// Products in units of 2^16 are rounded down; the low half that is multiplied
/// counts with its sign.
pub proof fn law_products_round_down(a: int, b: int)
    requires
        -0x8000_0000 <= a < 0x8000_0000,
        -0x8000 <= b < 0x8000,
    ensures
        0x1_0000 * smulwb_of(a, b) <= a * b < 0x1_0000 * (smulwb_of(a, b) + 1),
        smulwb_of(a, b) == smulwb_of(a, b + 0x1_0000),
        smulbb_of(b, b) == b * b,
{
    assert(low16(b) == b && low16(b + 0x1_0000) == b);
}

/// A rounding shift gives the nearest integer, and the upper one of two.
pub proof fn law_shift_rounds_to_nearest(x: int, n: nat)
    requires
        1 <= n,
    ensures
        pow2(n) * rounded_shift(x, n) - pow2((n - 1) as nat) <= x,
        x < pow2(n) * rounded_shift(x, n) + pow2((n - 1) as nat),
{
    vstd::arithmetic::power2::lemma_pow2_pos((n - 1) as nat);
    vstd::arithmetic::power2::lemma_pow2_unfold(n);
    let d = pow2(n) as int;
    let h = pow2((n - 1) as nat) as int;
    vstd::arithmetic::div_mod::lemma_fundamental_div_mod(x + h, d);
}

/// Two runs of the generator stay as far apart as its factor says, modulo 2^32,
/// and every state is a word.
pub proof fn law_generator_is_linear(a: int, b: int)
    ensures
        (rand_of(a) - rand_of(b) - 196_314_165 * (a - b)) % 0x1_0000_0000 == 0,
        -0x8000_0000 <= rand_of(a) < 0x8000_0000,
        (rand_of(0) - 907_633_515) % 0x1_0000_0000 == 0,
{
    let m = 0x1_0000_0000int;
    let x = 907_633_515 + a * 196_314_165 + 0x8000_0000;
    let y = 907_633_515 + b * 196_314_165 + 0x8000_0000;
    let (p, q) = (x / m, y / m);
    assert(x == m * p + x % m && y == m * q + y % m);
    let d = rand_of(a) - rand_of(b) - 196_314_165 * (a - b);
    assert(d == (q - p) * m) by {
        assert(196_314_165 * (a - b) == a * 196_314_165 - b * 196_314_165) by (nonlinear_arith);
        assert((q - p) * m == m * q - m * p) by (nonlinear_arith);
    }
    vstd::arithmetic::div_mod::lemma_mod_multiples_basic(q - p, m);
}

/// The approximate root lies in the right octave: between `2^k` and `2^(k+1)`
/// for numbers from `4^k` up to `4^(k+1)`. The root of `4^k` is exact, and there
/// is none of numbers that are not positive.
pub proof fn law_root_lies_in_octave(x: int, k: nat)
    requires
        k <= 15,
        pow2(2 * k) <= x < pow2(2 * k + 2),
        x < 0x8000_0000,
    ensures
        pow2(k) <= sqrt_approx_of(x) <= pow2(k + 1),
        x == pow2(2 * k) ==> sqrt_approx_of(x) == pow2(k),
        2 * x < pow2(2 * k + 2) ==> 10 * sqrt_approx_of(x) <= 15 * pow2(k),
        sqrt_approx_of(-x) == 0,
        sqrt_approx_of(0) == 0,
{
    vstd::arithmetic::power2::lemma2_to64();
    vstd::arithmetic::power2::lemma_pow2_pos(k);
    vstd::arithmetic::power2::lemma_pow2_pos(2 * k);
    vstd::arithmetic::power2::lemma_pow2_unfold(2 * k + 1);
    vstd::arithmetic::power2::lemma_pow2_unfold(2 * k + 2);
    vstd::arithmetic::power2::lemma_pow2_unfold(k + 1);
    vstd::arithmetic::power2::lemma_pow2_adds(k, (15 - k) as nat);
    vstd::arithmetic::power2::lemma_pow2_pos((15 - k) as nat);
    let p = pow2(k) as int;
    let s = pow2((15 - k) as nat) as int;
    lemma_fraction(x);
    let f = fraction_q7(x);
    let odd = 2 * x >= pow2(2 * k + 2);
    let e: nat = if odd {
        2 * k + 1
    } else {
        2 * k
    };
    crate::range::lemma_bit_length_at_most(x, e + 1);
    crate::range::lemma_bit_length_more_than(x, e);
    assert(exponent(x) == e && leading_zeros(x) == 31 - e);
    if !odd {
        assert((31 - 2 * k) % 2 == 1 && (31 - 2 * k) / 2 == 15 - k);
        assert(32768int / s == p) by (nonlinear_arith)
            requires
                p * s == 32768,
                s > 0,
        ;
        assert(0 <= p * (213 * f) <= p * 27051) by (nonlinear_arith)
            requires
                0 <= f <= 127,
                p > 0,
        ;
        if x == pow2(2 * k) {
            assert((128 * x) / x == 128) by (nonlinear_arith)
                requires
                    x > 0,
            ;
            assert(f == 0);
            assert(p * (213 * f) == 0) by (nonlinear_arith)
                requires
                    f == 0,
            ;
        }
    } else {
        assert((30 - 2 * k) % 2 == 0 && (30 - 2 * k) / 2 == 15 - k);
        let y = 46214int / s;
        vstd::arithmetic::div_mod::lemma_fundamental_div_mod(46214, s);
        assert(y >= p && y * s <= 46214) by (nonlinear_arith)
            requires
                p * s == 32768,
                s > 0,
                46214 == s * y + 46214int % s,
                0 <= 46214int % s < s,
        ;
        assert(0 <= y * (213 * f) <= y * 27051) by (nonlinear_arith)
            requires
                0 <= f <= 127,
                y > 0,
        ;
        assert(92587 * y <= 131_072 * p) by {
            assert(92587 * y * s <= 131_072 * p * s) by (nonlinear_arith)
                requires
                    y * s <= 46214,
                    p * s == 32768,
            ;
            assert(92587 * y <= 131_072 * p) by (nonlinear_arith)
                requires
                    92587 * y * s <= 131_072 * p * s,
                    s > 0,
            ;
        }
        assert(sqrt_approx_of(x) == y + (y * (213 * f)) / 0x1_0000);
    }
}

/// The first estimate of an inverse: how far its product with the normalised
/// divisor is from 2^45.
proof fn lemma_estimate(n: int, inv: int)
    requires
        0x4000_0000 <= n < 0x8000_0000,
        inv == 0x1FFF_FFFFint / (n / 0x1_0000),
    ensures
        0x4000 <= inv <= 0x7FFF,
        -0x8000_0000 <= 0x2000_0000_0000 - n * inv <= 0x8000_0000,
        inv == 0x7FFF ==> 0x2000_0000_0000 - n * inv <= 0x4000_0000,
        0x2000_0000_0000 - n * inv <= 0x1_0000 * (n / 0x1_0000),
        (n / 0x1_0000) * inv <= 0x1FFF_FFFF,
{
    let h = n / 0x1_0000;
    let rho = n % 0x1_0000;
    let rest = 0x1FFF_FFFFint % h;
    vstd::arithmetic::div_mod::lemma_fundamental_div_mod(0x1FFF_FFFF, h);
    assert(0x4000 <= inv <= 0x7FFF) by (nonlinear_arith)
        requires
            0x4000 <= h < 0x8000,
            0x1FFF_FFFF == h * inv + rest,
            0 <= rest < h,
    ;
    assert(n * inv == 0x1_0000 * (h * inv) + rho * inv) by (nonlinear_arith)
        requires
            n == 0x1_0000 * h + rho,
    ;
    assert(0 <= rho * inv <= 0xFFFF * inv) by (nonlinear_arith)
        requires
            0 <= rho <= 0xFFFF,
            inv >= 0,
    ;
    assert(h * inv >= 0x2000_0000 - h);
    if inv == 0x7FFF {
        assert(n * inv >= 0x4000_0000 * 0x7FFF) by (nonlinear_arith)
            requires
                n >= 0x4000_0000,
                inv == 0x7FFF,
        ;
    }
}

/// One step of refinement brings the product of a normalised number and its
/// inverse next to 2^61.
proof fn lemma_refined(n: int, inv: int, error: int, refined: int)
    requires
        0x4000_0000 <= n < 0x8000_0000,
        inv == 0x1FFF_FFFFint / (n / 0x1_0000),
        error == 8 * (0x2000_0000 - (n * inv) / 0x1_0000),
        refined == inv * 0x1_0000 + (error * inv) / 0x1_0000,
    ensures
        -0x4_0000 <= error <= 0x4_0000,
        0 <= refined < 0x8000_0000,
        0x2000_0000_0000_0000 - 0x2_8000_0000 <= n * refined,
        n * refined <= 0x2000_0000_0000_0000 + 0x1_8000_0000,
{
    lemma_estimate(n, inv);
    let h = n / 0x1_0000;
    let p = n * inv;
    let d = 0x2000_0000_0000 - p;
    let rho = p % 0x1_0000;
    let t = (error * inv) / 0x1_0000;
    let f = (error * inv) % 0x1_0000;
    assert(0x1_0000 * error == 8 * (d + rho));
    if inv == 0x7FFF {
        assert(error * inv <= 0x2_0000 * 0x7FFF) by (nonlinear_arith)
            requires
                error <= 0x2_0000,
                inv == 0x7FFF,
        ;
    } else {
        assert(error <= 8 * h);
        assert(error * inv <= 8 * (h * inv)) by (nonlinear_arith)
            requires
                error <= 8 * h,
                inv >= 0,
        ;
    }
    assert(-0x4_0000 * inv <= error * inv) by (nonlinear_arith)
        requires
            -0x4_0000 <= error,
            inv >= 0,
    ;
    assert(n * (0x1_0000 * t) == error * p - n * f) by (nonlinear_arith)
        requires
            0x1_0000 * t == error * inv - f,
            p == n * inv,
    ;
    assert((0x1_0000 * error) * p == 8 * ((d + rho) * p)) by (nonlinear_arith)
        requires
            0x1_0000 * error == 8 * (d + rho),
    ;
    assert((d + rho) * p == 0x2000_0000_0000 * d - d * d + rho * p) by (nonlinear_arith)
        requires
            p == 0x2000_0000_0000 - d,
    ;
    assert(n * refined == 0x1_0000 * p + n * t) by (nonlinear_arith)
        requires
            refined == inv * 0x1_0000 + t,
            p == n * inv,
    ;
    assert(n * (0x1_0000 * t) == 0x1_0000 * (n * t)) by (nonlinear_arith);
    assert((0x1_0000 * error) * p == 0x1_0000 * (error * p)) by (nonlinear_arith);
    assert(0 <= d * d <= 0x4000_0000_0000_0000) by (nonlinear_arith)
        requires
            -0x8000_0000 <= d <= 0x8000_0000,
    ;
    assert(0 <= rho * p <= 0x1_0000 * p) by (nonlinear_arith)
        requires
            0 <= rho <= 0x1_0000,
            p >= 0,
    ;
    assert(0 <= n * f <= 0x8000_0000 * 0x1_0000) by (nonlinear_arith)
        requires
            0 <= n <= 0x8000_0000,
            0 <= f <= 0x1_0000,
    ;
}

/// The approximate inverse of `b` is 2^q / b, rounded down, up to a relative
/// error of five in 2^30. Quotients beyond 32 bits are left out.
pub proof fn law_inverse_is_quotient(b: int, q: nat)
    requires
        0 < b < 0x8000_0000,
        q + leading_zeros(b) <= 61,
    ensures
        0x4000_0000 * (b * inverse_of(b, q as int) - pow2(q)) <= 3 * pow2(q),
        0x4000_0000 * (pow2(q) - b * (inverse_of(b, q as int) + 1)) < 5 * pow2(q),
{
    vstd::arithmetic::power2::lemma2_to64();
    lemma_bit_length(b);
    lemma_bit_length_at_most(b, 31);
    let l = bit_length(b);
    let headroom = (31 - l) as nat;
    let power = pow2(headroom) as int;
    vstd::arithmetic::power2::lemma_pow2_pos(headroom);
    vstd::arithmetic::power2::lemma_pow2_pos(q);
    vstd::arithmetic::power2::lemma_pow2_adds(headroom, l);
    vstd::arithmetic::power2::lemma_pow2_adds(headroom, (l - 1) as nat);
    let n = b * power;
    assert(0x4000_0000 <= n < 0x8000_0000) by (nonlinear_arith)
        requires
            pow2((l - 1) as nat) <= b < pow2(l),
            power > 0,
            power * pow2((l - 1) as nat) == 0x4000_0000,
            power * pow2(l) == 0x8000_0000,
            n == b * power,
    ;
    let inv = 0x1FFF_FFFFint / (n / 0x1_0000);
    let error = 8 * (0x2000_0000 - (n * inv) / 0x1_0000);
    let refined = inv * 0x1_0000 + (error * inv) / 0x1_0000;
    lemma_estimate(n, inv);
    lemma_refined(n, inv, error, refined);
    assert(smulwb_of(n, inv) == (n * inv) / 0x1_0000);
    assert(wrap32(error) == error && wrap32(refined) == refined);
    let shift = 61 - headroom - q;
    let r = inverse_of(b, q as int);
    let e = pow2(q) as int;
    if shift < 32 {
        let d = pow2(shift as nat) as int;
        assert(r == refined / d);
        vstd::arithmetic::power2::lemma_pow2_pos(shift as nat);
        vstd::arithmetic::power2::lemma_pow2_adds(headroom, q);
        vstd::arithmetic::power2::lemma_pow2_adds((headroom + q) as nat, shift as nat);
        vstd::arithmetic::power2::lemma_pow2_adds(30, 31);
        assert(power * e * d == 0x2000_0000_0000_0000);
        vstd::arithmetic::div_mod::lemma_fundamental_div_mod(refined, d);
        lemma_scaled(b, power, e, d, n, refined, r);
    } else {
        vstd::arithmetic::power2::lemma_pow2_adds(headroom, q);
        if headroom + q < 29 {
            vstd::arithmetic::power2::lemma_pow2_strictly_increases((headroom + q) as nat, 29);
        }
        assert(e < b) by (nonlinear_arith)
            requires
                power > 0,
                power * e <= 0x2000_0000,
                b * power >= 0x4000_0000,
        ;
        assert(b * r == 0 && b * (r + 1) == b) by (nonlinear_arith)
            requires
                r == 0,
        ;
    }
}

/// The last shift of an inverse keeps its relative error.
proof fn lemma_scaled(b: int, power: int, e: int, d: int, n: int, refined: int, r: int)
    requires
        b > 0,
        power > 0,
        e > 0,
        d > 0,
        power * e * d == 0x2000_0000_0000_0000,
        n == b * power,
        0x2000_0000_0000_0000 - 0x2_8000_0000 <= n * refined,
        n * refined <= 0x2000_0000_0000_0000 + 0x1_8000_0000,
        refined == d * r + refined % d,
        0 <= refined % d < d,
    ensures
        0x4000_0000 * (b * r - e) <= 3 * e,
        0x4000_0000 * (e - b * (r + 1)) < 5 * e,
{
    let w = power * d;
    let x = b * r;
    let y = b * (r + 1);
    assert(w > 0) by (nonlinear_arith)
        requires
            power > 0,
            d > 0,
            w == power * d,
    ;
    assert(w * e == 0x2000_0000_0000_0000) by (nonlinear_arith)
        requires
            power * e * d == 0x2000_0000_0000_0000,
            w == power * d,
    ;
    assert(w * x == n * (d * r) && w * y == n * (d * (r + 1))) by (nonlinear_arith)
        requires
            w == power * d,
            x == b * r,
            y == b * (r + 1),
            n == b * power,
    ;
    assert(n > 0) by (nonlinear_arith)
        requires
            b > 0,
            power > 0,
            n == b * power,
    ;
    assert(d * (r + 1) == d * r + d) by (nonlinear_arith);
    assert(n * (d * r) <= n * refined < n * (d * (r + 1))) by (nonlinear_arith)
        requires
            n > 0,
            d * r <= refined < d * (r + 1),
    ;
    assert(0x4000_0000 * (x - e) <= 3 * e) by (nonlinear_arith)
        requires
            w > 0,
            w * e == 0x2000_0000_0000_0000,
            w * x <= 0x2000_0000_0000_0000 + 0x1_8000_0000,
    {
        assert(w * (0x4000_0000 * (x - e)) == 0x4000_0000 * (w * x) - 0x4000_0000 * (w * e));
        assert(w * (3 * e) == 3 * (w * e));
    }
    assert(0x4000_0000 * (e - y) < 5 * e) by (nonlinear_arith)
        requires
            w > 0,
            w * e == 0x2000_0000_0000_0000,
            0x2000_0000_0000_0000 - 0x2_8000_0000 < w * y,
    {
        assert(w * (0x4000_0000 * (e - y)) == 0x4000_0000 * (w * e) - 0x4000_0000 * (w * y));
        assert(w * (5 * e) == 5 * (w * e));
    }
}

/// The square `sq` of `65536 + 213 * f`, from that of `f` and of its distance
/// from the middle.
proof fn lemma_slope_square(f: int, sq: int, ff: int, dd: int)
    requires
        0 <= f <= 127,
        ff <= 127 * f,
        0 <= dd,
        sq == 4_294_967_296 + 27_918_336 * f + 45_369 * ff,
        sq == 150_242 * (65536 + 213 * f) - 5_643_164_641 + dd,
    ensures
        12800 * sq <= 101 * (0x1_0000_0000 * (128 + f)),
        94 * (0x1_0000_0000 * (129 + f)) <= 12800 * sq,
        12800 * (2_135_733_796 * sq) <= 202 * (0x4000_0000_0000_0000 * (128 + f)),
        188 * (0x4000_0000_0000_0000 * (129 + f)) <= 12800 * (2_135_733_796 * sq),
{
}

/// The slope of the approximate root stays close to the root over an octave.
proof fn lemma_root_slope(f: int, c: int, start: int)
    requires
        0 <= f <= 127,
        (c == 1 && start == 32768) || (c == 2 && start == 46214),
    ensures
        ({
            let g = start * (65536 + 213 * f);
            &&& 12800 * (g * g) <= 101 * (0x4000_0000_0000_0000 * (c * (128 + f)))
            &&& 94 * (0x4000_0000_0000_0000 * (c * (129 + f))) <= 12800 * (g * g)
        }),
{
    let a = 65536 + 213 * f;
    let d = a - 75121;
    let (sq, ff, dd) = (a * a, f * f, d * d);
    assert(sq == 4_294_967_296 + 27_918_336 * f + 45_369 * ff && sq == 150_242 * (65536 + 213 * f)
        - 5_643_164_641 + dd && dd >= 0) by (nonlinear_arith)
        requires
            a == 65536 + 213 * f,
            d == a - 75121,
            sq == a * a,
            ff == f * f,
            dd == d * d,
    ;
    assert(ff <= 127 * f) by (nonlinear_arith)
        requires
            0 <= f <= 127,
            ff == f * f,
    ;
    lemma_slope_square(f, sq, ff, dd);
    let g = start * a;
    let gg = g * g;
    if c == 1 {
        assert(gg == 0x4000_0000 * sq && c * (128 + f) == 128 + f && c * (129 + f) == 129 + f)
            by (nonlinear_arith)
            requires
                g == 32768 * a,
                gg == g * g,
                sq == a * a,
                c == 1,
        ;
    } else {
        assert(gg == 2_135_733_796 * sq && c * (128 + f) == 2 * (128 + f) && c * (129 + f) == 2
            * (129 + f)) by (nonlinear_arith)
            requires
                g == 46214 * a,
                gg == g * g,
                sq == a * a,
                c == 2,
        ;
    }
}

/// From the slope to the root itself: `p * p` is a power of four, `c * p * p`
/// the leading power of two of `x`, `y` the root of that power.
proof fn lemma_root_accuracy(x: int, p: int, c: int, start: int, f: int, y: int, s: int)
    requires
        0 <= f <= 127,
        p > 0,
        y >= 0,
        (c == 1 && start == 32768) || (c == 2 && start == 46214),
        c * (p * p) * (128 + f) <= 128 * x < c * (p * p) * (129 + f),
        32768 * y <= start * p < 32768 * (y + 1),
        s == y + (y * (213 * f)) / 0x1_0000,
    ensures
        100 * (s * s) <= 101 * x,
        94 * x < 100 * ((s + 3) * (s + 3)),
{
    lemma_root_slope(f, c, start);
    let a = 65536 + 213 * f;
    let g = start * a;
    let v = p * p;
    assert(y * a == 65536 * y + y * (213 * f)) by (nonlinear_arith)
        requires
            a == 65536 + 213 * f,
    ;
    assert(65536 * s <= y * a < 65536 * (s + 1));
    assert(32768 * (y * a) <= g * p && g * p < 32768 * (y * a) + 32768 * a) by (nonlinear_arith)
        requires
            32768 * y <= start * p < 32768 * (y + 1),
            g == start * a,
            a > 0,
    ;
    let low = 0x8000_0000 * s;
    let high = 0x8000_0000 * (s + 3);
    assert(0 <= s) by (nonlinear_arith)
        requires
            y >= 0,
            f >= 0,
            s == y + (y * (213 * f)) / 0x1_0000,
    ;
    assert(low <= g * p <= high);
    assert(low * low <= (g * p) * (g * p) <= high * high) by (nonlinear_arith)
        requires
            0 <= low <= g * p <= high,
    ;
    assert((g * p) * (g * p) == (g * g) * v) by (nonlinear_arith)
        requires
            v == p * p,
    ;
    assert(low * low == 0x4000_0000_0000_0000 * (s * s)) by (nonlinear_arith)
        requires
            low == 0x8000_0000 * s,
    ;
    assert(high * high == 0x4000_0000_0000_0000 * ((s + 3) * (s + 3))) by (nonlinear_arith)
        requires
            high == 0x8000_0000 * (s + 3),
    ;
    assert(v > 0) by (nonlinear_arith)
        requires
            v == p * p,
            p > 0,
    ;
    let square = g * g;
    let top = c * (128 + f);
    let over = c * (129 + f);
    assert(12800 * (square * v) <= 101 * (0x4000_0000_0000_0000 * (top * v))) by (nonlinear_arith)
        requires
            12800 * square <= 101 * (0x4000_0000_0000_0000 * top),
            v > 0,
    ;
    assert(94 * (0x4000_0000_0000_0000 * (over * v)) <= 12800 * (square * v)) by (nonlinear_arith)
        requires
            94 * (0x4000_0000_0000_0000 * over) <= 12800 * square,
            v > 0,
    ;
    assert(c * (p * p) * (128 + f) == top * v && c * (p * p) * (129 + f) == over * v)
        by (nonlinear_arith)
        requires
            top == c * (128 + f),
            over == c * (129 + f),
            v == p * p,
    ;
}

/// The square of the approximate root is `x` to within a few per cent: not more
/// than one above it, and not more than six below, but for three units of the
/// root.
pub proof fn law_root_is_accurate(x: int)
    requires
        0 < x < 0x8000_0000,
    ensures
        ({
            let s = sqrt_approx_of(x);
            &&& s >= 0
            &&& 100 * (s * s) <= 101 * x
            &&& 94 * x < 100 * ((s + 3) * (s + 3))
        }),
{
    vstd::arithmetic::power2::lemma2_to64();
    lemma_bit_length(x);
    lemma_bit_length_at_most(x, 31);
    lemma_fraction(x);
    let e = exponent(x);
    let f = fraction_q7(x);
    let k = (e / 2) as nat;
    let p = pow2(k) as int;
    let q = pow2(e as nat) as int;
    let s = pow2((15 - k) as nat) as int;
    vstd::arithmetic::power2::lemma_pow2_pos(k);
    vstd::arithmetic::power2::lemma_pow2_pos(e as nat);
    vstd::arithmetic::power2::lemma_pow2_pos((15 - k) as nat);
    vstd::arithmetic::power2::lemma_pow2_adds(k, k);
    vstd::arithmetic::power2::lemma_pow2_adds(k, (15 - k) as nat);
    vstd::arithmetic::power2::lemma_pow2_unfold((2 * k + 1) as nat);
    vstd::arithmetic::div_mod::lemma_fundamental_div_mod(128 * x, q);
    assert(q * (128 + f) <= 128 * x < q * (129 + f)) by (nonlinear_arith)
        requires
            q > 0,
            128 * x == q * (128 + f) + (128 * x) % q,
            0 <= (128 * x) % q < q,
    ;
    let (c, start): (int, int) = if e % 2 == 0 {
        (1, 32768)
    } else {
        (2, 46214)
    };
    assert(leading_zeros(x) == 31 - e);
    assert(leading_zeros(x) / 2 == 15 - k);
    assert(q == c * (p * p));
    let y = start / s;
    vstd::arithmetic::div_mod::lemma_fundamental_div_mod(start, s);
    assert(y >= 0 && 32768 * y <= start * p < 32768 * (y + 1)) by (nonlinear_arith)
        requires
            start >= 0,
            p > 0,
            s > 0,
            p * s == 32768,
            start == s * y + start % s,
            0 <= start % s < s,
    ;
    lemma_root_accuracy(x, p, c, start, f, y, sqrt_approx_of(x));
    assert(y * (213 * f) >= 0) by (nonlinear_arith)
        requires
            y >= 0,
            f >= 0,
    ;
}

} // verus!
