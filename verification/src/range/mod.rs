//! The Opus range coder.
//!
//! [`model`] describes the coder mathematically: a half-open interval of
//! integers that every symbol narrows, plus an integer of raw bits. The
//! encoder and the decoder are both proved against that model, and the model
//! carries the round-trip laws.

pub mod decoder;
pub mod digits;
pub mod encoder;
pub mod message;
pub mod model;

pub use decoder::RangeDecoder;
pub use encoder::{RangeEncoder, RangeEncoderError};

use message::Item;
use model::{
    lemma_encode_tell, lemma_icdf_bounds, lemma_narrow_tell, lemma_uint_parts, uint_raw_bits,
    EncoderState, Symbol,
};

use vstd::arithmetic::div_mod::lemma_fundamental_div_mod;
use vstd::arithmetic::power2::{
    lemma2_to64, lemma_pow2_adds, lemma_pow2_pos, lemma_pow2_strictly_increases, lemma_pow2_unfold, pow2,
};
use vstd::bits::lemma_u32_shr_is_div;
use vstd::prelude::*;

verus! {

/// Bits in the coder registers.
pub const CODE_BITS: u32 = 32;
/// Bits produced or consumed per renormalization step.
pub const SYM_BITS: u32 = 8;
/// Largest renormalization symbol.
pub const SYM_MAX: u32 = 255;
/// Upper limit of the range size: `2^31`.
pub const CODE_TOP: u32 = 0x8000_0000;
/// The range is renormalized while it is at most this: `2^23`.
pub const CODE_BOT: u32 = 0x0080_0000;
/// Position of the outgoing symbol in the encoder's low register.
pub const CODE_SHIFT: u32 = 23;
/// Bits in the raw-bits window.
pub const WINDOW_SIZE: u32 = 32;

/// The number of bits needed to write `x`: zero for zero, otherwise one more
/// than the position of the highest set bit.
pub open spec fn bit_length(x: int) -> nat
    decreases x,
{
    if x <= 0 {
        0
    } else {
        1 + bit_length(x / 2)
    }
}

/// `bit_length` locates `x` between two powers of two.
pub proof fn lemma_bit_length(x: int)
    requires
        x > 0,
    ensures
        bit_length(x) >= 1,
        pow2((bit_length(x) - 1) as nat) <= x < pow2(bit_length(x)),
    decreases x,
{
    lemma_pow2_pos(0);
    lemma2_to64();
    if x >= 2 {
        lemma_bit_length(x / 2);
        let l = bit_length(x / 2);
        lemma_pow2_unfold(l);
        lemma_pow2_unfold(l + 1);
    } else {
        assert(x == 1);
        assert(bit_length(0) == 0);
        assert(bit_length(1) == 1);
    }
}

/// A larger number does not have fewer bits.
pub proof fn lemma_bit_length_monotonic(x: int, y: int)
    requires
        x <= y,
    ensures
        bit_length(x) <= bit_length(y),
    decreases y,
{
    if x > 0 {
        lemma_bit_length_monotonic(x / 2, y / 2);
    }
}

/// A number below `2^n` has at most `n` bits.
pub proof fn lemma_bit_length_at_most(x: int, n: nat)
    requires
        x < pow2(n),
    ensures
        bit_length(x) <= n,
{
    if x > 0 && bit_length(x) > n {
        lemma_bit_length(x);
        if bit_length(x) - 1 > n {
            lemma_pow2_strictly_increases(n, (bit_length(x) - 1) as nat);
        }
    }
}

/// A number that is at least `2^n` has more than `n` bits.
pub proof fn lemma_bit_length_more_than(x: int, n: nat)
    requires
        x >= pow2(n),
    ensures
        bit_length(x) > n,
{
    lemma_pow2_pos(n);
    lemma_bit_length(x);
    if bit_length(x) <= n {
        if bit_length(x) < n {
            lemma_pow2_strictly_increases(bit_length(x), n);
        }
    }
}

/// The number of significant bits of `x`.
pub fn ilog(x: u32) -> (l: u32)
    ensures
        l == bit_length(x as int),
        l <= 32,
        x > 0 ==> l > 0,
{
    let mut rest = x;
    let mut l: u32 = 0;
    proof {
        lemma2_to64();
        lemma_bit_length_at_most(x as int, 32);
    }
    while rest > 0
        invariant
            l + bit_length(rest as int) == bit_length(x as int),
            bit_length(x as int) <= 32,
        decreases rest,
    {
        rest = rest / 2;
        l = l + 1;
    }
    l
}

/// Refines a logarithm by `steps` binary digits: squares the mantissa `r`,
/// which has 16 bits, and appends a one where the square reaches two.
pub open spec fn refine_log(l: int, r: int, steps: nat) -> int
    decreases steps,
{
    if steps == 0 {
        l
    } else {
        let sq = (r * r) / 0x8000;
        if sq >= 0x1_0000 {
            refine_log(2 * l + 1, sq / 2, (steps - 1) as nat)
        } else {
            refine_log(2 * l, sq, (steps - 1) as nat)
        }
    }
}

/// The size of the range in eighths of a bit, measured like `bit_length` and
/// rounded down at each of three binary digits.
pub open spec fn range_eighths(rng: int) -> int {
    let l = bit_length(rng);
    refine_log(l as int, rng / pow2((l - 16) as nat) as int, 3)
}

/// Each step doubles the logarithm and adds at most one.
pub proof fn lemma_refine_log(l: int, r: int, steps: nat)
    ensures
        pow2(steps) * l <= refine_log(l, r, steps) < pow2(steps) * (l + 1),
    decreases steps,
{
    if steps > 0 {
        let sq = (r * r) / 0x8000;
        let k = (steps - 1) as nat;
        lemma_pow2_unfold(steps);
        let p = pow2(k) as int;
        lemma_pow2_pos(k);
        if sq >= 0x1_0000 {
            lemma_refine_log(2 * l + 1, sq / 2, k);
        } else {
            lemma_refine_log(2 * l, sq, k);
        }
        assert(p * (2 * l) == (2 * p) * l) by (nonlinear_arith);
        assert(p * (2 * l + 1) == (2 * p) * l + p) by (nonlinear_arith);
        assert(p * (2 * l + 1 + 1) == (2 * p) * (l + 1)) by (nonlinear_arith);
        assert((2 * p) * (l + 1) == (2 * p) * l + 2 * p) by (nonlinear_arith);
        assert(pow2(steps) == 2 * p);
    } else {
        lemma2_to64();
        let p = pow2(steps) as int;
        assert(p * l == l && p * (l + 1) == l + 1) by (nonlinear_arith)
            requires
                p == 1,
        ;
    }
}

/// The bit count in eighths of a bit rounds up to the count in whole bits.
pub proof fn law_tell_frac_rounds_to_tell(nbits_total: int, rng: int)
    ensures
        ({
            let tell = nbits_total - bit_length(rng);
            let frac = 8 * nbits_total - range_eighths(rng);
            frac <= 8 * tell < frac + 8
        }),
{
    let l = bit_length(rng);
    lemma2_to64();
    lemma_refine_log(l as int, rng / pow2((l - 16) as nat) as int, 3);
}

/// The number of bits used never falls: coding an item takes some more, or none.
pub proof fn law_tell_never_falls(enc: EncoderState, item: Item)
    requires
        enc.valid(),
        enc.accepts(item),
    ensures
        enc.nbits_total() - bit_length(enc.rng) >= 1,
        enc.write(item).nbits_total() - bit_length(enc.write(item).rng) >= enc.nbits_total()
            - bit_length(enc.rng),
{
    lemma2_to64();
    lemma_bit_length_at_most(enc.rng, 32);
    match item {
        Item::Plain(Symbol::Range { fl, fh, ft }) => lemma_encode_tell(enc, fl, fh, ft),
        Item::Plain(Symbol::Raw { .. }) => {},
        Item::Table { k, icdf, ftb } => {
            lemma_icdf_bounds(enc, k, icdf, ftb);
            let (from, to) = enc.icdf_bounds(k, icdf, ftb);
            lemma_narrow_tell(enc, from, to - from);
        },
        Item::Bit { bit, logp } => {
            lemma_pow2_pos(logp);
            let ft = pow2(logp) as int;
            let rng = enc.rng;
            let s = rng / ft;
            lemma_fundamental_div_mod(rng, ft);
            assert(s * (ft - (ft - 1)) == s) by (nonlinear_arith);
            assert(s * (ft - ft) == 0) by (nonlinear_arith);
            if bit {
                assert(1 <= s <= rng) by (nonlinear_arith)
                    requires
                        0 < ft <= rng,
                        rng == ft * s + rng % ft,
                        0 <= rng % ft < ft,
                ;
                let from = enc.offset_of(ft - 1, ft);
                lemma_narrow_tell(enc, from, rng - from);
            } else {
                lemma_pow2_unfold(logp);
                lemma_pow2_pos((logp - 1) as nat);
                assert(0 <= s < rng) by (nonlinear_arith)
                    requires
                        ft >= 2,
                        rng > 0,
                        rng == ft * s + rng % ft,
                        0 <= rng % ft < ft,
                ;
                lemma_narrow_tell(enc, 0, rng - s);
            }
        },
        Item::Uint { t, ft } => {
            lemma_uint_parts(t, ft);
            let s = uint_raw_bits(ft);
            if s == 0 {
                lemma_encode_tell(enc, t, t + 1, ft);
            } else {
                let unit = pow2(s) as int;
                lemma_encode_tell(enc, t / unit, t / unit + 1, (ft - 1) / unit + 1);
            }
        },
    }
}

/// The number of bits used, to a precision of an eighth of a bit.
pub fn tell_frac(nbits_total: u32, rng: u32) -> (eighths: u32)
    requires
        33 <= nbits_total,
        8 * nbits_total <= u32::MAX,
        CODE_BOT < rng <= CODE_TOP,
    ensures
        eighths == 8 * nbits_total - range_eighths(rng as int),
{
    let mut l = ilog(rng);
    proof {
        lemma2_to64();
        lemma_bit_length(rng as int);
        lemma_bit_length_more_than(rng as int, 23);
        lemma_pow2_adds(16, (l - 16) as nat);
        lemma_pow2_unfold(16);
        lemma_pow2_adds(15, (l - 16) as nat);
        lemma_u32_shr_is_div(rng, (l - 16) as u32);
        let p = pow2((l - 16) as nat) as int;
        let x = rng as int;
        lemma_fundamental_div_mod(x, p);
        assert(0x8000 <= x / p < 0x1_0000) by (nonlinear_arith)
            requires
                p > 0,
                x == p * (x / p) + x % p,
                0 <= x % p < p,
                0x8000 * p <= x < 0x1_0000 * p,
        ;
        lemma_refine_log(l as int, x / p, 3);
    }
    let mut r = rng >> (l - 16);
    let ghost total = range_eighths(rng as int);
    let mut i: u32 = 0;
    while i < 3
        invariant
            i <= 3,
            0x8000 <= r < 0x1_0000,
            l <= (if i == 0 { 32int } else if i == 1 { 65 } else if i == 2 { 131 } else { 263 }),
            refine_log(l as int, r as int, (3 - i) as nat) == total,
        decreases 3 - i,
    {
        assert(0x4000_0000 <= r * r < 0x1_0000_0000) by (nonlinear_arith)
            requires
                0x8000 <= r < 0x1_0000,
        ;
        let sq = r * r / 0x8000;
        if sq >= 0x1_0000 {
            l = 2 * l + 1;
            r = sq / 2;
        } else {
            l = 2 * l;
            r = sq;
        }
        i = i + 1;
    }
    8 * nbits_total - l
}

/// The smallest mantissa, in units of 2^-15, whose logarithm counts as `d`
/// eighths: the `d`-th power of the eighth root of two, rounded up, or one more.
pub open spec fn eighth_root(d: int) -> int {
    if d <= 0 {
        32768
    } else if d == 1 {
        35734
    } else if d == 2 {
        38968
    } else if d == 3 {
        42496
    } else if d == 4 {
        46341
    } else if d == 5 {
        50536
    } else if d == 6 {
        55110
    } else {
        60098
    }
}

/// The eighth power of `x`.
pub open spec fn eighth_power(x: int) -> int {
    let fourth = (x * x) * (x * x);
    fourth * fourth
}

proof fn lemma_eighth_power(x: int, second: int, fourth: int, eighth: int)
    requires
        x * x == second,
        second * second == fourth,
        fourth * fourth == eighth,
    ensures
        eighth_power(x) == eighth,
{
}

/// The thresholds of the eighths are where the eighth powers pass powers of two.
pub proof fn law_eighths_divide_octave(d: int)
    requires
        0 <= d < 8,
    ensures
        eighth_power(eighth_root(d) - 2) < 0x1_000000_000000_000000_000000_000000int * pow2(
            d as nat,
        ) <= eighth_power(eighth_root(d)),
{
    lemma2_to64();
    if d == 0 {
        lemma_eighth_power(32766, 1073610756, 1152640055398891536, 1328579097309959749147263417492439296);
        lemma_eighth_power(32768, 1073741824, 1152921504606846976, 1329227995784915872903807060280344576);
    } else if d == 1 {
        lemma_eighth_power(35732, 1276775824, 1630156504750878976, 2657410229981602509450339044598808576);
        lemma_eighth_power(35734, 1276918756, 1630521509424587536, 2658600392696235300982898223726551296);
    } else if d == 2 {
        lemma_eighth_power(38966, 1518349156, 2305384159525912336, 5314796122992997218150754633156976896);
        lemma_eighth_power(38968, 1518505024, 2305857507913240576, 5316978846799860325567216413652811776);
    } else if d == 3 {
        lemma_eighth_power(42494, 1805740036, 3260697077613281296, 10632145431955792987868057532023439616);
        lemma_eighth_power(42496, 1805910016, 3261310985889120256, 10636149346681065541548159149629505536);
    } else if d == 4 {
        lemma_eighth_power(46339, 2147302921, 4610909834535132241, 21260489502212800581321082503357682081);
        lemma_eighth_power(46341, 2147488281, 4611705917032334961, 21267831465191049550940374023702871521);
    } else if d == 5 {
        lemma_eighth_power(50534, 2553685156, 6521307875974744336, 42527456413250231454887018520564080896);
        lemma_eighth_power(50536, 2553887296, 6522340320670191616, 42540923258640137998774671042156691456);
    } else if d == 6 {
        lemma_eighth_power(55108, 3036891664, 9222710978872688896, 85058397799818831407797386485201698816);
        lemma_eighth_power(55110, 3037112100, 9224049907966410000, 85083096704655136791181688288100000000);
    } else {
        lemma_eighth_power(60096, 3611529216, 13043143278021574656, 170123586570999387942763590201781518336);
        lemma_eighth_power(60098, 3611769604, 13044879672378316816, 170168885666829022269371452317268377856);
    }
}

proof fn lemma_square_between(r: int, low: int, high: int)
    requires
        0 <= low <= r <= high,
    ensures
        low * low <= r * r <= high * high,
{
    assert(low * low <= r * r <= high * high) by (nonlinear_arith)
        requires
            0 <= low <= r <= high,
    ;
}

/// The size of a range reaches a further eighth of a bit exactly where its
/// mantissa reaches the next power of the eighth root of two.
pub proof fn law_range_in_eighths(rng: int, d: int)
    requires
        CODE_BOT < rng <= CODE_TOP,
        0 <= d < 8,
    ensures
        ({
            let l = bit_length(rng);
            8 * l + d <= range_eighths(rng) <==> eighth_root(d) * pow2((l - 16) as nat) <= rng
        }),
{
    lemma2_to64();
    lemma_bit_length(rng);
    lemma_bit_length_more_than(rng, 23);
    let l = bit_length(rng);
    lemma_pow2_adds(16, (l - 16) as nat);
    lemma_pow2_adds(15, (l - 16) as nat);
    let p = pow2((l - 16) as nat) as int;
    let r = rng / p;
    lemma_pow2_pos((l - 16) as nat);
    lemma_fundamental_div_mod(rng, p);
    let t = eighth_root(d);
    assert((0x8000 <= r < 0x1_0000) && (t <= r <==> t * p <= rng)) by (nonlinear_arith)
        requires
            p > 0,
            rng == p * r + rng % p,
            0 <= rng % p < p,
            0x8000 * p <= rng < 0x1_0000 * p,
    ;
    lemma_digits(l as int, r);
}

proof fn lemma_digits(l: int, r: int)
    requires
        0x8000 <= r < 0x1_0000,
    ensures
        forall|d: int|
            0 <= d < 8 ==> (8 * l + d <= refine_log(l, r, 3) <==> #[trigger] eighth_root(d) <= r),
{
    reveal_with_fuel(refine_log, 4);
    if r < 35734 {
        lemma_square_between(r, 32768, 35733);
        let s = (r * r) / 0x8000;
        lemma_square_between(s, 32768, 38966);
        let t = (s * s) / 0x8000;
        lemma_square_between(t, 32768, 46336);
    } else if r < 38968 {
        lemma_square_between(r, 35734, 38967);
        let s = (r * r) / 0x8000;
        lemma_square_between(s, 38968, 46338);
        let t = (s * s) / 0x8000;
        lemma_square_between(t, 46341, 65527);
    } else if r < 42496 {
        lemma_square_between(r, 38968, 42495);
        let s = (r * r) / 0x8000;
        lemma_square_between(s, 46341, 55109);
        let t = (s * s) / 0x8000 / 2;
        lemma_square_between(t, 32768, 46340);
    } else if r < 46341 {
        lemma_square_between(r, 42496, 46340);
        let s = (r * r) / 0x8000;
        lemma_square_between(s, 55112, 65533);
        let t = (s * s) / 0x8000 / 2;
        lemma_square_between(t, 46346, 65530);
    } else if r < 50536 {
        lemma_square_between(r, 46341, 50535);
        let s = (r * r) / 0x8000 / 2;
        lemma_square_between(s, 32768, 38967);
        let t = (s * s) / 0x8000;
        lemma_square_between(t, 32768, 46338);
    } else if r < 55110 {
        lemma_square_between(r, 50536, 55109);
        let s = (r * r) / 0x8000 / 2;
        lemma_square_between(s, 38969, 46340);
        let t = (s * s) / 0x8000;
        lemma_square_between(t, 46343, 65533);
    } else if r < 60098 {
        lemma_square_between(r, 55110, 60097);
        let s = (r * r) / 0x8000 / 2;
        lemma_square_between(s, 46342, 55109);
        let t = (s * s) / 0x8000 / 2;
        lemma_square_between(t, 32769, 46340);
    } else {
        lemma_square_between(r, 60098, 65535);
        let s = (r * r) / 0x8000 / 2;
        lemma_square_between(s, 55111, 65534);
        let t = (s * s) / 0x8000 / 2;
        lemma_square_between(t, 46344, 65532);
    }
}

} // verus!
