//! The Laplace-distributed symbol coder for CELT coarse energy.
//!
//! Zero has the frequency `fs`, the magnitudes that follow decay
//! geometrically by `decay / 2^14` for each step, and every further magnitude
//! has the minimum frequency of one; the total is `2^15`.

use vstd::arithmetic::power2::lemma2_to64;
use vstd::prelude::*;

use crate::range::message::{law_start_in_step, lemma_write, Item};
use crate::range::model::{
    law_step_round_trip, lemma_update_keeps_raw, DecoderState, EncoderState, Symbol,
};
use crate::range::{RangeDecoder, RangeEncoder};

use super::laplace_fit::{law_celt_models_fit, lemma_worth};

verus! {

/// Minimum frequency of a value.
pub const LAPLACE_MINP: u32 = 1;
/// Number of values of each sign that the minimum frequency is set aside for.
pub const LAPLACE_NMIN: u32 = 16;
/// The total frequency is two to this power.
pub const FTB: u32 = 15;
/// The total frequency.
pub const FT: u32 = 0x8000;

/// The frequency of the magnitude one, before the minimum is added.
pub open spec fn first_freq(fs: int, decay: int) -> int {
    ((FT - 2 * LAPLACE_NMIN * LAPLACE_MINP - fs) * (16384 - decay)) / 0x8000
}

/// Where the frequencies of magnitude `m >= 1` begin, and the decayed
/// frequency of each of its two signs before the minimum is added. Once the
/// frequency has decayed to zero, both stay.
pub open spec fn level(fs: int, decay: int, m: nat) -> (int, int)
    decreases m,
{
    if m <= 1 {
        (fs, first_freq(fs, decay))
    } else {
        let (fl, freq) = level(fs, decay, (m - 1) as nat);
        if freq > 0 {
            (fl + 2 * (freq + LAPLACE_MINP), (2 * freq * decay) / 0x8000)
        } else {
            (fl, freq)
        }
    }
}

/// The first magnitude up to `m` whose frequency has decayed to zero, or `m`.
pub open spec fn decayed_at(fs: int, decay: int, m: nat) -> nat
    decreases m,
{
    if m <= 1 {
        1
    } else if level(fs, decay, (m - 1) as nat).1 > 0 {
        m
    } else {
        decayed_at(fs, decay, (m - 1) as nat)
    }
}

/// The parameters describe a distribution: the frequencies are in range, and
/// the decaying part leaves room for at least one more value of each sign.
pub open spec fn laplace_model(fs: int, decay: int) -> bool {
    &&& 0 <= fs <= FT - 2 * LAPLACE_NMIN * LAPLACE_MINP
    &&& 0 <= decay <= 16384
    &&& forall|m: nat| (#[trigger] level(fs, decay, m)).0 <= FT - 2
}

/// The parameters that CELT uses: a frequency of zero that leaves the guaranteed
/// deltas, and a decay of at most 11456.
pub open spec fn celt_model(fs: int, decay: int) -> bool {
    &&& 0 <= fs <= FT - 2 * LAPLACE_NMIN * LAPLACE_MINP
    &&& 0 <= decay <= 11456
}

/// The parameters that values can be coded with: those of CELT, and all others
/// that describe a distribution.
pub open spec fn laplace_usable(fs: int, decay: int) -> bool {
    celt_model(fs, decay) || laplace_model(fs, decay)
}

/// The magnitude of `x`.
pub open spec fn magnitude(x: int) -> nat {
    if x < 0 {
        (-x) as nat
    } else {
        x as nat
    }
}

/// The value that is coded for `value`, and the frequencies it owns. Values
/// beyond the last that the total has room for saturate.
pub open spec fn laplace_symbol(value: int, fs: int, decay: int) -> (int, int, int) {
    if value == 0 {
        (0, 0, fs)
    } else {
        let m = magnitude(value);
        let (fl, freq) = level(fs, decay, m);
        if freq > 0 {
            let size = freq + LAPLACE_MINP;
            let from = if value < 0 {
                fl
            } else {
                fl + size
            };
            (value, from, from + size)
        } else {
            let start = decayed_at(fs, decay, m);
            let room = if value < 0 {
                (FT - fl + 1) / 2
            } else {
                (FT - fl) / 2
            };
            let beyond = if m - start < room - 1 {
                m - start
            } else {
                room - 1
            };
            if value < 0 {
                (-(start + beyond), fl + 2 * beyond, fl + 2 * beyond + 1)
            } else {
                (start + beyond, fl + 2 * beyond + 1, fl + 2 * beyond + 2)
            }
        }
    }
}

/// The magnitude from `m` on that owns the frequency `fm`, or the first whose
/// frequency has decayed to zero.
pub open spec fn level_of(fs: int, decay: int, fm: int, m: nat) -> nat
    decreases level(fs, decay, m).1,
{
    let (fl, freq) = level(fs, decay, m);
    if freq > 0 && 0 <= decay < 16384 && m >= 1 && fm >= fl + 2 * (freq + LAPLACE_MINP) {
        proof {
            lemma_level_decays(fs, decay, m);
        }
        level_of(fs, decay, fm, m + 1)
    } else {
        m
    }
}

/// The value that owns the frequency `fm`, and all the frequencies it owns.
pub open spec fn laplace_lookup(fm: int, fs: int, decay: int) -> (int, int, int) {
    if fm < fs {
        (0, 0, fs)
    } else {
        let m = level_of(fs, decay, fm, 1);
        let (start, freq) = level(fs, decay, m);
        let beyond = if freq > 0 {
            0
        } else {
            (fm - start) / 2
        };
        let val = m + beyond;
        let fl = start + 2 * beyond;
        let size = freq + LAPLACE_MINP;
        if fm < fl + size {
            (-val, fl, fl + size)
        } else {
            (val, fl + size, fl + 2 * size)
        }
    }
}

/// A positive frequency gets smaller with the next magnitude.
pub proof fn lemma_level_decays(fs: int, decay: int, m: nat)
    requires
        m >= 1,
        0 <= decay < 16384,
        level(fs, decay, m).1 > 0,
    ensures
        0 <= level(fs, decay, m + 1).1 < level(fs, decay, m).1,
{
    let f = level(fs, decay, m).1;
    assert(0 <= 2 * f * decay < 0x8000 * f) by (nonlinear_arith)
        requires
            f > 0,
            0 <= decay < 16384,
    ;
}

/// Frequencies are never negative, and are zero from the start where nothing
/// decays.
pub proof fn lemma_level_bounds(fs: int, decay: int, m: nat)
    requires
        0 <= fs <= FT - 2 * LAPLACE_NMIN * LAPLACE_MINP,
        0 <= decay <= 16384,
    ensures
        0 <= level(fs, decay, m).1 <= 16384,
        decay == 16384 ==> level(fs, decay, m).1 == 0,
        fs <= level(fs, decay, m).0,
    decreases m,
{
    if m <= 1 {
        let ft = FT - 2 * LAPLACE_NMIN * LAPLACE_MINP - fs;
        assert(0 <= ft * (16384 - decay) <= 0x8000 * 16384) by (nonlinear_arith)
            requires
                0 <= ft <= 0x8000,
                0 <= decay <= 16384,
        ;
        if decay == 16384 {
            assert(ft * 0 == 0);
        }
    } else {
        lemma_level_bounds(fs, decay, (m - 1) as nat);
        let f = level(fs, decay, (m - 1) as nat).1;
        assert(0 <= 2 * f * decay <= 0x8000 * f) by (nonlinear_arith)
            requires
                f >= 0,
                0 <= decay <= 16384,
        ;
    }
}

/// Magnitudes begin in order.
pub proof fn lemma_level_ordered(fs: int, decay: int, a: nat, b: nat)
    requires
        0 <= fs <= FT - 2 * LAPLACE_NMIN * LAPLACE_MINP,
        0 <= decay <= 16384,
        1 <= a <= b,
    ensures
        level(fs, decay, a).0 <= level(fs, decay, b).0,
        level(fs, decay, a).1 == 0 ==> level(fs, decay, b) == level(fs, decay, a),
        a < b && level(fs, decay, a).1 > 0 ==> level(fs, decay, a).0 + 2 * (level(fs, decay, a).1
            + LAPLACE_MINP) <= level(fs, decay, b).0,
    decreases b,
{
    if a < b {
        lemma_level_ordered(fs, decay, a, (b - 1) as nat);
        lemma_level_bounds(fs, decay, (b - 1) as nat);
    }
}

/// Up to `decayed_at`, frequencies are positive; from there on, the level
/// stays.
pub proof fn lemma_decayed_at(fs: int, decay: int, m: nat)
    requires
        0 <= fs <= FT - 2 * LAPLACE_NMIN * LAPLACE_MINP,
        0 <= decay <= 16384,
        m >= 1,
    ensures
        1 <= decayed_at(fs, decay, m) <= m,
        level(fs, decay, decayed_at(fs, decay, m)) == level(fs, decay, m),
        decayed_at(fs, decay, m) > 1 ==> level(
            fs,
            decay,
            (decayed_at(fs, decay, m) - 1) as nat,
        ).1 > 0,
    decreases m,
{
    if m > 1 {
        lemma_decayed_at(fs, decay, (m - 1) as nat);
        lemma_level_bounds(fs, decay, (m - 1) as nat);
    }
}

/// A frequency is found at the magnitude that owns it.
proof fn lemma_level_of(fs: int, decay: int, fm: int, j: nat, m: nat)
    requires
        0 <= fs <= FT - 2 * LAPLACE_NMIN * LAPLACE_MINP,
        0 <= decay <= 16384,
        1 <= j <= m,
        m > 1 ==> level(fs, decay, (m - 1) as nat).1 > 0,
        level(fs, decay, m).0 <= fm,
        level(fs, decay, m).1 == 0 || fm < level(fs, decay, m).0 + 2 * (level(fs, decay, m).1
            + LAPLACE_MINP),
    ensures
        level_of(fs, decay, fm, j) == m,
    decreases m - j,
{
    lemma_level_bounds(fs, decay, j);
    if j < m {
        lemma_level_ordered(fs, decay, j, (m - 1) as nat);
        lemma_level_ordered(fs, decay, j, m);
        lemma_level_of(fs, decay, fm, j + 1, m);
    }
}

/// What is coded for any value is read back from each frequency it owns: the
/// same value, after saturation, and the same frequencies.
pub proof fn law_laplace_lookup(value: int, fs: int, decay: int, fm: int)
    requires
        laplace_usable(fs, decay),
        value == 0 ==> fs > 0,
        laplace_symbol(value, fs, decay).1 <= fm < laplace_symbol(value, fs, decay).2,
    ensures
        laplace_lookup(fm, fs, decay) == laplace_symbol(value, fs, decay),
{
    if celt_model(fs, decay) {
        law_celt_models_fit(fs, decay);
    }
    if value != 0 {
        let m = magnitude(value);
        lemma_level_bounds(fs, decay, m);
        lemma_decayed_at(fs, decay, m);
        let start = decayed_at(fs, decay, m);
        let (fl, freq) = level(fs, decay, m);
        if freq > 0 {
            if start < m {
                lemma_level_ordered(fs, decay, start, m);
                lemma_level_ordered(fs, decay, start, (start + 1) as nat);
                lemma_level_ordered(fs, decay, (start + 1) as nat, m);
            }
            lemma_level_of(fs, decay, fm, 1, m);
        } else {
            lemma_level_of(fs, decay, fm, 1, start);
        }
    }
}

/// The frequencies that a value owns are a nonempty part of the total.
pub proof fn lemma_laplace_symbol(value: int, fs: int, decay: int)
    requires
        laplace_model(fs, decay),
        value == 0 ==> fs > 0,
    ensures
        ({
            let (coded, from, to) = laplace_symbol(value, fs, decay);
            &&& 0 <= from < to <= FT
            &&& magnitude(coded) <= magnitude(value)
        }),
{
    if value != 0 {
        let m = magnitude(value);
        lemma_level_bounds(fs, decay, m);
        lemma_decayed_at(fs, decay, m);
        assert(level(fs, decay, m + 1).0 <= FT - 2);
        assert(level(fs, decay, m).0 <= FT - 2);
    }
}

/// Where the frequency has decayed by magnitude `m`, later magnitudes agree on
/// where it did.
proof fn lemma_decayed_at_same(fs: int, decay: int, m: nat, n: nat)
    requires
        0 <= fs <= FT - 2 * LAPLACE_NMIN * LAPLACE_MINP,
        0 <= decay <= 16384,
        1 <= m <= n,
        decayed_at(fs, decay, n) <= m,
    ensures
        decayed_at(fs, decay, m) == decayed_at(fs, decay, n),
    decreases n,
{
    lemma_decayed_at(fs, decay, n);
    if m < n {
        lemma_decayed_at_same(fs, decay, m, (n - 1) as nat);
    }
}

/// Every magnitude takes at least two frequencies.
proof fn lemma_level_spread(fs: int, decay: int, m: nat)
    requires
        0 <= fs <= FT - 2 * LAPLACE_NMIN * LAPLACE_MINP,
        0 <= decay <= 16384,
        m >= 1,
    ensures
        2 * (decayed_at(fs, decay, m) - 1) <= level(fs, decay, m).0,
    decreases m,
{
    if m > 1 {
        lemma_level_spread(fs, decay, (m - 1) as nat);
        lemma_level_bounds(fs, decay, (m - 1) as nat);
        lemma_decayed_at(fs, decay, (m - 1) as nat);
        if level(fs, decay, (m - 1) as nat).1 > 0 {
            let start = decayed_at(fs, decay, (m - 1) as nat);
            lemma_level_ordered(fs, decay, start, (m - 1) as nat);
            assert(start == m - 1) by {
                if start < m - 1 {
                    lemma_level_ordered(fs, decay, start, (start + 1) as nat);
                    lemma_level_ordered(fs, decay, (start + 1) as nat, (m - 1) as nat);
                }
            }
        }
    }
}

/// The value that is coded has the sign of the value that was asked for and is
/// no larger; deltas up to the guaranteed number are coded as they are; no
/// magnitude beyond half the total is coded; and a value that was coded is
/// coded as itself.
pub proof fn law_laplace_saturates(value: int, fs: int, decay: int)
    requires
        laplace_usable(fs, decay),
        value == 0 ==> fs > 0,
    ensures
        ({
            let coded = laplace_symbol(value, fs, decay).0;
            &&& coded == 0 <==> value == 0
            &&& value > 0 ==> 0 < coded <= value
            &&& value < 0 ==> value <= coded < 0
            &&& magnitude(value) <= LAPLACE_NMIN ==> coded == value
            &&& magnitude(coded) <= FT / 2
            &&& laplace_symbol(coded, fs, decay) == laplace_symbol(value, fs, decay)
        }),
{
    if celt_model(fs, decay) {
        law_celt_models_fit(fs, decay);
    }
    if value != 0 {
        let m = magnitude(value);
        let (fl, freq) = level(fs, decay, m);
        lemma_level_bounds(fs, decay, m);
        lemma_decayed_at(fs, decay, m);
        lemma_level_spread(fs, decay, m);
        assert(fl <= FT - 2);
        let start = decayed_at(fs, decay, m);
        if freq > 0 {
            if start < m {
                lemma_level_ordered(fs, decay, start, m);
                lemma_level_ordered(fs, decay, start, (start + 1) as nat);
                lemma_level_ordered(fs, decay, (start + 1) as nat, m);
            }
            assert(level(fs, decay, m + 1).0 <= FT - 2);
        } else {
            lemma_worth(fs, decay, start);
            let c = 16384 - decay;
            if decay == 16384 {
                lemma_level_bounds(fs, decay, 1);
                lemma_level_ordered(fs, decay, 1, m);
            }
            assert(fl <= 32734 + 2 * start) by {
                if c > 0 {
                    assert(fl <= 32734 + 2 * start) by (nonlinear_arith)
                        requires
                            c * fl <= c * (32734 + 2 * start),
                            c > 0,
                    ;
                }
            }
            let coded = laplace_symbol(value, fs, decay).0;
            let n = magnitude(coded);
            lemma_level_ordered(fs, decay, start, n);
            lemma_decayed_at_same(fs, decay, n, m);
        }
    }
}

/// Whether `fs` and `decay` describe a distribution that fits the total.
pub fn laplace_model_fits(fs: u32, decay: u32) -> (fits: bool)
    ensures
        fits == laplace_model(fs as int, decay as int),
{
    if fs > FT - 2 * LAPLACE_NMIN * LAPLACE_MINP || decay > 16384 {
        return false;
    }
    let mut fl = fs;
    let mut freq = freq1(fs, decay);
    let mut m: u32 = 1;
    proof {
        lemma_level_bounds(fs as int, decay as int, 1);
    }
    while freq > 0 && fl <= FT - 2
        invariant
            fs <= FT - 2 * LAPLACE_NMIN * LAPLACE_MINP,
            decay <= 16384,
            1 <= m,
            m + freq <= 16385,
            freq <= 16384,
            fl <= 0x2_0000,
            (fl as int, freq as int) == level(fs as int, decay as int, m as nat),
        decreases freq,
    {
        proof {
            lemma_level_bounds(fs as int, decay as int, m as nat);
            lemma_level_decays(fs as int, decay as int, m as nat);
            assert(0 <= 2 * freq * decay <= 0x8000 * 16384) by (nonlinear_arith)
                requires
                    0 <= freq <= 16384,
                    0 <= decay <= 16384,
            ;
        }
        fl = fl + 2 * (freq + LAPLACE_MINP);
        freq = 2 * freq * decay / 0x8000;
        m = m + 1;
    }
    proof {
        if fl <= FT - 2 {
            assert forall|q: nat| (#[trigger] level(fs as int, decay as int, q)).0 <= FT - 2 by {
                if q < 1 {
                    lemma_level_ordered(fs as int, decay as int, 1, m as nat);
                } else if q <= m {
                    lemma_level_ordered(fs as int, decay as int, q, m as nat);
                } else {
                    lemma_level_ordered(fs as int, decay as int, m as nat, q);
                }
            }
        }
    }
    fl <= FT - 2
}

/// The frequency of the first magnitude.
fn freq1(fs0: u32, decay: u32) -> (freq: u32)
    requires
        fs0 <= FT - 2 * LAPLACE_NMIN * LAPLACE_MINP,
        decay <= 16384,
    ensures
        freq == first_freq(fs0 as int, decay as int),
{
    let ft = FT - LAPLACE_MINP * (2 * LAPLACE_NMIN) - fs0;
    assert(0 <= ft * (16384 - decay) <= 0x8000 * 16384) by (nonlinear_arith)
        requires
            0 <= ft <= 0x8000,
            0 <= decay <= 16384,
    ;
    ft * (16384 - decay) / 0x8000
}

/// Encodes `value` with a Laplace model; returns the value actually coded,
/// which saturates at the ends of the distribution. `fs` is the frequency of
/// zero and `decay` the decay factor.
pub fn ec_laplace_encode(enc: &mut RangeEncoder, value: i32, fs: u32, decay: u32) -> (coded: i32)
    requires
        old(enc).inv(),
        old(enc)@.nbits_total() + 24 <= u32::MAX,
        laplace_usable(fs as int, decay as int),
        value > i32::MIN,
        value == 0 ==> fs > 0,
    ensures
        coded == laplace_symbol(value as int, fs as int, decay as int).0,
        -LAPLACE_NMIN <= value <= LAPLACE_NMIN ==> coded == value,
        value > 0 ==> 0 < coded <= value,
        value < 0 ==> value <= coded < 0,
        final(enc).inv(),
        final(enc).size() == old(enc).size(),
        final(enc)@ == old(enc)@.encode(
            laplace_symbol(value as int, fs as int, decay as int).1,
            laplace_symbol(value as int, fs as int, decay as int).2,
            FT as int,
        ),
{
    proof {
        lemma2_to64();
        if celt_model(fs as int, decay as int) {
            law_celt_models_fit(fs as int, decay as int);
        }
        lemma_laplace_symbol(value as int, fs as int, decay as int);
        law_laplace_saturates(value as int, fs as int, decay as int);
    }
    if value == 0 {
        enc.encode_bin(0, fs, FTB);
        return 0;
    }
    let negative = value < 0;
    let val: i32 = if negative { 0 - value } else { value };
    let ghost m = magnitude(value as int);
    let mut fl = fs;
    let mut freq = freq1(fs, decay);
    let mut i: i32 = 1;
    proof {
        lemma_level_bounds(fs as int, decay as int, 1);
        assert(level(fs as int, decay as int, 1).0 <= FT - 2);
    }
    while freq > 0 && i < val
        invariant
            1 <= i <= val,
            val == m,
            laplace_model(fs as int, decay as int),
            (fl as int, freq as int) == level(fs as int, decay as int, i as nat),
            i == decayed_at(fs as int, decay as int, i as nat),
            freq <= 16384,
            decay <= 16384,
            fl <= FT - 2,
        decreases val - i,
    {
        proof {
            lemma_level_bounds(fs as int, decay as int, (i + 1) as nat);
            assert(level(fs as int, decay as int, (i + 1) as nat).0 <= FT - 2);
            assert(0 <= 2 * freq * decay <= 0x8000 * 16384) by (nonlinear_arith)
                requires
                    0 <= freq <= 16384,
                    0 <= decay <= 16384,
            ;
        }
        fl = fl + 2 * (freq + LAPLACE_MINP);
        freq = 2 * freq * decay / 0x8000;
        i = i + 1;
    }
    proof {
        lemma_level_bounds(fs as int, decay as int, i as nat);
        assert(level(fs as int, decay as int, i as nat).0 <= FT - 2);
        lemma_level_ordered(fs as int, decay as int, i as nat, m);
        if freq == 0 {
            lemma_decayed_stays(fs as int, decay as int, i as nat, m);
        }
    }
    if freq == 0 {
        // Everything beyond the decayed part has the minimum frequency; the
        // value saturates at the largest one that fits.
        let room: i32 = if negative { (FT - fl + 1) as i32 / 2 } else { (FT - fl) as i32 / 2 };
        let mut beyond = val - i;
        if beyond > room - 1 {
            beyond = room - 1;
        }
        if negative {
            let from = fl + 2 * beyond as u32;
            enc.encode_bin(from, from + 1, FTB);
            0 - (i + beyond)
        } else {
            let from = fl + 2 * beyond as u32 + 1;
            enc.encode_bin(from, from + 1, FTB);
            i + beyond
        }
    } else {
        let size = freq + LAPLACE_MINP;
        if !negative {
            fl = fl + size;
        }
        enc.encode_bin(fl, fl + size, FTB);
        value
    }
}

/// The magnitude where the frequency reached zero stays the first such.
proof fn lemma_decayed_stays(fs: int, decay: int, a: nat, b: nat)
    requires
        0 <= fs <= FT - 2 * LAPLACE_NMIN * LAPLACE_MINP,
        0 <= decay <= 16384,
        1 <= a <= b,
        level(fs, decay, a).1 == 0,
        decayed_at(fs, decay, a) == a,
    ensures
        decayed_at(fs, decay, b) == a,
    decreases b,
{
    if a < b {
        lemma_decayed_stays(fs, decay, a, (b - 1) as nat);
        lemma_level_ordered(fs, decay, a, (b - 1) as nat);
    }
}

/// Decodes one value of a Laplace model.
pub fn ec_laplace_decode(dec: &mut RangeDecoder, fs: u32, decay: u32) -> (value: i32)
    requires
        old(dec).inv(),
        old(dec)@.nbits_total() + 24 <= u32::MAX,
        laplace_usable(fs as int, decay as int),
    ensures
        ({
            let fm = old(dec)@.frequency(FT as int);
            let (found, from, to) = laplace_lookup(fm, fs as int, decay as int);
            &&& value == found
            &&& final(dec)@ == old(dec)@.update(from, to, FT as int)
        }),
        final(dec).inv(),
{
    proof {
        lemma2_to64();
        if celt_model(fs as int, decay as int) {
            law_celt_models_fit(fs as int, decay as int);
        }
    }
    let fm = dec.decode_bin(FTB);
    if fm < fs {
        dec.update(0, fs, FT);
        return 0;
    }
    let mut val: i32 = 1;
    let mut fl = fs;
    let mut freq = freq1(fs, decay);
    proof {
        lemma_level_bounds(fs as int, decay as int, 1);
        assert(level(fs as int, decay as int, 1).0 <= FT - 2);
    }
    while freq > 0 && fm >= fl + 2 * (freq + LAPLACE_MINP)
        invariant
            1 <= val,
            val + freq <= 16386,
            fm < FT,
            fl <= fm,
            laplace_model(fs as int, decay as int),
            (fl as int, freq as int) == level(fs as int, decay as int, val as nat),
            level_of(fs as int, decay as int, fm as int, val as nat) == level_of(
                fs as int,
                decay as int,
                fm as int,
                1,
            ),
            freq <= 16384,
        decreases freq,
    {
        proof {
            lemma_level_bounds(fs as int, decay as int, val as nat);
            lemma_level_decays(fs as int, decay as int, val as nat);
            assert(0 <= 2 * freq * decay <= 0x8000 * 16384) by (nonlinear_arith)
                requires
                    0 <= freq <= 16384,
                    0 <= decay <= 16384,
            ;
        }
        fl = fl + 2 * (freq + LAPLACE_MINP);
        freq = 2 * freq * decay / 0x8000;
        val = val + 1;
    }
    proof {
        assert(level(fs as int, decay as int, (val + 1) as nat).0 <= FT - 2);
    }
    if freq == 0 {
        let beyond = (fm - fl) / 2;
        val = val + beyond as i32;
        fl = fl + 2 * beyond;
    }
    let size = freq + LAPLACE_MINP;
    if fm < fl + size {
        dec.update(fl, fl + size, FT);
        0 - val
    } else {
        dec.update(fl + size, fl + 2 * size, FT);
        val
    }
}

/// Laplace-coded values survive the range coder: over any frame that carries
/// the coded value, the decoder finds exactly the value that the encoder
/// reported, and ends in step with it.
pub proof fn law_laplace_round_trip(
    dec: DecoderState,
    enc: EncoderState,
    value: int,
    fs: int,
    decay: int,
)
    requires
        enc.valid(),
        dec.follows(enc),
        laplace_usable(fs, decay),
        value == 0 ==> fs > 0,
        ({
            let (coded, from, to) = laplace_symbol(value, fs, decay);
            enc.encode(from, to, FT as int).carried_by(dec.data)
        }),
    ensures
        ({
            let (coded, from, to) = laplace_symbol(value, fs, decay);
            &&& laplace_lookup(dec.frequency(FT as int), fs, decay) == (coded, from, to)
            &&& dec.update(from, to, FT as int).follows(enc.encode(from, to, FT as int))
        }),
{
    let (coded, from, to) = laplace_symbol(value, fs, decay);
    if celt_model(fs, decay) {
        law_celt_models_fit(fs, decay);
    }
    lemma_laplace_symbol(value, fs, decay);
    law_step_round_trip(dec, enc, Symbol::Range { fl: from, fh: to, ft: FT as int });
    law_laplace_lookup(value, fs, decay, dec.frequency(FT as int));
}

/// The state of an encoder behind the first `n` values of a run.
pub open spec fn laplace_written(
    enc: EncoderState,
    values: Seq<int>,
    fs: int,
    decay: int,
    n: nat,
) -> EncoderState
    decreases n,
{
    if n == 0 {
        enc
    } else {
        let (_, from, to) = laplace_symbol(values[n - 1], fs, decay);
        laplace_written(enc, values, fs, decay, (n - 1) as nat).encode(from, to, FT as int)
    }
}

/// What a decoder finds next: a value, and the frequencies that it owns.
pub open spec fn laplace_found(dec: DecoderState, fs: int, decay: int) -> (int, int, int) {
    laplace_lookup(dec.frequency(FT as int), fs, decay)
}

/// The state of a decoder that has decoded `n` values.
pub open spec fn laplace_read(dec: DecoderState, fs: int, decay: int, n: nat) -> DecoderState
    decreases n,
{
    if n == 0 {
        dec
    } else {
        let before = laplace_read(dec, fs, decay, (n - 1) as nat);
        let (_, from, to) = laplace_found(before, fs, decay);
        before.update(from, to, FT as int)
    }
}

/// Every state of the encoder in a run is valid, and a frame that carries the
/// end of the run carries each of them.
proof fn lemma_run_carried(
    enc: EncoderState,
    values: Seq<int>,
    fs: int,
    decay: int,
    n: nat,
    data: Seq<u8>,
)
    requires
        enc.valid(),
        laplace_usable(fs, decay),
        fs > 0,
        n <= values.len(),
        laplace_written(enc, values, fs, decay, values.len()).carried_by(data),
    ensures
        laplace_written(enc, values, fs, decay, n).valid(),
        laplace_written(enc, values, fs, decay, n).carried_by(data),
    decreases values.len() - n,
{
    lemma_run_valid(enc, values, fs, decay, n);
    if n < values.len() {
        lemma_run_carried(enc, values, fs, decay, n + 1, data);
        let (_, from, to) = laplace_symbol(values[n as int], fs, decay);
        if celt_model(fs, decay) {
            law_celt_models_fit(fs, decay);
        }
        lemma_laplace_symbol(values[n as int], fs, decay);
        lemma_write(
            laplace_written(enc, values, fs, decay, n),
            Item::Plain(Symbol::Range { fl: from, fh: to, ft: FT as int }),
            data,
        );
    }
}

proof fn lemma_run_valid(enc: EncoderState, values: Seq<int>, fs: int, decay: int, n: nat)
    requires
        enc.valid(),
        laplace_usable(fs, decay),
        fs > 0,
        n <= values.len(),
    ensures
        laplace_written(enc, values, fs, decay, n).valid(),
    decreases n,
{
    if n > 0 {
        lemma_run_valid(enc, values, fs, decay, (n - 1) as nat);
        let (_, from, to) = laplace_symbol(values[n - 1], fs, decay);
        if celt_model(fs, decay) {
            law_celt_models_fit(fs, decay);
        }
        lemma_laplace_symbol(values[n - 1], fs, decay);
        lemma_write(
            laplace_written(enc, values, fs, decay, (n - 1) as nat),
            Item::Plain(Symbol::Range { fl: from, fh: to, ft: FT as int }),
            seq![],
        );
    }
}

/// A run of values survives the range coder: over any frame that carries it, a
/// decoder in step with the encoder finds one coded value after the other, and
/// stays in step.
pub proof fn law_laplace_run_round_trip(
    dec: DecoderState,
    enc: EncoderState,
    values: Seq<int>,
    fs: int,
    decay: int,
    n: nat,
)
    requires
        enc.valid(),
        dec.follows(enc),
        laplace_usable(fs, decay),
        fs > 0,
        laplace_written(enc, values, fs, decay, values.len()).carried_by(dec.data),
        n <= values.len(),
    ensures
        ({
            let d = laplace_read(dec, fs, decay, n);
            &&& d.follows(laplace_written(enc, values, fs, decay, n))
            &&& d.data == dec.data
            &&& n < values.len() ==> laplace_found(d, fs, decay) == laplace_symbol(
                values[n as int],
                fs,
                decay,
            )
        }),
    decreases n,
{
    if n > 0 {
        let k = (n - 1) as nat;
        law_laplace_run_round_trip(dec, enc, values, fs, decay, k);
        let d = laplace_read(dec, fs, decay, k);
        let (_, from, to) = laplace_symbol(values[k as int], fs, decay);
        lemma_run_carried(enc, values, fs, decay, k, dec.data);
        lemma_run_carried(enc, values, fs, decay, n, dec.data);
        law_laplace_round_trip(
            d,
            laplace_written(enc, values, fs, decay, k),
            values[k as int],
            fs,
            decay,
        );
        lemma_update_keeps_raw(d, from, to, FT as int);
    }
    if n < values.len() {
        lemma_run_carried(enc, values, fs, decay, n, dec.data);
        lemma_run_carried(enc, values, fs, decay, n + 1, dec.data);
        law_laplace_round_trip(
            laplace_read(dec, fs, decay, n),
            laplace_written(enc, values, fs, decay, n),
            values[n as int],
            fs,
            decay,
        );
    }
}

/// From a frame that holds a run of values, a new decoder reads the values that
/// were coded, and ends with the range of the encoder.
pub proof fn law_laplace_frame_round_trip(values: Seq<int>, fs: int, decay: int, frame: Seq<u8>)
    requires
        laplace_usable(fs, decay),
        fs > 0,
        laplace_written(
            EncoderState::initial(),
            values,
            fs,
            decay,
            values.len(),
        ).carried_by(frame),
    ensures
        ({
            let dec = DecoderState::initial(frame);
            let end = laplace_written(EncoderState::initial(), values, fs, decay, values.len());
            &&& forall|i: nat|
                i < values.len() ==> laplace_found(
                    #[trigger] laplace_read(dec, fs, decay, i),
                    fs,
                    decay,
                ).0 == laplace_symbol(values[i as int], fs, decay).0
            &&& laplace_read(dec, fs, decay, values.len()).rng == end.rng
        }),
{
    let dec = DecoderState::initial(frame);
    let enc = EncoderState::initial();
    law_start_in_step(frame);
    assert forall|i: nat| i < values.len() implies laplace_found(
        #[trigger] laplace_read(dec, fs, decay, i),
        fs,
        decay,
    ).0 == laplace_symbol(values[i as int], fs, decay).0 by {
        law_laplace_run_round_trip(dec, enc, values, fs, decay, i);
    }
    law_laplace_run_round_trip(dec, enc, values, fs, decay, values.len());
}

/// The frequency of a value: how many of the `2^15` it owns.
pub open spec fn value_frequency(value: int, fs: int, decay: int) -> int {
    laplace_symbol(value, fs, decay).2 - laplace_symbol(value, fs, decay).1
}

/// Whether a value is coded as it is.
pub open spec fn in_reach(value: int, fs: int, decay: int) -> bool {
    laplace_symbol(value, fs, decay).0 == value
}

/// Values stand side by side in the order 0, -1, 1, -2, 2 and so on, and a value
/// is as frequent as its negative.
pub proof fn law_values_side_by_side(m: int, fs: int, decay: int)
    requires
        laplace_usable(fs, decay),
        m >= 1,
        in_reach(m, fs, decay),
        in_reach(-m, fs, decay),
    ensures
        laplace_symbol(0, fs, decay).1 == 0,
        value_frequency(0, fs, decay) == fs,
        laplace_symbol(-1, fs, decay).1 == fs || !in_reach(-1, fs, decay),
        laplace_symbol(m, fs, decay).1 == laplace_symbol(-m, fs, decay).2,
        value_frequency(m, fs, decay) == value_frequency(-m, fs, decay),
        in_reach(-m - 1, fs, decay) ==> laplace_symbol(-m - 1, fs, decay).1 == laplace_symbol(
            m,
            fs,
            decay,
        ).2,
{
    if celt_model(fs, decay) {
        law_celt_models_fit(fs, decay);
    }
    lemma_level_bounds(fs, decay, m as nat);
    lemma_level_bounds(fs, decay, (m + 1) as nat);
    lemma_level_bounds(fs, decay, 1);
    lemma_decayed_at(fs, decay, m as nat);
    lemma_decayed_at(fs, decay, (m + 1) as nat);
    lemma_decayed_at(fs, decay, 1);
}

/// Magnitudes decay: beyond the one that every value has, the frequency of the
/// next magnitude is that of this one times `decay / 2^14`, rounded down. The
/// first shares with its negative, and with the decay that follows, what zero
/// and the 32 rarest values leave.
pub proof fn law_frequencies_decay(m: int, fs: int, decay: int)
    requires
        laplace_usable(fs, decay),
        m >= 1,
        in_reach(m, fs, decay),
        in_reach(m + 1, fs, decay),
    ensures
        value_frequency(m, fs, decay) >= 1,
        value_frequency(m + 1, fs, decay) >= 1,
        ({
            let now = value_frequency(m, fs, decay) - 1;
            let next = value_frequency(m + 1, fs, decay) - 1;
            0x4000 * next <= now * decay < 0x4000 * (next + 1)
        }),
        m == 1 ==> ({
            let first = value_frequency(1, fs, decay) - 1;
            0x8000 * first <= (0x8000 - 32 - fs) * (0x4000 - decay) < 0x8000 * (first + 1)
        }),
{
    if celt_model(fs, decay) {
        law_celt_models_fit(fs, decay);
    }
    lemma_level_bounds(fs, decay, m as nat);
    lemma_level_bounds(fs, decay, (m + 1) as nat);
    lemma_decayed_at(fs, decay, m as nat);
    lemma_decayed_at(fs, decay, (m + 1) as nat);
    let now = level(fs, decay, m as nat).1;
    assert(2 * now * decay == 2 * (now * decay)) by (nonlinear_arith);
    if now == 0 {
        assert(now * decay == 0) by (nonlinear_arith)
            requires
                now == 0,
        ;
    }
    if m == 1 {
        let rest = (FT - 2 * LAPLACE_NMIN * LAPLACE_MINP - fs) * (16384 - decay);
        assert(rest == (0x8000 - 32 - fs) * (0x4000 - decay)) by (nonlinear_arith)
            requires
                rest == (FT - 2 * LAPLACE_NMIN * LAPLACE_MINP - fs) * (16384 - decay),
                FT == 0x8000,
                LAPLACE_NMIN == 16,
                LAPLACE_MINP == 1,
        ;
    }
}

} // verus!
