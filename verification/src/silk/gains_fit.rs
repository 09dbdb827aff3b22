//! How well the quantised gains match those that were wanted.
//!
//! Levels are equally far apart on a log scale, and both ways between gains and
//! that scale are approximations. What is proved here is that together they
//! find the right level.

use vstd::arithmetic::power2::{
    lemma2_to64, lemma_pow2_pos, lemma_pow2_strictly_increases, lemma_pow2_unfold, pow2,
};
use vstd::prelude::*;

use crate::range::{
    bit_length, lemma_bit_length, lemma_bit_length_at_most, lemma_bit_length_more_than,
};

use super::gains::{
    coded, dequantised, gain_of, level_of, quantised_level, INV_SCALE_Q16, N_LEVELS_QGAIN, OFFSET,
    SCALE_Q16,
};
use super::math::{exponent, lin2log_of, log2lin_of, low16, smulwb_of};

verus! {

/// The parabola of the logarithm between two powers of two.
pub open spec fn log_bump(f: int) -> int {
    f + (f * (128 - f) * 179) / 0x1_0000
}

proof fn lemma_bump(f: int, g: int)
    requires
        0 <= f <= g < 128,
    ensures
        0 <= log_bump(f) <= log_bump(g) <= 128,
        log_bump(0) == 0,
{
    let d = g - f;
    let a = f * (128 - f) * 179;
    let b = g * (128 - g) * 179;
    assert(b - a >= -0x1_0000 * d && a >= 0 && b >= 0 && b <= 0x1_0000 * (128 - g)) by (nonlinear_arith)
        requires
            0 <= f <= g < 128,
            d == g - f,
            a == f * (128 - f) * 179,
            b == g * (128 - g) * 179,
    ;
    assert(0int * (128 - 0) * 179 == 0) by (nonlinear_arith);
}

/// The exponent of a number between two powers of two.
proof fn lemma_exponent(x: int, e: nat)
    requires
        pow2(e) <= x < pow2(e + 1),
    ensures
        exponent(x) == e,
{
    lemma_pow2_pos(e);
    lemma_bit_length_at_most(x, e + 1);
    lemma_bit_length_more_than(x, e);
}

/// The logarithm of a number between two powers of two.
proof fn lemma_log_at(x: int, e: nat)
    requires
        e < 32,
        pow2(e) <= x < pow2(e + 1),
    ensures
        lin2log_of(x) == log_bump((128 * x) / pow2(e) as int - 128) + 128 * e,
        0 <= (128 * x) / pow2(e) as int - 128 < 128,
{
    lemma2_to64();
    lemma_pow2_pos(e);
    lemma_pow2_unfold(e + 1);
    if e < 31 {
        lemma_pow2_strictly_increases(e + 1, 32);
    }
    lemma_exponent(x, e);
    let p = pow2(e) as int;
    let q = (128 * x) / p;
    vstd::arithmetic::div_mod::lemma_fundamental_div_mod(128 * x, p);
    assert(128 <= q < 256) by (nonlinear_arith)
        requires
            0 < p <= x < 2 * p,
            128 * x == p * q + (128 * x) % p,
            0 <= (128 * x) % p < p,
    ;
}

/// A larger number has no smaller logarithm.
pub proof fn law_logarithm_rises(x: int, y: int)
    requires
        1 <= x <= y < 0x1_0000_0000,
    ensures
        lin2log_of(x) <= lin2log_of(y),
{
    lemma2_to64();
    lemma_bit_length(x);
    lemma_bit_length(y);
    lemma_bit_length_at_most(x, 32);
    lemma_bit_length_at_most(y, 32);
    let d = (bit_length(x) - 1) as nat;
    let e = (bit_length(y) - 1) as nat;
    lemma_log_at(x, d);
    lemma_log_at(y, e);
    let f = (128 * x) / pow2(d) as int - 128;
    let g = (128 * y) / pow2(e) as int - 128;
    if d > e {
        if e + 1 < d {
            lemma_pow2_strictly_increases(e + 1, d);
        }
        assert(false);
    } else if d == e {
        lemma_pow2_pos(d);
        vstd::arithmetic::div_mod::lemma_div_is_ordered(128 * x, 128 * y, pow2(d) as int);
        lemma_bump(f, g);
    } else {
        lemma_bump(f, f);
        lemma_bump(g, g);
    }
}

/// A power of two has an exact logarithm, and is that of it.
pub proof fn law_logarithm_of_powers(e: nat)
    requires
        e < 31,
    ensures
        lin2log_of(pow2(e) as int) == 128 * e,
        e < 31 ==> log2lin_of(128 * e as int) == pow2(e),
{
    lemma_pow2_pos(e);
    lemma_pow2_unfold(e + 1);
    let p = pow2(e) as int;
    lemma_log_at(p, e);
    assert((128 * p) / p == 128) by (nonlinear_arith)
        requires
            p > 0,
    ;
    lemma_bump(0, 0);
    assert(0int * (128 - 0) * -174 == 0) by (nonlinear_arith);
    assert(p * (0 + 0) == 0) by (nonlinear_arith);
}

/// The level of a gain before it is rounded towards the level before.
#[verifier::opaque]
pub open spec fn floor_level(gain: int) -> int {
    smulwb_of(SCALE_Q16 as int, lin2log_of(gain) - OFFSET)
}

/// Whether the levels below `m` hold every gain below that of level `m`, and
/// those from `m` on every gain that exceeds it by more than a fortieth.
#[verifier::opaque]
spec fn splits(m: int) -> bool {
    &&& gain_of(m) > 0
    &&& floor_level(gain_of(m) - 1) < m
    &&& floor_level(41 * gain_of(m) / 40 + 1) >= m
    &&& m - 1 <= floor_level(gain_of(m)) <= m
}

#[verifier::opaque]
spec fn log_is(x: int, log: int) -> bool {
    lin2log_of(x) == log
}

#[verifier::opaque]
spec fn exp_is(log: int, x: int) -> bool {
    log2lin_of(log) == x
}

/// The logarithm of a number, from its parts.
proof fn lemma_log_is(x: int, e: nat, p: int, f: int, bump: int)
    requires
        e < 31,
        p == pow2(e),
        0 <= f < 128,
        p * (f + 128) <= 128 * x < p * (f + 128) + p,
        bump == f + (f * (128 - f) * 179) / 0x1_0000,
    ensures
        log_is(x, bump + 128 * e),
{
    reveal(log_is);
    lemma_pow2_pos(e);
    lemma_pow2_unfold(e + 1);
    assert(p <= x < 2 * p) by (nonlinear_arith)
        requires
            0 < p,
            0 <= f < 128,
            p * (f + 128) <= 128 * x < p * (f + 128) + p,
    ;
    lemma_log_at(x, e);
    let r = 128 * x - p * (f + 128);
    assert((f + 128) * p == p * (f + 128)) by (nonlinear_arith);
    vstd::arithmetic::div_mod::lemma_fundamental_div_mod_converse(128 * x, p, f + 128, r);
}

/// A level lies between a seventh and a fifth above the one before.
#[verifier::opaque]
spec fn rises(m: int) -> bool {
    8 * gain_of(m) <= 7 * gain_of(m + 1) && 5 * gain_of(m + 1) <= 6 * gain_of(m)
}

proof fn lemma_rises(m: int, log: int, g: int, next: int, h: int)
    requires
        0 <= m < 63,
        log == (INV_SCALE_Q16 * m) / 0x1_0000 + OFFSET,
        next == (INV_SCALE_Q16 * (m + 1)) / 0x1_0000 + OFFSET,
        next < 3967,
        exp_is(log, g),
        exp_is(next, h),
        8 * g <= 7 * h,
        5 * h <= 6 * g,
    ensures
        rises(m),
{
    lemma_gain_is(m, log, g);
    lemma_gain_is(m + 1, next, h);
    assert(rises(m)) by {
        reveal(rises);
    }
}

/// The number of a logarithm, from its parts.
proof fn lemma_exp_is(q: int, e: nat, p: int, f: int, bump: int, x: int)
    requires
        q == 128 * e + f,
        0 <= f < 128,
        q < 3967,
        p == pow2(e),
        bump == f + (f * (128 - f) * -174) / 0x1_0000,
        x == p + (p * bump) / 128,
    ensures
        exp_is(q, x),
{
    reveal(exp_is);
    assert(q / 128 == e && q % 128 == f);
}

proof fn lemma_gain_is(m: int, log: int, g: int)
    requires
        0 <= m < 64,
        log == (INV_SCALE_Q16 * m) / 0x1_0000 + OFFSET,
        log < 3967,
        exp_is(log, g),
    ensures
        gain_of(m) == g,
{
    assert(low16(m) == m);
    assert(smulwb_of(INV_SCALE_Q16 as int, m) + OFFSET == log);
    assert(log2lin_of(log) == g) by {
        reveal(exp_is);
    }
}

proof fn lemma_floor_is(x: int, log: int)
    requires
        log_is(x, log),
        -100 <= log - OFFSET < 2000,
    ensures
        floor_level(x) == (SCALE_Q16 * (log - OFFSET)) / 0x1_0000,
{
    reveal(floor_level);
    assert(lin2log_of(x) == log) by {
        reveal(log_is);
    }
    assert(low16(log - OFFSET) == log - OFFSET);
}

/// A level splits the gains, by the logarithms of three of them.
proof fn lemma_splits(m: int, log: int, g: int, low: int, at: int, high: int)
    requires
        0 <= m < 64,
        log == (INV_SCALE_Q16 * m) / 0x1_0000 + OFFSET,
        log < 3967,
        exp_is(log, g),
        g > 1,
        log_is(g - 1, low),
        log_is(g, at),
        log_is(41 * g / 40 + 1, high),
        -100 <= low - OFFSET < 2000,
        -100 <= at - OFFSET < 2000,
        -100 <= high - OFFSET < 2000,
        (SCALE_Q16 * (low - OFFSET)) / 0x1_0000 < m,
        m - 1 <= (SCALE_Q16 * (at - OFFSET)) / 0x1_0000 <= m,
        (SCALE_Q16 * (high - OFFSET)) / 0x1_0000 >= m,
    ensures
        splits(m),
{
    lemma_gain_is(m, log, g);
    lemma_floor_is(g - 1, low);
    lemma_floor_is(g, at);
    lemma_floor_is(41 * g / 40 + 1, high);
    assert(splits(m)) by {
        reveal(splits);
    }
}

#[verifier::spinoff_prover]
proof fn lemma_levels_from_0()
    ensures
        forall|m: int| 0 <= m < 8 ==> splits(m),
        forall|m: int| 0 <= m < 8 ==> rises(m),
{
    lemma2_to64();
    lemma_exp_is(2322, 18, 262144, 18, 12, 286720);
    lemma_exp_is(2090, 16, 65536, 42, 32, 81920);
    lemma_log_is(81919, 16, 65536, 31, 39);
    lemma_log_is(81920, 16, 65536, 32, 40);
    lemma_log_is(83969, 16, 65536, 36, 45);
    lemma_splits(0, 2090, 81920, 2087, 2088, 2093);
    lemma_exp_is(2119, 16, 65536, 71, 60, 96256);
    lemma_log_is(96255, 16, 65536, 59, 70);
    lemma_log_is(96256, 16, 65536, 60, 71);
    lemma_log_is(98663, 16, 65536, 64, 75);
    lemma_splits(1, 2119, 96256, 2118, 2119, 2123);
    lemma_exp_is(2148, 16, 65536, 100, 92, 112640);
    lemma_log_is(112639, 16, 65536, 91, 100);
    lemma_log_is(112640, 16, 65536, 92, 101);
    lemma_log_is(115457, 16, 65536, 97, 105);
    lemma_splits(2, 2148, 112640, 2148, 2149, 2153);
    lemma_exp_is(2177, 17, 131072, 1, 0, 131072);
    lemma_log_is(131071, 16, 65536, 127, 127);
    lemma_log_is(131072, 17, 131072, 0, 0);
    lemma_log_is(134349, 17, 131072, 3, 4);
    lemma_splits(3, 2177, 131072, 2175, 2176, 2180);
    lemma_exp_is(2206, 17, 131072, 30, 22, 153600);
    lemma_log_is(153599, 17, 131072, 21, 27);
    lemma_log_is(153600, 17, 131072, 22, 28);
    lemma_log_is(157441, 17, 131072, 25, 32);
    lemma_splits(4, 2206, 153600, 2203, 2204, 2208);
    lemma_exp_is(2235, 17, 131072, 59, 48, 180224);
    lemma_log_is(180223, 17, 131072, 47, 57);
    lemma_log_is(180224, 17, 131072, 48, 58);
    lemma_log_is(184730, 17, 131072, 52, 62);
    lemma_splits(5, 2235, 180224, 2233, 2234, 2238);
    lemma_exp_is(2264, 17, 131072, 88, 78, 210944);
    lemma_log_is(210943, 17, 131072, 77, 87);
    lemma_log_is(210944, 17, 131072, 78, 88);
    lemma_log_is(216218, 17, 131072, 83, 93);
    lemma_splits(6, 2264, 210944, 2263, 2264, 2269);
    lemma_exp_is(2293, 17, 131072, 117, 113, 246784);
    lemma_log_is(246783, 17, 131072, 112, 116);
    lemma_log_is(246784, 17, 131072, 113, 117);
    lemma_log_is(252954, 17, 131072, 119, 121);
    lemma_splits(7, 2293, 246784, 2292, 2293, 2297);
    lemma_rises(0, 2090, 81920, 2119, 96256);
    lemma_rises(1, 2119, 96256, 2148, 112640);
    lemma_rises(2, 2148, 112640, 2177, 131072);
    lemma_rises(3, 2177, 131072, 2206, 153600);
    lemma_rises(4, 2206, 153600, 2235, 180224);
    lemma_rises(5, 2235, 180224, 2264, 210944);
    lemma_rises(6, 2264, 210944, 2293, 246784);
    lemma_rises(7, 2293, 246784, 2322, 286720);
}

#[verifier::spinoff_prover]
proof fn lemma_levels_from_8()
    ensures
        forall|m: int| 8 <= m < 16 ==> splits(m),
        forall|m: int| 8 <= m < 16 ==> rises(m),
{
    lemma2_to64();
    lemma_exp_is(2555, 19, 524288, 123, 121, 1019904);
    lemma_exp_is(2322, 18, 262144, 18, 12, 286720);
    lemma_log_is(286719, 18, 262144, 11, 14);
    lemma_log_is(286720, 18, 262144, 12, 15);
    lemma_log_is(293889, 18, 262144, 15, 19);
    lemma_splits(8, 2322, 286720, 2318, 2319, 2323);
    lemma_exp_is(2351, 18, 262144, 47, 36, 335872);
    lemma_log_is(335871, 18, 262144, 35, 43);
    lemma_log_is(335872, 18, 262144, 36, 45);
    lemma_log_is(344269, 18, 262144, 40, 49);
    lemma_splits(9, 2351, 335872, 2347, 2349, 2353);
    lemma_exp_is(2381, 18, 262144, 77, 66, 397312);
    lemma_log_is(397311, 18, 262144, 65, 76);
    lemma_log_is(397312, 18, 262144, 66, 77);
    lemma_log_is(407245, 18, 262144, 70, 81);
    lemma_splits(10, 2381, 397312, 2380, 2381, 2385);
    lemma_exp_is(2410, 18, 262144, 106, 99, 464896);
    lemma_log_is(464895, 18, 262144, 98, 106);
    lemma_log_is(464896, 18, 262144, 99, 106);
    lemma_log_is(476519, 18, 262144, 104, 110);
    lemma_splits(11, 2410, 464896, 2410, 2410, 2414);
    lemma_exp_is(2439, 19, 524288, 7, 4, 540672);
    lemma_log_is(540671, 19, 524288, 3, 4);
    lemma_log_is(540672, 19, 524288, 4, 5);
    lemma_log_is(554189, 19, 524288, 7, 9);
    lemma_splits(12, 2439, 540672, 2436, 2437, 2441);
    lemma_exp_is(2468, 19, 524288, 36, 27, 634880);
    lemma_log_is(634879, 19, 524288, 26, 33);
    lemma_log_is(634880, 19, 524288, 27, 34);
    lemma_log_is(650753, 19, 524288, 30, 38);
    lemma_splits(13, 2468, 634880, 2465, 2466, 2470);
    lemma_exp_is(2497, 19, 524288, 65, 54, 745472);
    lemma_log_is(745471, 19, 524288, 53, 63);
    lemma_log_is(745472, 19, 524288, 54, 64);
    lemma_log_is(764109, 19, 524288, 58, 69);
    lemma_splits(14, 2497, 745472, 2495, 2496, 2501);
    lemma_exp_is(2526, 19, 524288, 94, 85, 872448);
    lemma_log_is(872447, 19, 524288, 84, 94);
    lemma_log_is(872448, 19, 524288, 85, 94);
    lemma_log_is(894260, 19, 524288, 90, 99);
    lemma_splits(15, 2526, 872448, 2526, 2526, 2531);
    lemma_rises(8, 2322, 286720, 2351, 335872);
    lemma_rises(9, 2351, 335872, 2381, 397312);
    lemma_rises(10, 2381, 397312, 2410, 464896);
    lemma_rises(11, 2410, 464896, 2439, 540672);
    lemma_rises(12, 2439, 540672, 2468, 634880);
    lemma_rises(13, 2468, 634880, 2497, 745472);
    lemma_rises(14, 2497, 745472, 2526, 872448);
    lemma_rises(15, 2526, 872448, 2555, 1019904);
}

#[verifier::spinoff_prover]
proof fn lemma_levels_from_16()
    ensures
        forall|m: int| 16 <= m < 24 ==> splits(m),
        forall|m: int| 16 <= m < 24 ==> rises(m),
{
    lemma2_to64();
    lemma_exp_is(2788, 21, 2097152, 100, 92, 3604480);
    lemma_exp_is(2555, 19, 524288, 123, 121, 1019904);
    lemma_log_is(1019903, 19, 524288, 120, 122);
    lemma_log_is(1019904, 19, 524288, 121, 123);
    lemma_log_is(1045402, 19, 524288, 127, 127);
    lemma_splits(16, 2555, 1019904, 2554, 2555, 2559);
    lemma_exp_is(2584, 20, 1048576, 24, 17, 1187840);
    lemma_log_is(1187839, 20, 1048576, 16, 20);
    lemma_log_is(1187840, 20, 1048576, 17, 22);
    lemma_log_is(1217537, 20, 1048576, 20, 25);
    lemma_splits(17, 2584, 1187840, 2580, 2582, 2585);
    lemma_exp_is(2613, 20, 1048576, 53, 42, 1392640);
    lemma_log_is(1392639, 20, 1048576, 41, 50);
    lemma_log_is(1392640, 20, 1048576, 42, 51);
    lemma_log_is(1427457, 20, 1048576, 46, 56);
    lemma_splits(18, 2613, 1392640, 2610, 2611, 2616);
    lemma_exp_is(2643, 20, 1048576, 83, 73, 1646592);
    lemma_log_is(1646591, 20, 1048576, 72, 83);
    lemma_log_is(1646592, 20, 1048576, 73, 83);
    lemma_log_is(1687757, 20, 1048576, 78, 88);
    lemma_splits(19, 2643, 1646592, 2643, 2643, 2648);
    lemma_exp_is(2672, 20, 1048576, 112, 107, 1925120);
    lemma_log_is(1925119, 20, 1048576, 106, 112);
    lemma_log_is(1925120, 20, 1048576, 107, 113);
    lemma_log_is(1973249, 20, 1048576, 112, 116);
    lemma_splits(20, 2672, 1925120, 2672, 2673, 2676);
    lemma_exp_is(2701, 21, 2097152, 13, 9, 2244608);
    lemma_log_is(2244607, 21, 2097152, 8, 10);
    lemma_log_is(2244608, 21, 2097152, 9, 11);
    lemma_log_is(2300724, 21, 2097152, 12, 15);
    lemma_splits(21, 2701, 2244608, 2698, 2699, 2703);
    lemma_exp_is(2730, 21, 2097152, 42, 32, 2621440);
    lemma_log_is(2621439, 21, 2097152, 31, 39);
    lemma_log_is(2621440, 21, 2097152, 32, 40);
    lemma_log_is(2686977, 21, 2097152, 36, 45);
    lemma_splits(22, 2730, 2621440, 2727, 2728, 2733);
    lemma_exp_is(2759, 21, 2097152, 71, 60, 3080192);
    lemma_log_is(3080191, 21, 2097152, 59, 70);
    lemma_log_is(3080192, 21, 2097152, 60, 71);
    lemma_log_is(3157197, 21, 2097152, 64, 75);
    lemma_splits(23, 2759, 3080192, 2758, 2759, 2763);
    lemma_rises(16, 2555, 1019904, 2584, 1187840);
    lemma_rises(17, 2584, 1187840, 2613, 1392640);
    lemma_rises(18, 2613, 1392640, 2643, 1646592);
    lemma_rises(19, 2643, 1646592, 2672, 1925120);
    lemma_rises(20, 2672, 1925120, 2701, 2244608);
    lemma_rises(21, 2701, 2244608, 2730, 2621440);
    lemma_rises(22, 2730, 2621440, 2759, 3080192);
    lemma_rises(23, 2759, 3080192, 2788, 3604480);
}

#[verifier::spinoff_prover]
proof fn lemma_levels_from_24()
    ensures
        forall|m: int| 24 <= m < 32 ==> splits(m),
        forall|m: int| 24 <= m < 32 ==> rises(m),
{
    lemma2_to64();
    lemma_exp_is(3021, 23, 8388608, 77, 66, 12713984);
    lemma_exp_is(2788, 21, 2097152, 100, 92, 3604480);
    lemma_log_is(3604479, 21, 2097152, 91, 100);
    lemma_log_is(3604480, 21, 2097152, 92, 101);
    lemma_log_is(3694593, 21, 2097152, 97, 105);
    lemma_splits(24, 2788, 3604480, 2788, 2789, 2793);
    lemma_exp_is(2817, 22, 4194304, 1, 0, 4194304);
    lemma_log_is(4194303, 21, 2097152, 127, 127);
    lemma_log_is(4194304, 22, 4194304, 0, 0);
    lemma_log_is(4299162, 22, 4194304, 3, 4);
    lemma_splits(25, 2817, 4194304, 2815, 2816, 2820);
    lemma_exp_is(2846, 22, 4194304, 30, 22, 4915200);
    lemma_log_is(4915199, 22, 4194304, 21, 27);
    lemma_log_is(4915200, 22, 4194304, 22, 28);
    lemma_log_is(5038081, 22, 4194304, 25, 32);
    lemma_splits(26, 2846, 4915200, 2843, 2844, 2848);
    lemma_exp_is(2875, 22, 4194304, 59, 48, 5767168);
    lemma_log_is(5767167, 22, 4194304, 47, 57);
    lemma_log_is(5767168, 22, 4194304, 48, 58);
    lemma_log_is(5911348, 22, 4194304, 52, 62);
    lemma_splits(27, 2875, 5767168, 2873, 2874, 2878);
    lemma_exp_is(2905, 22, 4194304, 89, 79, 6782976);
    lemma_log_is(6782975, 22, 4194304, 78, 88);
    lemma_log_is(6782976, 22, 4194304, 79, 89);
    lemma_log_is(6952551, 22, 4194304, 84, 94);
    lemma_splits(28, 2905, 6782976, 2904, 2905, 2910);
    lemma_exp_is(2934, 22, 4194304, 118, 114, 7929856);
    lemma_log_is(7929855, 22, 4194304, 113, 117);
    lemma_log_is(7929856, 22, 4194304, 114, 118);
    lemma_log_is(8128103, 22, 4194304, 120, 122);
    lemma_splits(29, 2934, 7929856, 2933, 2934, 2938);
    lemma_exp_is(2963, 23, 8388608, 19, 13, 9240576);
    lemma_log_is(9240575, 23, 8388608, 12, 15);
    lemma_log_is(9240576, 23, 8388608, 13, 17);
    lemma_log_is(9471591, 23, 8388608, 16, 20);
    lemma_splits(30, 2963, 9240576, 2959, 2961, 2964);
    lemma_exp_is(2992, 23, 8388608, 48, 37, 10813440);
    lemma_log_is(10813439, 23, 8388608, 36, 45);
    lemma_log_is(10813440, 23, 8388608, 37, 46);
    lemma_log_is(11083777, 23, 8388608, 41, 50);
    lemma_splits(31, 2992, 10813440, 2989, 2990, 2994);
    lemma_rises(24, 2788, 3604480, 2817, 4194304);
    lemma_rises(25, 2817, 4194304, 2846, 4915200);
    lemma_rises(26, 2846, 4915200, 2875, 5767168);
    lemma_rises(27, 2875, 5767168, 2905, 6782976);
    lemma_rises(28, 2905, 6782976, 2934, 7929856);
    lemma_rises(29, 2934, 7929856, 2963, 9240576);
    lemma_rises(30, 2963, 9240576, 2992, 10813440);
    lemma_rises(31, 2992, 10813440, 3021, 12713984);
}

#[verifier::spinoff_prover]
proof fn lemma_levels_from_32()
    ensures
        forall|m: int| 32 <= m < 40 ==> splits(m),
        forall|m: int| 32 <= m < 40 ==> rises(m),
{
    lemma2_to64();
    lemma_exp_is(3254, 25, 33554432, 54, 43, 44826624);
    lemma_exp_is(3021, 23, 8388608, 77, 66, 12713984);
    lemma_log_is(12713983, 23, 8388608, 65, 76);
    lemma_log_is(12713984, 23, 8388608, 66, 77);
    lemma_log_is(13031834, 23, 8388608, 70, 81);
    lemma_splits(32, 3021, 12713984, 3020, 3021, 3025);
    lemma_exp_is(3050, 23, 8388608, 106, 99, 14876672);
    lemma_log_is(14876671, 23, 8388608, 98, 106);
    lemma_log_is(14876672, 23, 8388608, 99, 106);
    lemma_log_is(15248589, 23, 8388608, 104, 110);
    lemma_splits(33, 3050, 14876672, 3050, 3050, 3054);
    lemma_exp_is(3079, 24, 16777216, 7, 4, 17301504);
    lemma_log_is(17301503, 24, 16777216, 3, 4);
    lemma_log_is(17301504, 24, 16777216, 4, 5);
    lemma_log_is(17734042, 24, 16777216, 7, 9);
    lemma_splits(34, 3079, 17301504, 3076, 3077, 3081);
    lemma_exp_is(3108, 24, 16777216, 36, 27, 20316160);
    lemma_log_is(20316159, 24, 16777216, 26, 33);
    lemma_log_is(20316160, 24, 16777216, 27, 34);
    lemma_log_is(20824065, 24, 16777216, 30, 38);
    lemma_splits(35, 3108, 20316160, 3105, 3106, 3110);
    lemma_exp_is(3137, 24, 16777216, 65, 54, 23855104);
    lemma_log_is(23855103, 24, 16777216, 53, 63);
    lemma_log_is(23855104, 24, 16777216, 54, 64);
    lemma_log_is(24451482, 24, 16777216, 58, 69);
    lemma_splits(36, 3137, 23855104, 3135, 3136, 3141);
    lemma_exp_is(3167, 24, 16777216, 95, 86, 28049408);
    lemma_log_is(28049407, 24, 16777216, 85, 94);
    lemma_log_is(28049408, 24, 16777216, 86, 95);
    lemma_log_is(28750644, 24, 16777216, 91, 100);
    lemma_splits(37, 3167, 28049408, 3166, 3167, 3172);
    lemma_exp_is(3196, 24, 16777216, 124, 122, 32768000);
    lemma_log_is(32767999, 24, 16777216, 121, 123);
    lemma_log_is(32768000, 24, 16777216, 122, 123);
    lemma_log_is(33587201, 25, 33554432, 0, 0);
    lemma_splits(38, 3196, 32768000, 3195, 3195, 3200);
    lemma_exp_is(3225, 25, 33554432, 25, 18, 38273024);
    lemma_log_is(38273023, 25, 33554432, 17, 22);
    lemma_log_is(38273024, 25, 33554432, 18, 23);
    lemma_log_is(39229850, 25, 33554432, 21, 27);
    lemma_splits(39, 3225, 38273024, 3222, 3223, 3227);
    lemma_rises(32, 3021, 12713984, 3050, 14876672);
    lemma_rises(33, 3050, 14876672, 3079, 17301504);
    lemma_rises(34, 3079, 17301504, 3108, 20316160);
    lemma_rises(35, 3108, 20316160, 3137, 23855104);
    lemma_rises(36, 3137, 23855104, 3167, 28049408);
    lemma_rises(37, 3167, 28049408, 3196, 32768000);
    lemma_rises(38, 3196, 32768000, 3225, 38273024);
    lemma_rises(39, 3225, 38273024, 3254, 44826624);
}

#[verifier::spinoff_prover]
proof fn lemma_levels_from_40()
    ensures
        forall|m: int| 40 <= m < 48 ==> splits(m),
        forall|m: int| 40 <= m < 48 ==> rises(m),
{
    lemma2_to64();
    lemma_exp_is(3487, 27, 134217728, 31, 23, 158334976);
    lemma_exp_is(3254, 25, 33554432, 54, 43, 44826624);
    lemma_log_is(44826623, 25, 33554432, 42, 51);
    lemma_log_is(44826624, 25, 33554432, 43, 52);
    lemma_log_is(45947290, 25, 33554432, 47, 57);
    lemma_splits(40, 3254, 44826624, 3251, 3252, 3257);
    lemma_exp_is(3283, 25, 33554432, 83, 73, 52690944);
    lemma_log_is(52690943, 25, 33554432, 72, 83);
    lemma_log_is(52690944, 25, 33554432, 73, 83);
    lemma_log_is(54008218, 25, 33554432, 78, 88);
    lemma_splits(41, 3283, 52690944, 3283, 3283, 3288);
    lemma_exp_is(3312, 25, 33554432, 112, 107, 61603840);
    lemma_log_is(61603839, 25, 33554432, 106, 112);
    lemma_log_is(61603840, 25, 33554432, 107, 113);
    lemma_log_is(63143937, 25, 33554432, 112, 116);
    lemma_splits(42, 3312, 61603840, 3312, 3313, 3316);
    lemma_exp_is(3341, 26, 67108864, 13, 9, 71827456);
    lemma_log_is(71827455, 26, 67108864, 8, 10);
    lemma_log_is(71827456, 26, 67108864, 9, 11);
    lemma_log_is(73623143, 26, 67108864, 12, 15);
    lemma_splits(43, 3341, 71827456, 3338, 3339, 3343);
    lemma_exp_is(3370, 26, 67108864, 42, 32, 83886080);
    lemma_log_is(83886079, 26, 67108864, 31, 39);
    lemma_log_is(83886080, 26, 67108864, 32, 40);
    lemma_log_is(85983233, 26, 67108864, 36, 45);
    lemma_splits(44, 3370, 83886080, 3367, 3368, 3373);
    lemma_exp_is(3399, 26, 67108864, 71, 60, 98566144);
    lemma_log_is(98566143, 26, 67108864, 59, 70);
    lemma_log_is(98566144, 26, 67108864, 60, 71);
    lemma_log_is(101030298, 26, 67108864, 64, 75);
    lemma_splits(45, 3399, 98566144, 3398, 3399, 3403);
    lemma_exp_is(3429, 26, 67108864, 101, 93, 115867648);
    lemma_log_is(115867647, 26, 67108864, 92, 101);
    lemma_log_is(115867648, 26, 67108864, 93, 101);
    lemma_log_is(118764340, 26, 67108864, 98, 106);
    lemma_splits(46, 3429, 115867648, 3429, 3429, 3434);
    lemma_exp_is(3458, 27, 134217728, 2, 1, 135266304);
    lemma_log_is(135266303, 27, 134217728, 0, 0);
    lemma_log_is(135266304, 27, 134217728, 1, 1);
    lemma_log_is(138647962, 27, 134217728, 4, 5);
    lemma_splits(47, 3458, 135266304, 3456, 3457, 3461);
    lemma_rises(40, 3254, 44826624, 3283, 52690944);
    lemma_rises(41, 3283, 52690944, 3312, 61603840);
    lemma_rises(42, 3312, 61603840, 3341, 71827456);
    lemma_rises(43, 3341, 71827456, 3370, 83886080);
    lemma_rises(44, 3370, 83886080, 3399, 98566144);
    lemma_rises(45, 3399, 98566144, 3429, 115867648);
    lemma_rises(46, 3429, 115867648, 3458, 135266304);
    lemma_rises(47, 3458, 135266304, 3487, 158334976);
}

#[verifier::spinoff_prover]
proof fn lemma_levels_from_48()
    ensures
        forall|m: int| 48 <= m < 56 ==> splits(m),
        forall|m: int| 48 <= m < 56 ==> rises(m),
{
    lemma2_to64();
    lemma_exp_is(3720, 29, 536870912, 8, 5, 557842432);
    lemma_exp_is(3487, 27, 134217728, 31, 23, 158334976);
    lemma_log_is(158334975, 27, 134217728, 22, 28);
    lemma_log_is(158334976, 27, 134217728, 23, 29);
    lemma_log_is(162293351, 27, 134217728, 26, 33);
    lemma_splits(48, 3487, 158334976, 3484, 3485, 3489);
    lemma_exp_is(3516, 27, 134217728, 60, 49, 185597952);
    lemma_log_is(185597951, 27, 134217728, 48, 58);
    lemma_log_is(185597952, 27, 134217728, 49, 59);
    lemma_log_is(190237901, 27, 134217728, 53, 63);
    lemma_splits(49, 3516, 185597952, 3514, 3515, 3519);
    lemma_exp_is(3545, 27, 134217728, 89, 79, 217055232);
    lemma_log_is(217055231, 27, 134217728, 78, 88);
    lemma_log_is(217055232, 27, 134217728, 79, 89);
    lemma_log_is(222481613, 27, 134217728, 84, 94);
    lemma_splits(50, 3545, 217055232, 3544, 3545, 3550);
    lemma_exp_is(3574, 27, 134217728, 118, 114, 253755392);
    lemma_log_is(253755391, 27, 134217728, 113, 117);
    lemma_log_is(253755392, 27, 134217728, 114, 118);
    lemma_log_is(260099277, 27, 134217728, 120, 122);
    lemma_splits(51, 3574, 253755392, 3573, 3574, 3578);
    lemma_exp_is(3603, 28, 268435456, 19, 13, 295698432);
    lemma_log_is(295698431, 28, 268435456, 12, 15);
    lemma_log_is(295698432, 28, 268435456, 13, 17);
    lemma_log_is(303090893, 28, 268435456, 16, 20);
    lemma_splits(52, 3603, 295698432, 3599, 3601, 3604);
    lemma_exp_is(3632, 28, 268435456, 48, 37, 346030080);
    lemma_log_is(346030079, 28, 268435456, 36, 45);
    lemma_log_is(346030080, 28, 268435456, 37, 46);
    lemma_log_is(354680833, 28, 268435456, 41, 50);
    lemma_splits(53, 3632, 346030080, 3629, 3630, 3634);
    lemma_exp_is(3661, 28, 268435456, 77, 66, 406847488);
    lemma_log_is(406847487, 28, 268435456, 65, 76);
    lemma_log_is(406847488, 28, 268435456, 66, 77);
    lemma_log_is(417018676, 28, 268435456, 70, 81);
    lemma_splits(54, 3661, 406847488, 3660, 3661, 3665);
    lemma_exp_is(3691, 28, 268435456, 107, 101, 480247808);
    lemma_log_is(480247807, 28, 268435456, 100, 107);
    lemma_log_is(480247808, 28, 268435456, 101, 108);
    lemma_log_is(492254004, 28, 268435456, 106, 112);
    lemma_splits(55, 3691, 480247808, 3691, 3692, 3696);
    lemma_rises(48, 3487, 158334976, 3516, 185597952);
    lemma_rises(49, 3516, 185597952, 3545, 217055232);
    lemma_rises(50, 3545, 217055232, 3574, 253755392);
    lemma_rises(51, 3574, 253755392, 3603, 295698432);
    lemma_rises(52, 3603, 295698432, 3632, 346030080);
    lemma_rises(53, 3632, 346030080, 3661, 406847488);
    lemma_rises(54, 3661, 406847488, 3691, 480247808);
    lemma_rises(55, 3691, 480247808, 3720, 557842432);
}

#[verifier::spinoff_prover]
proof fn lemma_levels_from_56()
    ensures
        forall|m: int| 56 <= m < 64 ==> splits(m),
        forall|m: int| 56 <= m < 63 ==> rises(m),
{
    lemma2_to64();
    lemma_exp_is(3720, 29, 536870912, 8, 5, 557842432);
    lemma_log_is(557842431, 29, 536870912, 4, 5);
    lemma_log_is(557842432, 29, 536870912, 5, 6);
    lemma_log_is(571788493, 29, 536870912, 8, 10);
    lemma_splits(56, 3720, 557842432, 3717, 3718, 3722);
    lemma_exp_is(3749, 29, 536870912, 37, 28, 654311424);
    lemma_log_is(654311423, 29, 536870912, 27, 34);
    lemma_log_is(654311424, 29, 536870912, 28, 35);
    lemma_log_is(670669210, 29, 536870912, 31, 39);
    lemma_splits(57, 3749, 654311424, 3746, 3747, 3751);
    lemma_exp_is(3778, 29, 536870912, 66, 55, 767557632);
    lemma_log_is(767557631, 29, 536870912, 54, 64);
    lemma_log_is(767557632, 29, 536870912, 55, 65);
    lemma_log_is(786746573, 29, 536870912, 59, 70);
    lemma_splits(58, 3778, 767557632, 3776, 3777, 3782);
    lemma_exp_is(3807, 29, 536870912, 95, 86, 897581056);
    lemma_log_is(897581055, 29, 536870912, 85, 94);
    lemma_log_is(897581056, 29, 536870912, 86, 95);
    lemma_log_is(920020583, 29, 536870912, 91, 100);
    lemma_splits(59, 3807, 897581056, 3806, 3807, 3812);
    lemma_exp_is(3836, 29, 536870912, 124, 122, 1048576000);
    lemma_log_is(1048575999, 29, 536870912, 121, 123);
    lemma_log_is(1048576000, 29, 536870912, 122, 123);
    lemma_log_is(1074790401, 30, 1073741824, 0, 0);
    lemma_splits(60, 3836, 1048576000, 3835, 3835, 3840);
    lemma_exp_is(3865, 30, 1073741824, 25, 18, 1224736768);
    lemma_log_is(1224736767, 30, 1073741824, 17, 22);
    lemma_log_is(1224736768, 30, 1073741824, 18, 23);
    lemma_log_is(1255355188, 30, 1073741824, 21, 27);
    lemma_splits(61, 3865, 1224736768, 3862, 3863, 3867);
    lemma_exp_is(3894, 30, 1073741824, 54, 43, 1434451968);
    lemma_log_is(1434451967, 30, 1073741824, 42, 51);
    lemma_log_is(1434451968, 30, 1073741824, 43, 52);
    lemma_log_is(1470313268, 30, 1073741824, 47, 57);
    lemma_splits(62, 3894, 1434451968, 3891, 3892, 3897);
    lemma_exp_is(3923, 30, 1073741824, 83, 73, 1686110208);
    lemma_log_is(1686110207, 30, 1073741824, 72, 83);
    lemma_log_is(1686110208, 30, 1073741824, 73, 83);
    lemma_log_is(1728262964, 30, 1073741824, 78, 88);
    lemma_splits(63, 3923, 1686110208, 3923, 3923, 3928);
    lemma_rises(56, 3720, 557842432, 3749, 654311424);
    lemma_rises(57, 3749, 654311424, 3778, 767557632);
    lemma_rises(58, 3778, 767557632, 3807, 897581056);
    lemma_rises(59, 3807, 897581056, 3836, 1048576000);
    lemma_rises(60, 3836, 1048576000, 3865, 1224736768);
    lemma_rises(61, 3865, 1224736768, 3894, 1434451968);
    lemma_rises(62, 3894, 1434451968, 3923, 1686110208);
}

proof fn lemma_level(m: int)
    requires
        0 <= m < 64,
    ensures
        splits(m),
        m < 63 ==> rises(m),
{
    lemma_levels_from_0();
    lemma_levels_from_8();
    lemma_levels_from_16();
    lemma_levels_from_24();
    lemma_levels_from_32();
    lemma_levels_from_40();
    lemma_levels_from_48();
    lemma_levels_from_56();
}

/// Levels are equally far apart on a log scale: each gain is between a seventh
/// and a fifth larger than the one before. They go from 2 dB to 88 dB.
pub proof fn law_levels_rise(m: int)
    requires
        0 <= m < 63,
    ensures
        8 * gain_of(m) <= 7 * gain_of(m + 1),
        5 * gain_of(m + 1) <= 6 * gain_of(m),
        gain_of(0) == 0x1_0000 * 5 / 4,
        0x1_0000 * 25_000 < gain_of(63) < 0x1_0000 * 26_000,
{
    lemma_level(m);
    reveal(rises);
    lemma2_to64();
    lemma_exp_is(2090, 16, 0x1_0000, 42, 32, 81_920);
    lemma_exp_is(3923, 30, 0x4000_0000, 83, 73, 1_686_110_208);
    reveal(exp_is);
    assert(low16(0) == 0 && low16(63) == 63);
}

proof fn lemma_floor_rises(x: int, y: int)
    requires
        1 <= x <= y < 0x8000_0000,
    ensures
        floor_level(x) <= floor_level(y),
{
    lemma2_to64();
    law_logarithm_rises(x, y);
    law_logarithm_rises(1, x);
    law_logarithm_rises(y, 0x7FFF_FFFF);
    lemma_log_is(1, 0, 1, 0, 0);
    lemma_log_is(0x7FFF_FFFF, 30, 0x4000_0000, 127, 127);
    reveal(log_is);
    reveal(floor_level);
    let a = lin2log_of(x) - OFFSET;
    let b = lin2log_of(y) - OFFSET;
    assert(low16(a) == a && low16(b) == b);
}

/// Gains below that of a level have a lower level, and gains that exceed it by
/// more than a fortieth have that level at least.
proof fn lemma_floor_splits(m: int, gain: int)
    requires
        0 <= m < 64,
        1 <= gain < 0x8000_0000,
    ensures
        gain < gain_of(m) ==> floor_level(gain) < m,
        40 * gain > 41 * gain_of(m) ==> floor_level(gain) >= m,
        m - 1 <= floor_level(gain_of(m)) <= m,
        gain_of(m) > 0,
{
    lemma_level(m);
    reveal(splits);
    let g = gain_of(m);
    if gain < g {
        assert(g <= 0x7FFF_FFFF) by {
            lemma_gain_bound(m);
        }
        lemma_floor_rises(gain, g - 1);
    }
    if 40 * gain > 41 * g {
        lemma_floor_rises(41 * g / 40 + 1, gain);
    }
}

proof fn lemma_gain_bound(m: int)
    requires
        0 <= m < 64,
    ensures
        gain_of(m) <= 0x7000_0000,
    decreases 63 - m,
{
    if m < 63 {
        lemma_gain_bound(m + 1);
        law_levels_rise(m);
    } else {
        law_levels_rise(0);
    }
}

/// The wanted level matches the gain. Its gain is at most one level above, and
/// at most one level and a fortieth below, the gain that is quantised; a level
/// above the one before is rounded down, and a level below it is rounded up.
pub proof fn law_level_matches_gain(gain: int, prev: int)
    requires
        gain_of(0) <= gain <= gain_of(63),
    ensures
        ({
            let m = level_of(gain, prev);
            &&& 0 <= m <= 63
            &&& m > 0 ==> gain_of(m - 1) <= gain
            &&& m < 63 ==> 40 * gain <= 41 * gain_of(m + 1)
            &&& m > prev ==> gain_of(m) <= gain
            &&& m < prev ==> 40 * gain <= 41 * gain_of(m)
        }),
{
    law_levels_rise(0);
    lemma_gain_bound(63);
    let m = level_of(gain, prev);
    reveal(floor_level);
    lemma_floor_splits(m, gain);
    if m > 0 {
        lemma_floor_splits(m - 1, gain);
    }
    if m < 63 {
        lemma_floor_splits(m + 1, gain);
        law_levels_rise(m);
    }
    if m > 0 {
        law_levels_rise(m - 1);
    }
    lemma_floor_splits(0, gain);
    lemma_floor_splits(63, gain);
}

/// The gain of a level is quantised to that level, where it is the level before.
pub proof fn law_level_is_kept(m: int)
    requires
        0 <= m < 64,
    ensures
        level_of(gain_of(m), m) == m,
{
    lemma_floor_splits(m, 1);
    reveal(floor_level);
}

/// The level that is reached is the wanted one, unless that lies more than four
/// steps below the one before: then it is four steps below. A rise to more than
/// twice the level before and eight steps may go one step too far, which a full
/// index never does.
pub proof fn law_level_is_reached(level: int, prev: int, full: bool)
    requires
        0 <= level < N_LEVELS_QGAIN,
        0 <= prev < N_LEVELS_QGAIN,
    ensures
        ({
            let next = coded(level, prev, full).1;
            &&& 0 <= next <= 63
            &&& level <= prev - 4 ==> next == prev - 4
            &&& level >= prev - 4 && (full || level <= 2 * prev + 8) ==> next == level
            &&& level >= prev - 4 ==> level <= next <= level + 1
        }),
{
}

proof fn lemma_gain_monotonic(a: int, b: int)
    requires
        0 <= a <= b < 64,
    ensures
        gain_of(a) <= gain_of(b),
    decreases b - a,
{
    if a < b {
        lemma_gain_monotonic(a, b - 1);
        law_levels_rise(b - 1);
        lemma_floor_splits(b, 1);
    }
}

proof fn lemma_quantised_level(gains: Seq<i32>, prev: int, conditional: bool, k: int)
    requires
        0 <= prev < N_LEVELS_QGAIN,
        0 <= k,
    ensures
        0 <= quantised_level(gains, prev, conditional, k) < N_LEVELS_QGAIN,
    decreases k,
{
    if k > 0 {
        lemma_quantised_level(gains, prev, conditional, k - 1);
        let p = quantised_level(gains, prev, conditional, k - 1);
        law_level_is_reached(level_of(gains[k - 1] as int, p), p, k == 1 && !conditional);
    }
}

/// What the gain of a subframe is replaced by matches it. The level falls by at
/// most four steps; its gain is never lower than the wanted one by more than a
/// level and a fortieth; and unless the fall was limited, it is not higher by
/// more than one level, or by two after a rise by more than eight steps.
pub proof fn law_gains_are_matched(gains: Seq<i32>, prev: int, conditional: bool, k: int)
    requires
        0 <= prev < N_LEVELS_QGAIN,
        0 <= k < gains.len(),
        gain_of(0) <= gains[k] <= gain_of(63),
    ensures
        ({
            let gain = gains[k] as int;
            let before = quantised_level(gains, prev, conditional, k);
            let after = quantised_level(gains, prev, conditional, k + 1);
            let near = after <= 2 * before + 8 || (k == 0 && !conditional);
            &&& 0 <= after <= 63
            &&& after >= before - 4
            &&& after < 63 ==> 40 * gain <= 41 * gain_of(after + 1)
            &&& after > before - 4 && near && after >= 1 ==> gain_of(after - 1) <= gain
            &&& after > before - 4 && after >= 2 ==> gain_of(after - 2) <= gain
        }),
{
    let gain = gains[k] as int;
    let before = quantised_level(gains, prev, conditional, k);
    lemma_quantised_level(gains, prev, conditional, k);
    lemma_quantised_level(gains, prev, conditional, k + 1);
    let level = level_of(gain, before);
    law_level_matches_gain(gain, before);
    law_level_is_reached(level, before, k == 0 && !conditional);
    let after = quantised_level(gains, prev, conditional, k + 1);
    if after < 63 {
        lemma_gain_monotonic(level + 1, after + 1);
    }
    if after >= 2 && after > before - 4 {
        lemma_gain_monotonic(after - 2, after - 1);
        if level > 0 {
            lemma_gain_monotonic(after - 2, level - 1);
        }
    }
}

/// A full index names the level itself, but the level falls by at most 16 steps.
/// A step moves the level by itself, less four, up to a threshold beyond which
/// steps count double.
pub proof fn law_index_names_level(index: int, prev: int)
    requires
        0 <= index < N_LEVELS_QGAIN,
        0 <= prev < N_LEVELS_QGAIN,
    ensures
        index >= prev - 16 ==> dequantised(index, prev, true) == index,
        index < prev - 16 ==> dequantised(index, prev, true) == prev - 16,
        0 <= prev + index - 4 < N_LEVELS_QGAIN && index - 4 <= prev + 8 ==> dequantised(
            index,
            prev,
            false,
        ) == prev + index - 4,
        prev + index - 4 < 0 ==> dequantised(index, prev, false) == 0,
        4 + prev + 8 < index <= 40 ==> dequantised(index, prev, false) == if dequantised(
            index - 1,
            prev,
            false,
        ) <= 61 {
            dequantised(index - 1, prev, false) + 2
        } else {
            63
        },
{
}

} // verus!
