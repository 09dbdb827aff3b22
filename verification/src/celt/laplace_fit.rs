//! The parameters that CELT uses for its Laplace models all leave room for the
//! guaranteed deltas.
//!
//! The frequencies of the magnitudes are a geometric series whose terms are
//! rounded down, plus the minimum frequency of each magnitude. Without rounding
//! the series ends just where the guaranteed deltas begin, so that the minimum
//! frequencies of up to 15 magnitudes fit behind it. Slow decays have more
//! magnitudes than that; what rounding takes from the series makes up for them.

use vstd::prelude::*;

use super::laplace::{
    celt_model, laplace_model, lemma_level_bounds, lemma_level_decays, lemma_level_ordered, level,
    FT, LAPLACE_MINP, LAPLACE_NMIN,
};

verus! {

/// What the frequencies up to a level and those still to come are worth,
/// scaled: a geometric series with this first term adds up to the second part.
pub open spec fn worth(fs: int, decay: int, m: nat) -> int {
    (16384 - decay) * level(fs, decay, m).0 + 0x8000 * level(fs, decay, m).1
}

/// Each magnitude adds at most the two minimum frequencies to what a geometric
/// series would take.
pub proof fn lemma_worth(fs: int, decay: int, m: nat)
    requires
        0 <= fs <= FT - 2 * LAPLACE_NMIN * LAPLACE_MINP,
        0 <= decay <= 16384,
        m >= 1,
    ensures
        worth(fs, decay, m) <= (16384 - decay) * (32734 + 2 * m),
    decreases m,
{
    let c = 16384 - decay;
    lemma_level_bounds(fs, decay, m);
    if m == 1 {
        let ft = 32736 - fs;
        assert(c * fs + ft * c == c * 32736) by (nonlinear_arith)
            requires
                ft == 32736 - fs,
        ;
    } else {
        let k = (m - 1) as nat;
        lemma_worth(fs, decay, k);
        lemma_level_bounds(fs, decay, k);
        assert(c * (32734 + 2 * m) == c * (32734 + 2 * k) + 2 * c) by (nonlinear_arith)
            requires
                m == k + 1,
        ;
        if level(fs, decay, k).1 > 0 {
            lemma_worth_step(fs, decay, k);
        }
    }
}

/// What is worth one more level: two minimum frequencies, less what rounding
/// takes from the frequency.
proof fn lemma_worth_step(fs: int, decay: int, m: nat)
    requires
        m >= 1,
        0 <= decay <= 16384,
        level(fs, decay, m).1 > 0,
    ensures
        ({
            let f = level(fs, decay, m).1;
            let next = f * decay / 16384;
            &&& level(fs, decay, m + 1).1 == next
            &&& worth(fs, decay, m + 1) == worth(fs, decay, m) + 2 * (16384 - decay) - 2 * (f * decay
                - 16384 * next)
            &&& 16384 * next <= f * decay
        }),
{
    let c = 16384 - decay;
    let (fl, f) = level(fs, decay, m);
    let (fl2, f2) = level(fs, decay, m + 1);
    assert(2 * f * decay == 2 * (f * decay)) by (nonlinear_arith);
    assert(c * fl2 == c * fl + 2 * (c * f) + 2 * c) by (nonlinear_arith)
        requires
            fl2 == fl + 2 * (f + 1),
    ;
    assert(c * f == 16384 * f - f * decay) by (nonlinear_arith)
        requires
            c == 16384 - decay,
    ;
}

/// How much the worth of a level still rises, from a frequency of `f` down to
/// zero.
#[verifier::opaque]
spec fn tail_rise(decay: int, f: int) -> int
    decreases f,
{
    if f <= 0 || decay < 0 || decay >= 16384 {
        0
    } else {
        proof {
            lemma_decays(decay, f);
        }
        let next = f * decay / 16384;
        2 * (16384 - decay) - 2 * (f * decay - 16384 * next) + tail_rise(decay, next)
    }
}

proof fn lemma_decays(decay: int, f: int)
    requires
        f > 0,
        0 <= decay < 16384,
    ensures
        0 <= f * decay / 16384 < f,
{
    assert(0 <= f * decay < 16384 * f) by (nonlinear_arith)
        requires
            f > 0,
            0 <= decay < 16384,
    ;
}

/// The rise from a frequency whose next one is `next`.
proof fn lemma_rise_to(decay: int, f: int, next: int)
    requires
        0 <= decay < 16384,
        f > 0,
        16384 * next <= f * decay < 16384 * (next + 1),
    ensures
        tail_rise(decay, f) == 2 * (16384 - decay) - 2 * (f * decay - 16384 * next) + tail_rise(
            decay,
            next,
        ),
{
    reveal(tail_rise);
}

/// The rise from a frequency whose next one is `next` or one more.
proof fn lemma_rise(decay: int, f: int, next: int)
    requires
        0 <= decay < 16384,
        f > 0,
        16384 * next <= f * decay < 16384 * (next + 2),
    ensures
        ({
            let g = if f * decay < 16384 * (next + 1) {
                next
            } else {
                next + 1
            };
            tail_rise(decay, f) == 2 * (16384 - decay) - 2 * (f * decay - 16384 * g) + tail_rise(
                decay,
                g,
            )
        }),
{
    reveal(tail_rise);
}

/// No level begins beyond where the rise of an earlier one ends.
proof fn lemma_tail_rise(fs: int, decay: int, m: nat, n: nat)
    requires
        0 <= fs <= FT - 2 * LAPLACE_NMIN * LAPLACE_MINP,
        0 <= decay < 16384,
        1 <= m <= n,
    ensures
        (16384 - decay) * level(fs, decay, n).0 <= worth(fs, decay, m) + tail_rise(
            decay,
            level(fs, decay, m).1,
        ),
    decreases level(fs, decay, m).1,
{
    reveal(tail_rise);
    lemma_level_bounds(fs, decay, m);
    lemma_level_ordered(fs, decay, m, n);
    if level(fs, decay, m).1 > 0 {
        lemma_worth_step(fs, decay, m);
        lemma_level_decays(fs, decay, m);
        if n == m {
            lemma_tail_rise(fs, decay, m + 1, m + 1);
            lemma_level_ordered(fs, decay, m, m + 1);
            let c = 16384 - decay;
            let x = level(fs, decay, m).0;
            let y = level(fs, decay, m + 1).0;
            assert(c * x <= c * y) by (nonlinear_arith)
                requires
                    c >= 0,
                    x <= y,
            ;
        } else {
            lemma_tail_rise(fs, decay, m + 1, n);
        }
    }
}

/// The first frequency is largest with the smallest decay.
proof fn lemma_first_below(fs: int, decay: int, least_decay: int)
    requires
        0 <= fs <= FT - 2 * LAPLACE_NMIN * LAPLACE_MINP,
        0 <= least_decay <= decay <= 16384,
    ensures
        level(fs, decay, 1).1 <= 16384 - least_decay,
{
    let ft = 32736 - fs;
    assert(ft * (16384 - decay) <= 0x8000 * (16384 - least_decay)) by (nonlinear_arith)
        requires
            0 <= ft <= 0x8000,
            0 <= 16384 - decay <= 16384 - least_decay,
    ;
}

/// From a frequency of at most `x`, the next one is at most `y` with every
/// decay up to `most_decay`.
proof fn lemma_next_below(fs: int, decay: int, most_decay: int, m: nat, x: int, y: int)
    requires
        0 <= fs <= FT - 2 * LAPLACE_NMIN * LAPLACE_MINP,
        0 <= decay <= most_decay <= 16384,
        m >= 1,
        level(fs, decay, m).1 <= x,
        x * most_decay < 16384 * (y + 1),
        y >= 0,
    ensures
        level(fs, decay, m + 1).1 <= y,
{
    lemma_level_bounds(fs, decay, m);
    let f = level(fs, decay, m).1;
    assert(2 * f * decay == 2 * (f * decay)) by (nonlinear_arith);
    assert(f * decay <= x * most_decay) by (nonlinear_arith)
        requires
            0 <= f <= x,
            0 <= decay <= most_decay,
    ;
}

/// A distribution fits where `n` levels bring its frequency below `k`, from
/// where it rises by at most what the `n` levels have left over.
proof fn lemma_fits(fs: int, decay: int, n: nat, k: int)
    requires
        0 <= fs <= FT - 2 * LAPLACE_NMIN * LAPLACE_MINP,
        0 <= decay < 16384,
        level(fs, decay, n + 1).1 < k,
        forall|f: int|
            0 <= f < k ==> #[trigger] tail_rise(decay, f) <= (16384 - decay) * (30 - 2 * n),
    ensures
        laplace_model(fs, decay),
{
    let c = 16384 - decay;
    assert forall|m: nat| (#[trigger] level(fs, decay, m)).0 <= FT - 2 by {
        let last: nat = if m < n + 1 {
            n + 1
        } else {
            m
        };
        lemma_level_bounds(fs, decay, n + 1);
        lemma_worth(fs, decay, n + 1);
        lemma_tail_rise(fs, decay, n + 1, last);
        let x = level(fs, decay, last).0;
        assert(c * (32734 + 2 * (n + 1)) + c * (30 - 2 * n) == c * 32766) by (nonlinear_arith);
        assert(x <= 32766) by (nonlinear_arith)
            requires
                c * x <= c * 32766,
                c > 0,
        ;
        if m >= 1 {
            lemma_level_ordered(fs, decay, m, last);
        } else {
            lemma_level_ordered(fs, decay, 1, last);
        }
    }
}

/// Nothing rises from a frequency of zero.
proof fn lemma_no_rise(decay: int)
    ensures
        tail_rise(decay, 0) == 0,
{
    reveal(tail_rise);
}

/// The distribution fits for decays from 0 to 8192.
proof fn lemma_fits_from_0(fs: int, decay: int)
    requires
        0 <= fs <= FT - 2 * LAPLACE_NMIN * LAPLACE_MINP,
        0 <= decay <= 8192,
    ensures
        laplace_model(fs, decay),
{
    lemma_no_rise(decay);
    lemma_first_below(fs, decay, 0);
    lemma_next_below(fs, decay, 8192, 1, 16384, 8192);
    lemma_next_below(fs, decay, 8192, 2, 8192, 4096);
    lemma_next_below(fs, decay, 8192, 3, 4096, 2048);
    lemma_next_below(fs, decay, 8192, 4, 2048, 1024);
    lemma_next_below(fs, decay, 8192, 5, 1024, 512);
    lemma_next_below(fs, decay, 8192, 6, 512, 256);
    lemma_next_below(fs, decay, 8192, 7, 256, 128);
    lemma_next_below(fs, decay, 8192, 8, 128, 64);
    lemma_next_below(fs, decay, 8192, 9, 64, 32);
    lemma_next_below(fs, decay, 8192, 10, 32, 16);
    lemma_next_below(fs, decay, 8192, 11, 16, 8);
    lemma_next_below(fs, decay, 8192, 12, 8, 4);
    lemma_next_below(fs, decay, 8192, 13, 4, 2);
    lemma_next_below(fs, decay, 8192, 14, 2, 1);
    lemma_next_below(fs, decay, 8192, 15, 1, 0);
    lemma_fits(fs, decay, 15, 1);
}

/// The rise from frequencies below 8, for decays from 8193 to 9657.
proof fn lemma_rise_from_8193(decay: int)
    requires
        8193 <= decay <= 9657,
    ensures
        forall|f: int|
            0 <= f < 8 ==> #[trigger] tail_rise(decay, f) <= (16384 - decay) * 4,
{
    lemma_no_rise(decay);
    lemma_rise_to(decay, 1, 0);
    lemma_rise_to(decay, 2, 1);
    lemma_rise_to(decay, 3, 1);
    lemma_rise_to(decay, 4, 2);
    lemma_rise_to(decay, 5, 2);
    lemma_rise_to(decay, 6, 3);
    lemma_rise(decay, 7, 3);
}

/// The distribution fits for decays from 8193 to 9657.
proof fn lemma_fits_from_8193(fs: int, decay: int)
    requires
        0 <= fs <= FT - 2 * LAPLACE_NMIN * LAPLACE_MINP,
        8193 <= decay <= 9657,
    ensures
        laplace_model(fs, decay),
{
    lemma_rise_from_8193(decay);
    lemma_first_below(fs, decay, 8193);
    lemma_next_below(fs, decay, 9657, 1, 8191, 4827);
    lemma_next_below(fs, decay, 9657, 2, 4827, 2845);
    lemma_next_below(fs, decay, 9657, 3, 2845, 1676);
    lemma_next_below(fs, decay, 9657, 4, 1676, 987);
    lemma_next_below(fs, decay, 9657, 5, 987, 581);
    lemma_next_below(fs, decay, 9657, 6, 581, 342);
    lemma_next_below(fs, decay, 9657, 7, 342, 201);
    lemma_next_below(fs, decay, 9657, 8, 201, 118);
    lemma_next_below(fs, decay, 9657, 9, 118, 69);
    lemma_next_below(fs, decay, 9657, 10, 69, 40);
    lemma_next_below(fs, decay, 9657, 11, 40, 23);
    lemma_next_below(fs, decay, 9657, 12, 23, 13);
    lemma_next_below(fs, decay, 9657, 13, 13, 7);
    lemma_fits(fs, decay, 13, 8);
}

/// The rise from frequencies below 8, for decays from 9658 to 10142.
proof fn lemma_rise_from_9658(decay: int)
    requires
        9658 <= decay <= 10142,
    ensures
        forall|f: int|
            0 <= f < 8 ==> #[trigger] tail_rise(decay, f) <= (16384 - decay) * 2,
{
    lemma_no_rise(decay);
    lemma_rise_to(decay, 1, 0);
    lemma_rise_to(decay, 2, 1);
    lemma_rise_to(decay, 3, 1);
    lemma_rise_to(decay, 4, 2);
    lemma_rise(decay, 5, 2);
    lemma_rise_to(decay, 6, 3);
    lemma_rise_to(decay, 7, 4);
}

/// The distribution fits for decays from 9658 to 10142.
proof fn lemma_fits_from_9658(fs: int, decay: int)
    requires
        0 <= fs <= FT - 2 * LAPLACE_NMIN * LAPLACE_MINP,
        9658 <= decay <= 10142,
    ensures
        laplace_model(fs, decay),
{
    lemma_rise_from_9658(decay);
    lemma_first_below(fs, decay, 9658);
    lemma_next_below(fs, decay, 10142, 1, 6726, 4163);
    lemma_next_below(fs, decay, 10142, 2, 4163, 2576);
    lemma_next_below(fs, decay, 10142, 3, 2576, 1594);
    lemma_next_below(fs, decay, 10142, 4, 1594, 986);
    lemma_next_below(fs, decay, 10142, 5, 986, 610);
    lemma_next_below(fs, decay, 10142, 6, 610, 377);
    lemma_next_below(fs, decay, 10142, 7, 377, 233);
    lemma_next_below(fs, decay, 10142, 8, 233, 144);
    lemma_next_below(fs, decay, 10142, 9, 144, 89);
    lemma_next_below(fs, decay, 10142, 10, 89, 55);
    lemma_next_below(fs, decay, 10142, 11, 55, 34);
    lemma_next_below(fs, decay, 10142, 12, 34, 21);
    lemma_next_below(fs, decay, 10142, 13, 21, 12);
    lemma_next_below(fs, decay, 10142, 14, 12, 7);
    lemma_fits(fs, decay, 14, 8);
}

/// The rise from frequencies below 8, for decays from 10143 to 10603.
proof fn lemma_rise_from_10143(decay: int)
    requires
        10143 <= decay <= 10603,
    ensures
        forall|f: int|
            0 <= f < 8 ==> #[trigger] tail_rise(decay, f) <= (16384 - decay) * 0,
{
    lemma_no_rise(decay);
    lemma_rise_to(decay, 1, 0);
    lemma_rise_to(decay, 2, 1);
    lemma_rise_to(decay, 3, 1);
    lemma_rise_to(decay, 4, 2);
    lemma_rise_to(decay, 5, 3);
    lemma_rise_to(decay, 6, 3);
    lemma_rise_to(decay, 7, 4);
}

/// The distribution fits for decays from 10143 to 10603.
proof fn lemma_fits_from_10143(fs: int, decay: int)
    requires
        0 <= fs <= FT - 2 * LAPLACE_NMIN * LAPLACE_MINP,
        10143 <= decay <= 10603,
    ensures
        laplace_model(fs, decay),
{
    lemma_rise_from_10143(decay);
    lemma_first_below(fs, decay, 10143);
    lemma_next_below(fs, decay, 10603, 1, 6241, 4038);
    lemma_next_below(fs, decay, 10603, 2, 4038, 2613);
    lemma_next_below(fs, decay, 10603, 3, 2613, 1691);
    lemma_next_below(fs, decay, 10603, 4, 1691, 1094);
    lemma_next_below(fs, decay, 10603, 5, 1094, 707);
    lemma_next_below(fs, decay, 10603, 6, 707, 457);
    lemma_next_below(fs, decay, 10603, 7, 457, 295);
    lemma_next_below(fs, decay, 10603, 8, 295, 190);
    lemma_next_below(fs, decay, 10603, 9, 190, 122);
    lemma_next_below(fs, decay, 10603, 10, 122, 78);
    lemma_next_below(fs, decay, 10603, 11, 78, 50);
    lemma_next_below(fs, decay, 10603, 12, 50, 32);
    lemma_next_below(fs, decay, 10603, 13, 32, 20);
    lemma_next_below(fs, decay, 10603, 14, 20, 12);
    lemma_next_below(fs, decay, 10603, 15, 12, 7);
    lemma_fits(fs, decay, 15, 8);
}

/// The rise from frequencies below 16, for decays from 10604 to 10922.
proof fn lemma_rise_from_10604(decay: int)
    requires
        10604 <= decay <= 10922,
    ensures
        forall|f: int|
            0 <= f < 16 ==> #[trigger] tail_rise(decay, f) <= (16384 - decay) * 0,
{
    lemma_no_rise(decay);
    lemma_rise_to(decay, 1, 0);
    lemma_rise_to(decay, 2, 1);
    lemma_rise_to(decay, 3, 1);
    lemma_rise_to(decay, 4, 2);
    lemma_rise_to(decay, 5, 3);
    lemma_rise_to(decay, 6, 3);
    lemma_rise_to(decay, 7, 4);
    lemma_rise_to(decay, 8, 5);
    lemma_rise_to(decay, 9, 5);
    lemma_rise_to(decay, 10, 6);
    lemma_rise_to(decay, 11, 7);
    lemma_rise_to(decay, 12, 7);
    lemma_rise_to(decay, 13, 8);
    lemma_rise_to(decay, 14, 9);
    lemma_rise_to(decay, 15, 9);
}

/// The distribution fits for decays from 10604 to 10922.
proof fn lemma_fits_from_10604(fs: int, decay: int)
    requires
        0 <= fs <= FT - 2 * LAPLACE_NMIN * LAPLACE_MINP,
        10604 <= decay <= 10922,
    ensures
        laplace_model(fs, decay),
{
    lemma_rise_from_10604(decay);
    lemma_first_below(fs, decay, 10604);
    lemma_next_below(fs, decay, 10922, 1, 5780, 3853);
    lemma_next_below(fs, decay, 10922, 2, 3853, 2568);
    lemma_next_below(fs, decay, 10922, 3, 2568, 1711);
    lemma_next_below(fs, decay, 10922, 4, 1711, 1140);
    lemma_next_below(fs, decay, 10922, 5, 1140, 759);
    lemma_next_below(fs, decay, 10922, 6, 759, 505);
    lemma_next_below(fs, decay, 10922, 7, 505, 336);
    lemma_next_below(fs, decay, 10922, 8, 336, 223);
    lemma_next_below(fs, decay, 10922, 9, 223, 148);
    lemma_next_below(fs, decay, 10922, 10, 148, 98);
    lemma_next_below(fs, decay, 10922, 11, 98, 65);
    lemma_next_below(fs, decay, 10922, 12, 65, 43);
    lemma_next_below(fs, decay, 10922, 13, 43, 28);
    lemma_next_below(fs, decay, 10922, 14, 28, 18);
    lemma_next_below(fs, decay, 10922, 15, 18, 11);
    lemma_fits(fs, decay, 15, 16);
}

/// The rise from frequencies below 64, for decays from 10923 to 10989.
proof fn lemma_rise_from_10923(decay: int)
    requires
        10923 <= decay <= 10989,
    ensures
        forall|f: int|
            0 <= f < 64 ==> #[trigger] tail_rise(decay, f) <= (16384 - decay) * 6,
{
    lemma_no_rise(decay);
    lemma_rise_to(decay, 1, 0);
    lemma_rise_to(decay, 2, 1);
    lemma_rise_to(decay, 3, 2);
    lemma_rise_to(decay, 4, 2);
    lemma_rise_to(decay, 5, 3);
    lemma_rise_to(decay, 6, 4);
    lemma_rise_to(decay, 7, 4);
    lemma_rise_to(decay, 8, 5);
    lemma_rise_to(decay, 9, 6);
    lemma_rise_to(decay, 10, 6);
    lemma_rise_to(decay, 11, 7);
    lemma_rise_to(decay, 12, 8);
    lemma_rise_to(decay, 13, 8);
    lemma_rise_to(decay, 14, 9);
    lemma_rise_to(decay, 15, 10);
    lemma_rise_to(decay, 16, 10);
    lemma_rise_to(decay, 17, 11);
    lemma_rise_to(decay, 18, 12);
    lemma_rise_to(decay, 19, 12);
    lemma_rise_to(decay, 20, 13);
    lemma_rise_to(decay, 21, 14);
    lemma_rise_to(decay, 22, 14);
    lemma_rise_to(decay, 23, 15);
    lemma_rise_to(decay, 24, 16);
    lemma_rise_to(decay, 25, 16);
    lemma_rise_to(decay, 26, 17);
    lemma_rise_to(decay, 27, 18);
    lemma_rise_to(decay, 28, 18);
    lemma_rise_to(decay, 29, 19);
    lemma_rise_to(decay, 30, 20);
    lemma_rise_to(decay, 31, 20);
    lemma_rise_to(decay, 32, 21);
    lemma_rise_to(decay, 33, 22);
    lemma_rise_to(decay, 34, 22);
    lemma_rise_to(decay, 35, 23);
    lemma_rise_to(decay, 36, 24);
    lemma_rise_to(decay, 37, 24);
    lemma_rise_to(decay, 38, 25);
    lemma_rise_to(decay, 39, 26);
    lemma_rise_to(decay, 40, 26);
    lemma_rise_to(decay, 41, 27);
    lemma_rise_to(decay, 42, 28);
    lemma_rise_to(decay, 43, 28);
    lemma_rise_to(decay, 44, 29);
    lemma_rise_to(decay, 45, 30);
    lemma_rise_to(decay, 46, 30);
    lemma_rise_to(decay, 47, 31);
    lemma_rise_to(decay, 48, 32);
    lemma_rise_to(decay, 49, 32);
    lemma_rise_to(decay, 50, 33);
    lemma_rise_to(decay, 51, 34);
    lemma_rise_to(decay, 52, 34);
    lemma_rise_to(decay, 53, 35);
    lemma_rise_to(decay, 54, 36);
    lemma_rise_to(decay, 55, 36);
    lemma_rise_to(decay, 56, 37);
    lemma_rise_to(decay, 57, 38);
    lemma_rise_to(decay, 58, 38);
    lemma_rise_to(decay, 59, 39);
    lemma_rise_to(decay, 60, 40);
    lemma_rise_to(decay, 61, 40);
    lemma_rise_to(decay, 62, 41);
    lemma_rise_to(decay, 63, 42);
}

/// The distribution fits for decays from 10923 to 10989.
proof fn lemma_fits_from_10923(fs: int, decay: int)
    requires
        0 <= fs <= FT - 2 * LAPLACE_NMIN * LAPLACE_MINP,
        10923 <= decay <= 10989,
    ensures
        laplace_model(fs, decay),
{
    lemma_rise_from_10923(decay);
    lemma_first_below(fs, decay, 10923);
    lemma_next_below(fs, decay, 10989, 1, 5461, 3662);
    lemma_next_below(fs, decay, 10989, 2, 3662, 2456);
    lemma_next_below(fs, decay, 10989, 3, 2456, 1647);
    lemma_next_below(fs, decay, 10989, 4, 1647, 1104);
    lemma_next_below(fs, decay, 10989, 5, 1104, 740);
    lemma_next_below(fs, decay, 10989, 6, 740, 496);
    lemma_next_below(fs, decay, 10989, 7, 496, 332);
    lemma_next_below(fs, decay, 10989, 8, 332, 222);
    lemma_next_below(fs, decay, 10989, 9, 222, 148);
    lemma_next_below(fs, decay, 10989, 10, 148, 99);
    lemma_next_below(fs, decay, 10989, 11, 99, 66);
    lemma_next_below(fs, decay, 10989, 12, 66, 44);
    lemma_fits(fs, decay, 12, 64);
}

/// The rise from frequencies below 32, for decays from 10990 to 11076.
proof fn lemma_rise_from_10990(decay: int)
    requires
        10990 <= decay <= 11076,
    ensures
        forall|f: int|
            0 <= f < 32 ==> #[trigger] tail_rise(decay, f) <= (16384 - decay) * 4,
{
    lemma_no_rise(decay);
    lemma_rise_to(decay, 1, 0);
    lemma_rise_to(decay, 2, 1);
    lemma_rise_to(decay, 3, 2);
    lemma_rise_to(decay, 4, 2);
    lemma_rise_to(decay, 5, 3);
    lemma_rise_to(decay, 6, 4);
    lemma_rise_to(decay, 7, 4);
    lemma_rise_to(decay, 8, 5);
    lemma_rise_to(decay, 9, 6);
    lemma_rise_to(decay, 10, 6);
    lemma_rise_to(decay, 11, 7);
    lemma_rise_to(decay, 12, 8);
    lemma_rise_to(decay, 13, 8);
    lemma_rise_to(decay, 14, 9);
    lemma_rise_to(decay, 15, 10);
    lemma_rise_to(decay, 16, 10);
    lemma_rise_to(decay, 17, 11);
    lemma_rise_to(decay, 18, 12);
    lemma_rise_to(decay, 19, 12);
    lemma_rise_to(decay, 20, 13);
    lemma_rise_to(decay, 21, 14);
    lemma_rise_to(decay, 22, 14);
    lemma_rise_to(decay, 23, 15);
    lemma_rise_to(decay, 24, 16);
    lemma_rise_to(decay, 25, 16);
    lemma_rise_to(decay, 26, 17);
    lemma_rise_to(decay, 27, 18);
    lemma_rise_to(decay, 28, 18);
    lemma_rise_to(decay, 29, 19);
    lemma_rise_to(decay, 30, 20);
    lemma_rise_to(decay, 31, 20);
}

/// The distribution fits for decays from 10990 to 11076.
proof fn lemma_fits_from_10990(fs: int, decay: int)
    requires
        0 <= fs <= FT - 2 * LAPLACE_NMIN * LAPLACE_MINP,
        10990 <= decay <= 11076,
    ensures
        laplace_model(fs, decay),
{
    lemma_rise_from_10990(decay);
    lemma_first_below(fs, decay, 10990);
    lemma_next_below(fs, decay, 11076, 1, 5394, 3646);
    lemma_next_below(fs, decay, 11076, 2, 3646, 2464);
    lemma_next_below(fs, decay, 11076, 3, 2464, 1665);
    lemma_next_below(fs, decay, 11076, 4, 1665, 1125);
    lemma_next_below(fs, decay, 11076, 5, 1125, 760);
    lemma_next_below(fs, decay, 11076, 6, 760, 513);
    lemma_next_below(fs, decay, 11076, 7, 513, 346);
    lemma_next_below(fs, decay, 11076, 8, 346, 233);
    lemma_next_below(fs, decay, 11076, 9, 233, 157);
    lemma_next_below(fs, decay, 11076, 10, 157, 106);
    lemma_next_below(fs, decay, 11076, 11, 106, 71);
    lemma_next_below(fs, decay, 11076, 12, 71, 47);
    lemma_next_below(fs, decay, 11076, 13, 47, 31);
    lemma_fits(fs, decay, 13, 32);
}

/// The rise from frequencies below 32, for decays from 11077 to 11403.
proof fn lemma_rise_from_11077(decay: int)
    requires
        11077 <= decay <= 11403,
    ensures
        forall|f: int|
            0 <= f < 32 ==> #[trigger] tail_rise(decay, f) <= (16384 - decay) * 2,
{
    lemma_no_rise(decay);
    lemma_rise_to(decay, 1, 0);
    lemma_rise_to(decay, 2, 1);
    lemma_rise_to(decay, 3, 2);
    lemma_rise_to(decay, 4, 2);
    lemma_rise_to(decay, 5, 3);
    lemma_rise_to(decay, 6, 4);
    lemma_rise_to(decay, 7, 4);
    lemma_rise_to(decay, 8, 5);
    lemma_rise_to(decay, 9, 6);
    lemma_rise_to(decay, 10, 6);
    lemma_rise_to(decay, 11, 7);
    lemma_rise_to(decay, 12, 8);
    lemma_rise(decay, 13, 8);
    lemma_rise_to(decay, 14, 9);
    lemma_rise_to(decay, 15, 10);
    lemma_rise(decay, 16, 10);
    lemma_rise_to(decay, 17, 11);
    lemma_rise_to(decay, 18, 12);
    lemma_rise(decay, 19, 12);
    lemma_rise_to(decay, 20, 13);
    lemma_rise_to(decay, 21, 14);
    lemma_rise(decay, 22, 14);
    lemma_rise(decay, 23, 15);
    lemma_rise_to(decay, 24, 16);
    lemma_rise(decay, 25, 16);
    lemma_rise(decay, 26, 17);
    lemma_rise_to(decay, 27, 18);
    lemma_rise(decay, 28, 18);
    lemma_rise(decay, 29, 19);
    lemma_rise_to(decay, 30, 20);
    lemma_rise(decay, 31, 20);
}

/// The distribution fits for decays from 11077 to 11403.
proof fn lemma_fits_from_11077(fs: int, decay: int)
    requires
        0 <= fs <= FT - 2 * LAPLACE_NMIN * LAPLACE_MINP,
        11077 <= decay <= 11403,
    ensures
        laplace_model(fs, decay),
{
    lemma_rise_from_11077(decay);
    lemma_first_below(fs, decay, 11077);
    lemma_next_below(fs, decay, 11403, 1, 5307, 3693);
    lemma_next_below(fs, decay, 11403, 2, 3693, 2570);
    lemma_next_below(fs, decay, 11403, 3, 2570, 1788);
    lemma_next_below(fs, decay, 11403, 4, 1788, 1244);
    lemma_next_below(fs, decay, 11403, 5, 1244, 865);
    lemma_next_below(fs, decay, 11403, 6, 865, 602);
    lemma_next_below(fs, decay, 11403, 7, 602, 418);
    lemma_next_below(fs, decay, 11403, 8, 418, 290);
    lemma_next_below(fs, decay, 11403, 9, 290, 201);
    lemma_next_below(fs, decay, 11403, 10, 201, 139);
    lemma_next_below(fs, decay, 11403, 11, 139, 96);
    lemma_next_below(fs, decay, 11403, 12, 96, 66);
    lemma_next_below(fs, decay, 11403, 13, 66, 45);
    lemma_next_below(fs, decay, 11403, 14, 45, 31);
    lemma_fits(fs, decay, 14, 32);
}

/// The rise from frequencies below 32, for decays from 11404 to 11456.
proof fn lemma_rise_from_11404(decay: int)
    requires
        11404 <= decay <= 11456,
    ensures
        forall|f: int|
            0 <= f < 32 ==> #[trigger] tail_rise(decay, f) <= (16384 - decay) * 0,
{
    lemma_no_rise(decay);
    lemma_rise_to(decay, 1, 0);
    lemma_rise_to(decay, 2, 1);
    lemma_rise_to(decay, 3, 2);
    lemma_rise_to(decay, 4, 2);
    lemma_rise_to(decay, 5, 3);
    lemma_rise_to(decay, 6, 4);
    lemma_rise_to(decay, 7, 4);
    lemma_rise_to(decay, 8, 5);
    lemma_rise_to(decay, 9, 6);
    lemma_rise_to(decay, 10, 6);
    lemma_rise_to(decay, 11, 7);
    lemma_rise_to(decay, 12, 8);
    lemma_rise_to(decay, 13, 9);
    lemma_rise_to(decay, 14, 9);
    lemma_rise_to(decay, 15, 10);
    lemma_rise_to(decay, 16, 11);
    lemma_rise_to(decay, 17, 11);
    lemma_rise_to(decay, 18, 12);
    lemma_rise_to(decay, 19, 13);
    lemma_rise_to(decay, 20, 13);
    lemma_rise_to(decay, 21, 14);
    lemma_rise_to(decay, 22, 15);
    lemma_rise_to(decay, 23, 16);
    lemma_rise_to(decay, 24, 16);
    lemma_rise_to(decay, 25, 17);
    lemma_rise_to(decay, 26, 18);
    lemma_rise_to(decay, 27, 18);
    lemma_rise_to(decay, 28, 19);
    lemma_rise_to(decay, 29, 20);
    lemma_rise_to(decay, 30, 20);
    lemma_rise_to(decay, 31, 21);
}

/// The distribution fits for decays from 11404 to 11456.
proof fn lemma_fits_from_11404(fs: int, decay: int)
    requires
        0 <= fs <= FT - 2 * LAPLACE_NMIN * LAPLACE_MINP,
        11404 <= decay <= 11456,
    ensures
        laplace_model(fs, decay),
{
    lemma_rise_from_11404(decay);
    lemma_first_below(fs, decay, 11404);
    lemma_next_below(fs, decay, 11456, 1, 4980, 3482);
    lemma_next_below(fs, decay, 11456, 2, 3482, 2434);
    lemma_next_below(fs, decay, 11456, 3, 2434, 1701);
    lemma_next_below(fs, decay, 11456, 4, 1701, 1189);
    lemma_next_below(fs, decay, 11456, 5, 1189, 831);
    lemma_next_below(fs, decay, 11456, 6, 831, 581);
    lemma_next_below(fs, decay, 11456, 7, 581, 406);
    lemma_next_below(fs, decay, 11456, 8, 406, 283);
    lemma_next_below(fs, decay, 11456, 9, 283, 197);
    lemma_next_below(fs, decay, 11456, 10, 197, 137);
    lemma_next_below(fs, decay, 11456, 11, 137, 95);
    lemma_next_below(fs, decay, 11456, 12, 95, 66);
    lemma_next_below(fs, decay, 11456, 13, 66, 46);
    lemma_next_below(fs, decay, 11456, 14, 46, 32);
    lemma_next_below(fs, decay, 11456, 15, 32, 22);
    lemma_fits(fs, decay, 15, 32);
}

/// Every frequency of zero that leaves the guaranteed deltas, with every decay
/// that CELT uses, describes a distribution.
pub proof fn law_celt_models_fit(fs: int, decay: int)
    requires
        celt_model(fs, decay),
    ensures
        laplace_model(fs, decay),
{
    if decay <= 8192 {
        lemma_fits_from_0(fs, decay);
    } else if decay <= 9657 {
        lemma_fits_from_8193(fs, decay);
    } else if decay <= 10142 {
        lemma_fits_from_9658(fs, decay);
    } else if decay <= 10603 {
        lemma_fits_from_10143(fs, decay);
    } else if decay <= 10922 {
        lemma_fits_from_10604(fs, decay);
    } else if decay <= 10989 {
        lemma_fits_from_10923(fs, decay);
    } else if decay <= 11076 {
        lemma_fits_from_10990(fs, decay);
    } else if decay <= 11403 {
        lemma_fits_from_11077(fs, decay);
    } else {
        lemma_fits_from_11404(fs, decay);
    }
}

} // verus!
