//! The energy of a signal, scaled to fit a word.

use vstd::arithmetic::power2::{
    lemma2_to64, lemma_pow2_adds, lemma_pow2_pos, lemma_pow2_strictly_increases, pow2,
};
use vstd::prelude::*;

use crate::range::{bit_length, ilog, lemma_bit_length, lemma_bit_length_at_most};

use super::math::{add_rshift_uint, exponent, smlabb, smulbb};

verus! {

/// The energy of the sample pair that begins at `2 * i`; the last pair of an
/// odd number of samples is a single one.
pub open spec fn pair_energy(x: Seq<i16>, i: int) -> int {
    if 2 * i + 1 < x.len() {
        x[2 * i] * x[2 * i] + x[2 * i + 1] * x[2 * i + 1]
    } else {
        x[2 * i] * x[2 * i]
    }
}

/// The number of sample pairs.
pub open spec fn pairs(x: Seq<i16>) -> int {
    (x.len() as int + 1) / 2
}

/// The energy of the first `n` pairs, each shifted right.
pub open spec fn shifted_energy(x: Seq<i16>, shift: nat, n: int) -> int
    decreases n,
{
    if n <= 0 {
        0
    } else {
        shifted_energy(x, shift, n - 1) + pair_energy(x, n - 1) / pow2(shift) as int
    }
}

/// The shift that leaves the energy of `x` at least two bits of headroom: it
/// follows from a bound on the energy that is computed with a coarse shift.
pub open spec fn energy_shift(x: Seq<i16>) -> int {
    let coarse = exponent(x.len() as int);
    let bound = x.len() + shifted_energy(x, coarse as nat, pairs(x));
    let shift = coarse + 3 - (32 - bit_length(bound));
    if shift < 0 {
        0
    } else {
        shift
    }
}

/// The energy of `x`, shifted right to fit.
pub open spec fn energy(x: Seq<i16>) -> int {
    shifted_energy(x, energy_shift(x) as nat, pairs(x))
}

proof fn lemma_pair_energy(x: Seq<i16>, i: int)
    ensures
        0 <= pair_energy(x, i) <= 0x8000_0000,
{
    let a = x[2 * i] as int;
    let b = x[2 * i + 1] as int;
    assert(0 <= a * a <= 0x4000_0000) by (nonlinear_arith)
        requires
            -0x8000 <= a <= 0x7FFF,
    ;
    assert(0 <= b * b <= 0x4000_0000) by (nonlinear_arith)
        requires
            -0x8000 <= b <= 0x7FFF,
    ;
}

/// The sum over `n` pairs at a coarse shift bounds the energy, and so the sum
/// at a finer one.
proof fn lemma_shifted_energy(x: Seq<i16>, shift: nat, n: int)
    requires
        n >= 0,
    ensures
        0 <= shifted_energy(x, shift, n),
        shifted_energy(x, shift, n) * pow2(shift) <= 0x8000_0000 * n,
    decreases n,
{
    lemma_pow2_pos(shift);
    if n > 0 {
        lemma_shifted_energy(x, shift, n - 1);
        lemma_pair_energy(x, n - 1);
        let d = pow2(shift) as int;
        let p = pair_energy(x, n - 1);
        let s = shifted_energy(x, shift, n - 1);
        assert(0 <= p / d && (p / d) * d <= p) by (nonlinear_arith)
            requires
                0 <= p,
                d > 0,
        ;
        assert((s + p / d) * d == s * d + (p / d) * d) by (nonlinear_arith);
    }
}

/// The sums at two shifts, compared through the exact energy between them.
proof fn lemma_energy_between(x: Seq<i16>, coarse: nat, fine: nat, n: int)
    requires
        n >= 0,
    ensures
        shifted_energy(x, fine, n) * pow2(fine) <= (n + shifted_energy(x, coarse, n)) * pow2(
            coarse,
        ),
    decreases n,
{
    lemma_pow2_pos(coarse);
    lemma_pow2_pos(fine);
    let c = pow2(coarse) as int;
    let f = pow2(fine) as int;
    if n > 0 {
        lemma_energy_between(x, coarse, fine, n - 1);
        lemma_pair_energy(x, n - 1);
        let p = pair_energy(x, n - 1);
        let s = shifted_energy(x, fine, n - 1);
        let t = shifted_energy(x, coarse, n - 1);
        assert((p / f) * f <= p < (p / c + 1) * c) by (nonlinear_arith)
            requires
                0 <= p,
                c > 0,
                f > 0,
        ;
        assert((s + p / f) * f == s * f + (p / f) * f) by (nonlinear_arith);
        assert((n + (t + p / c)) * c == (n - 1 + t) * c + (p / c + 1) * c) by (nonlinear_arith);
    } else {
        assert(shifted_energy(x, fine, n) * f == 0) by (nonlinear_arith)
            requires
                shifted_energy(x, fine, n) == 0,
        ;
        assert((n + shifted_energy(x, coarse, n)) * c == 0) by (nonlinear_arith)
            requires
                n + shifted_energy(x, coarse, n) == 0,
        ;
    }
}

proof fn lemma_length(len: int)
    requires
        1 <= len < 0x1000_0000,
    ensures
        0 <= exponent(len) <= 27,
        pow2(exponent(len) as nat) <= len,
        (len + 1) / 2 <= pow2(exponent(len) as nat),
{
    lemma2_to64();
    lemma_bit_length(len);
    lemma_bit_length_at_most(len, 28);
    vstd::arithmetic::power2::lemma_pow2_unfold(bit_length(len));
}

/// The coarse bound is a word, and the shift is below the width of a word.
proof fn lemma_bound(x: Seq<i16>)
    requires
        1 <= x.len() < 0x1000_0000,
    ensures
        ({
            let coarse = exponent(x.len() as int);
            let bound = x.len() + shifted_energy(x, coarse as nat, pairs(x));
            1 <= bound <= 0x9000_0000
        }),
        0 <= energy_shift(x) <= 30,
{
    let len = x.len() as int;
    lemma_length(len);
    lemma2_to64();
    let coarse = exponent(len);
    let n = pairs(x);
    lemma_shifted_energy(x, coarse as nat, n);
    lemma_pow2_pos(coarse as nat);
    let d = pow2(coarse as nat) as int;
    let s = shifted_energy(x, coarse as nat, n);
    assert(s <= 0x8000_0000) by (nonlinear_arith)
        requires
            s * d <= 0x8000_0000 * n,
            n <= d,
            d > 0,
    ;
    lemma_bit_length_at_most(len + s, 32);
}

/// The scaled energy leaves two bits of headroom.
pub proof fn law_energy_headroom(x: Seq<i16>)
    requires
        1 <= x.len() < 0x1000_0000,
    ensures
        0 <= energy(x) < 0x2000_0000,
        0 <= energy_shift(x) <= 30,
{
    let len = x.len() as int;
    let n = pairs(x);
    let coarse = exponent(len) as nat;
    let bound = len + shifted_energy(x, coarse, n);
    let shift = energy_shift(x) as nat;
    lemma_length(len);
    lemma_bound(x);
    lemma_shifted_energy(x, shift, n);
    lemma_energy_between(x, coarse, shift, n);
    lemma_bit_length(bound);
    let bl = bit_length(bound);
    lemma2_to64();
    lemma_bit_length_at_most(bound, 32);
    lemma_pow2_pos(coarse);
    lemma_pow2_pos(shift);
    // 2^(bl + coarse) <= 2^(shift + 29).
    lemma_pow2_adds(bl, coarse);
    lemma_pow2_adds(shift, 29);
    if bl + coarse < shift + 29 {
        lemma_pow2_strictly_increases(bl + coarse, shift + 29);
    }
    let e = energy(x);
    let c = pow2(coarse) as int;
    let s = pow2(shift) as int;
    assert((n + shifted_energy(x, coarse, n)) * c <= bound * c) by (nonlinear_arith)
        requires
            n + shifted_energy(x, coarse, n) <= bound,
            c > 0,
    ;
    assert(bound * c < pow2(bl) * c) by (nonlinear_arith)
        requires
            bound < pow2(bl),
            c > 0,
    ;
    assert(e < 0x2000_0000) by (nonlinear_arith)
        requires
            e * s < s * 0x2000_0000,
            s > 0,
    ;
}

/// The sum of the pair energies, each shifted right, on top of `start`.
fn sum_pairs(x: &[i16], start: u32, shift: u32) -> (sum: u32)
    requires
        shift < 32,
        start + shifted_energy(x@, shift as nat, pairs(x@)) <= u32::MAX,
        x@.len() < 0x1000_0000,
    ensures
        sum == start + shifted_energy(x@, shift as nat, pairs(x@)),
{
    let len = x.len();
    let mut sum = start;
    let mut i: usize = 0;
    let ghost mut n: int = 0;
    while i + 1 < len
        invariant
            i <= len,
            len == x@.len(),
            len < 0x1000_0000,
            i == 2 * n,
            shift < 32,
            start + shifted_energy(x@, shift as nat, pairs(x@)) <= u32::MAX,
            sum == start + shifted_energy(x@, shift as nat, n),
        decreases len - i,
    {
        let a = x[i] as i32;
        let b = x[i + 1] as i32;
        let t = smlabb(smulbb(a, a), b, b);
        proof {
            lemma_pair_energy(x@, n);
            lemma_shifted_energy_monotonic(x@, shift as nat, n, n + 1);
            lemma_shifted_energy_monotonic(x@, shift as nat, n + 1, pairs(x@));
            lemma_shifted_energy(x@, shift as nat, n);
            lemma_square(a as int);
            lemma_square(b as int);
        }
        let t = wrapped(t);
        assert(t == pair_energy(x@, n));
        sum = add_rshift_uint(sum, t, shift);
        proof {
            n = n + 1;
        }
        i = i + 2;
    }
    if i < len {
        let a = x[i] as i32;
        let t = smulbb(a, a);
        proof {
            lemma_pair_energy(x@, n);
            lemma_shifted_energy_monotonic(x@, shift as nat, n, n + 1);
            lemma_shifted_energy_monotonic(x@, shift as nat, n + 1, pairs(x@));
            lemma_shifted_energy(x@, shift as nat, n);
            lemma_square(a as int);
        }
        let t = wrapped(t);
        assert(t == pair_energy(x@, n));
        sum = add_rshift_uint(sum, t, shift);
        proof {
            n = n + 1;
        }
    }
    assert(n == pairs(x@));
    sum
}

/// The unsigned word with the same bits.
fn wrapped(x: i32) -> (r: u32)
    ensures
        r == x as int % 0x1_0000_0000,
{
    let r = x as u32;
    assert(r == (x + 0) % 0x1_0000_0000) by (bit_vector)
        requires
            r == x as u32,
    ;
    r
}

proof fn lemma_square(a: int)
    requires
        -0x8000 <= a <= 0x7FFF,
    ensures
        super::math::low16(a) == a,
        0 <= a * a <= 0x4000_0000,
{
    assert(0 <= a * a <= 0x4000_0000) by (nonlinear_arith)
        requires
            -0x8000 <= a <= 0x7FFF,
    ;
}

proof fn lemma_shifted_energy_monotonic(x: Seq<i16>, shift: nat, m: int, n: int)
    requires
        0 <= m <= n,
    ensures
        shifted_energy(x, shift, m) <= shifted_energy(x, shift, n),
    decreases n - m,
{
    if m < n {
        lemma_shifted_energy_monotonic(x, shift, m + 1, n);
        lemma_pair_energy(x, m);
        lemma_pow2_pos(shift);
        let p = pair_energy(x, m);
        let d = pow2(shift) as int;
        assert(p / d >= 0) by (nonlinear_arith)
            requires
                p >= 0,
                d > 0,
        ;
    }
}

/// The energy of `x` and the right shift that makes it fit a word with
/// headroom.
pub fn sum_sqr_shift(x: &[i16]) -> (res: (i32, i32))
    requires
        1 <= x@.len() < 0x1000_0000,
    ensures
        res.0 == energy(x@),
        res.1 == energy_shift(x@),
        0 <= res.0 < 0x2000_0000,
        0 <= res.1 <= 30,
{
    proof {
        lemma_length(x@.len() as int);
        lemma_bound(x@);
        law_energy_headroom(x@);
    }
    let len = x.len() as u32;
    let coarse = ilog(len) - 1;
    // Conservative rounding: start from the number of samples.
    let bound = sum_pairs(x, len, coarse);
    let zeros = 32 - ilog(bound);
    let shift = if coarse + 3 < zeros {
        0
    } else {
        coarse + 3 - zeros
    };
    let nrg = sum_pairs(x, 0, shift);
    (nrg as i32, shift as i32)
}

/// The sum of the squares of some samples.
pub open spec fn sum_of_squares(x: Seq<i16>) -> int
    decreases x.len(),
{
    if x.len() == 0 {
        0
    } else {
        sum_of_squares(x.drop_last()) + x.last() * x.last()
    }
}

proof fn lemma_pairs_sum(x: Seq<i16>, n: int)
    requires
        0 <= n <= pairs(x),
    ensures
        shifted_energy(x, 0, n) == sum_of_squares(
            x.take(
                if 2 * n <= x.len() {
                    2 * n
                } else {
                    x.len() as int
                },
            ),
        ),
    decreases n,
{
    lemma2_to64();
    if n > 0 {
        lemma_pairs_sum(x, n - 1);
        let e = pair_energy(x, n - 1);
        assert(e / 1 == e);
        let before = x.take(2 * (n - 1));
        if 2 * n <= x.len() {
            let now = x.take(2 * n);
            assert(now.drop_last().drop_last() =~= before);
            assert(now.drop_last().last() == x[2 * n - 2]);
            assert(now.last() == x[2 * n - 1]);
            let (a, b) = (x[2 * n - 2] as int, x[2 * n - 1] as int);
            assert(sum_of_squares(now.drop_last()) == sum_of_squares(before) + a * a);
            assert(sum_of_squares(now) == sum_of_squares(before) + a * a + b * b);
            assert(e == a * a + b * b);
        } else {
            let now = x.take(x.len() as int);
            assert(now.drop_last() =~= before);
            assert(now.last() == x[2 * n - 2]);
            let a = x[2 * n - 2] as int;
            assert(sum_of_squares(now) == sum_of_squares(before) + a * a);
        }
    } else {
        assert(x.take(0).len() == 0);
    }
}

proof fn lemma_rounded_sum(x: Seq<i16>, shift: nat, n: int)
    requires
        n >= 0,
    ensures
        shifted_energy(x, shift, n) * pow2(shift) <= shifted_energy(x, 0, n),
        shifted_energy(x, 0, n) <= shifted_energy(x, shift, n) * pow2(shift) + n * (pow2(shift) - 1),
    decreases n,
{
    lemma2_to64();
    lemma_pow2_pos(shift);
    let d = pow2(shift) as int;
    if n > 0 {
        lemma_rounded_sum(x, shift, n - 1);
        let p = pair_energy(x, n - 1);
        let s = shifted_energy(x, shift, n - 1);
        assert(p / 1 == p);
        assert((p / d) * d <= p <= (p / d) * d + (d - 1)) by {
            vstd::arithmetic::div_mod::lemma_fundamental_div_mod(p, d);
            assert(d * (p / d) == (p / d) * d) by (nonlinear_arith);
        }
        assert((s + p / d) * d == s * d + (p / d) * d) by (nonlinear_arith);
        assert(n * (d - 1) == (n - 1) * (d - 1) + (d - 1)) by (nonlinear_arith);
    } else {
        assert(0 * d == 0 && 0 * (d - 1) == 0);
    }
}

/// The scaled energy, shifted back, is the sum of the squares, less what each
/// pair of samples lost by rounding down. Without a shift it is exact.
pub proof fn law_energy_is_sum_of_squares(x: Seq<i16>)
    requires
        1 <= x.len() < 0x1000_0000,
    ensures
        ({
            let scale = pow2(energy_shift(x) as nat) as int;
            &&& energy(x) * scale <= sum_of_squares(x)
            &&& sum_of_squares(x) <= energy(x) * scale + pairs(x) * (scale - 1)
            &&& energy_shift(x) == 0 ==> energy(x) == sum_of_squares(x)
        }),
{
    law_energy_headroom(x);
    lemma_pairs_sum(x, pairs(x));
    assert(x.take(x.len() as int) =~= x);
    let shift = energy_shift(x) as nat;
    lemma_rounded_sum(x, shift, pairs(x));
    lemma2_to64();
    if shift == 0 {
        assert(energy(x) * 1 == energy(x));
        assert(pairs(x) * 0 == 0);
    }
}

/// Energy is shifted only as far as the headroom needs: a shift means that the
/// sum of the squares, with the square of the length added, needs more than 28
/// bits besides it.
pub proof fn law_energy_shift_is_needed(x: Seq<i16>)
    requires
        1 <= x.len() < 0x1000_0000,
        energy_shift(x) > 0,
    ensures
        sum_of_squares(x) + x.len() * x.len() >= pow2((28 + energy_shift(x)) as nat),
{
    let len = x.len() as int;
    let n = pairs(x);
    let coarse = exponent(len) as nat;
    let s = shifted_energy(x, coarse, n);
    let bound = len + s;
    let shift = energy_shift(x);
    law_energy_headroom(x);
    lemma_length(len);
    lemma_bit_length(len);
    lemma_bound(x);
    lemma_bit_length(bound);
    let bl = bit_length(bound);
    assert(bl - 1 + coarse == 28 + shift);
    lemma_pow2_adds((bl - 1) as nat, coarse);
    lemma_pow2_pos(coarse);
    lemma_pairs_sum(x, n);
    assert(x.take(len) =~= x);
    lemma_rounded_sum(x, coarse, n);
    let c = pow2(coarse) as int;
    let p = pow2((bl - 1) as nat) as int;
    assert(p * c <= bound * c && bound * c == len * c + s * c && len * c <= len * len)
        by (nonlinear_arith)
        requires
            p <= bound,
            bound == len + s,
            0 < c <= len,
    ;
}

} // verus!
