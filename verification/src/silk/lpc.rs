//! Short-term prediction filters.

use vstd::arithmetic::power2::lemma2_to64;
use vstd::prelude::*;

use super::math::{
    add_sat32, clamped, lshift_sat32, rounded_shift, sat16, sat32, saturate16, shift_down, smlawb,
    smlawb_of, truncate32, wrap32,
};

verus! {

/// The largest order of a prediction filter.
pub const MAX_LPC_ORDER: usize = 16;

/// The factor of tap `i` in a bandwidth expansion by `chirp`, in Q16: its
/// power, rounded at each step.
pub open spec fn chirp_at(chirp: int, i: int) -> int
    decreases i,
{
    if i <= 0 {
        chirp
    } else {
        chirp_at(chirp, i - 1) + rounded_shift(chirp_at(chirp, i - 1) * (chirp - 0x1_0000), 16)
    }
}

/// Tap `i` of a filter after a bandwidth expansion.
pub open spec fn expanded_tap(a: int, chirp: int, i: int) -> int {
    rounded_shift(chirp_at(chirp, i) * a, 16)
}

proof fn lemma_chirp(chirp: int, i: int)
    requires
        0 <= chirp <= 0xFFFF,
    ensures
        0 <= chirp_at(chirp, i) <= chirp,
        0 <= chirp_at(chirp, i) + rounded_shift(
            chirp_at(chirp, i) * (chirp - 0x1_0000),
            16,
        ) <= chirp_at(chirp, i),
    decreases i,
{
    if i > 0 {
        lemma_chirp(chirp, i - 1);
    }
    lemma2_to64();
    let c = chirp_at(chirp, i);
    assert(-0x1_0000 * c <= c * (chirp - 0x1_0000) <= -c) by (nonlinear_arith)
        requires
            0 <= c,
            0 <= chirp <= 0xFFFF,
    ;
}

/// Expands the bandwidth of the first `order` taps of a filter.
pub fn bwexpander(ar: &mut [i16; MAX_LPC_ORDER], order: usize, chirp_q16: i32)
    requires
        order <= MAX_LPC_ORDER,
        0 <= chirp_q16 <= 0xFFFF,
    ensures
        forall|i: int|
            0 <= i < order ==> (#[trigger] final(ar)@[i]) == expanded_tap(
                old(ar)@[i] as int,
                chirp_q16 as int,
                i,
            ),
        forall|i: int| order <= i < MAX_LPC_ORDER ==> (#[trigger] final(ar)@[i]) == old(ar)@[i],
{
    let mut chirp = chirp_q16 as i64;
    let mut i: usize = 0;
    while i < order
        invariant
            i <= order <= MAX_LPC_ORDER,
            0 <= chirp_q16 <= 0xFFFF,
            chirp == chirp_at(chirp_q16 as int, i as int),
            forall|j: int|
                0 <= j < i ==> (#[trigger] ar@[j]) == expanded_tap(
                    old(ar)@[j] as int,
                    chirp_q16 as int,
                    j,
                ),
            forall|j: int| i <= j < MAX_LPC_ORDER ==> (#[trigger] ar@[j]) == old(ar)@[j],
        decreases order - i,
    {
        proof {
            lemma_chirp(chirp_q16 as int, i as int);
            lemma2_to64();
        }
        let tap = ar[i] as i64;
        assert(-0xFFFF * 0x8000 <= chirp * tap <= 0xFFFF * 0x7FFF) by (nonlinear_arith)
            requires
                0 <= chirp <= 0xFFFF,
                -0x8000 <= tap <= 0x7FFF,
        ;
        assert(ar@[i as int] == old(ar)@[i as int]);
        ar[i] = shift_down(chirp * tap + 0x8000, 16) as i16;
        assert(-0x1_0000 * 0xFFFF <= chirp * (chirp_q16 - 0x1_0000) <= 0) by (nonlinear_arith)
            requires
                0 <= chirp <= 0xFFFF,
                0 <= chirp_q16 <= 0xFFFF,
        ;
        chirp = chirp + shift_down(chirp * (chirp_q16 as i64 - 0x1_0000) + 0x8000, 16);
        i = i + 1;
    }
}

/// What the first `n` taps predict of sample `i`.
pub open spec fn predicted(input: Seq<i16>, b: Seq<i16>, i: int, n: int) -> int
    decreases n,
{
    if n <= 0 {
        0
    } else {
        predicted(input, b, i, n - 1) + input[i - n] * b[n - 1]
    }
}

/// The prediction error at sample `i`, in the precision of the samples.
pub open spec fn residual(input: Seq<i16>, b: Seq<i16>, order: int, i: int) -> int {
    sat16(rounded_shift(wrap32(0x1000 * input[i] - predicted(input, b, i, order)), 12))
}

/// Filters `input` by the prediction error filter with the first `order` taps
/// of `b` (Q12). The first `order` outputs are zero.
pub fn lpc_analysis_filter(input: &[i16], b: &[i16; MAX_LPC_ORDER], order: usize) -> (out: Vec<i16>)
    requires
        order <= MAX_LPC_ORDER,
    ensures
        out@.len() == input@.len(),
        forall|i: int|
            0 <= i < out@.len() ==> (#[trigger] out@[i]) == if i < order {
                0
            } else {
                residual(input@, b@, order as int, i)
            },
{
    let len = input.len();
    let mut out: Vec<i16> = Vec::new();
    let mut i: usize = 0;
    while i < len
        invariant
            i <= len,
            len == input@.len(),
            order <= MAX_LPC_ORDER,
            out@.len() == i,
            forall|k: int|
                0 <= k < i ==> (#[trigger] out@[k]) == if k < order {
                    0
                } else {
                    residual(input@, b@, order as int, k)
                },
        decreases len - i,
    {
        if i < order {
            out.push(0);
        } else {
            let mut sum: i64 = 0;
            let mut n: usize = 0;
            while n < order
                invariant
                    n <= order <= i,
                    order <= MAX_LPC_ORDER,
                    i < len,
                    len == input@.len(),
                    sum == predicted(input@, b@, i as int, n as int),
                    -0x4000_0000 * n <= sum <= 0x4000_0000 * n,
                decreases order - n,
            {
                let x = input[i - n - 1] as i64;
                let y = b[n] as i64;
                assert(-0x4000_0000 <= x * y <= 0x4000_0000) by (nonlinear_arith)
                    requires
                        -0x8000 <= x <= 0x7FFF,
                        -0x8000 <= y <= 0x7FFF,
                ;
                sum = sum + x * y;
                n = n + 1;
            }
            let error = truncate32(0x1000 * input[i] as i64 - sum);
            proof {
                lemma2_to64();
            }
            let rounded = shift_down(error as i64 + 0x800, 12) as i32;
            out.push(saturate16(rounded));
        }
        i = i + 1;
    }
    out
}

/// What the first `n` taps add to `start` from the samples at the end of
/// `signal`, in Q10 of the samples.
pub open spec fn synthesis_sum(signal: Seq<i32>, a: Seq<i16>, start: int, n: int) -> int
    decreases n,
{
    if n <= 0 {
        start
    } else {
        smlawb_of(
            synthesis_sum(signal, a, start, n - 1),
            signal[signal.len() - n] as int,
            a[n - 1] as int,
        )
    }
}

/// A word times sixteen, saturated.
pub open spec fn times_sixteen(x: int) -> int {
    clamped(x, -0x800_0000, 0x7FF_FFFF) * 16
}

/// The history `start` followed by the output of the synthesis filter with the
/// first `order` taps of `a` for the first `n` excitation samples.
pub open spec fn synthesised(
    start: Seq<i32>,
    excitation: Seq<i32>,
    a: Seq<i16>,
    order: int,
    n: int,
) -> Seq<i32>
    decreases n,
{
    if n <= 0 {
        start
    } else {
        let before = synthesised(start, excitation, a, order, n - 1);
        before.push(
            sat32(
                excitation[n - 1] + times_sixteen(synthesis_sum(before, a, order / 2, order)),
            ) as i32,
        )
    }
}

pub proof fn lemma_synthesised_len(
    start: Seq<i32>,
    excitation: Seq<i32>,
    a: Seq<i16>,
    order: int,
    n: int,
)
    requires
        n >= 0,
    ensures
        synthesised(start, excitation, a, order, n).len() == start.len() + n,
    decreases n,
{
    if n > 0 {
        lemma_synthesised_len(start, excitation, a, order, n - 1);
    }
}

/// Runs the synthesis filter with the first `order` taps of `a` (Q12) over
/// the excitation. The output begins with the history.
pub fn lpc_synthesis(
    start: &[i32; MAX_LPC_ORDER],
    excitation: &[i32],
    a: &[i16; MAX_LPC_ORDER],
    order: usize,
) -> (signal: Vec<i32>)
    requires
        order <= MAX_LPC_ORDER,
        excitation@.len() + MAX_LPC_ORDER <= usize::MAX,
    ensures
        signal@ == synthesised(
            start@,
            excitation@,
            a@,
            order as int,
            excitation@.len() as int,
        ),
        signal@.len() == MAX_LPC_ORDER + excitation@.len(),
{
    let len = excitation.len();
    let mut signal: Vec<i32> = Vec::new();
    let mut k: usize = 0;
    while k < MAX_LPC_ORDER
        invariant
            k <= MAX_LPC_ORDER,
            signal@ =~= start@.take(k as int),
        decreases MAX_LPC_ORDER - k,
    {
        signal.push(start[k]);
        k = k + 1;
    }
    assert(signal@ =~= start@);
    let mut i: usize = 0;
    while i < len
        invariant
            i <= len,
            len == excitation@.len(),
            len + MAX_LPC_ORDER <= usize::MAX,
            order <= MAX_LPC_ORDER,
            signal@.len() == MAX_LPC_ORDER + i,
            signal@ == synthesised(start@, excitation@, a@, order as int, i as int),
        decreases len - i,
    {
        let mut sum: i32 = (order / 2) as i32;
        let mut n: usize = 0;
        while n < order
            invariant
                n <= order <= MAX_LPC_ORDER,
                i < len,
                len + MAX_LPC_ORDER <= usize::MAX,
                signal@.len() == MAX_LPC_ORDER + i,
                sum == synthesis_sum(signal@, a@, order as int / 2, n as int),
            decreases order - n,
        {
            sum = smlawb(sum, signal[MAX_LPC_ORDER + i - n - 1], a[n] as i32);
            n = n + 1;
        }
        proof {
            lemma2_to64();
        }
        let sample = add_sat32(excitation[i], lshift_sat32(sum, 4));
        signal.push(sample);
        i = i + 1;
    }
    signal
}

/// A bandwidth expansion multiplies each tap by a power of the factor: by the
/// factor for the first and by one more for each that follows, every product
/// rounded to the nearest.
pub proof fn law_expansion_is_geometric(a: int, chirp: int, i: int)
    requires
        0 <= chirp <= 0xFFFF,
        i >= 0,
    ensures
        chirp_at(chirp, 0) == chirp,
        chirp_at(chirp, i) * chirp - 0x8000 <= 0x1_0000 * chirp_at(chirp, i + 1) <= chirp_at(
            chirp,
            i,
        ) * chirp + 0x8000,
        chirp_at(chirp, i) * a - 0x8000 <= 0x1_0000 * expanded_tap(a, chirp, i) <= chirp_at(
            chirp,
            i,
        ) * a + 0x8000,
        chirp_at(chirp, i + 1) <= chirp_at(chirp, i),
        a >= 0 ==> 0 <= expanded_tap(a, chirp, i) <= a,
        a <= 0 ==> a <= expanded_tap(a, chirp, i) <= 0,
{
    lemma2_to64();
    lemma_chirp(chirp, i);
    let c = chirp_at(chirp, i);
    assert(c * (chirp - 0x1_0000) == c * chirp - 0x1_0000 * c) by (nonlinear_arith);
    assert(a >= 0 ==> 0 <= c * a <= 0xFFFF * a) by (nonlinear_arith)
        requires
            0 <= c <= 0xFFFF,
    ;
    assert(a <= 0 ==> 0xFFFF * a <= c * a <= 0) by (nonlinear_arith)
        requires
            0 <= c <= 0xFFFF,
    ;
}

/// Whether a filter has a single tap, of one in Q12, at position `k`.
pub open spec fn repeats(b: Seq<i16>, order: int, k: int) -> bool {
    &&& 0 <= k < order <= b.len()
    &&& forall|j: int| 0 <= j < order ==> (#[trigger] b[j]) == if j == k {
        0x1000i16
    } else {
        0i16
    }
}

proof fn lemma_repeats(input: Seq<i16>, b: Seq<i16>, order: int, k: int, i: int, n: int)
    requires
        repeats(b, order, k),
        0 <= n <= order,
    ensures
        predicted(input, b, i, n) == if n > k {
            0x1000 * input[i - 1 - k]
        } else {
            0
        },
    decreases n,
{
    if n > 0 {
        lemma_repeats(input, b, order, k, i, n - 1);
        let x = input[i - n] as int;
        assert(x * 0x1000 == 0x1000 * x && x * 0 == 0);
        assert(b[n - 1] == if n - 1 == k {
            0x1000i16
        } else {
            0i16
        });
    }
}

/// Tap `k` of the prediction error filter looks `k + 1` samples back: with that
/// tap alone, at one, the output is the difference from that sample.
pub proof fn law_taps_look_back(input: Seq<i16>, b: Seq<i16>, order: int, k: int, i: int)
    requires
        repeats(b, order, k),
        order <= i < input.len(),
    ensures
        residual(input, b, order, i) == sat16(input[i] - input[i - 1 - k]),
{
    lemma2_to64();
    lemma_repeats(input, b, order, k, i, order);
    let d = input[i] - input[i - 1 - k];
    assert(0x1000 * input[i] - 0x1000 * input[i - 1 - k] == 0x1000 * d);
    assert(wrap32(0x1000 * d) == 0x1000 * d);
    assert((0x1000 * d + 0x800) / 0x1000 == d);
}

/// Without taps the prediction error filter passes its input on, and the
/// synthesis filter its excitation, up to the rounding of its sum.
pub proof fn law_no_taps_no_change(input: Seq<i16>, b: Seq<i16>, i: int)
    requires
        0 <= i < input.len(),
    ensures
        residual(input, b, 0, i) == input[i],
{
    lemma2_to64();
    assert(wrap32(0x1000 * input[i]) == 0x1000 * input[i]);
    assert((0x1000 * input[i] + 0x800) / 0x1000 == input[i] as int);
}

proof fn lemma_synthesis_repeats(signal: Seq<i32>, a: Seq<i16>, order: int, k: int, start: int, n: int)
    requires
        repeats(a, order, k),
        0 <= n <= order <= 16,
        signal.len() >= order,
        0 <= start <= 8,
    ensures
        synthesis_sum(signal, a, start, n) == if n > k {
            start + (signal[signal.len() - 1 - k] * 0x1000) / 0x1_0000
        } else {
            start
        },
    decreases n,
{
    if n > 0 {
        lemma_synthesis_repeats(signal, a, order, k, start, n - 1);
        let x = signal[signal.len() - n] as int;
        assert(a[n - 1] == if n - 1 == k {
            0x1000i16
        } else {
            0i16
        });
        assert(x * 0 == 0);
    }
}

/// Tap `k` of the synthesis filter feeds back the output `k + 1` samples before:
/// with that tap alone, at one, the output is the excitation plus that sample,
/// to within the rounding of the sum.
pub proof fn law_synthesis_feeds_back(
    start: Seq<i32>,
    excitation: Seq<i32>,
    a: Seq<i16>,
    order: int,
    k: int,
    n: int,
)
    requires
        repeats(a, order, k),
        order <= 16,
        start.len() >= order,
        0 <= n < excitation.len(),
        ({
            let past = synthesised(start, excitation, a, order, n)[start.len() + n - 1 - k];
            -0x3000_0000 <= past <= 0x3000_0000
        }),
        -0x3000_0000 <= excitation[n] <= 0x3000_0000,
    ensures
        ({
            let before = synthesised(start, excitation, a, order, n);
            let now = synthesised(start, excitation, a, order, n + 1);
            let past = before[start.len() + n - 1 - k];
            &&& now.take(start.len() + n) == before
            &&& excitation[n] + past - 16 < now[start.len() + n] - 16 * (order / 2)
                <= excitation[n] + past
        }),
{
    let before = synthesised(start, excitation, a, order, n);
    lemma_synthesised_len(start, excitation, a, order, n);
    lemma_synthesis_repeats(before, a, order, k, order / 2, order);
    let past = before[start.len() + n - 1 - k] as int;
    let sum = order / 2 + (past * 0x1000) / 0x1_0000;
    assert(past - 16 < 16 * ((past * 0x1000) / 0x1_0000) <= past);
    let now = synthesised(start, excitation, a, order, n + 1);
    assert(now.take(start.len() + n) =~= before);
}

/// Sixteen times a word is exact where it fits, and else the largest multiple of
/// sixteen that does, or the smallest.
pub proof fn law_times_sixteen_saturates(x: int)
    ensures
        -0x8000_0000 <= 16 * x < 0x8000_0000 ==> times_sixteen(x) == 16 * x,
        16 * x >= 0x8000_0000 ==> 0x8000_0000 - 16 <= times_sixteen(x) < 0x8000_0000,
        16 * x < -0x8000_0000 ==> times_sixteen(x) == -0x8000_0000,
{
}

} // verus!
