//! Quantisation of the subframe gains, uniform on a log scale.
//!
//! A gain index is either a full level or a step from the level before, with
//! double steps above a threshold. The level accumulates across frames.

use vstd::prelude::*;

use super::math::{
    clamped, least, lin2log, lin2log_of, log2lin, log2lin_of, most, smulwb, smulwb_of,
};

verus! {

/// The most subframes in a frame.
pub const MAX_NB_SUBFR: usize = 4;

/// The number of quantisation levels.
pub const N_LEVELS_QGAIN: i32 = 64;

/// The largest and the smallest step.
pub const MAX_DELTA_GAIN_QUANT: i32 = 36;

pub const MIN_DELTA_GAIN_QUANT: i32 = -4;

/// The lowest gain on the log scale: 2 dB in units of 6/128 dB, above 16.
pub const OFFSET: i32 = 2090;

/// The distance of two levels on the log scale, in Q16: 86 dB over 63 steps.
pub const INV_SCALE_Q16: i32 = 1_907_825;

/// The reciprocal of that distance, in Q16.
pub const SCALE_Q16: i32 = 2251;

/// The signed byte with the same low bits.
pub open spec fn wrap8(x: int) -> int {
    (x + 128) % 256 - 128
}

/// The gain of a level.
pub open spec fn gain_of(level: int) -> int {
    log2lin_of(least(smulwb_of(INV_SCALE_Q16 as int, level) + OFFSET, 3967))
}

/// The level of a gain, rounded towards the level before.
pub open spec fn level_of(gain: int, prev: int) -> int {
    let floor = smulwb_of(SCALE_Q16 as int, lin2log_of(gain) - OFFSET);
    clamped(
        if floor < prev {
            floor + 1
        } else {
            floor
        },
        0,
        N_LEVELS_QGAIN - 1,
    )
}

/// The step from `prev` beyond which steps count double.
pub open spec fn double_step(prev: int) -> int {
    2 * MAX_DELTA_GAIN_QUANT - N_LEVELS_QGAIN + prev
}

/// The index that codes a gain behind the level `prev`, and the level that it
/// reaches.
pub open spec fn quantised(gain: int, prev: int, full: bool) -> (int, int) {
    coded(level_of(gain, prev), prev, full)
}

/// The index for the wanted level behind the level `prev`, and the level that
/// it reaches.
pub open spec fn coded(level: int, prev: int, full: bool) -> (int, int) {
    if full {
        let index = most(level, prev + MIN_DELTA_GAIN_QUANT);
        (index, index)
    } else {
        let wanted = wrap8(level - prev);
        let step = clamped(
            if wanted > double_step(prev) {
                double_step(prev) + (wanted - double_step(prev) + 1) / 2
            } else {
                wanted
            },
            MIN_DELTA_GAIN_QUANT as int,
            MAX_DELTA_GAIN_QUANT as int,
        );
        let next = if step > double_step(prev) {
            least(prev + 2 * step - double_step(prev), N_LEVELS_QGAIN - 1)
        } else {
            wrap8(prev + step)
        };
        (step - MIN_DELTA_GAIN_QUANT, next)
    }
}

/// The level that an index reaches from the level `prev`.
pub open spec fn dequantised(index: int, prev: int, full: bool) -> int {
    let step = index + MIN_DELTA_GAIN_QUANT;
    let level = if full {
        most(index, prev - 16)
    } else if step > double_step(prev) {
        wrap8(prev + 2 * step - double_step(prev))
    } else {
        wrap8(prev + step)
    };
    clamped(level, 0, N_LEVELS_QGAIN - 1)
}

/// The level after the first `k` gains were quantised.
pub open spec fn quantised_level(gains: Seq<i32>, prev: int, conditional: bool, k: int) -> int
    decreases k,
{
    if k <= 0 {
        prev
    } else {
        quantised(
            gains[k - 1] as int,
            quantised_level(gains, prev, conditional, k - 1),
            k == 1 && !conditional,
        ).1
    }
}

/// The index of gain `k`.
pub open spec fn quantised_index(gains: Seq<i32>, prev: int, conditional: bool, k: int) -> int {
    quantised(
        gains[k] as int,
        quantised_level(gains, prev, conditional, k),
        k == 0 && !conditional,
    ).0
}

/// The level after the first `k` indices.
pub open spec fn dequantised_level(ind: Seq<i8>, prev: int, conditional: bool, k: int) -> int
    decreases k,
{
    if k <= 0 {
        prev
    } else {
        dequantised(
            ind[k - 1] as int,
            dequantised_level(ind, prev, conditional, k - 1),
            k == 1 && !conditional,
        )
    }
}

/// `x` reduced to eight bits.
fn truncate8(x: i32) -> (r: i8)
    ensures
        r == wrap8(x as int),
{
    let r = x as i8;
    assert(r == (x + 128) % 256 - 128) by (bit_vector)
        requires
            r == x as i8,
    ;
    r
}

/// The value of `lo..=hi` nearest to `x`.
fn clamp(x: i32, lo: i32, hi: i32) -> (r: i32)
    requires
        lo <= hi,
    ensures
        r == clamped(x as int, lo as int, hi as int),
{
    if x < lo {
        lo
    } else if x > hi {
        hi
    } else {
        x
    }
}

/// The gain of a level.
fn gain_at(level: i8) -> (gain: i32)
    ensures
        gain == gain_of(level as int),
        level >= 0 ==> gain > 0,
{
    let log = smulwb(INV_SCALE_Q16, level as i32) + OFFSET;
    log2lin(
        if log < 3967 {
            log
        } else {
            3967
        },
    )
}

/// Quantises linear Q16 gains, one per subframe, to indices, and replaces the
/// gains by those that the indices stand for. `prev_ind` is the level that
/// accumulates. The exact inverse of [`gains_dequant`].
pub fn gains_quant(
    ind: &mut [i8; MAX_NB_SUBFR],
    gain_q16: &mut [i32; MAX_NB_SUBFR],
    prev_ind: &mut i8,
    conditional: bool,
    nb_subfr: usize,
)
    requires
        nb_subfr <= MAX_NB_SUBFR,
        !conditional ==> *old(prev_ind) <= N_LEVELS_QGAIN - 1 - MIN_DELTA_GAIN_QUANT,
    ensures
        *final(prev_ind) == quantised_level(
            old(gain_q16)@,
            *old(prev_ind) as int,
            conditional,
            nb_subfr as int,
        ),
        forall|k: int|
            0 <= k < nb_subfr ==> (#[trigger] final(ind)@[k]) == quantised_index(
                old(gain_q16)@,
                *old(prev_ind) as int,
                conditional,
                k,
            ),
        forall|k: int|
            0 <= k < nb_subfr ==> (#[trigger] final(gain_q16)@[k]) == gain_of(
                quantised_level(old(gain_q16)@, *old(prev_ind) as int, conditional, k + 1),
            ),
        forall|k: int|
            nb_subfr <= k < MAX_NB_SUBFR ==> (#[trigger] final(ind)@[k]) == old(ind)@[k],
        forall|k: int|
            nb_subfr <= k < MAX_NB_SUBFR ==> (#[trigger] final(gain_q16)@[k])
                == old(gain_q16)@[k],
{
    let ghost gains = gain_q16@;
    let ghost start = *prev_ind as int;
    let mut k: usize = 0;
    while k < nb_subfr
        invariant
            k <= nb_subfr <= MAX_NB_SUBFR,
            !conditional && k == 0 ==> *prev_ind <= N_LEVELS_QGAIN - 1 - MIN_DELTA_GAIN_QUANT,
            gains == old(gain_q16)@,
            start == *old(prev_ind),
            *prev_ind == quantised_level(gains, start, conditional, k as int),
            forall|j: int|
                0 <= j < k ==> (#[trigger] ind@[j]) == quantised_index(
                    gains,
                    start,
                    conditional,
                    j,
                ),
            forall|j: int|
                0 <= j < k ==> (#[trigger] gain_q16@[j]) == gain_of(
                    quantised_level(gains, start, conditional, j + 1),
                ),
            forall|j: int| k <= j < MAX_NB_SUBFR ==> (#[trigger] ind@[j]) == old(ind)@[j],
            forall|j: int| k <= j < MAX_NB_SUBFR ==> (#[trigger] gain_q16@[j]) == gains[j],
        decreases nb_subfr - k,
    {
        let prev = *prev_ind as i32;
        // Log scale, scale, floor.
        assert(gain_q16@[k as int] == gains[k as int]);
        let floor = smulwb(SCALE_Q16, lin2log(gain_q16[k]) - OFFSET);
        // Round towards the previous index.
        let nudged = if floor < prev { floor + 1 } else { floor };
        let level = clamp(nudged, 0, N_LEVELS_QGAIN - 1);
        if k == 0 && !conditional {
            // A full index, limited so that it cannot drop too far.
            let index = clamp(level, prev + MIN_DELTA_GAIN_QUANT, N_LEVELS_QGAIN - 1);
            ind[k] = index as i8;
            *prev_ind = index as i8;
        } else {
            // A step.
            let wanted = truncate8(level - prev) as i32;
            let threshold = 2 * MAX_DELTA_GAIN_QUANT - N_LEVELS_QGAIN + prev;
            let halved = if wanted > threshold {
                threshold + (wanted - threshold + 1) / 2
            } else {
                wanted
            };
            let step = clamp(halved, MIN_DELTA_GAIN_QUANT, MAX_DELTA_GAIN_QUANT);
            if step > threshold {
                let next = prev + 2 * step - threshold;
                *prev_ind =
                if next < N_LEVELS_QGAIN - 1 {
                    next as i8
                } else {
                    (N_LEVELS_QGAIN - 1) as i8
                };
            } else {
                *prev_ind = truncate8(prev + step);
            }
            // Shift to make it non-negative.
            ind[k] = (step - MIN_DELTA_GAIN_QUANT) as i8;
        }
        gain_q16[k] = gain_at(*prev_ind);
        k = k + 1;
    }
}

/// The linear Q16 gains of the decoded indices, one per subframe; `prev_ind`
/// is the level that accumulates.
pub fn gains_dequant(
    ind: &[i8; MAX_NB_SUBFR],
    prev_ind: &mut i8,
    conditional: bool,
    nb_subfr: usize,
) -> (gain_q16: [i32; MAX_NB_SUBFR])
    requires
        nb_subfr <= MAX_NB_SUBFR,
    ensures
        *final(prev_ind) == dequantised_level(
            ind@,
            *old(prev_ind) as int,
            conditional,
            nb_subfr as int,
        ),
        forall|k: int|
            0 <= k < nb_subfr ==> (#[trigger] gain_q16@[k]) == gain_of(
                dequantised_level(ind@, *old(prev_ind) as int, conditional, k + 1),
            ),
        forall|k: int| 0 <= k < nb_subfr ==> (#[trigger] gain_q16@[k]) > 0,
        forall|k: int| nb_subfr <= k < MAX_NB_SUBFR ==> (#[trigger] gain_q16@[k]) == 0,
{
    let mut gain_q16: [i32; MAX_NB_SUBFR] = [0, 0, 0, 0];
    let ghost start = *prev_ind as int;
    let mut k: usize = 0;
    while k < nb_subfr
        invariant
            k <= nb_subfr <= MAX_NB_SUBFR,
            start == *old(prev_ind),
            *prev_ind == dequantised_level(ind@, start, conditional, k as int),
            forall|j: int|
                0 <= j < k ==> (#[trigger] gain_q16@[j]) == gain_of(
                    dequantised_level(ind@, start, conditional, j + 1),
                ),
            forall|j: int| 0 <= j < k ==> (#[trigger] gain_q16@[j]) > 0,
            forall|j: int| k <= j < MAX_NB_SUBFR ==> (#[trigger] gain_q16@[j]) == 0,
        decreases nb_subfr - k,
    {
        let prev = *prev_ind as i32;
        let index = ind[k] as i32;
        let level = if k == 0 && !conditional {
            // The level may not drop more than 16 steps.
            if index > prev - 16 {
                index
            } else {
                prev - 16
            }
        } else {
            let step = index + MIN_DELTA_GAIN_QUANT;
            let threshold = 2 * MAX_DELTA_GAIN_QUANT - N_LEVELS_QGAIN + prev;
            if step > threshold {
                truncate8(prev + 2 * step - threshold) as i32
            } else {
                truncate8(prev + step) as i32
            }
        };
        *prev_ind = clamp(level, 0, N_LEVELS_QGAIN - 1) as i8;
        gain_q16[k] = gain_at(*prev_ind);
        k = k + 1;
    }
    gain_q16
}

/// Whether `ind` holds the indices of the first `n` gains.
pub open spec fn codes(
    ind: Seq<i8>,
    gains: Seq<i32>,
    prev: int,
    conditional: bool,
    n: int,
) -> bool {
    forall|k: int|
        0 <= k < n ==> (#[trigger] ind[k]) == quantised_index(gains, prev, conditional, k)
}

proof fn lemma_step(level: int, prev: int, full: bool)
    requires
        0 <= level < N_LEVELS_QGAIN,
        0 <= prev < N_LEVELS_QGAIN,
    ensures
        dequantised(coded(level, prev, full).0, prev, full) == coded(level, prev, full).1,
        0 <= coded(level, prev, full).1 < N_LEVELS_QGAIN,
        0 <= coded(level, prev, full).0 < N_LEVELS_QGAIN,
{
    if !full {
        let wanted = level - prev;
        assert(wrap8(wanted) == wanted);
        let limit = double_step(prev);
        let halved = if wanted > limit {
            limit + (wanted - limit + 1) / 2
        } else {
            wanted
        };
        let step = clamped(halved, MIN_DELTA_GAIN_QUANT as int, MAX_DELTA_GAIN_QUANT as int);
        assert(coded(level, prev, full).0 == step - MIN_DELTA_GAIN_QUANT);
        if step > limit {
            let next = prev + 2 * step - limit;
            assert(0 <= next <= 64);
            assert(wrap8(next) == next);
        } else {
            assert(0 <= prev + step < N_LEVELS_QGAIN);
            assert(wrap8(prev + step) == prev + step);
        }
    }
}

proof fn lemma_level(gain: int, prev: int)
    ensures
        0 <= level_of(gain, prev) < N_LEVELS_QGAIN,
{
}

/// Dequantising what was quantised gives back the same levels, and so the same
/// gains; the levels stay in range, and the indices are not negative.
pub proof fn law_gains_round_trip(
    ind: Seq<i8>,
    gains: Seq<i32>,
    prev: int,
    conditional: bool,
    n: int,
)
    requires
        0 <= prev < N_LEVELS_QGAIN,
        codes(ind, gains, prev, conditional, n),
    ensures
        dequantised_level(ind, prev, conditional, n) == quantised_level(
            gains,
            prev,
            conditional,
            n,
        ),
        0 <= quantised_level(gains, prev, conditional, n) < N_LEVELS_QGAIN,
        forall|k: int| 0 <= k < n ==> (#[trigger] ind[k]) >= 0,
    decreases n,
{
    if n > 0 {
        law_gains_round_trip(ind, gains, prev, conditional, n - 1);
        assert(ind[n - 1] == quantised_index(gains, prev, conditional, n - 1));
        let before = quantised_level(gains, prev, conditional, n - 1);
        let gain = gains[n - 1] as int;
        lemma_level(gain, before);
        lemma_step(level_of(gain, before), before, n == 1 && !conditional);
    }
}

} // verus!
