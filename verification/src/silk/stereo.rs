//! The stereo prediction weights: their levels, their coded form, and the
//! decoding of both.

use vstd::arithmetic::power2::{lemma2_to64, pow2};
use vstd::prelude::*;

use crate::range::message::{law_finds_message, law_message_unique, Item};
use crate::range::model::{DecoderState, EncoderState};
use crate::range::RangeDecoder;

use super::math::{smlabb, smulwb, smulwb_of};
use super::tables::{
    lemma_stereo_tables, table_codes, STEREO_ONLY_CODE_MID_ICDF, STEREO_PRED_JOINT_ICDF,
    STEREO_PRED_QUANT_Q13, UNIFORM3_ICDF, UNIFORM5_ICDF,
};

verus! {

/// Steps between two levels of the table.
pub const STEREO_QUANT_SUB_STEPS: usize = 5;

/// Half such a step, in Q16.
pub const HALF_SUB_STEP_Q16: i32 = 6554;

/// The number of levels of a weight.
pub const STEREO_LEVELS: usize = 75;

/// Half the distance of the levels between entries `i` and `i + 1` of the
/// table.
pub open spec fn half_step(i: int) -> int {
    smulwb_of(
        STEREO_PRED_QUANT_Q13@[i + 1] - STEREO_PRED_QUANT_Q13@[i],
        HALF_SUB_STEP_Q16 as int,
    )
}

/// Level `m` of a weight, in Q13: five levels lie between two entries of the
/// table, at the middle of their steps.
pub open spec fn weight_level(m: int) -> int {
    STEREO_PRED_QUANT_Q13@[m / 5] + half_step(m / 5) * (2 * (m % 5) + 1)
}

/// The coded form of two weights: an index that joins the coarse parts of
/// both, and for each a finer part and the step.
pub open spec fn weight_items(m0: int, m1: int) -> Seq<Item> {
    seq![
        Item::Table { k: 5 * (m0 / 15) + m1 / 15, icdf: STEREO_PRED_JOINT_ICDF@, ftb: 8 },
        Item::Table { k: (m0 / 5) % 3, icdf: UNIFORM3_ICDF@, ftb: 8 },
        Item::Table { k: m0 % 5, icdf: UNIFORM5_ICDF@, ftb: 8 },
        Item::Table { k: (m1 / 5) % 3, icdf: UNIFORM3_ICDF@, ftb: 8 },
        Item::Table { k: m1 % 5, icdf: UNIFORM5_ICDF@, ftb: 8 },
    ]
}

/// The coded form of the flag that only the mid channel is coded.
pub open spec fn mid_only_item(flag: bool) -> Item {
    Item::Table {
        k: if flag {
            1
        } else {
            0
        },
        icdf: STEREO_ONLY_CODE_MID_ICDF@,
        ftb: 8,
    }
}

pub proof fn lemma_table_item(icdf: Seq<u8>, k: int)
    requires
        table_codes(icdf),
        0 <= k < icdf.len(),
    ensures
        (Item::Table { k, icdf, ftb: 8 }).valid(),
{
    lemma2_to64();
    if k == 0 && icdf.len() > 1 {
        assert(icdf[0] > icdf[1]);
    }
}

pub proof fn lemma_weight_items(m0: int, m1: int)
    requires
        0 <= m0 < STEREO_LEVELS,
        0 <= m1 < STEREO_LEVELS,
    ensures
        forall|i: int| 0 <= i < 5 ==> (#[trigger] weight_items(m0, m1)[i]).valid(),
{
    lemma_stereo_tables();
    lemma_table_item(STEREO_PRED_JOINT_ICDF@, 5 * (m0 / 15) + m1 / 15);
    lemma_table_item(UNIFORM3_ICDF@, (m0 / 5) % 3);
    lemma_table_item(UNIFORM5_ICDF@, m0 % 5);
    lemma_table_item(UNIFORM3_ICDF@, (m1 / 5) % 3);
    lemma_table_item(UNIFORM5_ICDF@, m1 % 5);
}

/// The levels rise, and lie within the table.
pub proof fn lemma_weight_levels(m: int)
    requires
        0 <= m < STEREO_LEVELS,
    ensures
        1 <= half_step(m / 5) <= 400,
        -13732 <= weight_level(m) <= 13732,
        m + 1 < STEREO_LEVELS ==> weight_level(m) < weight_level(m + 1),
{
    let i = m / 5;
    let j = m % 5;
    let h = half_step(i);
    lemma_half_step(i);
    assert(h * (2 * j + 1) <= 9 * h) by (nonlinear_arith)
        requires
            0 <= j <= 4,
            h >= 0,
    ;
    assert(h * (2 * j + 1) >= h) by (nonlinear_arith)
        requires
            0 <= j <= 4,
            h >= 0,
    ;
    if j < 4 {
        assert((m + 1) / 5 == i && (m + 1) % 5 == j + 1);
        assert(h * (2 * (j + 1) + 1) == h * (2 * j + 1) + 2 * h) by (nonlinear_arith);
    } else if m + 1 < STEREO_LEVELS {
        assert((m + 1) / 5 == i + 1 && (m + 1) % 5 == 0);
        lemma_half_step(i + 1);
    }
}

proof fn lemma_half_step(i: int)
    requires
        0 <= i < 15,
    ensures
        1 <= half_step(i) <= 400,
        -13732 <= STEREO_PRED_QUANT_Q13@[i],
        STEREO_PRED_QUANT_Q13@[i] + 9 * half_step(i) < STEREO_PRED_QUANT_Q13@[i + 1] <= 13732,
{
    if i == 0 {
        assert(half_step(0) == 368);
    } else if i == 1 {
        assert(half_step(1) == 178);
    } else if i == 2 {
        assert(half_step(2) == 74);
    } else if i == 3 {
        assert(half_step(3) == 102);
    } else if i == 4 {
        assert(half_step(4) == 150);
    } else if i == 5 {
        assert(half_step(5) == 205);
    } else if i == 6 {
        assert(half_step(6) == 213);
    } else if i == 7 {
        assert(half_step(7) == 164);
    } else if i == 8 {
        assert(half_step(8) == 213);
    } else if i == 9 {
        assert(half_step(9) == 205);
    } else if i == 10 {
        assert(half_step(10) == 150);
    } else if i == 11 {
        assert(half_step(11) == 102);
    } else if i == 12 {
        assert(half_step(12) == 74);
    } else if i == 13 {
        assert(half_step(13) == 178);
    } else if i == 14 {
        assert(half_step(14) == 368);
    }
}

/// A weight level from the table entry `i` and the step `j`.
pub fn weight_at(i: usize, j: usize) -> (weight: i32)
    requires
        i < 15,
        j < 5,
    ensures
        weight == weight_level(5 * i + j),
{
    proof {
        lemma_half_step(i as int);
        assert((5 * i + j) / 5 == i && (5 * i + j) % 5 == j);
    }
    let low_q13 = STEREO_PRED_QUANT_Q13[i] as i32;
    let step_q13 = smulwb(STEREO_PRED_QUANT_Q13[i + 1] as i32 - low_q13, HALF_SUB_STEP_Q16);
    assert(0 <= step_q13 * (2 * j + 1) <= 400 * 9) by (nonlinear_arith)
        requires
            1 <= step_q13 <= 400,
            0 <= j < 5,
    ;
    smlabb(low_q13, step_q13, 2 * j as i32 + 1)
}

/// Decodes a symbol of a table with frequencies out of 256.
fn decode_table(dec: &mut RangeDecoder<'_>, icdf: &[u8]) -> (k: usize)
    requires
        old(dec).inv(),
        table_codes(icdf@),
        old(dec)@.nbits_total() + 24 <= u32::MAX,
    ensures
        final(dec).inv(),
        k < icdf@.len(),
        old(dec)@.finds(Item::Table { k: k as int, icdf: icdf@, ftb: 8 }),
        final(dec)@ == old(dec)@.read(Item::Table { k: k as int, icdf: icdf@, ftb: 8 }),
        final(dec)@.nbits_total() <= old(dec)@.nbits_total() + 24,
{
    proof {
        lemma2_to64();
    }
    dec.decode_icdf(icdf, 8)
}

proof fn lemma_level_parts(coarse: int, fine: int, step: int)
    requires
        0 <= coarse < 5,
        0 <= fine < 3,
        0 <= step < 5,
    ensures
        ({
            let m = 15 * coarse + 5 * fine + step;
            0 <= m < STEREO_LEVELS && m / 15 == coarse && (m / 5) % 3 == fine && m % 5 == step
        }),
{
}

/// Decodes the numbers of the levels of the two prediction weights.
fn decode_levels(dec: &mut RangeDecoder<'_>) -> (levels: (usize, usize))
    requires
        old(dec).inv(),
        old(dec)@.nbits_total() + 120 <= u32::MAX,
    ensures
        final(dec).inv(),
        levels.0 < STEREO_LEVELS,
        levels.1 < STEREO_LEVELS,
        old(dec)@.finds_all(weight_items(levels.0 as int, levels.1 as int)),
        final(dec)@ == old(dec)@.read_all(weight_items(levels.0 as int, levels.1 as int), 5),
        final(dec)@.nbits_total() <= old(dec)@.nbits_total() + 120,
{
    let ghost start = dec@;
    proof {
        lemma_stereo_tables();
    }
    let n = decode_table(dec, &STEREO_PRED_JOINT_ICDF);
    let ghost s1 = dec@;
    let fine0 = decode_table(dec, &UNIFORM3_ICDF);
    let ghost s2 = dec@;
    let step0 = decode_table(dec, &UNIFORM5_ICDF);
    let ghost s3 = dec@;
    let fine1 = decode_table(dec, &UNIFORM3_ICDF);
    let ghost s4 = dec@;
    let step1 = decode_table(dec, &UNIFORM5_ICDF);
    let m0 = 15 * (n / 5) + 5 * fine0 + step0;
    let m1 = 15 * (n % 5) + 5 * fine1 + step1;
    proof {
        let items = weight_items(m0 as int, m1 as int);
        lemma_level_parts((n / 5) as int, fine0 as int, step0 as int);
        lemma_level_parts((n % 5) as int, fine1 as int, step1 as int);
        lemma_read_five(start, items, s1, s2, s3, s4, dec@);
    }
    (m0, m1)
}

/// Decodes the two prediction weights (Q13). The first is returned as its
/// difference from the second.
pub fn stereo_decode_pred(dec: &mut RangeDecoder<'_>) -> (pred_q13: [i32; 2])
    requires
        old(dec).inv(),
        old(dec)@.nbits_total() + 120 <= u32::MAX,
    ensures
        final(dec).inv(),
        final(dec)@.nbits_total() <= old(dec)@.nbits_total() + 120,
        exists|m0: int, m1: int|
            #![trigger weight_items(m0, m1)]
            0 <= m0 < STEREO_LEVELS && 0 <= m1 < STEREO_LEVELS && old(dec)@.finds_all(
                weight_items(m0, m1),
            ) && final(dec)@ == old(dec)@.read_all(weight_items(m0, m1), 5) && pred_q13@
                == weights(m0, m1),
{
    let (m0, m1) = decode_levels(dec);
    proof {
        lemma_weight_levels(m0 as int);
        lemma_weight_levels(m1 as int);
    }
    let weight0 = weight_at(m0 / 5, m0 % 5);
    let weight1 = weight_at(m1 / 5, m1 % 5);
    let pred_q13 = [weight0 - weight1, weight1];
    assert(pred_q13@ =~= weights(m0 as int, m1 as int));
    pred_q13
}

/// The weights of two levels, the first as its difference from the second.
pub open spec fn weights(m0: int, m1: int) -> Seq<i32> {
    seq![(weight_level(m0) - weight_level(m1)) as i32, weight_level(m1) as i32]
}

/// Decodes the flag that only the mid channel is coded.
pub fn stereo_decode_mid_only(dec: &mut RangeDecoder<'_>) -> (mid_only: bool)
    requires
        old(dec).inv(),
        old(dec)@.nbits_total() + 24 <= u32::MAX,
    ensures
        final(dec).inv(),
        old(dec)@.finds(mid_only_item(mid_only)),
        final(dec)@ == old(dec)@.read(mid_only_item(mid_only)),
        final(dec)@.nbits_total() <= old(dec)@.nbits_total() + 24,
{
    proof {
        lemma_stereo_tables();
    }
    decode_table(dec, &STEREO_ONLY_CODE_MID_ICDF) != 0
}

proof fn lemma_levels_unique(m0: int, m1: int, n0: int, n1: int)
    requires
        0 <= m0 < STEREO_LEVELS,
        0 <= m1 < STEREO_LEVELS,
        0 <= n0 < STEREO_LEVELS,
        0 <= n1 < STEREO_LEVELS,
        5 * (m0 / 15) + m1 / 15 == 5 * (n0 / 15) + n1 / 15,
        (m0 / 5) % 3 == (n0 / 5) % 3,
        m0 % 5 == n0 % 5,
        (m1 / 5) % 3 == (n1 / 5) % 3,
        m1 % 5 == n1 % 5,
    ensures
        m0 == n0,
        m1 == n1,
{
    assert(m0 / 15 == n0 / 15 && m1 / 15 == n1 / 15);
}

/// What a decoder finds of the two weights is unique.
pub proof fn law_weights_unique(dec: DecoderState, m0: int, m1: int, n0: int, n1: int)
    requires
        0 <= m0 < STEREO_LEVELS,
        0 <= m1 < STEREO_LEVELS,
        0 <= n0 < STEREO_LEVELS,
        0 <= n1 < STEREO_LEVELS,
        dec.finds_all(weight_items(m0, m1)),
        dec.finds_all(weight_items(n0, n1)),
    ensures
        m0 == n0,
        m1 == n1,
{
    let a = weight_items(m0, m1);
    let b = weight_items(n0, n1);
    law_message_unique(dec, a, b, 5);
    assert(a[0] == b[0] && a[1] == b[1] && a[2] == b[2] && a[3] == b[3] && a[4] == b[4]);
    lemma_levels_unique(m0, m1, n0, n1);
}

/// The weights that were coded are the only ones that the decoder finds in a
/// frame that carries them.
pub proof fn law_weights_round_trip(
    dec: DecoderState,
    enc: EncoderState,
    m0: int,
    m1: int,
    n0: int,
    n1: int,
)
    requires
        enc.valid(),
        dec.follows(enc),
        0 <= m0 < STEREO_LEVELS,
        0 <= m1 < STEREO_LEVELS,
        enc.write_all(weight_items(m0, m1), 5).carried_by(dec.data),
        0 <= n0 < STEREO_LEVELS,
        0 <= n1 < STEREO_LEVELS,
    ensures
        dec.finds_all(weight_items(n0, n1)) <==> n0 == m0 && n1 == m1,
        dec.read_all(weight_items(m0, m1), 5).follows(enc.write_all(weight_items(m0, m1), 5)),
{
    lemma_weight_items(m0, m1);
    law_finds_message(dec, enc, weight_items(m0, m1));
    if dec.finds_all(weight_items(n0, n1)) {
        law_weights_unique(dec, m0, m1, n0, n1);
    }
}

proof fn lemma_read_five(
    start: DecoderState,
    items: Seq<Item>,
    s1: DecoderState,
    s2: DecoderState,
    s3: DecoderState,
    s4: DecoderState,
    s5: DecoderState,
)
    requires
        items.len() == 5,
        start.finds(items[0]) && s1 == start.read(items[0]),
        s1.finds(items[1]) && s2 == s1.read(items[1]),
        s2.finds(items[2]) && s3 == s2.read(items[2]),
        s3.finds(items[3]) && s4 == s3.read(items[3]),
        s4.finds(items[4]) && s5 == s4.read(items[4]),
    ensures
        start.finds_all(items),
        start.read_all(items, 5) == s5,
{
    assert(start.read_all(items, 0) == start);
    assert(start.read_all(items, 1) == s1);
    assert(start.read_all(items, 2) == s2);
    assert(start.read_all(items, 3) == s3);
    assert(start.read_all(items, 4) == s4);
    assert(start.read_all(items, 5) == s5);
    assert forall|n: int| 0 <= n < items.len() implies start.read_all(items, n as nat).finds(
        #[trigger] items[n],
    ) by {
        assert(n == 0 || n == 1 || n == 2 || n == 3 || n == 4);
    }
}

/// Five levels lie between two entries of the table, equally far apart, and half
/// as far from the entries, up to rounding. Levels are symmetric around zero.
pub proof fn law_weight_levels(m: int)
    requires
        0 <= m < STEREO_LEVELS,
    ensures
        STEREO_PRED_QUANT_Q13@[m / 5] < weight_level(m) < STEREO_PRED_QUANT_Q13@[m / 5 + 1],
        m % 5 < 4 ==> weight_level(m + 1) - weight_level(m) == 2 * half_step(m / 5),
        m % 5 == 0 ==> weight_level(m) - STEREO_PRED_QUANT_Q13@[m / 5] == half_step(m / 5),
        m % 5 == 4 ==> 0 <= STEREO_PRED_QUANT_Q13@[m / 5 + 1] - weight_level(m) - half_step(m / 5)
            <= 9,
        0 <= weight_level(m) + weight_level(74 - m) + 10 <= 20,
{
    let i = m / 5;
    let j = m % 5;
    lemma_half_step(i);
    lemma_half_step(14 - i);
    assert((74 - m) / 5 == 14 - i && (74 - m) % 5 == 4 - j);
    let h = half_step(i);
    assert(half_step(14 - i) == h);
    assert(h * (2 * j + 1) == 2 * (h * j) + h) by (nonlinear_arith);
    assert(h * (2 * (4 - j) + 1) == 9 * h - 2 * (h * j)) by (nonlinear_arith);
    if j < 4 {
        assert((m + 1) / 5 == i && (m + 1) % 5 == j + 1);
        assert(h * (2 * (j + 1) + 1) == 2 * (h * j) + 3 * h) by (nonlinear_arith);
    }
    assert(0 <= h * j <= 4 * h) by (nonlinear_arith)
        requires
            0 <= j <= 4,
            h >= 0,
    ;
    lemma_thirds(i);
    if j == 4 {
        assert(h * 4 == 4 * h);
    }
    if j == 0 {
        assert(h * 0 == 0);
    }
}

proof fn lemma_thirds(i: int)
    requires
        0 <= i < 15,
    ensures
        half_step(14 - i) == half_step(i),
        0 <= STEREO_PRED_QUANT_Q13@[i + 1] - STEREO_PRED_QUANT_Q13@[i] - 10 * half_step(i) <= 9,
        STEREO_PRED_QUANT_Q13@[14 - i] == -STEREO_PRED_QUANT_Q13@[i + 1],
        half_step(i) >= 1,
{
    assert(STEREO_PRED_QUANT_Q13@[14 - i] == -STEREO_PRED_QUANT_Q13@[i + 1]);
    assert(STEREO_PRED_QUANT_Q13@[15 - i] == -STEREO_PRED_QUANT_Q13@[i]);
}

/// What a decoder makes of the five symbols of two weights. The joint one names
/// the coarse parts of both, that of the first weight counting five times; then
/// come, for each weight in turn, which third of that part, and the step.
pub proof fn law_weights_from_symbols(
    joint: int,
    third0: int,
    step0: int,
    third1: int,
    step1: int,
)
    requires
        0 <= joint < 25,
        0 <= third0 < 3,
        0 <= step0 < 5,
        0 <= third1 < 3,
        0 <= step1 < 5,
    ensures
        ({
            let m0 = 15 * (joint / 5) + 5 * third0 + step0;
            let m1 = 15 * (joint % 5) + 5 * third1 + step1;
            weight_items(m0, m1) =~= seq![
                Item::Table { k: joint, icdf: STEREO_PRED_JOINT_ICDF@, ftb: 8 },
                Item::Table { k: third0, icdf: UNIFORM3_ICDF@, ftb: 8 },
                Item::Table { k: step0, icdf: UNIFORM5_ICDF@, ftb: 8 },
                Item::Table { k: third1, icdf: UNIFORM3_ICDF@, ftb: 8 },
                Item::Table { k: step1, icdf: UNIFORM5_ICDF@, ftb: 8 },
            ]
        }),
{
    lemma_level_parts(joint / 5, third0, step0);
    lemma_level_parts(joint % 5, third1, step1);
}

/// The first weight is given as its difference from the second: the sum of the
/// two is the level of the first.
pub proof fn law_weights_sum(m0: int, m1: int)
    requires
        0 <= m0 < STEREO_LEVELS,
        0 <= m1 < STEREO_LEVELS,
    ensures
        weights(m0, m1).len() == 2,
        weights(m0, m1)[0] + weights(m0, m1)[1] == weight_level(m0),
        weights(m0, m1)[1] == weight_level(m1),
{
    lemma_weight_levels(m0);
    lemma_weight_levels(m1);
}

/// A frame whose side channel is left out is taken to be one in four.
pub proof fn law_mid_only_is_rarer(flag: bool)
    ensures
        mid_only_item(flag) matches Item::Table { k, icdf, ftb } && {
            let before = if k == 0 {
                pow2(ftb) as int
            } else {
                icdf[k - 1] as int
            };
            &&& 0 <= k < icdf.len()
            &&& 4 * (before - icdf[k]) == pow2(ftb) * if flag {
                1int
            } else {
                3
            }
        },
{
    vstd::arithmetic::power2::lemma2_to64();
}

} // verus!
