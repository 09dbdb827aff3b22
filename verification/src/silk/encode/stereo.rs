//! Quantisation and coding of the stereo prediction weights.
//!
//! Each weight is moved to the nearest of 75 levels. The levels of both are
//! coded as a joint index and two refinements for each weight, which is what
//! the decoder reads.

use vstd::prelude::*;

use crate::range::message::Item;
use crate::range::model::EncoderState;
use crate::range::RangeEncoder;
use crate::silk::stereo::{
    lemma_table_item, lemma_weight_items, lemma_weight_levels, mid_only_item, weight_at,
    weight_items, weight_level, weights, STEREO_LEVELS,
};
use crate::silk::tables::{
    lemma_stereo_tables, STEREO_ONLY_CODE_MID_ICDF, STEREO_PRED_JOINT_ICDF, UNIFORM3_ICDF,
    UNIFORM5_ICDF,
};

verus! {

/// The distance of two values.
pub open spec fn distance(a: int, b: int) -> int {
    if a < b {
        b - a
    } else {
        a - b
    }
}

/// Whether level `m` is the nearest to a weight, and the lowest such.
pub open spec fn nearest(weight: int, m: int) -> bool {
    &&& 0 <= m < STEREO_LEVELS
    &&& forall|n: int|
        0 <= n < STEREO_LEVELS && n != m ==> {
            let d = distance(weight, weight_level(m));
            let e = distance(weight, #[trigger] weight_level(n));
            d < e || (d == e && m < n)
        }
}

/// The level number in a row of indices: the coarse part last, the finer part
/// first and the step between.
pub open spec fn level_number(row: Seq<i8>) -> int {
    15 * row[2] + 5 * row[0] + row[1]
}

/// Whether a row of indices is in range.
pub open spec fn row_valid(row: Seq<i8>) -> bool {
    &&& row.len() == 3
    &&& 0 <= row[0] < 3
    &&& 0 <= row[1] < 5
    &&& 0 <= row[2] < 5
}

/// The largest weight whose distance from every level is a machine integer.
pub const MAX_WEIGHT: i32 = 2_147_469_915;

proof fn lemma_levels_rise(m: int, n: int)
    requires
        0 <= m < n < STEREO_LEVELS,
    ensures
        weight_level(m) < weight_level(n),
    decreases n - m,
{
    lemma_weight_levels(m);
    if m + 1 < n {
        lemma_levels_rise(m + 1, n);
    }
}

proof fn lemma_nearest(weight: int, m: int)
    requires
        0 <= m < STEREO_LEVELS,
        m > 0 ==> distance(weight, weight_level(m)) < distance(weight, weight_level(m - 1)),
        m + 1 < STEREO_LEVELS ==> distance(weight, weight_level(m)) <= distance(
            weight,
            weight_level(m + 1),
        ),
    ensures
        nearest(weight, m),
{
    assert forall|n: int| 0 <= n < STEREO_LEVELS && n != m implies {
        let d = distance(weight, weight_level(m));
        let e = distance(weight, #[trigger] weight_level(n));
        d < e || (d == e && m < n)
    } by {
        if n < m {
            lemma_levels_rise(m - 1, m);
            if n < m - 1 {
                lemma_levels_rise(n, m - 1);
            }
        } else {
            lemma_levels_rise(m, m + 1);
            if m + 1 < n {
                lemma_levels_rise(m + 1, n);
            }
        }
    }
}

/// The level nearest to a weight.
fn nearest_level(weight: i32) -> (m: usize)
    requires
        -MAX_WEIGHT <= weight <= MAX_WEIGHT,
    ensures
        nearest(weight as int, m as int),
{
    proof {
        lemma_weight_levels(0);
    }
    let first = weight_at(0, 0);
    let mut best: i32 = if weight < first {
        first - weight
    } else {
        weight - first
    };
    let mut m: usize = 0;
    while m + 1 < STEREO_LEVELS
        invariant
            m < STEREO_LEVELS,
            -MAX_WEIGHT <= weight <= MAX_WEIGHT,
            best == distance(weight as int, weight_level(m as int)),
            m > 0 ==> best < distance(weight as int, weight_level(m - 1)),
        decreases STEREO_LEVELS - m,
    {
        proof {
            lemma_weight_levels(m + 1);
        }
        let next = weight_at((m + 1) / 5, (m + 1) % 5);
        let error = if weight < next {
            next - weight
        } else {
            weight - next
        };
        if error >= best {
            // The error grows from the best level on.
            proof {
                lemma_nearest(weight as int, m as int);
            }
            return m;
        }
        best = error;
        m = m + 1;
    }
    proof {
        lemma_nearest(weight as int, m as int);
    }
    m
}

/// The row of indices of a level.
fn row_of(m: usize) -> (row: [i8; 3])
    requires
        m < STEREO_LEVELS,
    ensures
        row_valid(row@),
        level_number(row@) == m,
{
    [((m / 5) % 3) as i8, (m % 5) as i8, (m / 15) as i8]
}

/// Quantises the two prediction weights (Q13) in place and returns their
/// indices. The first weight is left as its difference from the second, which
/// is the form that the decoder gives.
pub fn stereo_quant_pred(pred_q13: &mut [i32; 2]) -> (ix: [[i8; 3]; 2])
    requires
        -MAX_WEIGHT <= old(pred_q13)@[0] <= MAX_WEIGHT,
        -MAX_WEIGHT <= old(pred_q13)@[1] <= MAX_WEIGHT,
    ensures
        row_valid(ix@[0]@),
        row_valid(ix@[1]@),
        nearest(old(pred_q13)@[0] as int, level_number(ix@[0]@)),
        nearest(old(pred_q13)@[1] as int, level_number(ix@[1]@)),
        final(pred_q13)@ == weights(level_number(ix@[0]@), level_number(ix@[1]@)),
{
    let m0 = nearest_level(pred_q13[0]);
    let m1 = nearest_level(pred_q13[1]);
    proof {
        lemma_weight_levels(m0 as int);
        lemma_weight_levels(m1 as int);
    }
    let weight0 = weight_at(m0 / 5, m0 % 5);
    let weight1 = weight_at(m1 / 5, m1 % 5);
    pred_q13[0] = weight0 - weight1;
    pred_q13[1] = weight1;
    assert(pred_q13@ =~= weights(m0 as int, m1 as int));
    [row_of(m0), row_of(m1)]
}

/// Codes a symbol of a table with frequencies out of 256.
fn encode_table(enc: &mut RangeEncoder, k: usize, icdf: &[u8])
    requires
        old(enc).inv(),
        (Item::Table { k: k as int, icdf: icdf@, ftb: 8 }).valid(),
        old(enc)@.nbits_total() + 24 <= u32::MAX,
    ensures
        final(enc).inv(),
        final(enc).size() == old(enc).size(),
        final(enc)@ == old(enc)@.write(Item::Table { k: k as int, icdf: icdf@, ftb: 8 }),
        final(enc)@.nbits_total() <= old(enc)@.nbits_total() + 24,
{
    enc.encode_icdf(k, icdf, 8);
}

proof fn lemma_write_five(start: EncoderState, items: Seq<Item>)
    requires
        items.len() == 5,
    ensures
        start.write_all(items, 5) == start.write(items[0]).write(items[1]).write(items[2]).write(
            items[3],
        ).write(items[4]),
{
    assert(start.write_all(items, 0) == start);
    assert(start.write_all(items, 1) == start.write(items[0]));
    assert(start.write_all(items, 2) == start.write(items[0]).write(items[1]));
    assert(start.write_all(items, 3) == start.write(items[0]).write(items[1]).write(items[2]));
    assert(start.write_all(items, 4) == start.write(items[0]).write(items[1]).write(
        items[2],
    ).write(items[3]));
}

proof fn lemma_row(row: Seq<i8>)
    requires
        row_valid(row),
    ensures
        0 <= level_number(row) < STEREO_LEVELS,
        level_number(row) / 15 == row[2],
        (level_number(row) / 5) % 3 == row[0],
        level_number(row) % 5 == row[1],
{
}

/// Codes the indices of the two weights.
pub fn stereo_encode_pred(enc: &mut RangeEncoder, ix: &[[i8; 3]; 2])
    requires
        old(enc).inv(),
        row_valid(ix@[0]@),
        row_valid(ix@[1]@),
        old(enc)@.nbits_total() + 120 <= u32::MAX,
    ensures
        final(enc).inv(),
        final(enc).size() == old(enc).size(),
        final(enc)@ == old(enc)@.write_all(
            weight_items(level_number(ix@[0]@), level_number(ix@[1]@)),
            5,
        ),
        final(enc)@.nbits_total() <= old(enc)@.nbits_total() + 120,
{
    let row0 = ix[0];
    let row1 = ix[1];
    let ghost start = enc@;
    let ghost items = weight_items(level_number(row0@), level_number(row1@));
    proof {
        lemma_row(row0@);
        lemma_row(row1@);
        lemma_weight_items(level_number(row0@), level_number(row1@));
        assert(items[0].valid() && items[1].valid() && items[2].valid() && items[3].valid()
            && items[4].valid());
        lemma_write_five(start, items);
    }
    encode_table(enc, (5 * row0[2] + row1[2]) as usize, &STEREO_PRED_JOINT_ICDF);
    encode_table(enc, row0[0] as usize, &UNIFORM3_ICDF);
    encode_table(enc, row0[1] as usize, &UNIFORM5_ICDF);
    encode_table(enc, row1[0] as usize, &UNIFORM3_ICDF);
    encode_table(enc, row1[1] as usize, &UNIFORM5_ICDF);
}

/// Codes the flag that only the mid channel is coded.
pub fn stereo_encode_mid_only(enc: &mut RangeEncoder, mid_only_flag: i8)
    requires
        old(enc).inv(),
        mid_only_flag == 0 || mid_only_flag == 1,
        old(enc)@.nbits_total() + 24 <= u32::MAX,
    ensures
        final(enc).inv(),
        final(enc).size() == old(enc).size(),
        final(enc)@ == old(enc)@.write(mid_only_item(mid_only_flag == 1)),
        final(enc)@.nbits_total() <= old(enc)@.nbits_total() + 24,
{
    proof {
        lemma_stereo_tables();
        lemma_table_item(STEREO_ONLY_CODE_MID_ICDF@, mid_only_flag as int);
    }
    encode_table(enc, mid_only_flag as usize, &STEREO_ONLY_CODE_MID_ICDF);
}

} // verus!
