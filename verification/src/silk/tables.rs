//! Constant tables of the SILK layer.

use vstd::prelude::*;

verus! {

/// The levels between which the stereo prediction weights are interpolated,
/// in Q13.
pub const STEREO_PRED_QUANT_Q13: [i16; 16] = [
    -13732,
    -10050,
    -8266,
    -7526,
    -6500,
    -5000,
    -2950,
    -820,
    820,
    2950,
    5000,
    6500,
    7526,
    8266,
    10050,
    13732,
];

/// The joint index of both stereo prediction weights.
pub const STEREO_PRED_JOINT_ICDF: [u8; 25] = [
    249,
    247,
    246,
    245,
    244,
    234,
    210,
    202,
    201,
    200,
    197,
    174,
    82,
    59,
    56,
    55,
    54,
    46,
    22,
    12,
    11,
    10,
    9,
    7,
    0,
];

/// The flag that only the mid channel is coded.
pub const STEREO_ONLY_CODE_MID_ICDF: [u8; 2] = [64, 0];

/// Three equally likely symbols.
pub const UNIFORM3_ICDF: [u8; 3] = [171, 85, 0];

/// Five equally likely symbols.
pub const UNIFORM5_ICDF: [u8; 5] = [205, 154, 102, 51, 0];

/// The stereo tables can code all their symbols with frequencies out of 256.
pub proof fn lemma_stereo_tables()
    ensures
        table_codes(STEREO_PRED_JOINT_ICDF@),
        table_codes(STEREO_ONLY_CODE_MID_ICDF@),
        table_codes(UNIFORM3_ICDF@),
        table_codes(UNIFORM5_ICDF@),
{
}

/// Whether an inverse CDF table falls strictly to zero.
pub open spec fn table_codes(icdf: Seq<u8>) -> bool {
    &&& icdf.len() > 0
    &&& icdf.last() == 0
    &&& forall|i: int, j: int| 0 <= i < j < icdf.len() ==> icdf[i] > icdf[j]
}

/// The frequency of symbol `k` of a table, out of 256.
pub open spec fn frequency_of(icdf: Seq<u8>, k: int) -> int {
    (if k == 0 {
        256
    } else {
        icdf[k - 1] as int
    }) - icdf[k]
}

/// The stereo tables have the shapes that a decoder knows. Weights of opposite
/// signs are equally likely; the refinements are uniform, up to rounding; and
/// one frame in four has its side channel left out. The levels of a weight are
/// symmetric and rise.
pub proof fn law_stereo_table_shapes(k: int)
    ensures
        0 <= k < 25 ==> frequency_of(STEREO_PRED_JOINT_ICDF@, k) == frequency_of(
            STEREO_PRED_JOINT_ICDF@,
            24 - k,
        ) && frequency_of(STEREO_PRED_JOINT_ICDF@, k) <= frequency_of(STEREO_PRED_JOINT_ICDF@, 12),
        0 <= k < 3 ==> 85 <= frequency_of(UNIFORM3_ICDF@, k) <= 86,
        0 <= k < 5 ==> 51 <= frequency_of(UNIFORM5_ICDF@, k) <= 52,
        frequency_of(STEREO_ONLY_CODE_MID_ICDF@, 0) == 3 * frequency_of(
            STEREO_ONLY_CODE_MID_ICDF@,
            1,
        ),
        0 <= k < 16 ==> STEREO_PRED_QUANT_Q13@[k] == -STEREO_PRED_QUANT_Q13@[15 - k],
        0 <= k < 15 ==> STEREO_PRED_QUANT_Q13@[k] < STEREO_PRED_QUANT_Q13@[k + 1],
{
}

} // verus!
