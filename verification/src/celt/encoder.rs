//! The decisions and the side information of the CELT encoder, for
//! mono frames of long blocks.
//!
//! The choices are conservative: no transients, no post-filter, no boosts, the
//! neutral trim and normal spreading. Each of them is coded as a decoder
//! expects it, in its order and while the budget lasts.

use vstd::arithmetic::power2::{
    lemma2_to64, lemma_pow2_pos, lemma_pow2_strictly_increases, pow2,
};
use vstd::prelude::*;

use crate::encoder::doublings;
use crate::range::message::{law_item_round_trip, Item};
use crate::range::model::{DecoderState, EncoderState};
use crate::range::{bit_length, RangeEncoder};

use super::budget::{
    guarded_bit, law_offers_round_trip, lemma_offer_all, list_valid, offer_bit, used, Guarded,
};
use super::laplace::{
    ec_laplace_encode, laplace_lookup, laplace_symbol, laplace_usable, law_laplace_round_trip, FT,
};

verus! {

/// The number of energy bands.
pub const NB_EBANDS: usize = 21;

/// The finest resolution of a band energy, in bits.
pub const MAX_FINE_BITS: i32 = 8;

/// The spreading decision.
pub const SPREAD_ICDF: [u8; 4] = [25, 23, 2, 0];

/// The allocation trim.
pub const TRIM_ICDF: [u8; 11] = [126, 124, 119, 109, 87, 41, 19, 9, 4, 2, 0];

/// Coarse energy where few bits are left.
pub const SMALL_ENERGY_ICDF: [u8; 3] = [2, 1, 0];

/// Normal spreading.
pub const SPREAD_NORMAL: usize = 2;

/// The neutral trim.
pub const TRIM_NEUTRAL: usize = 5;

/// The sizes of a frame that can be coded, in bytes.
pub open spec fn frame_bytes_valid(nb_bytes: int) -> bool {
    2 <= nb_bytes <= 1275
}

/// How often 120 samples are doubled in a frame of `samples` samples, if it can
/// be coded in `nb_bytes` bytes.
#[must_use]
pub fn frame_doublings(samples: usize, nb_bytes: usize) -> (lm: Option<usize>)
    ensures
        match lm {
            Some(lm) => frame_bytes_valid(nb_bytes as int) && doublings(samples as int) == Some(
                lm as int,
            ),
            None => !frame_bytes_valid(nb_bytes as int) || doublings(samples as int) is None,
        },
{
    if nb_bytes < 2 || nb_bytes > 1275 {
        return None;
    }
    match samples {
        120 => Some(0),
        240 => Some(1),
        480 => Some(2),
        960 => Some(3),
        _ => None,
    }
}

/// The flags at the head of a frame: no silence, no post-filter, no transient
/// in frames that could have one, and whether the energy is coded without
/// prediction from the last frame.
pub open spec fn flag_list(lm: int, intra: bool, total_bits: int) -> Seq<Guarded> {
    let head = seq![
        guarded_bit(false, 15, 15, total_bits),
        guarded_bit(false, 1, 16, total_bits),
    ];
    let transient: Seq<Guarded> = if lm > 0 {
        seq![guarded_bit(false, 3, 3, total_bits)]
    } else {
        seq![]
    };
    head + transient + seq![guarded_bit(intra, 3, 3, total_bits)]
}

/// Codes the flags at the head of a frame.
pub fn encode_flags(enc: &mut RangeEncoder, lm: usize, intra: bool, total_bits: u32)
    requires
        old(enc).inv(),
        old(enc)@.nbits_total() + 96 <= 0x1000_0000,
    ensures
        final(enc).inv(),
        final(enc).size() == old(enc).size(),
        final(enc)@ == old(enc)@.offer_all(
            flag_list(lm as int, intra, total_bits as int),
            flag_list(lm as int, intra, total_bits as int).len(),
        ),
        final(enc)@.nbits_total() <= old(enc)@.nbits_total() + 96,
{
    let ghost start = enc@;
    let ghost list = flag_list(lm as int, intra, total_bits as int);
    // Silence flag.
    offer_bit(enc, false, 15, 15, total_bits);
    assert(start.offer_all(list, 0) == start);
    assert(enc@ == start.offer_all(list, 1));
    // Post-filter off.
    offer_bit(enc, false, 1, 16, total_bits);
    assert(enc@ == start.offer_all(list, 2));
    // No transient.
    if lm > 0 {
        offer_bit(enc, false, 3, 3, total_bits);
        assert(enc@ == start.offer_all(list, 3));
    }
    offer_bit(enc, intra, 3, 3, total_bits);
}

/// The probability exponent of the time-frequency flag of band `i`.
pub open spec fn tf_logp(i: int) -> nat {
    if i == 0 {
        4
    } else {
        5
    }
}

/// The time-frequency flags of all bands, all zero.
pub open spec fn tf_list(budget: int) -> Seq<Guarded> {
    Seq::new(
        NB_EBANDS as nat,
        |i: int| guarded_bit(false, tf_logp(i), tf_logp(i) as int, budget),
    )
}

/// The budget of the time-frequency flags: one bit is set aside for the
/// selector where it could be coded.
pub open spec fn tf_budget(enc: EncoderState, lm: int, total_bits: int) -> int {
    if lm > 0 && used(enc.nbits_total(), enc.rng, false) + 4 < total_bits {
        total_bits - 1
    } else {
        total_bits
    }
}

/// Codes that no band changes its time-frequency resolution.
pub fn encode_tf_flags(enc: &mut RangeEncoder, lm: usize, total_bits: u32)
    requires
        old(enc).inv(),
        old(enc)@.nbits_total() + 24 * NB_EBANDS <= 0x1000_0000,
    ensures
        final(enc).inv(),
        final(enc).size() == old(enc).size(),
        final(enc)@ == old(enc)@.offer_all(
            tf_list(tf_budget(old(enc)@, lm as int, total_bits as int)),
            NB_EBANDS as nat,
        ),
        final(enc)@.nbits_total() <= old(enc)@.nbits_total() + 24 * NB_EBANDS,
{
    let ghost start = enc@;
    let reserved = lm > 0 && enc.tell() + 4 < total_bits;
    let budget = if reserved {
        total_bits - 1
    } else {
        total_bits
    };
    let ghost list = tf_list(budget as int);
    let mut i: usize = 0;
    while i < NB_EBANDS
        invariant
            i <= NB_EBANDS,
            enc.inv(),
            enc.size() == old(enc).size(),
            start.nbits_total() + 24 * NB_EBANDS <= 0x1000_0000,
            enc@.nbits_total() <= start.nbits_total() + 24 * i,
            list == tf_list(budget as int),
            enc@ == start.offer_all(list, i as nat),
        decreases NB_EBANDS - i,
    {
        let logp: u32 = if i == 0 { 4 } else { 5 };
        offer_bit(enc, false, logp, logp, budget);
        i = i + 1;
    }
}

/// A symbol of a table behind a test.
pub open spec fn guarded_symbol(
    k: int,
    icdf: Seq<u8>,
    ftb: nat,
    fine: bool,
    need: int,
    limit: int,
) -> Guarded {
    Guarded { item: Item::Table { k, icdf, ftb }, fine, need, limit }
}

/// Normal spreading.
pub open spec fn spread_symbol(total_bits: int) -> Guarded {
    guarded_symbol(SPREAD_NORMAL as int, SPREAD_ICDF@, 5, false, 4, total_bits)
}

/// The neutral trim.
pub open spec fn trim_symbol(total_bits: int) -> Guarded {
    guarded_symbol(TRIM_NEUTRAL as int, TRIM_ICDF@, 7, true, 48, 8 * total_bits)
}

proof fn lemma_tables()
    ensures
        spread_symbol(0).item.valid(),
        trim_symbol(0).item.valid(),
        (Item::Table { k: 0, icdf: SMALL_ENERGY_ICDF@, ftb: 2 }).valid(),
        (Item::Table { k: 1, icdf: SMALL_ENERGY_ICDF@, ftb: 2 }).valid(),
        (Item::Table { k: 2, icdf: SMALL_ENERGY_ICDF@, ftb: 2 }).valid(),
{
    vstd::arithmetic::power2::lemma2_to64();
}

/// Codes normal spreading if it fits.
pub fn encode_spread(enc: &mut RangeEncoder, total_bits: u32)
    requires
        old(enc).inv(),
        old(enc)@.nbits_total() + 24 <= 0x1000_0000,
    ensures
        final(enc).inv(),
        final(enc).size() == old(enc).size(),
        final(enc)@ == old(enc)@.offer(spread_symbol(total_bits as int)),
        final(enc)@.nbits_total() <= old(enc)@.nbits_total() + 24,
{
    if enc.tell() + 4 <= total_bits {
        proof {
            lemma_tables();
        }
        enc.encode_icdf(SPREAD_NORMAL, &SPREAD_ICDF, 5);
    }
}

/// The flag that band `i` gets no boost; only bands with room have one.
pub open spec fn boost_list(caps: Seq<i32>, total_bits: int, n: int) -> Seq<Guarded>
    decreases n,
{
    if n <= 0 {
        seq![]
    } else {
        let before = boost_list(caps, total_bits, n - 1);
        if caps[n - 1] > 0 {
            before.push(
                Guarded {
                    item: Item::Bit { bit: false, logp: 6 },
                    fine: true,
                    need: 49,
                    limit: 8 * total_bits,
                },
            )
        } else {
            before
        }
    }
}

proof fn lemma_boost_list(caps: Seq<i32>, total_bits: int, n: int)
    requires
        n >= 0,
    ensures
        boost_list(caps, total_bits, n).len() <= n,
    decreases n,
{
    if n > 0 {
        lemma_boost_list(caps, total_bits, n - 1);
    }
}

/// What the first symbols of a list lead to does not depend on the others.
proof fn lemma_offer_push(enc: EncoderState, list: Seq<Guarded>, g: Guarded, n: nat)
    requires
        n <= list.len(),
    ensures
        enc.offer_all(list.push(g), n) == enc.offer_all(list, n),
    decreases n,
{
    if n > 0 {
        lemma_offer_push(enc, list, g, (n - 1) as nat);
    }
}

/// Codes that no band gets a boost. `caps` are the most bits that each band can
/// use.
pub fn encode_boosts(enc: &mut RangeEncoder, caps: &[i32; 21], total_bits: u32)
    requires
        old(enc).inv(),
        old(enc)@.nbits_total() + 24 * NB_EBANDS <= 0x1000_0000,
        total_bits <= 0x1000_0000,
    ensures
        final(enc).inv(),
        final(enc).size() == old(enc).size(),
        final(enc)@ == old(enc)@.offer_all(
            boost_list(caps@, total_bits as int, NB_EBANDS as int),
            boost_list(caps@, total_bits as int, NB_EBANDS as int).len(),
        ),
        final(enc)@.nbits_total() <= old(enc)@.nbits_total() + 24 * NB_EBANDS,
{
    let ghost start = enc@;
    let mut i: usize = 0;
    while i < NB_EBANDS
        invariant
            i <= NB_EBANDS,
            enc.inv(),
            enc.size() == old(enc).size(),
            total_bits <= 0x1000_0000,
            start.nbits_total() + 24 * NB_EBANDS <= 0x1000_0000,
            enc@.nbits_total() <= start.nbits_total() + 24 * i,
            enc@ == start.offer_all(
                boost_list(caps@, total_bits as int, i as int),
                boost_list(caps@, total_bits as int, i as int).len(),
            ),
        decreases NB_EBANDS - i,
    {
        if caps[i] > 0 {
            proof {
                let list = boost_list(caps@, total_bits as int, i as int);
                let next = boost_list(caps@, total_bits as int, i + 1);
                lemma_offer_push(start, list, next.last(), list.len());
            }
            if enc.tell_frac() as u64 + 48 < 8 * total_bits as u64 {
                enc.encode_bit_logp(false, 6);
            }
        }
        i = i + 1;
    }
}

/// Codes the neutral trim if it fits.
pub fn encode_trim(enc: &mut RangeEncoder, total_bits: u32)
    requires
        old(enc).inv(),
        old(enc)@.nbits_total() + 24 <= 0x1000_0000,
        total_bits <= 0x1000_0000,
    ensures
        final(enc).inv(),
        final(enc).size() == old(enc).size(),
        final(enc)@ == old(enc)@.offer(trim_symbol(total_bits as int)),
        final(enc)@.nbits_total() <= old(enc)@.nbits_total() + 24,
{
    if enc.tell_frac() as u64 + 48 <= 8 * total_bits as u64 {
        proof {
            lemma_tables();
        }
        enc.encode_icdf(TRIM_NEUTRAL, &TRIM_ICDF, 7);
    }
}

/// The state behind the side information between the coarse energy and the
/// allocation.
pub open spec fn side_info(enc: EncoderState, lm: int, caps: Seq<i32>, total_bits: int) -> EncoderState {
    let boosts = boost_list(caps, total_bits, NB_EBANDS as int);
    enc.offer_all(tf_list(tf_budget(enc, lm, total_bits)), NB_EBANDS as nat).offer(
        spread_symbol(total_bits),
    ).offer_all(boosts, boosts.len()).offer(trim_symbol(total_bits))
}

/// Codes the side information between the coarse energy and the allocation,
/// and returns the eighths of a bit that are left to allocate.
pub fn encode_side_info(enc: &mut RangeEncoder, lm: usize, caps: &[i32; 21], total_bits: u32) -> (bits:
    i32)
    requires
        old(enc).inv(),
        old(enc)@.nbits_total() + 48 * (NB_EBANDS + 1) <= 0x100_0000,
        total_bits <= 0x100_0000,
    ensures
        final(enc).inv(),
        final(enc).size() == old(enc).size(),
        final(enc)@ == side_info(old(enc)@, lm as int, caps@, total_bits as int),
        final(enc)@.nbits_total() <= old(enc)@.nbits_total() + 48 * (NB_EBANDS + 1),
        bits == 8 * total_bits - used(final(enc)@.nbits_total(), final(enc)@.rng, true) - 1,
{
    encode_tf_flags(enc, lm, total_bits);
    encode_spread(enc, total_bits);
    encode_boosts(enc, caps, total_bits);
    encode_trim(enc, total_bits);
    proof {
        lemma_used_fine(enc@);
        enc.lemma_valid();
    }
    8 * total_bits as i32 - enc.tell_frac() as i32 - 1
}

proof fn lemma_used_fine(enc: EncoderState)
    ensures
        used(enc.nbits_total(), enc.rng, true) <= 8 * enc.nbits_total(),
{
    let l = bit_length(enc.rng);
    vstd::arithmetic::power2::lemma2_to64();
    crate::range::lemma_refine_log(
        l as int,
        enc.rng / vstd::arithmetic::power2::pow2((l - 16) as nat) as int,
        3,
    );
}

/// The coarse energy step that is coded: near the end of the budget it is kept
/// small, for all bands but the first.
pub open spec fn bounded_step(qi: int, first: bool, bits_left: int) -> int {
    let capped = if !first && bits_left < 24 && qi > 1 {
        1
    } else {
        qi
    };
    if !first && bits_left < 16 && capped < -1 {
        -1
    } else {
        capped
    }
}

/// A step of at most one in either direction.
pub open spec fn unit_step(qi: int) -> int {
    if qi < -1 {
        -1
    } else if qi > 1 {
        1
    } else {
        qi
    }
}

/// The number of a unit step: zero, minus one, one.
pub open spec fn step_number(qi: int) -> int {
    if qi < 0 {
        -2 * qi - 1
    } else {
        2 * qi
    }
}

/// The state behind a coarse energy step, and the step that counts as coded:
/// with a Laplace model while 15 bits are left, then with a small table, then
/// as a bit that can only say minus one; without a bit it is minus one.
pub open spec fn coarse_coded(enc: EncoderState, qi: int, fs: int, decay: int, budget: int) -> (
    EncoderState,
    int,
) {
    let left = budget - used(enc.nbits_total(), enc.rng, false);
    if left >= 15 {
        let (coded, from, to) = laplace_symbol(qi, fs, decay);
        (enc.encode(from, to, FT as int), coded)
    } else if left >= 2 {
        let step = unit_step(qi);
        (
            enc.write(
                Item::Table { k: step_number(step), icdf: SMALL_ENERGY_ICDF@, ftb: 2 },
            ),
            step,
        )
    } else if left >= 1 {
        let step = if qi < 0 {
            -1
        } else {
            0
        };
        (enc.write(Item::Bit { bit: step != 0, logp: 1 }), step)
    } else {
        (enc, -1)
    }
}

/// Codes the coarse energy step of a band, the first of a frame or a later
/// one, with `bands_left` bands to go and a Laplace model for it, and returns
/// the step that was coded.
pub fn encode_coarse_step(
    enc: &mut RangeEncoder,
    qi: i32,
    first: bool,
    bands_left: usize,
    fs: u32,
    decay: u32,
    budget: u32,
) -> (coded: i32)
    requires
        old(enc).inv(),
        old(enc)@.nbits_total() + 24 <= 0x1000_0000,
        bands_left <= NB_EBANDS,
        budget <= 0x1000_0000,
        laplace_usable(fs as int, decay as int),
        fs > 0,
        qi > i32::MIN,
    ensures
        final(enc).inv(),
        final(enc).size() == old(enc).size(),
        ({
            let left = budget - used(old(enc)@.nbits_total(), old(enc)@.rng, false);
            let step = bounded_step(qi as int, first, left - 3 * bands_left);
            (final(enc)@, coded as int) == coarse_coded(
                old(enc)@,
                step,
                fs as int,
                decay as int,
                budget as int,
            )
        }),
{
    let left: i64 = budget as i64 - enc.tell() as i64;
    let bits_left: i64 = left - 3 * bands_left as i64;
    let mut step = qi;
    if !first && bits_left < 24 && step > 1 {
        step = 1;
    }
    if !first && bits_left < 16 && step < -1 {
        step = -1;
    }
    if left >= 15 {
        ec_laplace_encode(enc, step, fs, decay)
    } else if left >= 2 {
        proof {
            lemma_tables();
        }
        let unit: i32 = if step < -1 {
            -1
        } else if step > 1 {
            1
        } else {
            step
        };
        let number: usize = if unit < 0 { 1 } else { 2 * unit as usize };
        enc.encode_icdf(number, &SMALL_ENERGY_ICDF, 2);
        unit
    } else if left >= 1 {
        proof {
            enc.lemma_valid();
            vstd::arithmetic::power2::lemma2_to64();
        }
        let down: i32 = if step < 0 {
            -1
        } else {
            0
        };
        enc.encode_bit_logp(down != 0, 1);
        down
    } else {
        -1
    }
}

/// What a decoder takes from a coarse energy step.
pub open spec fn coarse_read(dec: DecoderState, step: int, fs: int, decay: int, budget: int) -> bool {
    let left = budget - used(dec.nbits_total(), dec.rng, false);
    if left >= 15 {
        laplace_lookup(dec.frequency(FT as int), fs, decay).0 == step
    } else if left >= 2 {
        -1 <= step <= 1 && dec.finds(
            Item::Table { k: step_number(step), icdf: SMALL_ENERGY_ICDF@, ftb: 2 },
        )
    } else if left >= 1 {
        -1 <= step <= 0 && dec.finds(Item::Bit { bit: step != 0, logp: 1 })
    } else {
        step == -1
    }
}

/// A decoder in step with the encoder takes the step that was coded, from any
/// frame that carries it.
pub proof fn law_coarse_round_trip(
    dec: DecoderState,
    enc: EncoderState,
    qi: int,
    fs: int,
    decay: int,
    budget: int,
)
    requires
        enc.valid(),
        dec.follows(enc),
        laplace_usable(fs, decay),
        fs > 0,
        coarse_coded(enc, qi, fs, decay, budget).0.carried_by(dec.data),
    ensures
        coarse_read(dec, coarse_coded(enc, qi, fs, decay, budget).1, fs, decay, budget),
{
    let left = budget - used(enc.nbits_total(), enc.rng, false);
    if left >= 15 {
        law_laplace_round_trip(dec, enc, qi, fs, decay);
    } else if left >= 2 {
        lemma_tables();
        let step = unit_step(qi);
        assert(step_number(step) == 0 || step_number(step) == 1 || step_number(step) == 2);
        law_item_round_trip(
            dec,
            enc,
            Item::Table { k: step_number(step), icdf: SMALL_ENERGY_ICDF@, ftb: 2 },
        );
    } else if left >= 1 {
        law_item_round_trip(dec, enc, Item::Bit { bit: qi < 0, logp: 1 });
    }
}

/// Where less than two bits are left, the bound keeps every step but the first
/// of a frame to at most one in either direction.
pub proof fn law_bounded_step(qi: int, left: int, bands_left: int)
    requires
        left < 2,
        bands_left >= 0,
    ensures
        -1 <= bounded_step(qi, false, left - 3 * bands_left) <= 1,
{
}

/// The head flags, the time-frequency flags, the spreading, the boosts and the
/// trim can all be read back.
pub proof fn law_side_info_valid(lm: int, intra: bool, caps: Seq<i32>, total_bits: int, budget: int)
    ensures
        list_valid(flag_list(lm, intra, total_bits)),
        list_valid(tf_list(budget)),
        list_valid(seq![spread_symbol(total_bits)]),
        list_valid(boost_list(caps, total_bits, NB_EBANDS as int)),
        list_valid(seq![trim_symbol(total_bits)]),
{
    lemma_tables();
    lemma_boosts_valid(caps, total_bits, NB_EBANDS as int);
}

proof fn lemma_boosts_valid(caps: Seq<i32>, total_bits: int, n: int)
    ensures
        list_valid(boost_list(caps, total_bits, n)),
    decreases n,
{
    if n > 0 {
        lemma_boosts_valid(caps, total_bits, n - 1);
    }
}

/// In a frame that carries them, a decoder in step with the encoder expects
/// exactly the head flags that were coded, and finds them.
pub proof fn law_flags_round_trip(
    dec: DecoderState,
    enc: EncoderState,
    lm: int,
    intra: bool,
    total_bits: int,
    n: nat,
)
    requires
        enc.valid(),
        dec.follows(enc),
        enc.offer_all(
            flag_list(lm, intra, total_bits),
            flag_list(lm, intra, total_bits).len(),
        ).carried_by(dec.data),
        n < flag_list(lm, intra, total_bits).len(),
    ensures
        ({
            let list = flag_list(lm, intra, total_bits);
            let d = dec.accept_all(list, n);
            &&& d.expects(list[n as int]) <==> enc.offer_all(list, n).fits_in(list[n as int])
            &&& d.expects(list[n as int]) ==> d.finds(list[n as int].item)
        }),
{
    law_side_info_valid(lm, intra, seq![], total_bits, 0);
    law_offers_round_trip(dec, enc, flag_list(lm, intra, total_bits), n);
}

/// Whether a decoder that goes through a list finds every symbol that it
/// expects.
pub open spec fn finds_offers(dec: DecoderState, list: Seq<Guarded>) -> bool {
    forall|n: nat|
        n < list.len() && (#[trigger] dec.accept_all(list, n)).expects(list[n as int])
            ==> dec.accept_all(list, n).finds(list[n as int].item)
}

/// The budget of the time-frequency flags, as a decoder computes it.
pub open spec fn tf_budget_read(dec: DecoderState, lm: int, total_bits: int) -> int {
    if lm > 0 && used(dec.nbits_total(), dec.rng, false) + 4 < total_bits {
        total_bits - 1
    } else {
        total_bits
    }
}

proof fn lemma_finds_offers(dec: DecoderState, enc: EncoderState, list: Seq<Guarded>)
    requires
        enc.valid(),
        dec.follows(enc),
        list_valid(list),
        enc.offer_all(list, list.len()).carried_by(dec.data),
    ensures
        finds_offers(dec, list),
        dec.accept_all(list, list.len()).follows(enc.offer_all(list, list.len())),
        dec.accept_all(list, list.len()).data == dec.data,
        enc.offer_all(list, list.len()).valid(),
{
    lemma_offer_all(enc, list, list.len(), dec.data);
    law_offers_round_trip(dec, enc, list, list.len());
    assert forall|n: nat|
        n < list.len() && (#[trigger] dec.accept_all(list, n)).expects(
            list[n as int],
        ) implies dec.accept_all(list, n).finds(list[n as int].item) by {
        law_offers_round_trip(dec, enc, list, n);
    }
}

/// What a frame carries behind a list of symbols, it carries behind each of
/// the lists before it.
proof fn lemma_earlier_carried(enc: EncoderState, list: Seq<Guarded>, n: nat, data: Seq<u8>)
    requires
        enc.valid(),
        list_valid(list),
        n <= list.len(),
        enc.offer_all(list, n).carried_by(data),
    ensures
        enc.carried_by(data),
    decreases n,
{
    if n > 0 {
        lemma_offer_all(enc, list, n, data);
        lemma_earlier_carried(enc, list, (n - 1) as nat, data);
    }
}

/// In a frame that carries the side information, a decoder in step with the
/// encoder finds the time-frequency flags, the spreading, the boosts and the
/// trim, and is in step behind them.
pub proof fn law_side_info_round_trip(
    dec: DecoderState,
    enc: EncoderState,
    lm: int,
    caps: Seq<i32>,
    total_bits: int,
)
    requires
        enc.valid(),
        dec.follows(enc),
        side_info(enc, lm, caps, total_bits).carried_by(dec.data),
    ensures
        ({
            let flags = tf_list(tf_budget_read(dec, lm, total_bits));
            let spread = seq![spread_symbol(total_bits)];
            let boosts = boost_list(caps, total_bits, NB_EBANDS as int);
            let trim = seq![trim_symbol(total_bits)];
            let d1 = dec.accept_all(flags, flags.len());
            let d2 = d1.accept_all(spread, 1);
            let d3 = d2.accept_all(boosts, boosts.len());
            let d4 = d3.accept_all(trim, 1);
            &&& finds_offers(dec, flags)
            &&& finds_offers(d1, spread)
            &&& finds_offers(d2, boosts)
            &&& finds_offers(d3, trim)
            &&& d4.follows(side_info(enc, lm, caps, total_bits))
        }),
{
    let flags = tf_list(tf_budget_read(dec, lm, total_bits));
    let spread = seq![spread_symbol(total_bits)];
    let boosts = boost_list(caps, total_bits, NB_EBANDS as int);
    let trim = seq![trim_symbol(total_bits)];
    law_side_info_valid(lm, false, caps, total_bits, tf_budget_read(dec, lm, total_bits));
    let e1 = enc.offer_all(flags, flags.len());
    let e2 = e1.offer_all(spread, 1);
    let e3 = e2.offer_all(boosts, boosts.len());
    let e4 = e3.offer_all(trim, 1);
    assert(e1.offer_all(spread, 0) == e1);
    assert(e3.offer_all(trim, 0) == e3);
    assert(tf_budget_read(dec, lm, total_bits) == tf_budget(enc, lm, total_bits));
    assert(e4 == side_info(enc, lm, caps, total_bits));
    lemma_offer_all(enc, flags, flags.len(), dec.data);
    lemma_offer_all(e1, spread, 1, dec.data);
    lemma_offer_all(e2, boosts, boosts.len(), dec.data);
    lemma_earlier_carried(e3, trim, 1, dec.data);
    lemma_earlier_carried(e2, boosts, boosts.len(), dec.data);
    lemma_earlier_carried(e1, spread, 1, dec.data);
    let d1 = dec.accept_all(flags, flags.len());
    let d2 = d1.accept_all(spread, 1);
    let d3 = d2.accept_all(boosts, boosts.len());
    lemma_finds_offers(dec, enc, flags);
    lemma_finds_offers(d1, e1, spread);
    lemma_finds_offers(d2, e2, boosts);
    lemma_finds_offers(d3, e3, trim);
}

/// The value of a fine energy refinement that is coded in `bits` bits.
pub open spec fn fine_value(q: int, bits: nat) -> int {
    let top = pow2(bits) - 1;
    if q < 0 {
        0
    } else if q > top {
        top
    } else {
        q
    }
}

/// Codes a refinement `q` of a band energy in `bits` bits, and returns the
/// value that was coded. Bands without bits get none.
pub fn encode_fine_step(enc: &mut RangeEncoder, q: i32, bits: i32) -> (coded: Option<u32>)
    requires
        old(enc).inv(),
        bits <= MAX_FINE_BITS,
        old(enc)@.nbits_total() + MAX_FINE_BITS <= u32::MAX,
    ensures
        final(enc).inv(),
        final(enc).size() == old(enc).size(),
        match coded {
            None => bits <= 0 && final(enc)@ == old(enc)@,
            Some(v) => bits > 0 && v == fine_value(q as int, bits as nat) && final(enc)@
                == old(enc)@.raw_append(v as int, bits as nat),
        },
{
    if bits <= 0 {
        return None;
    }
    proof {
        lemma_pow2_pos(bits as nat);
        lemma2_to64();
        if bits < 8 {
            lemma_pow2_strictly_increases(bits as nat, 8);
        }
        vstd::bits::lemma_u32_shl_is_mul(1, bits as u32);
    }
    let top = (1u32 << bits as u32) - 1;
    let v = if q < 0 {
        0
    } else if q as u32 > top {
        top
    } else {
        q as u32
    };
    enc.encode_raw_bits(v, bits as u32);
    Some(v)
}

/// The bands below `n` of one priority that can still be refined, in order.
pub open spec fn refinable(fine_quant: Seq<i32>, priority: Seq<bool>, wanted: bool, start: int, n: int) -> Seq<
    usize,
>
    decreases n - start,
{
    if n <= start {
        seq![]
    } else {
        let before = refinable(fine_quant, priority, wanted, start, n - 1);
        if fine_quant[n - 1] < MAX_FINE_BITS && priority[n - 1] == wanted {
            before.push((n - 1) as usize)
        } else {
            before
        }
    }
}

/// The bands that the bits left over refine by one bit each: those of the
/// first priority, then the others, while the bits last.
pub open spec fn leftover_bands(
    fine_quant: Seq<i32>,
    priority: Seq<bool>,
    start: int,
    end: int,
    bits_left: int,
) -> Seq<usize> {
    let all = refinable(fine_quant, priority, false, start, end) + refinable(
        fine_quant,
        priority,
        true,
        start,
        end,
    );
    if bits_left < 0 {
        seq![]
    } else if bits_left < all.len() {
        all.take(bits_left)
    } else {
        all
    }
}

proof fn lemma_refinable(
    fine_quant: Seq<i32>,
    priority: Seq<bool>,
    wanted: bool,
    start: int,
    n: int,
    m: int,
)
    requires
        start <= n <= m,
    ensures
        refinable(fine_quant, priority, wanted, start, n).is_prefix_of(
            refinable(fine_quant, priority, wanted, start, m),
        ),
    decreases m - n,
{
    if n < m {
        lemma_refinable(fine_quant, priority, wanted, start, n, m - 1);
        let a = refinable(fine_quant, priority, wanted, start, n);
        let b = refinable(fine_quant, priority, wanted, start, m - 1);
        let c = refinable(fine_quant, priority, wanted, start, m);
        assert(b.is_prefix_of(c));
        assert(a =~= c.take(a.len() as int));
    } else {
        assert(refinable(fine_quant, priority, wanted, start, n) =~= refinable(
            fine_quant,
            priority,
            wanted,
            start,
            m,
        ).take(refinable(fine_quant, priority, wanted, start, n).len() as int));
    }
}

/// The bands that the bits left over refine, in order.
pub fn bands_for_leftover(
    fine_quant: &[i32; 21],
    fine_priority: &[bool; 21],
    start: usize,
    end: usize,
    bits_left: i32,
) -> (bands: Vec<usize>)
    requires
        start <= end <= NB_EBANDS,
    ensures
        bands@ == leftover_bands(
            fine_quant@,
            fine_priority@,
            start as int,
            end as int,
            bits_left as int,
        ),
{
    let ghost first = refinable(fine_quant@, fine_priority@, false, start as int, end as int);
    let ghost second = refinable(fine_quant@, fine_priority@, true, start as int, end as int);
    let ghost goal = leftover_bands(
        fine_quant@,
        fine_priority@,
        start as int,
        end as int,
        bits_left as int,
    );
    let mut bands: Vec<usize> = Vec::new();
    let mut left = bits_left;
    let mut i: usize = start;
    assert(bands@ =~= refinable(fine_quant@, fine_priority@, false, start as int, i as int));
    while i < end && left >= 1
        invariant
            start <= i <= end <= NB_EBANDS,
            left <= bits_left,
            bits_left >= 0 ==> left >= 0,
            bits_left < 1 ==> left == bits_left,
            bands@ == refinable(fine_quant@, fine_priority@, false, start as int, i as int),
            bands@.len() == bits_left - left,
        decreases end - i,
    {
        if fine_quant[i] < MAX_FINE_BITS && !fine_priority[i] {
            bands.push(i);
            left = left - 1;
        }
        i = i + 1;
    }
    proof {
        lemma_refinable(
            fine_quant@,
            fine_priority@,
            false,
            start as int,
            i as int,
            end as int,
        );
    }
    if left < 1 {
        proof {
            let n = bands@.len() as int;
            assert(bands@ =~= (first + second).take(n));
            if bits_left >= 0 {
                assert((first + second).take((first + second).len() as int) =~= first + second);
            } else {
                assert(bands@ =~= seq![]);
            }
        }
        return bands;
    }
    let ghost middle = bands@;
    let mut j: usize = start;
    assert(middle + refinable(fine_quant@, fine_priority@, true, start as int, j as int)
        =~= bands@);
    while j < end && left >= 1
        invariant
            start <= j <= end <= NB_EBANDS,
            0 <= left <= bits_left,
            bands@ == middle + refinable(
                fine_quant@,
                fine_priority@,
                true,
                start as int,
                j as int,
            ),
            bands@.len() == bits_left - left,
        decreases end - j,
    {
        if fine_quant[j] < MAX_FINE_BITS && fine_priority[j] {
            let ghost before = bands@;
            bands.push(j);
            left = left - 1;
            proof {
                let tail = refinable(
                    fine_quant@,
                    fine_priority@,
                    true,
                    start as int,
                    j as int,
                );
                assert((middle + tail).push(j) =~= middle + tail.push(j));
            }
        }
        j = j + 1;
    }
    proof {
        lemma_refinable(
            fine_quant@,
            fine_priority@,
            true,
            start as int,
            j as int,
            end as int,
        );
        let n = bands@.len() as int;
        assert(bands@ =~= (first + second).take(n));
        assert((first + second).take((first + second).len() as int) =~= first + second);
    }
    bands
}

/// A decoder reads a flag that is there while the budget lasts: otherwise it is
/// not set.
pub open spec fn flag_read(dec: DecoderState, logp: nat, limit: int) -> (bool, DecoderState) {
    if used(dec.nbits_total(), dec.rng, false) <= limit {
        (dec.next_bit(logp), dec.take_bit(dec.next_bit(logp), logp))
    } else {
        (false, dec)
    }
}

/// What a decoder takes from the head of a frame: silence, which is rare; the
/// post-filter; a transient, which only frames longer than 2.5 ms can have; and
/// whether the energy does without prediction. Each is read while its own bits
/// fit, and the post-filter only where 16 are left.
pub open spec fn flags_read(dec: DecoderState, lm: int, total_bits: int) -> (
    bool,
    bool,
    bool,
    bool,
    DecoderState,
) {
    let (silence, d1) = flag_read(dec, 15, total_bits - 15);
    let (post_filter, d2) = flag_read(d1, 1, total_bits - 16);
    let (transient, d3) = if lm > 0 {
        flag_read(d2, 3, total_bits - 3)
    } else {
        (false, d2)
    };
    let (intra, d4) = flag_read(d3, 3, total_bits - 3);
    (silence, post_filter, transient, intra, d4)
}

proof fn lemma_flag_read(dec: DecoderState, enc: EncoderState, bit: bool, logp: nat, need: int, limit: int)
    requires
        enc.valid(),
        dec.follows(enc),
        1 <= logp <= 16,
        enc.offer(guarded_bit(bit, logp, need, limit)).carried_by(dec.data),
    ensures
        ({
            let fits = enc.fits_in(guarded_bit(bit, logp, need, limit));
            let (flag, after) = flag_read(dec, logp, limit - need);
            &&& flag == (bit && fits)
            &&& after.follows(enc.offer(guarded_bit(bit, logp, need, limit)))
            &&& after.data == dec.data
            &&& enc.offer(guarded_bit(bit, logp, need, limit)).valid()
            &&& enc.carried_by(dec.data)
        }),
{
    let g = guarded_bit(bit, logp, need, limit);
    if enc.fits_in(g) {
        law_item_round_trip(dec, enc, g.item);
        crate::range::message::lemma_write(enc, g.item, dec.data);
    }
}

/// From the head of a frame that was coded, a decoder takes that there is no
/// silence, no post-filter and no transient, and whether the energy does without
/// prediction, unless no bits were left to say so.
pub proof fn law_flags_are_read(
    dec: DecoderState,
    enc: EncoderState,
    lm: int,
    intra: bool,
    total_bits: int,
)
    requires
        enc.valid(),
        dec.follows(enc),
        enc.offer_all(
            flag_list(lm, intra, total_bits),
            flag_list(lm, intra, total_bits).len(),
        ).carried_by(dec.data),
    ensures
        ({
            let list = flag_list(lm, intra, total_bits);
            let (silence, post_filter, transient, found, after) = flags_read(dec, lm, total_bits);
            &&& !silence && !post_filter && !transient
            &&& found ==> intra
            &&& intra && used(enc.nbits_total(), enc.rng, false) + 99 <= total_bits ==> found
            &&& after.follows(enc.offer_all(list, list.len()))
        }),
{
    let list = flag_list(lm, intra, total_bits);
    let n = list.len();
    let e0 = enc.offer_all(list, 0);
    let e1 = enc.offer_all(list, 1);
    let e2 = enc.offer_all(list, 2);
    let e3 = enc.offer_all(list, (n - 1) as nat);
    law_side_info_valid(lm, intra, seq![], total_bits, 0);
    lemma_offer_all(enc, list, n, dec.data);
    lemma_offer_all(enc, list, (n - 1) as nat, dec.data);
    lemma_offer_all(enc, list, 2, dec.data);
    lemma_offer_all(enc, list, 1, dec.data);
    assert(e0 == enc);
    lemma_flag_read(dec, e0, false, 15, 15, total_bits);
    let (_, d1) = flag_read(dec, 15, total_bits - 15);
    lemma_flag_read(d1, e1, false, 1, 16, total_bits);
    let (_, d2) = flag_read(d1, 1, total_bits - 16);
    if lm > 0 {
        lemma_flag_read(d2, e2, false, 3, 3, total_bits);
        let (_, d3) = flag_read(d2, 3, total_bits - 3);
        lemma_flag_read(d3, e3, intra, 3, 3, total_bits);
    } else {
        lemma_flag_read(d2, e2, intra, 3, 3, total_bits);
    }
    if used(enc.nbits_total(), enc.rng, false) + 99 <= total_bits {
        lemma_flag_cost(e0, list[0]);
        lemma_flag_cost(e1, list[1]);
        lemma_flag_cost(e2, list[2]);
    }
}

/// A flag takes at most 24 bits and leaves the others their room.
proof fn lemma_flag_cost(enc: EncoderState, g: Guarded)
    requires
        enc.valid(),
        g.item is Bit,
        g.item.valid(),
    ensures
        used(enc.offer(g).nbits_total(), enc.offer(g).rng, false) <= used(
            enc.nbits_total(),
            enc.rng,
            false,
        ) + 32,
{
    crate::range::message::lemma_write(enc, g.item, seq![]);
    vstd::arithmetic::power2::lemma2_to64();
    crate::range::lemma_bit_length_at_most(enc.rng, 32);
    crate::range::lemma_bit_length_more_than(enc.offer(g).rng, 23);
}

/// Near the end of the budget a coarse step is only made smaller: to at most one
/// upwards where less than 24 bits are left, and to at most one downwards where
/// less than 16 are. The first step of a frame is coded as it is.
pub proof fn law_steps_shrink(qi: int, first: bool, bits_left: int)
    ensures
        ({
            let step = bounded_step(qi, first, bits_left);
            &&& first || bits_left >= 24 ==> step == qi
            &&& !first && bits_left < 24 && qi >= 0 ==> step == if qi < 1 {
                qi
            } else {
                1
            }
            &&& !first && bits_left < 16 && qi <= 0 ==> step == if qi > -1 {
                qi
            } else {
                -1
            }
            &&& bits_left >= 16 && qi <= 0 ==> step == qi
        }),
{
}

/// A refinement is coded as the value of its bits that is nearest to it.
pub proof fn law_fine_value_is_nearest(q: int, bits: nat, v: int)
    requires
        0 <= v < pow2(bits),
    ensures
        ({
            let coded = fine_value(q, bits);
            &&& 0 <= coded < pow2(bits)
            &&& q <= coded ==> coded - q <= v - q || v - q < 0
            &&& (coded - q) * (coded - q) <= (v - q) * (v - q)
        }),
{
    lemma_pow2_pos(bits);
    let c = fine_value(q, bits) - q;
    let d = v - q;
    assert(c * c <= d * d) by (nonlinear_arith)
        requires
            (0 <= c <= d) || (d <= c <= 0) || c == 0,
    ;
}

/// A band can be refined if it is not at the finest resolution.
pub open spec fn can_refine(fine_quant: Seq<i32>, b: int, start: int, end: int) -> bool {
    start <= b < end && fine_quant[b] < 8
}

proof fn lemma_refinable_members(
    fine_quant: Seq<i32>,
    priority: Seq<bool>,
    wanted: bool,
    start: int,
    n: int,
)
    requires
        0 <= start,
        n <= NB_EBANDS,
    ensures
        ({
            let list = refinable(fine_quant, priority, wanted, start, n);
            &&& forall|i: int|
                0 <= i < list.len() ==> can_refine(fine_quant, (#[trigger] list[i]) as int, start, n)
                    && priority[list[i] as int] == wanted
            &&& forall|i: int, j: int| 0 <= i < j < list.len() ==> list[i] < list[j]
            &&& forall|b: int|
                #[trigger] can_refine(fine_quant, b, start, n) && priority[b] == wanted
                    ==> list.contains(b as usize)
        }),
    decreases n - start,
{
    if n > start {
        lemma_refinable_members(fine_quant, priority, wanted, start, n - 1);
        let before = refinable(fine_quant, priority, wanted, start, n - 1);
        let list = refinable(fine_quant, priority, wanted, start, n);
        assert forall|b: int|
            #[trigger] can_refine(fine_quant, b, start, n) && priority[b] == wanted implies list.contains(
            b as usize,
        ) by {
            if b < n - 1 {
                assert(can_refine(fine_quant, b, start, n - 1));
                let i = choose|i: int| 0 <= i < before.len() && before[i] == b as usize;
                assert(list[i] == b as usize);
            } else {
                assert(list[list.len() - 1] == b as usize);
            }
        }
        assert forall|i: int| 0 <= i < list.len() implies can_refine(
            fine_quant,
            (#[trigger] list[i]) as int,
            start,
            n,
        ) && priority[list[i] as int] == wanted by {
            if i < before.len() {
                assert(list[i] == before[i]);
                assert(can_refine(fine_quant, before[i] as int, start, n - 1));
            }
        }
    }
}

/// The bits that are left over refine one band each. Only bands that can be
/// refined get one, none gets two, and bands of the first priority come before
/// the others, low bands before high ones. Where bits remain, no band that could
/// be refined has gone without.
pub proof fn law_leftover_is_spent(
    fine_quant: Seq<i32>,
    priority: Seq<bool>,
    start: int,
    end: int,
    bits_left: int,
    i: int,
    j: int,
    b: int,
)
    requires
        0 <= start <= end <= NB_EBANDS,
    ensures
        ({
            let bands = leftover_bands(fine_quant, priority, start, end, bits_left);
            &&& bits_left >= 0 ==> bands.len() <= bits_left
            &&& bits_left < 0 ==> bands.len() == 0
            &&& 0 <= i < bands.len() ==> can_refine(fine_quant, bands[i] as int, start, end)
            &&& 0 <= i < j < bands.len() ==> {
                let (first, second) = (priority[bands[i] as int], priority[bands[j] as int]);
                (first == second && bands[i] < bands[j]) || (!first && second)
            }
            &&& bands.len() < bits_left && can_refine(fine_quant, b, start, end) ==> bands.contains(
                b as usize,
            )
        }),
{
    lemma_refinable_members(fine_quant, priority, false, start, end);
    lemma_refinable_members(fine_quant, priority, true, start, end);
    let first = refinable(fine_quant, priority, false, start, end);
    let second = refinable(fine_quant, priority, true, start, end);
    let all = first + second;
    let bands = leftover_bands(fine_quant, priority, start, end, bits_left);
    if 0 <= i < bands.len() {
        assert(bands[i] == all[i]);
    }
    if 0 <= j < bands.len() {
        assert(bands[j] == all[j]);
    }
    if bands.len() < bits_left && can_refine(fine_quant, b, start, end) {
        assert(bands == all);
        if priority[b] {
            assert(second.contains(b as usize));
            let k = choose|k: int| 0 <= k < second.len() && second[k] == b as usize;
            assert(all[first.len() + k] == b as usize);
        } else {
            assert(first.contains(b as usize));
            let k = choose|k: int| 0 <= k < first.len() && first[k] == b as usize;
            assert(all[k] == b as usize);
        }
    }
}

/// What a decoder takes of the time-frequency flags of the first `n` bands:
/// whether any of them changes. The first flag takes four bits and the others
/// five, and each is read while it fits.
pub open spec fn tf_read(dec: DecoderState, budget: int, n: nat) -> (bool, DecoderState)
    decreases n,
{
    if n == 0 {
        (false, dec)
    } else {
        let (any, d) = tf_read(dec, budget, (n - 1) as nat);
        let (flag, after) = if n == 1 {
            flag_read(d, 4, budget - 4)
        } else {
            flag_read(d, 5, budget - 5)
        };
        (any || flag, after)
    }
}

proof fn lemma_tf_read(dec: DecoderState, enc: EncoderState, budget: int, n: nat)
    requires
        enc.valid(),
        dec.follows(enc),
        n <= NB_EBANDS,
        enc.offer_all(tf_list(budget), n).carried_by(dec.data),
    ensures
        !tf_read(dec, budget, n).0,
        tf_read(dec, budget, n).1.follows(enc.offer_all(tf_list(budget), n)),
        tf_read(dec, budget, n).1.data == dec.data,
        enc.offer_all(tf_list(budget), n).valid(),
    decreases n,
{
    let list = tf_list(budget);
    if n > 0 {
        let m = (n - 1) as nat;
        law_side_info_valid(0, false, seq![], 0, budget);
        lemma_offer_all(enc, list, n, dec.data);
        lemma_tf_read(dec, enc, budget, m);
        let d = tf_read(dec, budget, m).1;
        let logp = tf_logp(m as int);
        lemma_flag_read(d, enc.offer_all(list, m), false, logp, logp as int, budget);
    }
}

/// A decoder of the time-frequency flags finds that no band changes.
pub proof fn law_tf_flags_are_read(dec: DecoderState, enc: EncoderState, budget: int)
    requires
        enc.valid(),
        dec.follows(enc),
        enc.offer_all(tf_list(budget), NB_EBANDS as nat).carried_by(dec.data),
    ensures
        !tf_read(dec, budget, 21).0,
        tf_read(dec, budget, 21).1.follows(enc.offer_all(tf_list(budget), NB_EBANDS as nat)),
{
    lemma_tf_read(dec, enc, budget, 21);
}

/// One bit is set aside for the selector exactly where a frame longer than 2.5
/// ms has room for it behind the first flag.
pub proof fn law_tf_selector_bit(enc: EncoderState, lm: int, total_bits: int)
    ensures
        0 <= total_bits - tf_budget(enc, lm, total_bits) <= 1,
        lm <= 0 ==> tf_budget(enc, lm, total_bits) == total_bits,
        lm > 0 ==> (tf_budget(enc, lm, total_bits) < total_bits <==> used(
            enc.nbits_total(),
            enc.rng,
            false,
        ) + 4 + 1 <= total_bits),
{
}

/// The frequency of symbol `k` of an inverse CDF table with the given total.
pub open spec fn share(icdf: Seq<u8>, total: int, k: int) -> int {
    (if k == 0 {
        total
    } else {
        icdf[k - 1] as int
    }) - icdf[k]
}

/// The tables have the shapes that a decoder knows. Trims are symmetric around
/// the neutral one, and more likely the nearer they are to it; normal spreading
/// is the most likely; and among the small energy steps zero is as likely as the
/// other two together, which are equally likely.
pub proof fn law_table_shapes(k: int)
    ensures
        0 <= k <= 10 ==> share(TRIM_ICDF@, 128, k) == share(TRIM_ICDF@, 128, 10 - k),
        0 <= k < TRIM_NEUTRAL ==> 0 < share(TRIM_ICDF@, 128, k) <= share(TRIM_ICDF@, 128, k + 1),
        share(TRIM_ICDF@, 128, TRIM_NEUTRAL as int) == 46,
        0 <= k < 4 && k != SPREAD_NORMAL ==> 0 < share(SPREAD_ICDF@, 32, k) < share(
            SPREAD_ICDF@,
            32,
            SPREAD_NORMAL as int,
        ),
        share(SPREAD_ICDF@, 32, SPREAD_NORMAL as int) == 21,
        share(SMALL_ENERGY_ICDF@, 4, 0) == share(SMALL_ENERGY_ICDF@, 4, 1) + share(
            SMALL_ENERGY_ICDF@,
            4,
            2,
        ),
        share(SMALL_ENERGY_ICDF@, 4, 1) == share(SMALL_ENERGY_ICDF@, 4, 2),
        TRIM_ICDF@.len() == 11,
        SPREAD_ICDF@.len() == 4,
        TRIM_ICDF@.last() == 0,
        SPREAD_ICDF@.last() == 0,
{
}

/// Spreading and trim are coded as the symbols that stand for the normal and the
/// neutral choice, and only where all their bits fit: four whole bits, and six
/// counted in eighths. A band that can take more bits says that it gets no
/// boost, where more than the six bits of that flag fit.
pub proof fn law_neutral_choices(caps: Seq<i32>, total_bits: int, enc: EncoderState, i: int)
    ensures
        spread_symbol(total_bits).item == (Item::Table {
            k: SPREAD_NORMAL as int,
            icdf: SPREAD_ICDF@,
            ftb: 5,
        }),
        trim_symbol(total_bits).item == (Item::Table {
            k: TRIM_NEUTRAL as int,
            icdf: TRIM_ICDF@,
            ftb: 7,
        }),
        enc.fits_in(spread_symbol(total_bits)) <==> used(enc.nbits_total(), enc.rng, false) + 4
            <= total_bits,
        enc.fits_in(trim_symbol(total_bits)) <==> used(enc.nbits_total(), enc.rng, true) + 8 * 6
            <= 8 * total_bits,
        0 <= i < boost_list(caps, total_bits, 21).len() ==> {
            let g = boost_list(caps, total_bits, 21)[i];
            &&& g.item == (Item::Bit { bit: false, logp: 6 })
            &&& enc.fits_in(g) <==> used(enc.nbits_total(), enc.rng, true) + 8 * 6 < 8 * total_bits
        },
        boost_list(caps, total_bits, 21).len() == caps.take(21).filter(
            |c: i32| c > 0,
        ).len() || caps.len() < 21,
{
    lemma_boost_members(caps, total_bits, 21, i);
    if caps.len() >= 21 {
        lemma_boost_count(caps, total_bits, 21);
    }
}

proof fn lemma_boost_members(caps: Seq<i32>, total_bits: int, n: int, i: int)
    ensures
        0 <= i < boost_list(caps, total_bits, n).len() ==> boost_list(caps, total_bits, n)[i] == (
        Guarded {
            item: Item::Bit { bit: false, logp: 6 },
            fine: true,
            need: 49,
            limit: 8 * total_bits,
        }),
    decreases n,
{
    if n > 0 {
        lemma_boost_members(caps, total_bits, n - 1, i);
    }
}

proof fn lemma_boost_count(caps: Seq<i32>, total_bits: int, n: int)
    requires
        0 <= n <= caps.len(),
    ensures
        boost_list(caps, total_bits, n).len() == caps.take(n).filter(|c: i32| c > 0).len(),
    decreases n,
{
    let positive = |c: i32| c > 0;
    reveal(Seq::filter);
    if n > 0 {
        lemma_boost_count(caps, total_bits, n - 1);
        assert(caps.take(n).drop_last() =~= caps.take(n - 1));
        assert(caps.take(n).last() == caps[n - 1]);
    } else {
        assert(caps.take(0) =~= seq![]);
    }
}

/// A frame can be coded in two bytes or more, up to the longest that a packet may
/// hold.
pub proof fn law_coded_frames_fit_packets(nb_bytes: int)
    ensures
        frame_bytes_valid(nb_bytes) <==> 2 <= nb_bytes <= crate::packet::MAX_FRAME_LEN,
{
}

} // verus!
