//! The payload of a SILK frame.
//!
//! A mono payload with one frame starts with a flag for voice activity and one
//! for in-band error correction. Frames are always coded as active and without
//! correction, so both flags are fixed. The rest of a frame consists of symbols
//! of inverse CDF tables.

use vstd::prelude::*;

use crate::range::digits::whole;
use crate::range::message::{law_finds_message, law_start_in_step, Item};
use crate::range::model::{DecoderState, EncoderState};
use crate::range::{RangeEncoder, RangeEncoderError};

use super::frame::{
    config_of, is_unvoiced, rate_supported, FrameConfig, SideInfoIndices, SilkChannelEncoder,
};

verus! {

/// The size of a payload.
pub const PAYLOAD_BYTES: usize = 1275;

/// A symbol of an inverse CDF table, which counts out of `2^ftb`.
#[derive(Debug, Clone, Copy)]
pub struct TableSymbol<'a> {
    pub k: usize,
    pub icdf: &'a [u8],
    pub ftb: u32,
}

impl TableSymbol<'_> {
    /// The symbol as an item of a message.
    pub open spec fn item(self) -> Item {
        Item::Table { k: self.k as int, icdf: self.icdf@, ftb: self.ftb as nat }
    }
}

/// The items of a payload: active, without correction, and the frame.
pub open spec fn payload_items(frame: Seq<TableSymbol<'_>>) -> Seq<Item> {
    seq![Item::Bit { bit: true, logp: 1 }, Item::Bit { bit: false, logp: 1 }] + Seq::new(
        frame.len(),
        |i: int| frame[i].item(),
    )
}

/// Whether all symbols of a frame can be coded and read back.
pub open spec fn frame_valid(frame: Seq<TableSymbol<'_>>) -> bool {
    forall|i: int| 0 <= i < frame.len() ==> (#[trigger] frame[i]).item().valid()
}

/// The state of a range coder behind a payload.
pub open spec fn payload_state(frame: Seq<TableSymbol<'_>>) -> EncoderState {
    EncoderState::initial().write_all(payload_items(frame), payload_items(frame).len())
}

/// A SILK encoder for one mono stream.
pub struct SilkEncoder {
    ch: SilkChannelEncoder,
    bitrate: i32,
}

impl SilkEncoder {
    #[verifier::type_invariant]
    spec fn well_formed(self) -> bool {
        rate_supported(self.ch.fs_khz as int, self.ch.nb_subfr as int)
    }

    /// The state of the channel.
    pub closed spec fn channel(self) -> SilkChannelEncoder {
        self.ch
    }

    /// The target bitrate.
    pub closed spec fn target(self) -> i32 {
        self.bitrate
    }

    /// A new encoder at the given internal rate (8, 12 or 16 kHz) and subframe
    /// count (4 for 20 ms, 2 for 10 ms).
    #[must_use]
    pub fn new(fs_khz: i32, nb_subfr: usize) -> (enc: Self)
        requires
            rate_supported(fs_khz as int, nb_subfr as int),
        ensures
            enc.channel().fs_khz == fs_khz,
            enc.channel().nb_subfr == nb_subfr,
            enc.channel().last_gain_index == 10,
            enc.target() == 0,
    {
        SilkEncoder { ch: SilkChannelEncoder::new(fs_khz, nb_subfr), bitrate: 0 }
    }

    /// Sets the target bitrate in bits per second.
    pub fn set_bitrate(&mut self, bps: i32)
        ensures
            final(self).target() == bps,
            final(self).channel() == old(self).channel(),
    {
        proof {
            use_type_invariant(&*self);
        }
        self.bitrate = bps;
    }

    /// The target bitrate in bits per second, or zero where none was set.
    #[must_use]
    pub fn bitrate(&self) -> (bps: i32)
        ensures
            bps == self.target(),
    {
        self.bitrate
    }

    /// The shape of the frames.
    #[must_use]
    pub fn config(&self) -> (config: FrameConfig)
        ensures
            config == config_of(
                self.channel().fs_khz as int,
                self.channel().nb_subfr as int,
            ),
    {
        proof {
            use_type_invariant(self);
        }
        self.ch.config()
    }

    /// The sample rate, in kHz.
    #[must_use]
    pub fn fs_khz(&self) -> (fs: i32)
        ensures
            fs == self.channel().fs_khz,
    {
        self.ch.fs_khz
    }

    /// The level that the gains accumulate to.
    #[must_use]
    pub fn last_gain_index(&self) -> (index: i8)
        ensures
            index == self.channel().last_gain_index,
    {
        self.ch.last_gain_index
    }

    /// Remembers the level that the gains of a frame accumulated to.
    pub fn set_last_gain_index(&mut self, index: i8)
        ensures
            final(self).channel() == (SilkChannelEncoder {
                last_gain_index: index,
                ..old(self).channel()
            }),
            final(self).target() == old(self).target(),
    {
        proof {
            use_type_invariant(&*self);
        }
        self.ch.last_gain_index = index;
    }

    /// The side information of an unvoiced frame, from the indices of its gains
    /// and of its line spectral frequencies.
    #[must_use]
    pub fn unvoiced_indices(
        &self,
        quant_offset_type: i8,
        gains_indices: &[i8; 4],
        nlsf_indices: &[i8; 17],
    ) -> (indices: SideInfoIndices)
        ensures
            is_unvoiced(
                indices,
                self.channel(),
                quant_offset_type,
                gains_indices@,
                nlsf_indices@,
            ),
    {
        proof {
            use_type_invariant(self);
        }
        self.ch.unvoiced_indices(quant_offset_type, gains_indices, nlsf_indices)
    }

    /// Codes the symbols of one frame into a payload.
    ///
    /// # Errors
    ///
    /// The error of the range coder if the frame does not fit the payload.
    pub fn encode(&mut self, frame: &[TableSymbol<'_>]) -> (res: Result<Vec<u8>, RangeEncoderError>)
        requires
            frame_valid(frame@),
            frame@.len() <= 0x100_0000,
        ensures
            *final(self) == *old(self),
            res is Ok <==> payload_state(frame@).fits(PAYLOAD_BYTES as nat),
            res matches Ok(payload) ==> {
                &&& payload@.len() == PAYLOAD_BYTES
                &&& whole(payload@) == payload_state(frame@).frame_value(PAYLOAD_BYTES as nat)
                &&& payload_state(frame@).carried_by(payload@)
            },
    {
        let ghost items = payload_items(frame@);
        let ghost start = EncoderState::initial();
        let mut enc = RangeEncoder::new(PAYLOAD_BYTES);
        proof {
            vstd::arithmetic::power2::lemma2_to64();
        }
        // Voice activity, and no in-band error correction.
        assert(start.write_all(items, 0) == start);
        enc.encode_bit_logp(true, 1);
        assert(enc@ == start.write_all(items, 1));
        enc.encode_bit_logp(false, 1);
        assert(enc@ == start.write_all(items, 2));
        let mut i: usize = 0;
        while i < frame.len()
            invariant
                i <= frame@.len(),
                frame@.len() <= 0x100_0000,
                frame_valid(frame@),
                items == payload_items(frame@),
                enc.inv(),
                enc.size() == PAYLOAD_BYTES,
                enc@ == start.write_all(items, (2 + i) as nat),
                enc@.nbits_total() <= 33 + 48 + 24 * i,
            decreases frame@.len() - i,
        {
            let symbol = frame[i];
            assert(frame@[i as int].item().valid());
            assert(items[2 + i] == frame@[i as int].item());
            enc.encode_icdf(symbol.k, symbol.icdf, symbol.ftb);
            i = i + 1;
        }
        enc.finalize()
    }
}

/// A decoder finds in a payload the two flags and every symbol of the frame.
pub proof fn law_payload_round_trip(frame: Seq<TableSymbol<'_>>, payload: Seq<u8>)
    requires
        frame_valid(frame),
        payload_state(frame).carried_by(payload),
    ensures
        DecoderState::initial(payload).finds_all(payload_items(frame)),
{
    let items = payload_items(frame);
    law_start_in_step(payload);
    assert forall|i: int| 0 <= i < items.len() implies (#[trigger] items[i]).valid() by {
        if i >= 2 {
            assert(items[i] == frame[i - 2].item());
        }
    }
    law_finds_message(DecoderState::initial(payload), EncoderState::initial(), items);
}

/// The first two bits of a payload, each of an even choice, say that the frame is
/// active and that there is no correction. Behind them a decoder selects the
/// symbols of the frame one after the other.
pub proof fn law_payload_is_read(frame: Seq<TableSymbol<'_>>, payload: Seq<u8>, i: int)
    requires
        frame_valid(frame),
        payload_state(frame).carried_by(payload),
        0 <= i < frame.len(),
    ensures
        ({
            let start = DecoderState::initial(payload);
            let second = start.take_bit(true, 1);
            let dec = start.read_all(payload_items(frame), (2 + i) as nat);
            &&& start.next_bit(1)
            &&& !second.next_bit(1)
            &&& dec.icdf_selects(frame[i].k as int, frame[i].icdf@, frame[i].ftb as nat)
            &&& i == 0 ==> dec == second.take_bit(false, 1)
        }),
{
    law_payload_round_trip(frame, payload);
    let start = DecoderState::initial(payload);
    let items = payload_items(frame);
    assert(items[0] == (Item::Bit { bit: true, logp: 1 }));
    assert(items[1] == (Item::Bit { bit: false, logp: 1 }));
    assert(items[2 + i] == frame[i].item());
    assert(start.read_all(items, 0) == start);
    assert(start.read_all(items, 1) == start.take_bit(true, 1));
    assert(start.read_all(items, 2) == start.take_bit(true, 1).take_bit(false, 1));
    assert(start.read_all(items, 0).finds(items[0]));
    assert(start.read_all(items, 1).finds(items[1]));
    assert(start.read_all(items, (2 + i) as nat).finds(items[2 + i]));
}

} // verus!
