//! The decisions of the Opus decoder: which layers decode a frame, the embedded
//! redundancy, and how mode transitions are smoothed.
//!
//! The audio itself is computed elsewhere; a [`FramePlan`] says what to
//! compute, and in which order.

use vstd::prelude::*;

use crate::packet::{Bandwidth, Mode};
use crate::range::bit_length;
use crate::range::model::{shortfall, uint_raw_bits, DecoderState};
use crate::range::{RangeDecoder, CODE_BOT};

verus! {

/// The end band of CELT for a bandwidth.
pub open spec fn end_band_of(bandwidth: Bandwidth) -> int {
    match bandwidth {
        Bandwidth::NarrowBand => 13,
        Bandwidth::MediumBand => 17,
        Bandwidth::WideBand => 17,
        Bandwidth::SuperWideBand => 19,
        Bandwidth::FullBand => 21,
    }
}

/// The end band of CELT for a bandwidth.
#[must_use]
pub fn end_band(bandwidth: Bandwidth) -> (band: usize)
    ensures
        band == end_band_of(bandwidth),
{
    match bandwidth {
        Bandwidth::NarrowBand => 13,
        Bandwidth::MediumBand => 17,
        Bandwidth::WideBand => 17,
        Bandwidth::SuperWideBand => 19,
        Bandwidth::FullBand => 21,
    }
}

/// What a decoder remembers of the frame before.
#[derive(Debug, Clone, Copy, PartialEq, Eq)]
pub struct DecoderHistory {
    /// The mode of the last frame.
    pub prev_mode: Option<Mode>,
    /// Whether the last frame carried redundancy for a change to CELT.
    pub prev_redundancy: bool,
}

/// The parameters of the SILK layer for a frame.
#[derive(Debug, Clone, Copy, PartialEq, Eq)]
pub struct SilkPlan {
    /// Whether the SILK decoder starts anew.
    pub reset: bool,
    /// The internal sample rate, in Hz.
    pub internal_sample_rate: u32,
    /// The duration of the frame, in milliseconds.
    pub payload_size_ms: usize,
    /// The number of calls, of at most 20 ms each.
    pub calls: usize,
}

/// Whether the audio jumps at this frame: the mode changes to or from CELT
/// only, and no redundancy in the last frame has prepared a change to CELT.
pub open spec fn jumps(history: DecoderHistory, mode: Mode) -> bool {
    match history.prev_mode {
        None => false,
        Some(prev) => if mode is CeltOnly {
            !(prev is CeltOnly) && !history.prev_redundancy
        } else {
            prev is CeltOnly
        },
    }
}

/// Whether the state of the SILK decoder is discarded before its next frame.
pub open spec fn silk_restarts(history: DecoderHistory) -> bool {
    history.prev_mode == Some(Mode::CeltOnly)
}

/// The internal sample rate of the SILK layer, in Hz: that of the bandwidth in
/// SILK-only frames, and 16 kHz in hybrid ones.
pub open spec fn silk_rate(mode: Mode, bandwidth: Bandwidth) -> int {
    if mode is SilkOnly && bandwidth is NarrowBand {
        8000
    } else if mode is SilkOnly && bandwidth is MediumBand {
        12000
    } else {
        16000
    }
}

/// The duration of a frame for the SILK layer, in milliseconds.
pub open spec fn silk_duration(frame_size: int) -> int {
    let ms = 1000 * frame_size / 48000;
    if ms < 10 {
        10
    } else {
        ms
    }
}

impl DecoderHistory {
    /// The history before the first frame.
    #[must_use]
    pub fn new() -> (history: Self)
        ensures
            history.prev_mode is None,
            !history.prev_redundancy,
    {
        DecoderHistory { prev_mode: None, prev_redundancy: false }
    }

    /// Whether the audio jumps at a frame of this mode.
    #[must_use]
    pub fn transition(&self, mode: Mode) -> (jump: bool)
        ensures
            jump == jumps(*self, mode),
    {
        match self.prev_mode {
            None => false,
            Some(prev) => {
                (mode == Mode::CeltOnly && prev != Mode::CeltOnly && !self.prev_redundancy) || (mode
                    != Mode::CeltOnly && prev == Mode::CeltOnly)
            },
        }
    }

    /// The parameters of the SILK layer for a frame of `frame_size` samples at
    /// 48 kHz; CELT-only frames have none.
    #[must_use]
    pub fn silk_plan(&self, mode: Mode, bandwidth: Bandwidth, frame_size: usize) -> (plan: Option<
        SilkPlan,
    >)
        requires
            1000 * frame_size <= usize::MAX,
        ensures
            match plan {
                None => mode is CeltOnly,
                Some(p) => {
                    &&& !(mode is CeltOnly)
                    &&& p.reset == (self.prev_mode == Some(Mode::CeltOnly))
                    &&& p.reset == silk_restarts(*self)
                    &&& p.internal_sample_rate == silk_rate(mode, bandwidth)
                    &&& p.payload_size_ms == silk_duration(frame_size as int)
                    &&& 20 * (p.calls - 1) < p.payload_size_ms <= 20 * p.calls
                },
            },
    {
        if mode == Mode::CeltOnly {
            return None;
        }
        let reset = match self.prev_mode {
            Some(prev) => prev == Mode::CeltOnly,
            None => false,
        };
        let ms = 1000 * frame_size / 48000;
        let payload_size_ms = if ms < 10 {
            10
        } else {
            ms
        };
        let internal_sample_rate = if mode == Mode::SilkOnly {
            match bandwidth {
                Bandwidth::NarrowBand => 8000,
                Bandwidth::MediumBand => 12000,
                _ => 16000,
            }
        } else {
            16000
        };
        let calls = (payload_size_ms - 1) / 20 + 1;
        Some(SilkPlan { reset, internal_sample_rate, payload_size_ms, calls })
    }
}

/// The redundant CELT frame that a SILK or hybrid frame may carry.
#[derive(Debug, Clone, Copy, PartialEq, Eq, Structural)]
pub struct Redundancy {
    /// Whether there is one.
    pub present: bool,
    /// Whether it belongs to a change from CELT to SILK, or the other way.
    pub celt_to_silk: bool,
    /// The bytes at the end of the frame that hold it.
    pub bytes: usize,
    /// The bytes that are left for the main frame.
    pub len: usize,
}

/// The bits used so far, rounded up.
pub open spec fn bits_used(dec: DecoderState) -> int {
    dec.nbits_total() - bit_length(dec.rng)
}

/// Whether a frame of `len` bytes has room for a redundant one.
pub open spec fn redundancy_fits(dec: DecoderState, mode: Mode, len: int) -> bool {
    !(mode is CeltOnly) && bits_used(dec) + 17 + (if mode is Hybrid {
        20int
    } else {
        0
    }) <= 8 * len
}

/// The state behind the flag that announces a redundant frame, and the flag.
/// Only hybrid frames code it; SILK-only frames with room have one.
pub open spec fn redundancy_flag(dec: DecoderState, mode: Mode) -> (DecoderState, bool) {
    if mode is Hybrid {
        let flag = dec.next_bit(12);
        (dec.take_bit(flag, 12), flag)
    } else {
        (dec, true)
    }
}

/// The state behind the size of a redundant frame, and the size: coded in
/// hybrid frames, and otherwise all the bytes that are left.
pub open spec fn redundancy_size(dec: DecoderState, mode: Mode, len: int) -> (DecoderState, int) {
    if mode is Hybrid {
        let t = dec.next_uint(256);
        (
            dec.take_uint(256),
            if t < 256 {
                t + 2
            } else {
                2
            },
        )
    } else {
        (dec, len - (bits_used(dec) + 7) / 8)
    }
}

/// The redundancy of a frame of `len` bytes and the decoder state behind it.
/// A size that would leave less than what was already read drops it, and the
/// main frame with it. A redundant frame is cut off from the main one.
pub open spec fn redundancy_of(dec: DecoderState, mode: Mode, len: int) -> (
    DecoderState,
    Redundancy,
) {
    let none = Redundancy { present: false, celt_to_silk: false, bytes: 0, len: len as usize };
    if !redundancy_fits(dec, mode, len) {
        (dec, none)
    } else {
        let (d1, flag) = redundancy_flag(dec, mode);
        if !flag {
            (d1, none)
        } else {
            let celt_to_silk = d1.next_bit(1);
            let d2 = d1.take_bit(celt_to_silk, 1);
            let (d3, bytes) = redundancy_size(d2, mode, len);
            if bytes > len || 8 * (len - bytes) < bits_used(d3) {
                (d3, Redundancy { present: false, celt_to_silk, bytes: 0, len: 0 })
            } else {
                (
                    DecoderState { data: d3.data.subrange(0, len - bytes), ..d3 },
                    Redundancy {
                        present: true,
                        celt_to_silk,
                        bytes: bytes as usize,
                        len: (len - bytes) as usize,
                    },
                )
            }
        }
    }
}

proof fn lemma_uint_256(dec: DecoderState)
    ensures
        uint_raw_bits(256) == 0,
        dec.take_uint(256).raw_bits == dec.raw_bits,
        dec.take_uint(256).data == dec.data,
{
    reveal_with_fuel(bit_length, 9);
    assert(bit_length(255) == 8);
    let t = dec.frequency(256);
    crate::range::model::lemma_update_keeps_raw(dec, t, t + 1, 256);
}

proof fn lemma_bit_keeps(dec: DecoderState, bit: bool, logp: nat)
    ensures
        dec.take_bit(bit, logp).raw_bits == dec.raw_bits,
        dec.take_bit(bit, logp).data == dec.data,
{
    let ft = vstd::arithmetic::power2::pow2(logp) as int;
    if bit {
        crate::range::model::lemma_update_keeps_raw(dec, ft - 1, ft, ft);
    } else {
        crate::range::model::lemma_update_keeps_raw(dec, 0, ft - 1, ft);
    }
}

/// Reads what a frame of `len` bytes says about a redundant frame at its end,
/// and cuts that off.
pub fn read_redundancy(dec: &mut RangeDecoder<'_>, mode: Mode, len: usize) -> (res: Redundancy)
    requires
        old(dec).inv(),
        old(dec)@.data.len() == len,
        old(dec)@.raw_bits == 0,
        old(dec)@.nbits_total() + 96 <= u32::MAX,
        len <= 0x1000_0000,
    ensures
        final(dec).inv(),
        res == redundancy_of(old(dec)@, mode, len as int).1,
        final(dec)@ == redundancy_of(old(dec)@, mode, len as int).0,
        res.bytes + res.len <= len,
        res.present ==> res.bytes + res.len == len,
{
    let none = Redundancy { present: false, celt_to_silk: false, bytes: 0, len };
    if mode == Mode::CeltOnly {
        return none;
    }
    let hybrid = mode == Mode::Hybrid;
    let overhead: u64 = if hybrid { 37 } else { 17 };
    if dec.tell() as u64 + overhead > 8 * len as u64 {
        return none;
    }
    if hybrid {
        proof {
            lemma_bit_keeps(dec@, dec@.next_bit(12), 12);
        }
        if !dec.decode_bit_logp(12) {
            return none;
        }
    }
    proof {
        lemma_bit_keeps(dec@, dec@.next_bit(1), 1);
    }
    proof {
        dec.lemma_valid();
        lemma_even_choice(dec@, dec@.next_bit(1));
    }
    let celt_to_silk = dec.decode_bit_logp(1);
    let bytes: u64 = if hybrid {
        proof {
            lemma_uint_256(dec@);
        }
        match dec.decode_uint(256) {
            Some(t) => t as u64 + 2,
            None => 2,
        }
    } else {
        let used = (dec.tell() as u64 + 7) / 8;
        len as u64 - used
    };
    if bytes > len as u64 || 8 * (len as u64 - bytes) < dec.tell() as u64 {
        return Redundancy { present: false, celt_to_silk, bytes: 0, len: 0 };
    }
    let rest = len - bytes as usize;
    dec.shrink_storage(rest);
    Redundancy { present: true, celt_to_silk, bytes: bytes as usize, len: rest }
}

proof fn lemma_bit_length_scaled(x: int)
    requires
        x > 0,
    ensures
        bit_length(256 * x) == bit_length(x) + 8,
{
    assert(bit_length(2 * x) == bit_length(x) + 1);
    assert(bit_length(4 * x) == bit_length(2 * x) + 1);
    assert(bit_length(8 * x) == bit_length(4 * x) + 1);
    assert(bit_length(16 * x) == bit_length(8 * x) + 1);
    assert(bit_length(32 * x) == bit_length(16 * x) + 1);
    assert(bit_length(64 * x) == bit_length(32 * x) + 1);
    assert(bit_length(128 * x) == bit_length(64 * x) + 1);
    assert(bit_length(256 * x) == bit_length(128 * x) + 1);
}

proof fn lemma_normalize_keeps_bits(dec: DecoderState)
    requires
        dec.rng > 0,
    ensures
        bits_used(dec.normalize()) == bits_used(dec),
    decreases shortfall(dec.rng),
{
    if dec.rng <= CODE_BOT {
        lemma_bit_length_scaled(dec.rng);
        lemma_normalize_keeps_bits(dec.shift_in());
    }
}

/// An even choice takes at most one bit.
proof fn lemma_even_choice(dec: DecoderState, bit: bool)
    requires
        dec.valid(),
    ensures
        bits_used(dec.take_bit(bit, 1)) <= bits_used(dec) + 1,
{
    vstd::arithmetic::power2::lemma2_to64();
    let r = dec.rng / 2;
    assert(r * 1 == r && r * 0 == 0 && r * 2 == 2 * r);
    let from = if bit {
        dec.rng - r
    } else {
        0
    };
    let size = if bit {
        r
    } else {
        dec.rng - r
    };
    let narrowed = DecoderState { val: dec.val - (dec.rng - from - size), rng: size, ..dec };
    assert(dec.take_bit(bit, 1) == narrowed.normalize());
    lemma_normalize_keeps_bits(narrowed);
    crate::range::lemma_bit_length(dec.rng);
    assert(bit_length(dec.rng) == 1 + bit_length(r));
    lemma_bit_length_monotonic(r, size);
}

proof fn lemma_bit_length_monotonic(x: int, y: int)
    requires
        x <= y,
    ensures
        bit_length(x) <= bit_length(y),
    decreases x,
{
    if x > 0 {
        lemma_bit_length_monotonic(x / 2, y / 2);
    }
}

/// Samples of 2.5, 5 and 20 ms at 48 kHz.
pub const F2_5: usize = 120;

pub const F5: usize = 240;

pub const F20: usize = 960;

/// The first band of CELT in a hybrid frame.
pub const HYBRID_START_BAND: usize = 17;

/// How the audio of a mode transition is faded in.
#[derive(Debug, Clone, Copy, PartialEq, Eq, Structural)]
pub enum TransitionFade {
    /// Not at all.
    Off,
    /// Over the first 2.5 ms: the frame is shorter than 5 ms.
    Short,
    /// 2.5 ms of the old signal, then a fade over the next 2.5 ms.
    Long,
}

/// The main CELT frame.
#[derive(Debug, Clone, Copy, PartialEq, Eq, Structural)]
pub struct CeltPlan {
    /// Whether the CELT decoder starts anew.
    pub reset: bool,
    /// The number of samples, at most 20 ms.
    pub frame_size: usize,
    /// The first band.
    pub start_band: usize,
}

/// What is computed for a frame behind its SILK layer, in this order.
#[derive(Debug, Clone, Copy, PartialEq, Eq, Structural)]
pub struct FramePlan {
    /// The end band of all CELT frames.
    pub end_band: usize,
    /// Decode the redundant frame with the CELT state as it is.
    pub redundant_first: bool,
    /// Decode the main CELT frame.
    pub celt: Option<CeltPlan>,
    /// Let CELT fade out by decoding a frame of silence over 2.5 ms.
    pub fade_out: bool,
    /// Decode the redundant frame with a new CELT state, and fade its second
    /// half in over the last 2.5 ms.
    pub redundant_last: bool,
    /// Begin with the first half of the redundant frame, and fade from its
    /// second half.
    pub blend_first: bool,
    /// Fade in from the signal before a mode transition.
    pub transition: TransitionFade,
}

/// What is computed for a frame.
pub open spec fn frame_plan(
    history: DecoderHistory,
    mode: Mode,
    bandwidth: Bandwidth,
    frame_size: int,
    red: Redundancy,
) -> FramePlan {
    let to_silk = red.present && red.celt_to_silk;
    let changed = history.prev_mode matches Some(prev) && prev != mode;
    FramePlan {
        end_band: end_band_of(bandwidth) as usize,
        redundant_first: to_silk,
        celt: if mode is SilkOnly {
            None
        } else {
            Some(
                CeltPlan {
                    reset: changed && !history.prev_redundancy,
                    frame_size: (if frame_size < F20 {
                        frame_size
                    } else {
                        F20 as int
                    }) as usize,
                    start_band: if mode is CeltOnly {
                        0
                    } else {
                        HYBRID_START_BAND
                    },
                },
            )
        },
        fade_out: mode is SilkOnly && history.prev_mode == Some(Mode::Hybrid) && !(to_silk
            && history.prev_redundancy),
        redundant_last: red.present && !red.celt_to_silk,
        blend_first: to_silk && (history.prev_mode != Some(Mode::SilkOnly)
            || history.prev_redundancy),
        transition: if red.present || !jumps(history, mode) {
            TransitionFade::Off
        } else if frame_size >= F5 {
            TransitionFade::Long
        } else {
            TransitionFade::Short
        },
    }
}

/// What is remembered of a frame.
pub open spec fn after_frame(mode: Mode, red: Redundancy) -> DecoderHistory {
    DecoderHistory {
        prev_mode: Some(mode),
        prev_redundancy: red.present && !red.celt_to_silk,
    }
}

impl DecoderHistory {
    /// What is computed for a frame of `frame_size` samples at 48 kHz.
    #[must_use]
    pub fn plan(
        &self,
        mode: Mode,
        bandwidth: Bandwidth,
        frame_size: usize,
        red: Redundancy,
    ) -> (plan: FramePlan)
        ensures
            plan == frame_plan(*self, mode, bandwidth, frame_size as int, red),
    {
        let to_silk = red.present && red.celt_to_silk;
        let (changed, was_hybrid, was_silk) = match self.prev_mode {
            None => (false, false, false),
            Some(prev) => (prev != mode, prev == Mode::Hybrid, prev == Mode::SilkOnly),
        };
        let celt = if mode == Mode::SilkOnly {
            None
        } else {
            Some(
                CeltPlan {
                    // Discard stale state on a mode change.
                    reset: changed && !self.prev_redundancy,
                    frame_size: if frame_size < F20 {
                        frame_size
                    } else {
                        F20
                    },
                    start_band: if mode == Mode::CeltOnly {
                        0
                    } else {
                        HYBRID_START_BAND
                    },
                },
            )
        };
        // The redundant frame smooths the transition by itself.
        let transition = if red.present || !self.transition(mode) {
            TransitionFade::Off
        } else if frame_size >= F5 {
            TransitionFade::Long
        } else {
            TransitionFade::Short
        };
        FramePlan {
            end_band: end_band(bandwidth),
            redundant_first: to_silk,
            celt,
            fade_out: mode == Mode::SilkOnly && was_hybrid && !(to_silk && self.prev_redundancy),
            redundant_last: red.present && !red.celt_to_silk,
            blend_first: to_silk && (!was_silk || self.prev_redundancy),
            transition,
        }
    }

    /// Remembers a frame.
    pub fn advance(&mut self, mode: Mode, red: Redundancy)
        ensures
            *final(self) == after_frame(mode, red),
            final(self).prev_mode == Some(mode),
            final(self).prev_redundancy == (red.present && !red.celt_to_silk),
    {
        self.prev_mode = Some(mode);
        self.prev_redundancy = red.present && !red.celt_to_silk;
    }
}

/// A redundant frame takes the place of the transition fade: it never comes
/// with one, and is decoded either before the main frame or behind it.
pub proof fn law_redundancy_supersedes_fade(
    history: DecoderHistory,
    mode: Mode,
    bandwidth: Bandwidth,
    frame_size: int,
    red: Redundancy,
)
    ensures
        ({
            let plan = frame_plan(history, mode, bandwidth, frame_size, red);
            &&& red.present ==> plan.transition is Off
            &&& red.present ==> (plan.redundant_first <==> !plan.redundant_last)
            &&& !red.present ==> !plan.redundant_first && !plan.redundant_last && !plan.blend_first
        }),
{
}

/// The frequency at which CELT band `b` begins, in Hz; the last entry is where
/// the last band ends.
pub open spec fn band_edge(b: int) -> int {
    200 * seq![
        0int, 1, 2, 3, 4, 5, 6, 7, 8, 10, 12, 14, 16, 20, 24, 28, 34, 40, 48, 60, 78, 100,
    ][b]
}

/// The highest frequency that the SILK layer of a frame reproduces, or zero
/// where the frame has none.
pub open spec fn silk_top(mode: Mode, bandwidth: Bandwidth) -> int {
    if mode is CeltOnly {
        0
    } else {
        silk_rate(mode, bandwidth) / 2
    }
}

/// The layers of a frame meet: CELT begins at the frequency where SILK ends, at
/// the bottom where there is no SILK, and ends with the audio bandwidth. Frames
/// without CELT are those of SILK only. CELT has no band that ends at 6 kHz and
/// goes up to 8 kHz there.
pub proof fn law_layers_meet(
    history: DecoderHistory,
    mode: Mode,
    bandwidth: Bandwidth,
    frame_size: int,
    red: Redundancy,
)
    requires
        0 <= frame_size <= usize::MAX,
    ensures
        ({
            let plan = frame_plan(history, mode, bandwidth, frame_size, red);
            &&& plan.celt is None <==> mode is SilkOnly
            &&& plan.celt matches Some(celt) ==> band_edge(celt.start_band as int) == silk_top(
                mode,
                bandwidth,
            )
            &&& plan.celt matches Some(celt) ==> (celt.start_band == 17 <==> mode is Hybrid) && (
            celt.start_band == 0 <==> mode is CeltOnly)
            &&& plan.end_band <= 21
            &&& !(bandwidth is MediumBand) ==> band_edge(plan.end_band as int)
                == bandwidth.top_frequency()
            &&& bandwidth is MediumBand ==> band_edge(plan.end_band as int) == 8_000
        }),
{
}

/// The SILK layer runs at the sample rate of the bandwidth, or at that of the
/// wide band where CELT codes what lies above.
pub proof fn law_silk_rates(mode: Mode, bandwidth: Bandwidth)
    ensures
        mode is SilkOnly && bandwidth.rate() <= 16_000 ==> silk_rate(mode, bandwidth)
            == bandwidth.rate(),
        mode is Hybrid || bandwidth.rate() > 16_000 ==> silk_rate(mode, bandwidth) == 16_000,
{
}

/// A frame of `ms` milliseconds at 48 kHz lasts that long for the SILK layer; a
/// shorter one than 10 ms counts as 10.
pub proof fn law_silk_durations(ms: int)
    requires
        ms >= 0,
    ensures
        ms >= 10 ==> silk_duration(48 * ms) == ms,
        ms < 10 ==> silk_duration(48 * ms) == 10,
{
    assert(1000 * (48 * ms) == 48000 * ms);
}

/// CELT codes at most 20 ms, and the whole of a frame that is not longer.
pub proof fn law_celt_length(
    history: DecoderHistory,
    mode: Mode,
    bandwidth: Bandwidth,
    frame_size: int,
    red: Redundancy,
)
    requires
        0 <= frame_size <= usize::MAX,
    ensures
        frame_plan(history, mode, bandwidth, frame_size, red).celt matches Some(celt) ==> {
            &&& celt.frame_size <= frame_size
            &&& 1000 * celt.frame_size <= 20 * 48_000
            &&& 1000 * frame_size <= 20 * 48_000 ==> celt.frame_size == frame_size
            &&& 1000 * frame_size >= 20 * 48_000 ==> 1000 * celt.frame_size == 20 * 48_000
        },
{
}

/// The first frame of a stream has nothing to smooth: it begins from the initial
/// states, without a fade.
pub proof fn law_first_frame(
    history: DecoderHistory,
    mode: Mode,
    bandwidth: Bandwidth,
    frame_size: int,
    red: Redundancy,
)
    requires
        history.prev_mode is None,
    ensures
        ({
            let plan = frame_plan(history, mode, bandwidth, frame_size, red);
            &&& !jumps(history, mode)
            &&& plan.transition is Off
            &&& plan.celt matches Some(celt) ==> !celt.reset
            &&& !plan.fade_out
        }),
{
}

/// SILK carries its state from one frame that has it to the next; a CELT frame
/// between them discards it.
pub proof fn law_silk_continues(prev: Mode, before: Redundancy)
    ensures
        silk_restarts(after_frame(prev, before)) <==> silk_top(prev, Bandwidth::WideBand) == 0,
        !silk_restarts(DecoderHistory { prev_mode: None, prev_redundancy: false }),
{
}

/// As long as the mode stays, the states are carried from frame to frame and
/// nothing is faded.
pub proof fn law_steady_mode(
    mode: Mode,
    before: Redundancy,
    bandwidth: Bandwidth,
    frame_size: int,
    red: Redundancy,
)
    ensures
        ({
            let history = after_frame(mode, before);
            let plan = frame_plan(history, mode, bandwidth, frame_size, red);
            &&& !jumps(history, mode)
            &&& plan.transition is Off
            &&& plan.celt matches Some(celt) ==> !celt.reset
            &&& !plan.fade_out
        }),
{
}

/// A frame announces a change to CELT by a redundant frame that belongs to what
/// comes next.
pub open spec fn announces_celt(red: Redundancy) -> bool {
    red.present && !red.celt_to_silk
}

/// Where the mode changes, the old state of CELT is discarded unless the frame
/// before has announced the change; hybrid frames fade out to SILK; and the
/// audio is faded in where one of the two frames is CELT only, unless the change
/// to CELT was announced or a redundant frame smooths it. A fade takes 5 ms, or
/// half of that in a frame that is shorter.
pub proof fn law_mode_change(
    prev: Mode,
    before: Redundancy,
    mode: Mode,
    bandwidth: Bandwidth,
    frame_size: int,
    red: Redundancy,
)
    requires
        prev != mode,
    ensures
        ({
            let history = after_frame(prev, before);
            let plan = frame_plan(history, mode, bandwidth, frame_size, red);
            let abrupt = (prev is CeltOnly) || (mode is CeltOnly && !announces_celt(before));
            &&& jumps(history, mode) == abrupt
            &&& plan.celt matches Some(celt) ==> celt.reset == !announces_celt(before)
            &&& prev is CeltOnly || !(mode is SilkOnly) ==> !plan.fade_out
            &&& prev is Hybrid && mode is SilkOnly && !announces_celt(before) ==> plan.fade_out
            &&& prev is Hybrid && mode is SilkOnly && !plan.redundant_first ==> plan.fade_out
            &&& announces_celt(before) && plan.redundant_first ==> !plan.fade_out
            &&& plan.transition is Off <==> red.present || !abrupt
            &&& plan.transition is Long ==> 1000 * frame_size >= 5 * 48_000
            &&& plan.transition is Short ==> 1000 * frame_size < 5 * 48_000
        }),
{
}

/// A redundant frame for a change from CELT to SILK is decoded first, and what
/// is heard begins with it unless the state of CELT is stale: the frame before
/// was of SILK only and announced no change. One for the other change comes
/// last, and is remembered.
pub proof fn law_redundant_frames(
    history: DecoderHistory,
    mode: Mode,
    bandwidth: Bandwidth,
    frame_size: int,
    red: Redundancy,
)
    ensures
        ({
            let plan = frame_plan(history, mode, bandwidth, frame_size, red);
            let stale = history.prev_mode == Some(Mode::SilkOnly) && !history.prev_redundancy;
            &&& plan.redundant_last == announces_celt(red)
            &&& plan.redundant_last == after_frame(mode, red).prev_redundancy
            &&& after_frame(mode, red).prev_mode == Some(mode)
            &&& plan.redundant_first == (red.present && !plan.redundant_last)
            &&& plan.blend_first ==> plan.redundant_first
            &&& plan.redundant_first ==> plan.blend_first == !stale
        }),
{
}

proof fn lemma_take_bit_valid(dec: DecoderState, logp: nat)
    requires
        dec.valid(),
        1 <= logp <= 12,
    ensures
        dec.take_bit(dec.next_bit(logp), logp).valid(),
{
    vstd::arithmetic::power2::lemma2_to64();
    vstd::arithmetic::power2::lemma_pow2_strictly_increases(0, logp);
    if logp < 12 {
        vstd::arithmetic::power2::lemma_pow2_strictly_increases(logp, 12);
    }
    let ft = vstd::arithmetic::power2::pow2(logp) as int;
    let r = dec.rng / ft;
    vstd::arithmetic::div_mod::lemma_fundamental_div_mod(dec.rng, ft);
    assert(r > 0) by (nonlinear_arith)
        requires
            0 < ft <= dec.rng,
            dec.rng == ft * r + dec.rng % ft,
            0 <= dec.rng % ft < ft,
    ;
    vstd::arithmetic::div_mod::lemma_fundamental_div_mod(dec.val, r);
    let q = dec.val / r;
    let m = dec.val % r;
    assert(q == 0 <==> dec.val < r) by (nonlinear_arith)
        requires
            r > 0,
            dec.val >= 0,
            dec.val == r * q + m,
            0 <= m < r,
    ;
    assert(q >= 0) by (nonlinear_arith)
        requires
            r > 0,
            dec.val >= 0,
            dec.val == r * q + m,
            0 <= m < r,
    ;
    crate::range::model::lemma_update_valid(dec, ft - 1, ft, ft);
    crate::range::model::lemma_update_valid(dec, 0, ft - 1, ft);
}

/// What redundancy takes of a frame. CELT frames have none, and neither have
/// frames with less than 17 bits left, or 37 in hybrid frames: nothing is read
/// then. Where there is a redundant frame, it and the main frame share the
/// bytes, and what was read lies in the main frame. In a hybrid frame its size
/// is coded, from 2 to 257 bytes; in a SILK frame it takes all bytes in which
/// nothing was read. A SILK frame with room always has one, a hybrid frame where
/// a bit says so; the bit behind tells the direction of the change.
pub proof fn law_redundancy_shares(dec: DecoderState, mode: Mode, len: int)
    requires
        0 <= len <= usize::MAX,
        dec.valid(),
    ensures
        ({
            let (after, red) = redundancy_of(dec, mode, len);
            let read = bits_used(after);
            &&& mode is CeltOnly || bits_used(dec) + 17 > 8 * len ==> !red.present && after == dec
            &&& mode is Hybrid && bits_used(dec) + 37 > 8 * len ==> !red.present && after == dec
            &&& !red.present ==> red.bytes == 0 && (red.len == 0 || red.len == len)
            &&& red.present ==> red.bytes + red.len == len && read <= 8 * red.len
            &&& red.present && mode is Hybrid ==> 2 <= red.bytes <= 257
            &&& red.present && mode is SilkOnly ==> 8 * red.len < read + 8
            &&& red.present ==> after.data == dec.data.subrange(0, red.len as int)
            &&& mode is SilkOnly && bits_used(dec) + 17 <= 8 * len ==> red.present
                && red.celt_to_silk == dec.next_bit(1)
            &&& mode is Hybrid && bits_used(dec) + 37 <= 8 * len ==> if dec.next_bit(12) {
                &&& red.present || red.len == 0
                &&& red.celt_to_silk == dec.take_bit(true, 12).next_bit(1)
            } else {
                !red.present && red.len == len
            }
        }),
{
    let (d1, flag) = redundancy_flag(dec, mode);
    if mode is Hybrid {
        lemma_bit_keeps(dec, flag, 12);
        lemma_take_bit_valid(dec, 12);
    }
    let bit = d1.next_bit(1);
    lemma_bit_keeps(d1, bit, 1);
    lemma_take_bit_valid(d1, 1);
    lemma_even_choice(d1, bit);
    let d2 = d1.take_bit(bit, 1);
    vstd::arithmetic::power2::lemma2_to64();
    crate::range::lemma_bit_length_at_most(d2.rng, 32);
    if mode is Hybrid {
        lemma_uint_256(d2);
        crate::range::model::lemma_update_valid(d2, 0, 1, 256);
    }
}

} // verus!
