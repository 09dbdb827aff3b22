//! The decisions of the Opus encoder: which frames and budgets it accepts, and
//! how a CELT frame becomes a packet.
//!
//! A packet holds a single CELT frame of 2.5, 5, 10 or 20 ms, mono or stereo,
//! at 48 kHz.

use vstd::arithmetic::power2::pow2;
use vstd::prelude::*;

use crate::decoder::{band_edge, end_band, end_band_of};
use crate::packet::{
    contents, offset, packet_layout, toc_bandwidth, toc_code, toc_frame_size, toc_mode, toc_stereo,
    total, Bandwidth, FrameSize, Mode, Toc, MAX_FRAME_LEN,
};

verus! {

/// Errors of the encoder.
#[derive(Debug, Clone, Copy, PartialEq, Eq, Structural)]
#[non_exhaustive]
pub enum EncodeError {
    /// The frame had an unsupported number of samples per channel. At 48 kHz
    /// the encoder accepts 120, 240, 480 or 960 (2.5/5/10/20 ms).
    InvalidFrameSize,
    /// The output budget is outside the usable range: at least 3 bytes (1
    /// table of contents + 2 payload) and at most 1275.
    InvalidBudget,
}

impl EncodeError {
    /// The message shown to users.
    pub open spec fn text(self) -> Seq<char> {
        match self {
            EncodeError::InvalidFrameSize
                => "frame size must be 120/240/480/960 samples per channel at 48 kHz"@,
            EncodeError::InvalidBudget => "output budget must be between 3 and 1275 bytes"@,
        }
    }

    /// The message shown to users.
    #[must_use]
    pub fn message(&self) -> (text: &'static str)
        ensures
            text@ == self.text(),
    {
        match self {
            EncodeError::InvalidFrameSize => {
                "frame size must be 120/240/480/960 samples per channel at 48 kHz"
            },
            EncodeError::InvalidBudget => "output budget must be between 3 and 1275 bytes",
        }
    }
}

/// The frame sizes of CELT: 120 samples at 48 kHz, doubled `lm` times.
pub open spec fn celt_frame_size(lm: int) -> Option<FrameSize> {
    if lm == 0 {
        Some(FrameSize::Ms2_5)
    } else if lm == 1 {
        Some(FrameSize::Ms5)
    } else if lm == 2 {
        Some(FrameSize::Ms10)
    } else if lm == 3 {
        Some(FrameSize::Ms20)
    } else {
        None
    }
}

/// How often 120 samples are doubled in a frame of `n` samples.
pub open spec fn doublings(n: int) -> Option<int> {
    if n == 120 {
        Some(0)
    } else if n == 240 {
        Some(1)
    } else if n == 480 {
        Some(2)
    } else if n == 960 {
        Some(3)
    } else {
        None
    }
}

/// The bandwidth that is coded: CELT has no mode for 6 kHz, and codes 8 kHz
/// instead.
pub open spec fn coded_bandwidth(bandwidth: Bandwidth) -> Bandwidth {
    if bandwidth is MediumBand {
        Bandwidth::WideBand
    } else {
        bandwidth
    }
}

/// How a frame is coded.
#[derive(Debug, Clone, Copy, PartialEq, Eq)]
pub struct PacketPlan {
    /// The table-of-contents byte of the packet.
    pub toc: Toc,
    /// The number of CELT bands that are coded.
    pub end: usize,
    /// How often 120 samples are doubled in the frame.
    pub lm: usize,
    /// The bytes for the frame itself.
    pub payload_bytes: usize,
}

/// Whether a plan codes a frame of that size, bandwidth and channel count in
/// the budget.
pub open spec fn plan_fits(
    plan: PacketPlan,
    samples: int,
    channels: int,
    bandwidth: Bandwidth,
    max_bytes: int,
) -> bool {
    &&& doublings(samples) == Some(plan.lm as int)
    &&& toc_mode(plan.toc@) == Mode::CeltOnly
    &&& celt_frame_size(plan.lm as int) == Some(toc_frame_size(plan.toc@))
    &&& toc_bandwidth(plan.toc@) == coded_bandwidth(bandwidth)
    &&& toc_stereo(plan.toc@) == (channels == 2)
    &&& toc_code(plan.toc@) == 0
    &&& plan.end == end_band_of(bandwidth)
    &&& plan.payload_bytes == max_bytes - 1
}

/// What an encoder is set to.
#[derive(Debug, Clone, Copy, PartialEq, Eq)]
pub struct EncoderSettings {
    channels: usize,
    bandwidth: Bandwidth,
}

impl EncoderSettings {
    /// The number of interleaved channels.
    pub closed spec fn channel_count(self) -> int {
        self.channels as int
    }

    /// The audio bandwidth.
    pub closed spec fn audio_bandwidth(self) -> Bandwidth {
        self.bandwidth
    }

    /// Settings for `channels` (1 or 2) at full bandwidth.
    #[must_use]
    pub fn new(channels: usize) -> (settings: Self)
        requires
            channels == 1 || channels == 2,
        ensures
            settings.channel_count() == channels,
            settings.audio_bandwidth() == Bandwidth::FullBand,
    {
        EncoderSettings { channels, bandwidth: Bandwidth::FullBand }
    }

    /// Restricts the coded audio bandwidth. Mediumband is treated as wideband.
    pub fn set_bandwidth(&mut self, bandwidth: Bandwidth)
        ensures
            final(self).channel_count() == old(self).channel_count(),
            final(self).audio_bandwidth() == bandwidth,
    {
        self.bandwidth = bandwidth;
    }

    /// The number of interleaved channels.
    #[must_use]
    pub fn channels(&self) -> (channels: usize)
        ensures
            channels == self.channel_count(),
    {
        self.channels
    }

    /// Plans the packet for a frame of `pcm_len` interleaved samples in at most
    /// `max_bytes` bytes.
    ///
    /// # Errors
    ///
    /// [`EncodeError::InvalidFrameSize`] unless the frame is 120, 240, 480 or
    /// 960 samples per channel; [`EncodeError::InvalidBudget`] if `max_bytes`
    /// is outside `3..=1275`.
    pub fn plan(&self, pcm_len: usize, max_bytes: usize) -> (res: Result<PacketPlan, EncodeError>)
        ensures
            ({
                let c = self.channel_count();
                let whole = c > 0 && pcm_len as int % c == 0;
                if !whole || doublings(pcm_len as int / c) is None {
                    res matches Err(e) && e == EncodeError::InvalidFrameSize
                } else if !(3 <= max_bytes <= 1275) {
                    res matches Err(e) && e == EncodeError::InvalidBudget
                } else {
                    res matches Ok(plan) && plan_fits(
                        plan,
                        pcm_len as int / c,
                        c,
                        self.audio_bandwidth(),
                        max_bytes as int,
                    )
                }
            }),
    {
        if self.channels == 0 || pcm_len % self.channels != 0 {
            return Err(EncodeError::InvalidFrameSize);
        }
        let lm: u8 = match pcm_len / self.channels {
            120 => 0,
            240 => 1,
            480 => 2,
            960 => 3,
            _ => return Err(EncodeError::InvalidFrameSize),
        };
        if max_bytes < 3 || max_bytes > 1275 {
            return Err(EncodeError::InvalidBudget);
        }
        let base: u8 = match self.bandwidth {
            Bandwidth::NarrowBand => 16,
            Bandwidth::MediumBand => 20,
            Bandwidth::WideBand => 20,
            Bandwidth::SuperWideBand => 24,
            Bandwidth::FullBand => 28,
        };
        let toc = Toc::from_parts(base + lm, self.channels == 2, 0);
        Ok(
            PacketPlan {
                toc,
                end: end_band(self.bandwidth),
                lm: lm as usize,
                payload_bytes: max_bytes - 1,
            },
        )
    }
}

/// The packet of a single frame.
pub open spec fn single_frame_packet(toc: u8, payload: Seq<u8>) -> Seq<u8> {
    seq![toc] + payload
}

/// Frames a payload into a packet.
#[must_use]
pub fn frame_packet(toc: Toc, payload: &[u8]) -> (packet: Vec<u8>)
    ensures
        packet@ == single_frame_packet(toc@, payload@),
{
    let mut packet: Vec<u8> = Vec::new();
    packet.push(toc.byte());
    packet.extend_from_slice(payload);
    assert(packet@ =~= single_frame_packet(toc@, payload@));
    packet
}

/// The packet of a single frame is parsed back as that frame.
pub proof fn law_single_frame_round_trip(toc: u8, payload: Seq<u8>)
    requires
        toc_code(toc) == 0,
        payload.len() <= MAX_FRAME_LEN,
    ensures
        ({
            let packet = single_frame_packet(toc, payload);
            packet_layout(packet) matches Ok(layout) && contents(packet, layout) == (
            crate::packet::PacketContents { toc, frames: seq![payload], padding: 0 })
        }),
{
    let packet = single_frame_packet(toc, payload);
    let lens: Seq<nat> = seq![];
    assert(total(lens) == 0);
    let layout = packet_layout(packet)->Ok_0;
    assert(packet_layout(packet) is Ok);
    assert(layout.lens =~= seq![payload.len()]);
    assert(offset(layout.lens, 0) == 0);
    assert(offset(layout.lens, 1) == payload.len());
    assert(packet.skip(1) =~= payload);
    assert(layout.frames(packet)[0] =~= payload);
    assert(layout.frames(packet) =~= seq![payload]);
}

/// A CELT frame of 120 samples doubled `lm` times lasts as long as the frame
/// size in its table of contents says, and there are four such frames.
pub proof fn law_celt_frames_double(n: int)
    ensures
        doublings(n) matches Some(lm) ==> 0 <= lm <= 3 && n == 120 * pow2(lm as nat)
            && (celt_frame_size(lm) matches Some(size) && 10_000 * n == 48_000 * size.tenths()),
        forall|lm: nat| lm <= 3 && n == 120 * #[trigger] pow2(lm) ==> doublings(n) == Some(lm as int),
{
    vstd::arithmetic::power2::lemma2_to64();
    assert forall|lm: nat| lm <= 3 && n == 120 * #[trigger] pow2(lm) implies doublings(n) == Some(
        lm as int,
    ) by {
        assert(lm == 0 || lm == 1 || lm == 2 || lm == 3);
    }
}

/// The bandwidth that is coded holds the one that was asked for, and no other
/// one that CELT can code lies between the two.
pub proof fn law_coded_bandwidth_holds(bandwidth: Bandwidth, other: Bandwidth)
    requires
        other.top_frequency() != 6_000,
        other.top_frequency() >= bandwidth.top_frequency(),
    ensures
        coded_bandwidth(bandwidth).top_frequency() != 6_000,
        bandwidth.top_frequency() <= coded_bandwidth(bandwidth).top_frequency()
            <= other.top_frequency(),
{
}

/// A packet that is planned says what is in it: a single CELT frame that lasts
/// as long as the samples, with as many channels, whose bands end with the
/// bandwidth in the table of contents, in all bytes but the first.
pub proof fn law_plan_describes_frame(
    plan: PacketPlan,
    samples: int,
    channels: int,
    bandwidth: Bandwidth,
    max_bytes: int,
)
    requires
        plan_fits(plan, samples, channels, bandwidth, max_bytes),
        channels == 1 || channels == 2,
    ensures
        toc_mode(plan.toc@) is CeltOnly,
        10_000 * samples == 48_000 * toc_frame_size(plan.toc@).tenths(),
        samples == 120 * pow2(plan.lm as nat),
        channels == if toc_stereo(plan.toc@) {
            2int
        } else {
            1
        },
        band_edge(plan.end as int) == toc_bandwidth(plan.toc@).top_frequency(),
        bandwidth.top_frequency() <= toc_bandwidth(plan.toc@).top_frequency(),
        toc_code(plan.toc@) == 0,
        1 + plan.payload_bytes == max_bytes,
{
    law_celt_frames_double(samples);
}

} // verus!
