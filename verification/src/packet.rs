//! Opus packet framing.
//!
//! A packet carries one or more frames that share a configuration, described
//! by the leading table-of-contents byte. [`packet_layout`] and
//! [`self_delimited_layout`] say which byte strings are packets, where their
//! parts lie, and which rule each of the others breaks.

use vstd::prelude::*;
use vstd::slice::slice_subrange;

verus! {

/// Maximum length in bytes of a single frame: the largest value that the
/// one- or two-byte length coding can represent.
pub const MAX_FRAME_LEN: usize = 1275;

/// Maximum audio duration of one packet in tenths of a millisecond.
pub const MAX_PACKET_DURATION_TENTH_MS: u32 = 1200;

/// Operating mode of a frame.
#[derive(Debug, Clone, Copy, PartialEq, Eq, Hash, Structural)]
pub enum Mode {
    /// SILK layer only: low-bitrate speech.
    SilkOnly,
    /// SILK below 8 kHz plus CELT above: speech at medium bitrates.
    Hybrid,
    /// CELT layer only: music and low delay.
    CeltOnly,
}

/// Audio bandwidth of a frame.
#[derive(Debug, Clone, Copy, PartialEq, Eq, PartialOrd, Ord, Hash, Structural)]
pub enum Bandwidth {
    /// 4 kHz audio bandwidth, 8 kHz effective sample rate.
    NarrowBand,
    /// 6 kHz audio bandwidth, 12 kHz effective sample rate.
    MediumBand,
    /// 8 kHz audio bandwidth, 16 kHz effective sample rate.
    WideBand,
    /// 12 kHz audio bandwidth, 24 kHz effective sample rate.
    SuperWideBand,
    /// 20 kHz audio bandwidth, 48 kHz effective sample rate.
    FullBand,
}

impl Bandwidth {
    /// The effective sample rate in Hz.
    pub open spec fn rate(self) -> int {
        match self {
            Bandwidth::NarrowBand => 8_000,
            Bandwidth::MediumBand => 12_000,
            Bandwidth::WideBand => 16_000,
            Bandwidth::SuperWideBand => 24_000,
            Bandwidth::FullBand => 48_000,
        }
    }

    /// The highest frequency reproduced, in Hz: half the sample rate, but 20
    /// kHz for the full band.
    pub open spec fn top_frequency(self) -> int {
        if self is FullBand {
            20_000
        } else {
            self.rate() / 2
        }
    }

    /// The effective sample rate in Hz for this bandwidth.
    #[must_use]
    pub fn sample_rate_hz(self) -> (hz: u32)
        ensures
            hz == self.rate(),
    {
        match self {
            Bandwidth::NarrowBand => 8_000,
            Bandwidth::MediumBand => 12_000,
            Bandwidth::WideBand => 16_000,
            Bandwidth::SuperWideBand => 24_000,
            Bandwidth::FullBand => 48_000,
        }
    }

    /// The audio bandwidth in Hz.
    #[must_use]
    pub fn audio_bandwidth_hz(self) -> (hz: u32)
        ensures
            hz == self.top_frequency(),
    {
        match self {
            Bandwidth::NarrowBand => 4_000,
            Bandwidth::MediumBand => 6_000,
            Bandwidth::WideBand => 8_000,
            Bandwidth::SuperWideBand => 12_000,
            Bandwidth::FullBand => 20_000,
        }
    }
}

/// Duration of one frame.
#[derive(Debug, Clone, Copy, PartialEq, Eq, PartialOrd, Ord, Hash, Structural)]
pub enum FrameSize {
    /// 2.5 ms, CELT only.
    Ms2_5,
    /// 5 ms, CELT only.
    Ms5,
    /// 10 ms.
    Ms10,
    /// 20 ms.
    Ms20,
    /// 40 ms, SILK only.
    Ms40,
    /// 60 ms, SILK only.
    Ms60,
}

/// The duration of that many microseconds.
pub uninterp spec fn duration_of_micros(micros: u64) -> core::time::Duration;

/// `core::time::Duration::from_micros` returns the duration of that many
/// microseconds.
#[verifier::external_body]
fn duration_from_micros(micros: u64) -> (d: core::time::Duration)
    ensures
        d == duration_of_micros(micros),
{
    core::time::Duration::from_micros(micros)
}

impl FrameSize {
    /// Frame duration in tenths of a millisecond.
    pub open spec fn tenths(self) -> nat {
        match self {
            FrameSize::Ms2_5 => 25,
            FrameSize::Ms5 => 50,
            FrameSize::Ms10 => 100,
            FrameSize::Ms20 => 200,
            FrameSize::Ms40 => 400,
            FrameSize::Ms60 => 600,
        }
    }

    /// Frame duration in tenths of a millisecond, exact for 2.5 ms.
    #[must_use]
    pub fn tenth_ms(self) -> (t: u32)
        ensures
            t == self.tenths(),
    {
        match self {
            FrameSize::Ms2_5 => 25,
            FrameSize::Ms5 => 50,
            FrameSize::Ms10 => 100,
            FrameSize::Ms20 => 200,
            FrameSize::Ms40 => 400,
            FrameSize::Ms60 => 600,
        }
    }

    /// Frame duration as a duration of the standard library.
    #[must_use]
    pub fn duration(self) -> (d: core::time::Duration)
        ensures
            d == duration_of_micros((100 * self.tenths()) as u64),
    {
        duration_from_micros(self.tenth_ms() as u64 * 100)
    }

    /// Number of samples per channel in one frame at 48 kHz.
    #[must_use]
    pub fn samples_per_channel_48k(self) -> (n: usize)
        ensures
            10_000 * n == 48_000 * self.tenths(),
    {
        (self.tenth_ms() / 5) as usize * 24
    }
}

/// The configuration number: the top five bits of the table-of-contents byte.
pub open spec fn toc_config(toc: u8) -> int {
    toc as int / 8
}

/// The stereo flag: the bit below the configuration.
pub open spec fn toc_stereo(toc: u8) -> bool {
    (toc as int / 4) % 2 == 1
}

/// The frame count code: the bottom two bits.
pub open spec fn toc_code(toc: u8) -> int {
    toc as int % 4
}

/// The operating mode of a configuration.
pub open spec fn toc_mode(toc: u8) -> Mode {
    if toc_config(toc) < 12 {
        Mode::SilkOnly
    } else if toc_config(toc) < 16 {
        Mode::Hybrid
    } else {
        Mode::CeltOnly
    }
}

/// The audio bandwidth of a configuration: SILK has the three lowest in blocks
/// of four, hybrid the two highest in blocks of two, and CELT all but the
/// medium band in blocks of four.
pub open spec fn toc_bandwidth(toc: u8) -> Bandwidth {
    let c = toc_config(toc);
    if c < 4 || 16 <= c < 20 {
        Bandwidth::NarrowBand
    } else if c < 8 {
        Bandwidth::MediumBand
    } else if c < 12 || 20 <= c < 24 {
        Bandwidth::WideBand
    } else if c < 14 || 24 <= c < 28 {
        Bandwidth::SuperWideBand
    } else {
        Bandwidth::FullBand
    }
}

/// The frame size of a configuration.
pub open spec fn toc_frame_size(toc: u8) -> FrameSize {
    let c = toc_config(toc);
    match toc_mode(toc) {
        Mode::SilkOnly => if c % 4 == 0 {
            FrameSize::Ms10
        } else if c % 4 == 1 {
            FrameSize::Ms20
        } else if c % 4 == 2 {
            FrameSize::Ms40
        } else {
            FrameSize::Ms60
        },
        Mode::Hybrid => if c % 2 == 0 {
            FrameSize::Ms10
        } else {
            FrameSize::Ms20
        },
        Mode::CeltOnly => if c % 4 == 0 {
            FrameSize::Ms2_5
        } else if c % 4 == 1 {
            FrameSize::Ms5
        } else if c % 4 == 2 {
            FrameSize::Ms10
        } else {
            FrameSize::Ms20
        },
    }
}

/// The table-of-contents byte that heads every packet. All 256 values are
/// valid.
#[derive(Debug, Clone, Copy, PartialEq, Eq, Hash, Structural)]
pub struct Toc(u8);

impl View for Toc {
    type V = u8;

    closed spec fn view(&self) -> u8 {
        self.0
    }
}

impl Toc {
    /// Interprets `byte` as a table-of-contents byte.
    #[must_use]
    pub fn new(byte: u8) -> (toc: Self)
        ensures
            toc@ == byte,
    {
        Toc(byte)
    }

    /// Builds the byte from its three fields.
    #[must_use]
    pub fn from_parts(config: u8, stereo: bool, frame_count_code: u8) -> (toc: Self)
        requires
            config < 32,
            frame_count_code < 4,
        ensures
            toc_config(toc@) == config,
            toc_stereo(toc@) == stereo,
            toc_code(toc@) == frame_count_code,
    {
        let flag: u8 = if stereo { 4 } else { 0 };
        Toc(config * 8 + flag + frame_count_code)
    }

    /// The raw byte.
    #[must_use]
    pub fn byte(self) -> (b: u8)
        ensures
            b == self@,
    {
        self.0
    }

    /// The configuration number, below 32.
    #[must_use]
    pub fn config(self) -> (c: u8)
        ensures
            c == toc_config(self@),
            c < 32,
    {
        self.0 / 8
    }

    /// `true` for stereo, `false` for mono.
    #[must_use]
    pub fn stereo(self) -> (s: bool)
        ensures
            s == toc_stereo(self@),
    {
        (self.0 / 4) % 2 == 1
    }

    /// The number of channels, one or two.
    #[must_use]
    pub fn channels(self) -> (n: u8)
        ensures
            n == if toc_stereo(self@) { 2int } else { 1int },
    {
        1 + (self.0 / 4) % 2
    }

    /// The frame count code, below four.
    #[must_use]
    pub fn frame_count_code(self) -> (c: u8)
        ensures
            c == toc_code(self@),
            c < 4,
    {
        self.0 % 4
    }

    /// The operating mode of this configuration.
    #[must_use]
    pub fn mode(self) -> (mode: Mode)
        ensures
            mode == toc_mode(self@),
    {
        match self.config() {
            0..=11 => Mode::SilkOnly,
            12..=15 => Mode::Hybrid,
            _ => Mode::CeltOnly,
        }
    }

    /// The audio bandwidth of this configuration.
    #[must_use]
    pub fn bandwidth(self) -> (bandwidth: Bandwidth)
        ensures
            bandwidth == toc_bandwidth(self@),
    {
        match self.config() {
            0..=3 => Bandwidth::NarrowBand,
            4..=7 => Bandwidth::MediumBand,
            8..=11 => Bandwidth::WideBand,
            12..=13 => Bandwidth::SuperWideBand,
            14..=15 => Bandwidth::FullBand,
            16..=19 => Bandwidth::NarrowBand,
            20..=23 => Bandwidth::WideBand,
            24..=27 => Bandwidth::SuperWideBand,
            _ => Bandwidth::FullBand,
        }
    }

    /// The frame size of this configuration.
    #[must_use]
    pub fn frame_size(self) -> (size: FrameSize)
        ensures
            size == toc_frame_size(self@),
    {
        let config = self.config();
        if config < 12 {
            match config % 4 {
                0 => FrameSize::Ms10,
                1 => FrameSize::Ms20,
                2 => FrameSize::Ms40,
                _ => FrameSize::Ms60,
            }
        } else if config < 16 {
            if config % 2 == 0 {
                FrameSize::Ms10
            } else {
                FrameSize::Ms20
            }
        } else {
            match config % 4 {
                0 => FrameSize::Ms2_5,
                1 => FrameSize::Ms5,
                2 => FrameSize::Ms10,
                _ => FrameSize::Ms20,
            }
        }
    }
}

/// The three fields determine the byte.
pub proof fn law_toc_fields(a: u8, b: u8)
    requires
        toc_config(a) == toc_config(b),
        toc_stereo(a) == toc_stereo(b),
        toc_code(a) == toc_code(b),
    ensures
        a == b,
{
}

/// The place of a mode in the order of the configurations.
pub open spec fn mode_rank(mode: Mode) -> int {
    match mode {
        Mode::SilkOnly => 0,
        Mode::Hybrid => 1,
        Mode::CeltOnly => 2,
    }
}

/// No two configurations mean the same: the mode, the bandwidth and the frame
/// size determine the configuration.
pub proof fn law_configurations_differ(a: u8, b: u8)
    requires
        toc_mode(a) == toc_mode(b),
        toc_bandwidth(a) == toc_bandwidth(b),
        toc_frame_size(a) == toc_frame_size(b),
    ensures
        toc_config(a) == toc_config(b),
{
}

/// Configurations are in order: by the mode, SILK first and CELT last, then by
/// the bandwidth, then by the frame size.
pub proof fn law_configurations_in_order(a: u8, b: u8)
    requires
        toc_config(a) <= toc_config(b),
    ensures
        mode_rank(toc_mode(a)) <= mode_rank(toc_mode(b)),
        toc_mode(a) == toc_mode(b) ==> toc_bandwidth(a).rate() <= toc_bandwidth(b).rate(),
        toc_mode(a) == toc_mode(b) && toc_bandwidth(a) == toc_bandwidth(b) ==> toc_frame_size(
            a,
        ).tenths() <= toc_frame_size(b).tenths(),
{
}

/// What each mode can carry. SILK codes up to 8 kHz in frames of 10, 20, 40 and
/// 60 ms. Hybrid frames code more than that, in 10 or 20 ms. CELT codes all but
/// the medium band, in frames of 2.5, 5, 10 and 20 ms.
pub proof fn law_mode_carries(toc: u8)
    ensures
        ({
            let hz = toc_bandwidth(toc).top_frequency();
            let tenths = toc_frame_size(toc).tenths();
            match toc_mode(toc) {
                Mode::SilkOnly => hz <= 8_000 && (tenths == 100 || tenths == 200 || tenths == 400
                    || tenths == 600),
                Mode::Hybrid => hz > 8_000 && (tenths == 100 || tenths == 200),
                Mode::CeltOnly => hz != 6_000 && (tenths == 25 || tenths == 50 || tenths == 100
                    || tenths == 200),
            }
        }),
{
}

/// Configurations that share a mode and a bandwidth stand next to each other.
pub proof fn law_configurations_in_blocks(a: u8, b: u8, c: u8)
    requires
        toc_config(a) <= toc_config(b) <= toc_config(c),
        toc_mode(a) == toc_mode(c),
        toc_bandwidth(a) == toc_bandwidth(c),
    ensures
        toc_mode(b) == toc_mode(a),
        toc_bandwidth(b) == toc_bandwidth(a),
{
}

/// The three fields make up the byte: five bits, one bit and two bits, from the
/// top.
pub proof fn law_toc_bits(toc: u8)
    ensures
        toc == 8 * toc_config(toc) + (if toc_stereo(toc) {
            4int
        } else {
            0
        }) + toc_code(toc),
        0 <= toc_config(toc) < 32,
        0 <= toc_code(toc) < 4,
{
}

/// A wider band has a higher sample rate. The rate is no less than twice the
/// highest frequency, and divides 48 kHz.
pub proof fn law_bandwidth_rates(a: Bandwidth, b: Bandwidth)
    ensures
        a.top_frequency() < b.top_frequency() <==> a.rate() < b.rate(),
        a.top_frequency() == b.top_frequency() <==> a == b,
        2 * a.top_frequency() <= a.rate(),
        !(a is FullBand) ==> 2 * a.top_frequency() == a.rate(),
        48_000int % a.rate() == 0,
        a is FullBand ==> a.rate() == 48_000 && a.top_frequency() == 20_000,
        a is NarrowBand ==> a.top_frequency() == 4_000,
        a is MediumBand ==> a.top_frequency() == 6_000,
        a is WideBand ==> a.top_frequency() == 8_000,
        a is SuperWideBand ==> a.top_frequency() == 12_000,
{
    assert(48_000int % 8_000 == 0 && 48_000int % 12_000 == 0 && 48_000int % 16_000 == 0);
    assert(48_000int % 24_000 == 0 && 48_000int % 48_000 == 0);
}

/// Each frame size is twice the one before, up to 40 ms, and the longest is
/// three times 20 ms.
pub proof fn law_frame_sizes_double()
    ensures
        FrameSize::Ms2_5.tenths() == 25,
        FrameSize::Ms5.tenths() == 2 * FrameSize::Ms2_5.tenths(),
        FrameSize::Ms10.tenths() == 2 * FrameSize::Ms5.tenths(),
        FrameSize::Ms20.tenths() == 2 * FrameSize::Ms10.tenths(),
        FrameSize::Ms40.tenths() == 2 * FrameSize::Ms20.tenths(),
        FrameSize::Ms60.tenths() == 3 * FrameSize::Ms20.tenths(),
{
}

/// Why a packet failed to parse.
#[derive(Debug, Clone, Copy, PartialEq, Eq, Structural)]
#[non_exhaustive]
pub enum PacketError {
    /// The packet is empty (R1).
    Empty,
    /// An implicit frame length exceeds [`MAX_FRAME_LEN`] (R2).
    FrameTooLarge,
    /// A code 1 packet's payload is not evenly divisible in two (R3).
    Code1UnevenPayload,
    /// A frame-length field is truncated or overruns the remaining payload
    /// (R4, R7).
    InvalidFrameLength,
    /// A code 3 packet signals zero frames, or more than 120 ms of audio (R5).
    InvalidFrameCount,
    /// A code 3 packet's padding overruns the packet (R6, R7).
    InvalidPadding,
    /// A code 3 packet with equal frames has a payload that is not a multiple
    /// of the frame count (R6).
    CbrPayloadNotDivisible,
}

impl PacketError {
    /// The message shown to users.
    pub open spec fn text(self) -> Seq<char> {
        match self {
            PacketError::Empty => "packet is empty [R1]"@,
            PacketError::FrameTooLarge => "frame length exceeds 1275 bytes [R2]"@,
            PacketError::Code1UnevenPayload => "code 1 packet payload length is odd [R3]"@,
            PacketError::InvalidFrameLength => "truncated or overrunning frame length [R4/R7]"@,
            PacketError::InvalidFrameCount => "frame count is zero or exceeds 120 ms [R5]"@,
            PacketError::InvalidPadding => "padding overruns the packet [R6/R7]"@,
            PacketError::CbrPayloadNotDivisible
                => "CBR payload is not a multiple of the frame count [R6]"@,
        }
    }

    /// The message shown to users.
    #[must_use]
    pub fn message(&self) -> (text: &'static str)
        ensures
            text@ == self.text(),
    {
        match self {
            PacketError::Empty => "packet is empty [R1]",
            PacketError::FrameTooLarge => "frame length exceeds 1275 bytes [R2]",
            PacketError::Code1UnevenPayload => "code 1 packet payload length is odd [R3]",
            PacketError::InvalidFrameLength => "truncated or overrunning frame length [R4/R7]",
            PacketError::InvalidFrameCount => "frame count is zero or exceeds 120 ms [R5]",
            PacketError::InvalidPadding => "padding overruns the packet [R6/R7]",
            PacketError::CbrPayloadNotDivisible => {
                "CBR payload is not a multiple of the frame count [R6]"
            },
        }
    }
}

/// Where the parts of a packet lie: the bytes before the first frame, the
/// length of each frame in order, and the bytes of padding behind the last.
#[verifier::ext_equal]
pub struct Layout {
    pub header: nat,
    pub lens: Seq<nat>,
    pub padding: nat,
}

/// The distance from the first frame to frame `i`.
pub open spec fn offset(lens: Seq<nat>, i: int) -> nat
    decreases i,
{
    if i <= 0 {
        0
    } else {
        offset(lens, i - 1) + lens[i - 1]
    }
}

/// The bytes that all the frames take.
pub open spec fn total(lens: Seq<nat>) -> nat {
    offset(lens, lens.len() as int)
}

/// The consecutive pieces of `s` with the given lengths.
pub open spec fn cut(s: Seq<u8>, lens: Seq<nat>) -> Seq<Seq<u8>> {
    Seq::new(lens.len(), |i: int| s.subrange(offset(lens, i) as int, offset(lens, i + 1) as int))
}

/// The frame length at the front of `s`, with the number of bytes that it
/// takes: below 252 one byte, otherwise a second byte that counts in fours.
/// `None` where `s` ends too early.
pub open spec fn len_field(s: Seq<u8>) -> Option<(nat, nat)> {
    if s.len() == 0 {
        None
    } else if s[0] < 252 {
        Some((s[0] as nat, 1))
    } else if s.len() == 1 {
        None
    } else {
        Some((4 * s[1] as nat + s[0] as nat, 2))
    }
}

/// The `m` frame lengths at the front of `s`, with the bytes that they take.
pub open spec fn len_fields(s: Seq<u8>, m: nat) -> Option<(Seq<nat>, nat)>
    decreases m,
{
    if m == 0 {
        Some((Seq::empty(), 0))
    } else {
        match len_fields(s, (m - 1) as nat) {
            None => None,
            Some((lens, used)) => match len_field(s.skip(used as int)) {
                None => None,
                Some((len, u)) => Some((lens.push(len), used + u)),
            },
        }
    }
}

/// The padding length at the front of `s`, with the bytes that it takes: a 255
/// stands for 254 more, and the first other byte ends the field.
pub open spec fn padding_field(s: Seq<u8>) -> Option<(nat, nat)>
    decreases s.len(),
{
    if s.len() == 0 {
        None
    } else if s[0] == 255 {
        match padding_field(s.skip(1)) {
            None => None,
            Some((padding, used)) => Some((padding + 254, used + 1)),
        }
    } else {
        Some((s[0] as nat, 1))
    }
}

/// The padding length of a packet whose frame count byte, at index 1, may
/// announce one.
pub open spec fn announced_padding(data: Seq<u8>) -> Option<(nat, nat)> {
    if (data[1] as int / 64) % 2 == 1 {
        padding_field(data.skip(2))
    } else {
        Some((0, 0))
    }
}

/// The number of frames that the frame count byte at index 1 announces.
pub open spec fn frame_count(data: Seq<u8>) -> nat {
    (data[1] as nat) % 64
}

/// Whether that number is at least one and makes at most 120 ms of audio.
pub open spec fn frame_count_valid(data: Seq<u8>) -> bool {
    1 <= frame_count(data) && within_duration(data[0], frame_count(data))
}

/// The layout of a packet that fills `data`, or the rule that `data` breaks. The
/// length of the last frame is what is left.
pub open spec fn packet_layout(data: Seq<u8>) -> Result<Layout, PacketError> {
    if data.len() == 0 {
        Err(PacketError::Empty)
    } else if toc_code(data[0]) == 0 {
        implicit_layout(1, seq![], data.len() - 1, 0)
    } else if toc_code(data[0]) == 1 {
        if data.len() % 2 == 0 {
            Err(PacketError::Code1UnevenPayload)
        } else {
            equal_layout(1, 2, data.len() - 1, 0)
        }
    } else if toc_code(data[0]) == 2 {
        vbr_layout(1, data.skip(1), 2, 0)
    } else if data.len() == 1 {
        Err(PacketError::InvalidFrameLength)
    } else if !frame_count_valid(data) {
        Err(PacketError::InvalidFrameCount)
    } else {
        match announced_padding(data) {
            None => Err(PacketError::InvalidPadding),
            Some((padding, used)) => {
                let header = 2 + used;
                let payload = data.len() - header - padding;
                if payload < 0 {
                    Err(PacketError::InvalidPadding)
                } else if data[1] >= 128 {
                    vbr_layout(
                        header,
                        data.subrange(header as int, header + payload),
                        frame_count(data),
                        padding,
                    )
                } else if payload % frame_count(data) as int != 0 {
                    Err(PacketError::CbrPayloadNotDivisible)
                } else {
                    equal_layout(header, frame_count(data), payload, padding)
                }
            },
        }
    }
}

/// Frames of the given lengths, and a last one that takes the rest of
/// `payload` bytes.
pub open spec fn implicit_layout(header: nat, lens: Seq<nat>, payload: int, padding: nat) -> Result<
    Layout,
    PacketError,
> {
    let last = payload - total(lens);
    if last < 0 {
        Err(PacketError::InvalidFrameLength)
    } else if last > MAX_FRAME_LEN {
        Err(PacketError::FrameTooLarge)
    } else {
        Ok(Layout { header, lens: lens.push(last as nat), padding })
    }
}

/// `count` frames that share `payload` bytes equally.
pub open spec fn equal_layout(header: nat, count: nat, payload: int, padding: nat) -> Result<
    Layout,
    PacketError,
> {
    let size = payload / count as int;
    if size > MAX_FRAME_LEN {
        Err(PacketError::FrameTooLarge)
    } else {
        Ok(Layout { header, lens: Seq::new(count, |i: int| size as nat), padding })
    }
}

/// `count` frames in `payload`, which begins with the lengths of all but the
/// last.
pub open spec fn vbr_layout(header: nat, payload: Seq<u8>, count: nat, padding: nat) -> Result<
    Layout,
    PacketError,
> {
    match len_fields(payload, (count - 1) as nat) {
        None => Err(PacketError::InvalidFrameLength),
        Some((lens, used)) => implicit_layout(
            header + used,
            lens,
            payload.len() - used,
            padding,
        ),
    }
}

/// The layout of the self-delimited packet at the front of `data`, or the rule
/// that it breaks. Every frame length is explicit.
pub open spec fn self_delimited_layout(data: Seq<u8>) -> Result<Layout, PacketError> {
    if data.len() == 0 {
        Err(PacketError::Empty)
    } else if toc_code(data[0]) == 0 {
        explicit_layout(data, 1, len_fields(data.skip(1), 1), 0)
    } else if toc_code(data[0]) == 1 {
        explicit_layout(data, 1, repeated(len_field(data.skip(1)), 2), 0)
    } else if toc_code(data[0]) == 2 {
        explicit_layout(data, 1, len_fields(data.skip(1), 2), 0)
    } else if data.len() == 1 {
        Err(PacketError::InvalidFrameLength)
    } else if !frame_count_valid(data) {
        Err(PacketError::InvalidFrameCount)
    } else {
        match announced_padding(data) {
            None => Err(PacketError::InvalidPadding),
            Some((padding, used)) => {
                let rest = data.skip(2 + used as int);
                let fields = if data[1] >= 128 {
                    len_fields(rest, frame_count(data))
                } else {
                    repeated(len_field(rest), frame_count(data))
                };
                explicit_layout(data, 2 + used, fields, padding)
            },
        }
    }
}

/// One length field that holds for `count` frames.
pub open spec fn repeated(field: Option<(nat, nat)>, count: nat) -> Option<(Seq<nat>, nat)> {
    match field {
        None => None,
        Some((len, used)) => Some((Seq::new(count, |i: int| len), used)),
    }
}

/// Frames of the lengths in `fields`, which stand behind `header` bytes of
/// `data`, and then the padding.
pub open spec fn explicit_layout(
    data: Seq<u8>,
    header: nat,
    fields: Option<(Seq<nat>, nat)>,
    padding: nat,
) -> Result<Layout, PacketError> {
    match fields {
        None => Err(PacketError::InvalidFrameLength),
        Some((lens, used)) => if header + used + total(lens) > data.len() {
            Err(PacketError::InvalidFrameLength)
        } else if header + used + total(lens) + padding > data.len() {
            Err(PacketError::InvalidPadding)
        } else {
            Ok(Layout { header: header + used, lens, padding })
        },
    }
}

impl Layout {
    /// The bytes of the whole packet.
    pub open spec fn size(self) -> nat {
        self.header + total(self.lens) + self.padding
    }

    /// The frames of a packet in `data` that is laid out like this.
    pub open spec fn frames(self, data: Seq<u8>) -> Seq<Seq<u8>> {
        cut(data.skip(self.header as int), self.lens)
    }
}

/// The contents of a packet.
#[verifier::ext_equal]
pub struct PacketContents {
    pub toc: u8,
    pub frames: Seq<Seq<u8>>,
    pub padding: nat,
}

/// The contents of a packet in `data` with a given layout.
pub open spec fn contents(data: Seq<u8>, layout: Layout) -> PacketContents {
    PacketContents { toc: data[0], frames: layout.frames(data), padding: layout.padding }
}

/// A sequence of machine integers as numbers.
pub open spec fn nats(v: Seq<usize>) -> Seq<nat> {
    Seq::new(v.len(), |i: int| v[i] as nat)
}

proof fn lemma_offset_same(a: Seq<nat>, b: Seq<nat>, i: int)
    requires
        i <= a.len(),
        i <= b.len(),
        forall|k: int| 0 <= k < i ==> a[k] == b[k],
    ensures
        offset(a, i) == offset(b, i),
    decreases i,
{
    if i > 0 {
        lemma_offset_same(a, b, i - 1);
    }
}

proof fn lemma_offset_monotonic(lens: Seq<nat>, i: int, j: int)
    requires
        i <= j,
    ensures
        offset(lens, i) <= offset(lens, j),
    decreases j,
{
    if 0 < j && i < j {
        lemma_offset_monotonic(lens, i, j - 1);
    }
}

proof fn lemma_offset_equal(lens: Seq<nat>, len: nat, i: int)
    requires
        0 <= i <= lens.len(),
        forall|k: int| 0 <= k < i ==> lens[k] == len,
    ensures
        offset(lens, i) == i * len,
    decreases i,
{
    if i > 0 {
        lemma_offset_equal(lens, len, i - 1);
        assert((i - 1) * len + len == i * len) by (nonlinear_arith);
    } else {
        assert(i * len == 0) by (nonlinear_arith)
            requires
                i == 0,
        ;
    }
}

/// Enforces the limit on an implicit frame length.
fn check_frame_len(len: usize) -> (res: Result<(), PacketError>)
    ensures
        match res {
            Ok(_) => len <= MAX_FRAME_LEN,
            Err(e) => len > MAX_FRAME_LEN && e == PacketError::FrameTooLarge,
        },
{
    if len > MAX_FRAME_LEN {
        Err(PacketError::FrameTooLarge)
    } else {
        Ok(())
    }
}

/// Reads a one- or two-byte frame length at the front of `rest` and returns
/// it with what follows.
fn read_frame_len<'a>(rest: &'a [u8]) -> (res: Result<(usize, &'a [u8]), PacketError>)
    ensures
        match res {
            Ok((len, after)) => len_field(rest@) matches Some((l, used)) && len == l && used
                <= rest@.len() && after@ == rest@.skip(used as int),
            Err(e) => len_field(rest@) is None && e == PacketError::InvalidFrameLength,
        },
{
    let n = rest.len();
    if n == 0 {
        return Err(PacketError::InvalidFrameLength);
    }
    let first = rest[0];
    if first < 252 {
        let after = slice_subrange(rest, 1, n);
        assert(after@ =~= rest@.skip(1));
        Ok((first as usize, after))
    } else if n == 1 {
        Err(PacketError::InvalidFrameLength)
    } else {
        let after = slice_subrange(rest, 2, n);
        assert(after@ =~= rest@.skip(2));
        Ok((4 * rest[1] as usize + first as usize, after))
    }
}

/// Reads `m` frame lengths at the front of `rest`.
fn read_frame_lens<'a>(rest: &'a [u8], m: usize) -> (res: Result<
    (Vec<usize>, &'a [u8]),
    PacketError,
>)
    ensures
        match res {
            Ok((lens, after)) => len_fields(rest@, m as nat) matches Some((ls, used)) && nats(lens@)
                == ls && lens@.len() == m && used <= rest@.len() && after@ == rest@.skip(
                used as int,
            ),
            Err(e) => len_fields(rest@, m as nat) is None && e == PacketError::InvalidFrameLength,
        },
{
    let mut lens: Vec<usize> = Vec::new();
    let mut after = rest;
    let mut k: usize = 0;
    assert(rest@.skip(0) =~= rest@);
    assert(nats(lens@) =~= Seq::<nat>::empty());
    while k < m
        invariant
            k <= m,
            lens@.len() == k,
            len_fields(rest@, k as nat) matches Some((ls, used)) && nats(lens@) == ls && used
                <= rest@.len() && after@ == rest@.skip(used as int),
        decreases m - k,
    {
        match read_frame_len(after) {
            Ok((len, next)) => {
                let ghost before = lens@;
                lens.push(len);
                proof {
                    let used = (len_fields(rest@, k as nat)->0).1 as int;
                    let u = (len_field(after@)->0).1 as int;
                    assert(nats(lens@) =~= nats(before).push(len as nat));
                    assert(rest@.skip(used).skip(u) =~= rest@.skip(used + u));
                }
                after = next;
            },
            Err(e) => {
                proof {
                    lemma_fields_none(rest@, (k + 1) as nat, m as nat);
                }
                return Err(e);
            },
        }
        k = k + 1;
    }
    Ok((lens, after))
}

proof fn lemma_fields_none(s: Seq<u8>, k: nat, m: nat)
    requires
        k <= m,
        len_fields(s, k) is None,
    ensures
        len_fields(s, m) is None,
    decreases m,
{
    if k < m {
        lemma_fields_none(s, k, (m - 1) as nat);
    }
}

/// Reads a padding length at the front of `rest`. One too large for the
/// machine is returned as the largest integer, which no packet can hold.
fn read_padding_len<'a>(rest: &'a [u8]) -> (res: Result<(usize, &'a [u8]), PacketError>)
    ensures
        match res {
            Ok((padding, after)) => padding_field(rest@) matches Some((p, used)) && padding == (if p
                > usize::MAX {
                usize::MAX as nat
            } else {
                p
            }) && 1 <= used <= rest@.len() && after@ == rest@.skip(used as int),
            Err(e) => padding_field(rest@) is None && e == PacketError::InvalidPadding,
        },
{
    let n = rest.len();
    let mut padding: usize = 0;
    let mut at: usize = 0;
    let ghost mut sum: nat = 0;
    assert(rest@.skip(0) =~= rest@);
    loop
        invariant
            at <= n,
            n == rest@.len(),
            padding == (if sum > usize::MAX {
                usize::MAX as nat
            } else {
                sum
            }),
            padding_field(rest@) == (match padding_field(rest@.skip(at as int)) {
                None => None::<(nat, nat)>,
                Some((p, used)) => Some((p + sum, used + at as nat)),
            }),
        decreases n - at,
    {
        if at == n {
            return Err(PacketError::InvalidPadding);
        }
        let b = rest[at];
        at = at + 1;
        assert(rest@.skip(at - 1).skip(1) =~= rest@.skip(at as int));
        if b == 255 {
            padding = padding.saturating_add(254);
            proof {
                sum = sum + 254;
            }
        } else {
            padding = padding.saturating_add(b as usize);
            let after = slice_subrange(rest, at, n);
            assert(after@ =~= rest@.skip(at as int));
            return Ok((padding, after));
        }
    }
}

/// Splits `rest` into frames of the given lengths and what follows them.
fn take_frames<'a>(rest: &'a [u8], lens: &Vec<usize>) -> (res: Result<
    (Vec<&'a [u8]>, &'a [u8]),
    PacketError,
>)
    ensures
        match res {
            Ok((frames, after)) => frames@.len() == lens@.len() && total(nats(lens@))
                <= rest@.len() && frame_views(frames@) == cut(
                rest@,
                nats(lens@),
            ) && after@ == rest@.skip(total(nats(lens@)) as int),
            Err(e) => total(nats(lens@)) > rest@.len() && e == PacketError::InvalidFrameLength,
        },
{
    let n = rest.len();
    let mut frames: Vec<&'a [u8]> = Vec::new();
    let mut at: usize = 0;
    let mut k: usize = 0;
    while k < lens.len()
        invariant
            k <= lens@.len(),
            n == rest@.len(),
            at == offset(nats(lens@), k as int),
            at <= n,
            frames@.len() == k,
            forall|i: int|
                0 <= i < k ==> (#[trigger] frames@[i])@ == rest@.subrange(
                    offset(nats(lens@), i) as int,
                    offset(nats(lens@), i + 1) as int,
                ),
        decreases lens@.len() - k,
    {
        let len = lens[k];
        if len > n - at {
            proof {
                lemma_offset_monotonic(nats(lens@), k + 1, lens@.len() as int);
            }
            return Err(PacketError::InvalidFrameLength);
        }
        frames.push(slice_subrange(rest, at, at + len));
        at = at + len;
        k = k + 1;
    }
    let after = slice_subrange(rest, at, n);
    assert(after@ =~= rest@.skip(at as int));
    assert(frame_views(frames@) =~= cut(rest@, nats(lens@)));
    Ok((frames, after))
}

/// The bytes of each frame.
pub open spec fn frame_views(frames: Seq<&[u8]>) -> Seq<Seq<u8>> {
    Seq::new(frames.len(), |i: int| frames[i]@)
}

/// A parsed packet: the table-of-contents byte and the slices of each frame's
/// compressed data. A frame may be empty, which signals discontinuous
/// transmission or a dropped frame.
#[derive(Debug, PartialEq, Eq)]
pub struct Packet<'a> {
    toc: Toc,
    frames: Vec<&'a [u8]>,
    padding: usize,
}

impl View for Packet<'_> {
    type V = PacketContents;

    closed spec fn view(&self) -> PacketContents {
        PacketContents {
            toc: self.toc@,
            frames: frame_views(self.frames@),
            padding: self.padding as nat,
        }
    }
}

impl Clone for Packet<'_> {
    fn clone(&self) -> (copy: Self)
        ensures
            copy@ == self@,
    {
        proof {
            use_type_invariant(self);
        }
        let mut frames = Vec::new();
        let mut k: usize = 0;
        while k < self.frames.len()
            invariant
                k <= self.frames@.len(),
                frames@ =~= self.frames@.take(k as int),
            decreases self.frames@.len() - k,
        {
            frames.push(self.frames[k]);
            k = k + 1;
        }
        assert(frames@ =~= self.frames@);
        Packet { toc: self.toc, frames, padding: self.padding }
    }
}

/// Whether that many frames make at most 120 ms of audio.
pub open spec fn within_duration(toc: u8, count: nat) -> bool {
    count * toc_frame_size(toc).tenths() <= MAX_PACKET_DURATION_TENTH_MS
}

/// The frame count byte of a packet with a signalled number of frames, and what
/// it says about the packet.
struct CountedHeader<'a> {
    count: usize,
    vbr: bool,
    padding: usize,
    rest: &'a [u8],
}

/// Reads the frame count byte and the padding length of a packet.
fn read_counted_header<'a>(toc: Toc, data: &'a [u8]) -> (res: Result<CountedHeader<'a>, PacketError>)
    requires
        data@.len() >= 1,
        toc@ == data@[0],
    ensures
        match res {
            Ok(h) => {
                &&& data@.len() >= 2
                &&& frame_count_valid(data@)
                &&& h.count == frame_count(data@)
                &&& h.vbr == (data@[1] >= 128)
                &&& announced_padding(data@) matches Some((padding, used)) && h.padding == (
                if padding > usize::MAX {
                    usize::MAX as nat
                } else {
                    padding
                }) && 2 + used <= data@.len() && h.rest@ == data@.skip(2 + used as int)
            },
            Err(e) => if data@.len() == 1 {
                e == PacketError::InvalidFrameLength
            } else if !frame_count_valid(data@) {
                e == PacketError::InvalidFrameCount
            } else {
                announced_padding(data@) is None && e == PacketError::InvalidPadding
            },
        },
{
    let n = data.len();
    if n == 1 {
        return Err(PacketError::InvalidFrameLength);
    }
    let count_byte = data[1];
    let rest = slice_subrange(data, 2, n);
    assert(rest@ =~= data@.skip(2));
    let vbr = count_byte >= 128;
    let has_padding = (count_byte / 64) % 2 == 1;
    let count = (count_byte % 64) as usize;
    let tenths = toc.frame_size().tenth_ms();
    assert(count * tenths <= 63 * 600) by (nonlinear_arith)
        requires
            count <= 63,
            tenths <= 600,
    ;
    if count == 0 || count as u32 * tenths > MAX_PACKET_DURATION_TENTH_MS {
        return Err(PacketError::InvalidFrameCount);
    }
    if has_padding {
        match read_padding_len(rest) {
            Ok((padding, after)) => {
                proof {
                    let used = (padding_field(rest@)->0).1 as int;
                    assert(rest@.skip(used) =~= data@.skip(2 + used));
                }
                Ok(CountedHeader { count, vbr, padding, rest: after })
            },
            Err(e) => Err(e),
        }
    } else {
        Ok(CountedHeader { count, vbr, padding: 0, rest })
    }
}

/// The list of `count` lengths `len`.
fn repeat_len(len: usize, count: usize) -> (lens: Vec<usize>)
    ensures
        lens@.len() == count,
        nats(lens@) == Seq::new(count as nat, |i: int| len as nat),
{
    let mut lens: Vec<usize> = Vec::new();
    let mut k: usize = 0;
    while k < count
        invariant
            k <= count,
            lens@.len() == k,
            forall|i: int| 0 <= i < k ==> lens@[i] == len,
        decreases count - k,
    {
        lens.push(len);
        k = k + 1;
    }
    assert(nats(lens@) =~= Seq::new(count as nat, |i: int| len as nat));
    lens
}

/// What parsing a packet that fills `data` must return.
pub open spec fn parses_to(data: Seq<u8>, res: Result<PacketContents, PacketError>) -> bool {
    match packet_layout(data) {
        Ok(layout) => res == Ok::<PacketContents, PacketError>(contents(data, layout)),
        Err(e) => res == Err::<PacketContents, PacketError>(e),
    }
}

/// A result with the contents of the packet in place of the packet.
pub open spec fn result_view(res: Result<Packet<'_>, PacketError>) -> Result<
    PacketContents,
    PacketError,
> {
    match res {
        Ok(packet) => Ok(packet@),
        Err(e) => Err(e),
    }
}

impl<'a> Packet<'a> {
    #[verifier::type_invariant]
    spec fn well_formed(self) -> bool {
        within_duration(self.toc@, self.frames@.len())
    }

    /// The frames with the given lengths and one more that takes the rest.
    #[verifier::spinoff_prover]
    #[verifier::rlimit(60)]
    fn with_implicit_last(
        toc: Toc,
        lens: &Vec<usize>,
        rest: &'a [u8],
        padding: usize,
        Ghost(header): Ghost<nat>,
        Ghost(data): Ghost<Seq<u8>>,
    ) -> (res: Result<Self, PacketError>)
        requires
            toc@ == data[0],
            within_duration(toc@, lens@.len() + 1),
            header + rest@.len() + padding == data.len(),
            rest@ == data.subrange(header as int, header as int + rest@.len()),
        ensures
            match implicit_layout(header, nats(lens@), rest@.len() as int, padding as nat) {
                Ok(layout) => result_view(res) == Ok::<PacketContents, PacketError>(
                    contents(data, layout),
                ),
                Err(e) => result_view(res) == Err::<PacketContents, PacketError>(e),
            },
    {
        match take_frames(rest, lens) {
            Ok((mut frames, last)) => match check_frame_len(last.len()) {
                Ok(_) => {
                    let ghost before = frames@;
                    frames.push(last);
                    proof {
                        let all = nats(lens@).push(last@.len());
                        lemma_offset_same(all, nats(lens@), lens@.len() as int);
                        assert(frame_views(before).len() == lens@.len());
                        let tail = data.skip(header as int);
                        assert forall|i: int| 0 <= i < all.len() implies frame_views(
                            frames@,
                        )[i] == #[trigger] cut(tail, all)[i] by {
                            lemma_offset_same(all, nats(lens@), i);
                            if i < lens@.len() {
                                assert(frame_views(before)[i] == cut(rest@, nats(lens@))[i]);
                                lemma_offset_same(all, nats(lens@), i + 1);
                                lemma_offset_monotonic(
                                    nats(lens@),
                                    i + 1,
                                    lens@.len() as int,
                                );
                                lemma_offset_monotonic(nats(lens@), i, i + 1);
                            }
                            assert(frame_views(frames@)[i] =~= cut(tail, all)[i]);
                        }
                        assert(frame_views(frames@) =~= cut(tail, all));
                    }
                    Ok(Packet { toc, frames, padding })
                },
                Err(e) => Err(e),
            },
            Err(e) => Err(e),
        }
    }

    /// Frames of equal size that share all of `rest`.
    #[verifier::spinoff_prover]
    #[verifier::rlimit(60)]
    fn with_equal_frames(
        toc: Toc,
        count: usize,
        rest: &'a [u8],
        padding: usize,
        Ghost(header): Ghost<nat>,
        Ghost(data): Ghost<Seq<u8>>,
    ) -> (res: Result<Self, PacketError>)
        requires
            toc@ == data[0],
            header + rest@.len() + padding == data.len(),
            rest@ == data.subrange(header as int, header as int + rest@.len()),
            count > 0,
            within_duration(toc@, count as nat),
            rest@.len() % count as nat == 0,
        ensures
            match equal_layout(header, count as nat, rest@.len() as int, padding as nat) {
                Ok(layout) => result_view(res) == Ok::<PacketContents, PacketError>(
                    contents(data, layout),
                ),
                Err(e) => result_view(res) == Err::<PacketContents, PacketError>(e),
            },
    {
        let size = rest.len() / count;
        match check_frame_len(size) {
            Ok(_) => {
                let lens = repeat_len(size, count);
                proof {
                    let all = nats(lens@);
                    lemma_offset_equal(all, size as nat, count as int);
                    vstd::arithmetic::div_mod::lemma_fundamental_div_mod(
                        rest@.len() as int,
                        count as int,
                    );
                    assert(count * size == size * count) by (nonlinear_arith);
                }
                match take_frames(rest, &lens) {
                    Ok((frames, _)) => {
                        proof {
                            let all = nats(lens@);
                            let tail = data.skip(header as int);
                            assert forall|i: int| 0 <= i < all.len() implies frame_views(
                                frames@,
                            )[i] == #[trigger] cut(tail, all)[i] by {
                                assert(frame_views(frames@)[i] == cut(rest@, all)[i]);
                                lemma_offset_monotonic(all, i + 1, all.len() as int);
                                lemma_offset_monotonic(all, i, i + 1);
                                assert(frame_views(frames@)[i] =~= cut(tail, all)[i]);
                            }
                            assert(frame_views(frames@) =~= cut(tail, all));
                        }
                        Ok(Packet { toc, frames, padding })
                    },
                    Err(e) => Err(e),
                }
            },
            Err(e) => Err(e),
        }
    }

    /// Parses one packet that fills `data`.
    ///
    /// # Errors
    ///
    /// The [`PacketError`] that names the broken rule.
    #[verifier::spinoff_prover]
    #[verifier::rlimit(60)]
    pub fn parse(data: &'a [u8]) -> (res: Result<Self, PacketError>)
        ensures
            parses_to(data@, result_view(res)),
    {
        let n = data.len();
        if n == 0 {
            return Err(PacketError::Empty);
        }
        let toc = Toc::new(data[0]);
        let rest = slice_subrange(data, 1, n);
        assert(rest@ =~= data@.skip(1));
        let code = toc.frame_count_code();
        if code == 0 {
            // One frame, occupying the whole payload.
            let none: Vec<usize> = Vec::new();
            assert(nats(none@) =~= seq![]);
            Self::with_implicit_last(toc, &none, rest, 0, Ghost(1), Ghost(data@))
        } else if code == 1 {
            // Two frames of equal size.
            if rest.len() % 2 != 0 {
                return Err(PacketError::Code1UnevenPayload);
            }
            Self::with_equal_frames(toc, 2, rest, 0, Ghost(1), Ghost(data@))
        } else if code == 2 {
            // Two frames, with an explicit length for the first.
            match read_frame_lens(rest, 1) {
                Ok((lens, after)) => {
                    let ghost used = (len_fields(rest@, 1)->0).1;
                    assert(after@ =~= data@.subrange(1 + used as int, data@.len() as int));
                    Self::with_implicit_last(toc, &lens, after, 0, Ghost(1 + used), Ghost(data@))
                },
                Err(e) => Err(e),
            }
        } else {
            // A signalled number of frames, with optional padding.
            let h = match read_counted_header(toc, data) {
                Ok(h) => h,
                Err(e) => return Err(e),
            };
            let ghost header = 2 + (announced_padding(data@)->0).1;
            let left = h.rest.len();
            if h.padding > left {
                return Err(PacketError::InvalidPadding);
            }
            // The padding bytes trail the packet, with any value.
            let payload = slice_subrange(h.rest, 0, left - h.padding);
            assert(payload@ =~= data@.subrange(header as int, header as int + payload@.len()));
            if h.vbr {
                // The final frame takes what the explicit lengths leave.
                match read_frame_lens(payload, h.count - 1) {
                    Ok((lens, after)) => {
                        let ghost used = (len_fields(payload@, (h.count - 1) as nat)->0).1;
                        assert(after@ =~= data@.subrange(
                            header + used as int,
                            header as int + used + after@.len(),
                        ));
                        Self::with_implicit_last(
                            toc,
                            &lens,
                            after,
                            h.padding,
                            Ghost(header + used),
                            Ghost(data@),
                        )
                    },
                    Err(e) => Err(e),
                }
            } else {
                // Equal sizes inferred from the remaining payload.
                if payload.len() % h.count != 0 {
                    return Err(PacketError::CbrPayloadNotDivisible);
                }
                Self::with_equal_frames(
                    toc,
                    h.count,
                    payload,
                    h.padding,
                    Ghost(header),
                    Ghost(data@),
                )
            }
        }
    }

    /// The frames with the given explicit lengths at the front of `rest`, and
    /// the padding behind them.
    #[verifier::spinoff_prover]
    #[verifier::rlimit(60)]
    fn with_explicit_frames(
        toc: Toc,
        fields: Result<(Vec<usize>, &'a [u8]), PacketError>,
        padding: usize,
        len: usize,
        Ghost(header): Ghost<nat>,
        Ghost(data): Ghost<Seq<u8>>,
        Ghost(model): Ghost<Option<(Seq<nat>, nat)>>,
        Ghost(pad): Ghost<nat>,
    ) -> (res: Result<(Self, usize), PacketError>)
        requires
            data.len() == len,
            toc@ == data[0],
            header >= 1,
            model matches Some((ls, _)) ==> within_duration(toc@, ls.len()),
            padding == (if pad > usize::MAX {
                usize::MAX as nat
            } else {
                pad
            }),
            match fields {
                Ok((lens, rest)) => model matches Some((ls, used)) && nats(lens@) == ls && header
                    + used <= data.len() && rest@ == data.skip(header as int).skip(used as int),
                Err(e) => model is None && e == PacketError::InvalidFrameLength,
            },
        ensures
            match explicit_layout(data, header, model, pad) {
                Ok(layout) => res matches Ok((p, n)) && p@ == contents(data, layout) && n
                    == layout.size(),
                Err(e) => res matches Err(f) && e == f,
            },
    {
        match fields {
            Ok((lens, rest)) => match take_frames(rest, &lens) {
                Ok((frames, after)) => {
                    proof {
                        let used = (model->0).1 as int;
                        assert(data.skip(header as int).skip(used) =~= data.skip(header + used));
                    }
                    let left = after.len();
                    if padding > left {
                        return Err(PacketError::InvalidPadding);
                    }
                    Ok((Packet { toc, frames, padding }, len - (left - padding)))
                },
                Err(e) => Err(e),
            },
            Err(e) => Err(e),
        }
    }

    /// Parses one self-delimited packet from the front of `data`: every frame
    /// length is explicit, so the packet need not fill the buffer. Returns the packet and the number of bytes it
    /// occupies. All but the last stream of a multistream payload are framed
    /// like this.
    ///
    /// # Errors
    ///
    /// The [`PacketError`] that names the broken rule.
    #[verifier::spinoff_prover]
    #[verifier::rlimit(60)]
    pub fn parse_self_delimited(data: &'a [u8]) -> (res: Result<(Self, usize), PacketError>)
        ensures
            match self_delimited_layout(data@) {
                Ok(layout) => res matches Ok((packet, consumed)) && packet@ == contents(
                    data@,
                    layout,
                ) && consumed == layout.size(),
                Err(e) => res matches Err(f) && f == e,
            },
    {
        let n = data.len();
        if n == 0 {
            return Err(PacketError::Empty);
        }
        let toc = Toc::new(data[0]);
        let rest = slice_subrange(data, 1, n);
        assert(rest@ =~= data@.skip(1));
        proof {
            lemma_len_fields(rest@, 1);
            lemma_len_fields(rest@, 2);
            lemma_short_packet(data@[0]);
        }
        let code = toc.frame_count_code();
        if code == 0 {
            // One frame with an explicit length.
            let fields = read_frame_lens(rest, 1);
            Self::with_explicit_frames(
                toc,
                fields,
                0,
                n,
                Ghost(1),
                Ghost(data@),
                Ghost(len_fields(rest@, 1)),
                Ghost(0),
            )
        } else if code == 1 {
            // Two frames, both of the signalled size.
            let fields = read_repeated_len(rest, 2);
            Self::with_explicit_frames(
                toc,
                fields,
                0,
                n,
                Ghost(1),
                Ghost(data@),
                Ghost(repeated(len_field(rest@), 2)),
                Ghost(0),
            )
        } else if code == 2 {
            // Two explicit lengths.
            let fields = read_frame_lens(rest, 2);
            Self::with_explicit_frames(
                toc,
                fields,
                0,
                n,
                Ghost(1),
                Ghost(data@),
                Ghost(len_fields(rest@, 2)),
                Ghost(0),
            )
        } else {
            // A signalled number of frames; the last length is explicit too.
            let h = match read_counted_header(toc, data) {
                Ok(h) => h,
                Err(e) => return Err(e),
            };
            proof {
                lemma_len_fields(h.rest@, h.count as nat);
            }
            let ghost header = 2 + (announced_padding(data@)->0).1;
            let ghost pad = (announced_padding(data@)->0).0;
            if h.vbr {
                let fields = read_frame_lens(h.rest, h.count);
                Self::with_explicit_frames(
                    toc,
                    fields,
                    h.padding,
                    n,
                    Ghost(header),
                    Ghost(data@),
                    Ghost(len_fields(h.rest@, h.count as nat)),
                    Ghost(pad),
                )
            } else {
                let fields = read_repeated_len(h.rest, h.count);
                Self::with_explicit_frames(
                    toc,
                    fields,
                    h.padding,
                    n,
                    Ghost(header),
                    Ghost(data@),
                    Ghost(repeated(len_field(h.rest@), h.count as nat)),
                    Ghost(pad),
                )
            }
        }
    }

    /// The packet's table-of-contents byte.
    #[must_use]
    pub fn toc(&self) -> (toc: Toc)
        ensures
            toc@ == self@.toc,
    {
        self.toc
    }

    /// The compressed frames, in order.
    #[must_use]
    pub fn frames(&self) -> (frames: &[&'a [u8]])
        ensures
            frame_views(frames@) == self@.frames,
    {
        self.frames.as_slice()
    }

    /// Bytes of padding the packet carried.
    #[must_use]
    pub fn padding(&self) -> (padding: usize)
        ensures
            padding == self@.padding,
    {
        self.padding
    }

    /// Total audio duration of the packet.
    #[must_use]
    pub fn duration(&self) -> (d: core::time::Duration)
        ensures
            d == duration_of_micros(
                (100 * self@.frames.len() * toc_frame_size(self@.toc).tenths()) as u64,
            ),
    {
        proof {
            use_type_invariant(self);
        }
        let count = self.frames.len() as u64;
        let tenths = self.toc.frame_size().tenth_ms() as u64;
        assert(count * tenths <= 1200);
        assert(count * tenths * 100 == 100 * count * tenths) by (nonlinear_arith);
        duration_from_micros(count * tenths * 100)
    }
}

/// Reads one frame length that holds for `count` frames.
fn read_repeated_len<'a>(rest: &'a [u8], count: usize) -> (res: Result<
    (Vec<usize>, &'a [u8]),
    PacketError,
>)
    ensures
        match res {
            Ok((lens, after)) => repeated(len_field(rest@), count as nat) matches Some((ls, used))
                && nats(lens@) == ls && used <= rest@.len() && after@ == rest@.skip(used as int),
            Err(e) => len_field(rest@) is None && e == PacketError::InvalidFrameLength,
        },
{
    match read_frame_len(rest) {
        Ok((len, after)) => Ok((repeat_len(len, count), after)),
        Err(e) => Err(e),
    }
}

/// One or two frames of any size last at most 120 ms.
proof fn lemma_short_packet(toc: u8)
    ensures
        within_duration(toc, 1),
        within_duration(toc, 2),
{
}

proof fn lemma_len_fields(s: Seq<u8>, m: nat)
    ensures
        len_fields(s, m) matches Some((lens, used)) ==> lens.len() == m && used <= s.len() && (
        forall|i: int| 0 <= i < m ==> lens[i] <= MAX_FRAME_LEN),
    decreases m,
{
    if m > 0 {
        lemma_len_fields(s, (m - 1) as nat);
    }
}

proof fn lemma_padding_field(s: Seq<u8>)
    ensures
        padding_field(s) matches Some((_, used)) ==> 1 <= used <= s.len(),
    decreases s.len(),
{
    if s.len() > 0 && s[0] == 255 {
        lemma_padding_field(s.skip(1));
    }
}

/// What holds of the layout of every packet with the first byte `toc`: there
/// is at least one frame, none is longer than [`MAX_FRAME_LEN`], and together
/// they last at most 120 ms.
pub open spec fn within_limits(toc: u8, layout: Layout) -> bool {
    &&& layout.lens.len() >= 1
    &&& within_duration(toc, layout.lens.len())
    &&& forall|i: int| 0 <= i < layout.lens.len() ==> layout.lens[i] <= MAX_FRAME_LEN
}

/// Every packet that parses keeps the limits, and its header, frames and
/// padding account for all of its bytes.
pub proof fn law_packet_limits(data: Seq<u8>)
    ensures
        packet_layout(data) matches Ok(layout) ==> within_limits(data[0], layout) && layout.size()
            == data.len(),
{
    if packet_layout(data) is Ok {
        let layout = packet_layout(data)->Ok_0;
        let code = toc_code(data[0]);
        let lens = layout.lens;
        if code == 0 || code == 2 || (code == 3 && data[1] >= 128) {
            let all_but_last = lens.drop_last();
            if code == 2 {
                lemma_len_fields(data.skip(1), 1);
            } else if code == 3 {
                let (padding, used) = announced_padding(data)->0;
                let payload = data.len() - 2 - used - padding;
                lemma_len_fields(
                    data.subrange(2 + used as int, 2 + used + payload),
                    (frame_count(data) - 1) as nat,
                );
            }
            lemma_offset_same(lens, all_but_last, lens.len() - 1);
            if code == 0 {
                assert(all_but_last =~= seq![]);
            } else if code == 2 {
                assert(all_but_last =~= (len_fields(data.skip(1), 1)->0).0);
            } else {
                let (padding, used) = announced_padding(data)->0;
                let payload = data.len() - 2 - used - padding;
                assert(all_but_last =~= (len_fields(
                    data.subrange(2 + used as int, 2 + used + payload),
                    (frame_count(data) - 1) as nat,
                )->0).0);
            }
        } else {
            let count = lens.len() as int;
            let payload = data.len() - layout.header - layout.padding;
            lemma_offset_equal(lens, lens[0], count);
            vstd::arithmetic::div_mod::lemma_fundamental_div_mod(payload, count);
            assert(count * lens[0] == lens[0] * count) by (nonlinear_arith);
        }
    }
}

/// Every self-delimited packet that parses keeps the limits, and lies within
/// the buffer.
pub proof fn law_self_delimited_limits(data: Seq<u8>)
    ensures
        self_delimited_layout(data) matches Ok(layout) ==> within_limits(data[0], layout) && 1
            <= layout.size() <= data.len(),
{
    if self_delimited_layout(data) is Ok {
        let code = toc_code(data[0]);
        if code < 3 {
            lemma_len_fields(data.skip(1), 1);
            lemma_len_fields(data.skip(1), 2);
        } else {
            let (_, used) = announced_padding(data)->0;
            lemma_len_fields(data.skip(2 + used as int), frame_count(data));
        }
    }
}

/// Whether two buffers hold the same first `n` bytes.
pub open spec fn agree(a: Seq<u8>, b: Seq<u8>, n: nat) -> bool {
    &&& n <= a.len()
    &&& n <= b.len()
    &&& forall|i: int| 0 <= i < n ==> a[i] == b[i]
}

proof fn lemma_agree_fields(a: Seq<u8>, b: Seq<u8>, m: nat)
    ensures
        len_fields(a, m) matches Some((lens, used)) && agree(a, b, used) ==> len_fields(b, m)
            == len_fields(a, m),
    decreases m,
{
    if m > 0 {
        lemma_len_fields(a, (m - 1) as nat);
        lemma_agree_fields(a, b, (m - 1) as nat);
    }
}

proof fn lemma_agree_padding(a: Seq<u8>, b: Seq<u8>)
    ensures
        padding_field(a) matches Some((_, used)) && agree(a, b, used) ==> padding_field(b)
            == padding_field(a),
    decreases a.len(),
{
    lemma_padding_field(a);
    if a.len() > 0 && a[0] == 255 {
        lemma_padding_field(a.skip(1));
        lemma_agree_padding(a.skip(1), b.skip(1));
    }
}

proof fn lemma_agree_field(a: Seq<u8>, b: Seq<u8>)
    ensures
        len_field(a) matches Some((_, used)) && agree(a, b, used) ==> len_field(b) == len_field(a),
{
}

proof fn lemma_agree_fixed(data: Seq<u8>, other: Seq<u8>)
    requires
        self_delimited_layout(data) is Ok,
        toc_code(data[0]) < 3,
        agree(data, other, self_delimited_layout(data)->Ok_0.size()),
    ensures
        self_delimited_layout(other) == self_delimited_layout(data),
{
    let layout = self_delimited_layout(data)->Ok_0;
    let m: nat = if toc_code(data[0]) == 2 {
        2
    } else {
        1
    };
    let a = data.skip(1);
    let b = other.skip(1);
    lemma_len_fields(a, m);
    lemma_agree_fields(a, b, m);
    lemma_agree_field(a, b);
    assert(agree(a, b, (layout.header - 1) as nat));
}

proof fn lemma_agree_counted(data: Seq<u8>, other: Seq<u8>)
    requires
        self_delimited_layout(data) is Ok,
        toc_code(data[0]) == 3,
        agree(data, other, self_delimited_layout(data)->Ok_0.size()),
    ensures
        self_delimited_layout(other) == self_delimited_layout(data),
{
    let layout = self_delimited_layout(data)->Ok_0;
    let (_, used) = announced_padding(data)->0;
    lemma_padding_field(data.skip(2));
    lemma_agree_padding(data.skip(2), other.skip(2));
    let a = data.skip(2 + used as int);
    let b = other.skip(2 + used as int);
    lemma_len_fields(a, frame_count(data));
    assert(agree(data.skip(2), other.skip(2), used));
    assert(data[1] == other[1] && data[0] == other[0]);
    assert(announced_padding(other) == announced_padding(data));
    lemma_agree_fields(a, b, frame_count(data));
    lemma_agree_field(a, b);
    assert(agree(a, b, (layout.header - 2 - used) as nat));
}

/// A self-delimited packet ends where its own bytes say: whatever follows it
/// in the buffer, the same packet is parsed from the same bytes.
pub proof fn law_self_delimited_prefix(data: Seq<u8>, other: Seq<u8>)
    requires
        self_delimited_layout(data) is Ok,
        agree(data, other, self_delimited_layout(data)->Ok_0.size()),
    ensures
        self_delimited_layout(other) == self_delimited_layout(data),
        contents(other, self_delimited_layout(data)->Ok_0) == contents(
            data,
            self_delimited_layout(data)->Ok_0,
        ),
{
    let layout = self_delimited_layout(data)->Ok_0;
    law_self_delimited_limits(data);
    if toc_code(data[0]) < 3 {
        lemma_agree_fixed(data, other);
    } else {
        lemma_agree_counted(data, other);
    }
    lemma_agree_frames(data, other, layout);
}

proof fn lemma_agree_frames(data: Seq<u8>, other: Seq<u8>, layout: Layout)
    requires
        agree(data, other, layout.size()),
    ensures
        layout.frames(other) == layout.frames(data),
{
    assert forall|i: int| 0 <= i < layout.lens.len() implies #[trigger] layout.frames(other)[i]
        == layout.frames(data)[i] by {
        lemma_offset_monotonic(layout.lens, i + 1, layout.lens.len() as int);
        lemma_offset_monotonic(layout.lens, i, i + 1);
        assert(layout.frames(other)[i] =~= layout.frames(data)[i]);
    }
    assert(layout.frames(other) =~= layout.frames(data));
}

} // verus!
