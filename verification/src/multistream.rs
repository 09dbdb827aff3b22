//! Multistream packets: elementary streams in one packet, the first of them
//! stereo and the rest mono, and a table that routes their channels to the
//! output. All streams but the last are self-delimited.

use vstd::prelude::*;
use vstd::slice::slice_subrange;

use crate::packet::{
    contents, law_packet_limits, law_self_delimited_limits, law_self_delimited_prefix, packet_layout,
    self_delimited_layout,
    toc_frame_size, within_duration, Packet, PacketContents, PacketError,
};

verus! {

/// The entry of a mapping table that stands for silence.
pub const SILENT: u8 = 255;

/// The longest duration of a packet, 120 ms, in samples at 48 kHz.
pub const MAX_DURATION_48K: usize = 5760;

/// Where the samples of an output channel come from.
#[derive(Debug, Clone, Copy, PartialEq, Eq, Structural)]
pub struct Source {
    /// The elementary stream.
    pub stream: usize,
    /// The channel within that stream.
    pub channel: usize,
    /// The number of channels of that stream.
    pub channels: usize,
}

/// The source of decoded channel `m`: the coupled streams have two channels
/// each and come first.
pub open spec fn source_of(m: int, coupled: int) -> Source {
    if m < 2 * coupled {
        Source { stream: (m / 2) as usize, channel: (m % 2) as usize, channels: 2 }
    } else {
        Source { stream: (m - coupled) as usize, channel: 0, channels: 1 }
    }
}

/// Whether a layout is valid: there are at most 255 decoded channels, and
/// every entry of the mapping table is one of them or silence.
pub open spec fn layout_valid(streams: int, coupled: int, mapping: Seq<u8>) -> bool {
    &&& 1 <= streams
    &&& 0 <= coupled <= streams
    &&& streams + coupled <= 255
    &&& forall|i: int|
        0 <= i < mapping.len() ==> (#[trigger] mapping[i]) == SILENT || mapping[i] < streams
            + coupled
}

/// The layout of a multistream packet.
#[derive(Debug, PartialEq, Eq)]
pub struct StreamLayout {
    streams: usize,
    coupled: usize,
    mapping: Vec<u8>,
}

/// Checks a layout.
#[must_use]
pub fn is_layout_valid(streams: usize, coupled: usize, mapping: &[u8]) -> (valid: bool)
    ensures
        valid == layout_valid(streams as int, coupled as int, mapping@),
{
    if streams < 1 || coupled > streams || streams > 255 || coupled > 255 - streams {
        return false;
    }
    let channels = streams + coupled;
    let mut i: usize = 0;
    while i < mapping.len()
        invariant
            i <= mapping@.len(),
            channels == streams + coupled,
            forall|k: int|
                0 <= k < i ==> (#[trigger] mapping@[k]) == SILENT || mapping@[k] < channels,
        decreases mapping@.len() - i,
    {
        if mapping[i] != SILENT && mapping[i] as usize >= channels {
            return false;
        }
        i = i + 1;
    }
    true
}

/// The duration of a packet in samples at 48 kHz.
pub open spec fn duration_48k(packet: PacketContents) -> int {
    packet.frames.len() as int * toc_frame_size(packet.toc).tenths() * 24 / 5
}

/// The packet of the next stream and what follows it. The last stream takes all
/// that is left; the others are self-delimited.
#[verifier::opaque]
pub open spec fn stream_packet(data: Seq<u8>, last: bool) -> Result<
    (PacketContents, Seq<u8>),
    PacketError,
> {
    if last {
        match packet_layout(data) {
            Err(e) => Err(e),
            Ok(layout) => Ok((contents(data, layout), seq![])),
        }
    } else {
        match self_delimited_layout(data) {
            Err(e) => Err(e),
            Ok(layout) => Ok((contents(data, layout), data.skip(layout.size() as int))),
        }
    }
}

/// The packet of the next stream and what follows it, if it lasts as long as
/// the streams before it.
pub open spec fn timed_packet(data: Seq<u8>, last: bool, duration: Option<int>) -> Result<
    (PacketContents, Seq<u8>),
    PacketError,
> {
    match stream_packet(data, last) {
        Err(e) => Err(e),
        Ok((packet, rest)) => if duration matches Some(d) && d != duration_48k(packet) {
            Err(PacketError::InvalidFrameCount)
        } else {
            Ok((packet, rest))
        },
    }
}

/// What splitting a multistream packet gives: the contents of the streams, or
/// the first rule that is broken. Each stream lasts as long as the first.
pub open spec fn split_packet(data: Seq<u8>, streams: nat, duration: Option<int>) -> Result<
    Seq<PacketContents>,
    PacketError,
>
    decreases streams,
{
    if streams == 0 {
        Ok(seq![])
    } else {
        match timed_packet(data, streams == 1, duration) {
            Err(e) => Err(e),
            Ok((packet, rest)) => match split_packet(
                rest,
                (streams - 1) as nat,
                Some(duration_48k(packet)),
            ) {
                Err(e) => Err(e),
                Ok(more) => Ok(seq![packet] + more),
            },
        }
    }
}

/// The contents of a run of packets.
pub open spec fn packet_contents(packets: Seq<Packet<'_>>) -> Seq<PacketContents> {
    Seq::new(packets.len(), |i: int| packets[i]@)
}

impl StreamLayout {
    #[verifier::type_invariant]
    spec fn well_formed(self) -> bool {
        layout_valid(self.streams as int, self.coupled as int, self.mapping@)
    }

    /// The number of elementary streams.
    pub closed spec fn stream_count(self) -> int {
        self.streams as int
    }

    /// The number of coupled streams.
    pub closed spec fn coupled_count(self) -> int {
        self.coupled as int
    }

    /// The mapping table.
    pub closed spec fn table(self) -> Seq<u8> {
        self.mapping@
    }

    /// A layout of `streams` elementary streams, the first `coupled` of them
    /// stereo, mapped onto `mapping.len()` output channels.
    #[must_use]
    pub fn new(streams: usize, coupled: usize, mapping: &[u8]) -> (layout: Self)
        requires
            layout_valid(streams as int, coupled as int, mapping@),
        ensures
            layout.stream_count() == streams,
            layout.coupled_count() == coupled,
            layout.table() == mapping@,
    {
        let mut table: Vec<u8> = Vec::new();
        table.extend_from_slice(mapping);
        assert(table@ =~= mapping@);
        StreamLayout { streams, coupled, mapping: table }
    }

    /// The number of output channels.
    #[must_use]
    pub fn channels(&self) -> (n: usize)
        ensures
            n == self.table().len(),
    {
        self.mapping.len()
    }

    /// The number of elementary streams.
    #[must_use]
    pub fn streams(&self) -> (n: usize)
        ensures
            n == self.stream_count(),
            1 <= n <= 255,
    {
        proof {
            use_type_invariant(self);
        }
        self.streams
    }

    /// The number of channels that stream `s` is decoded to.
    #[must_use]
    pub fn stream_channels(&self, s: usize) -> (n: usize)
        ensures
            n == if s < self.coupled_count() {
                2int
            } else {
                1
            },
    {
        if s < self.coupled {
            2
        } else {
            1
        }
    }

    /// The source of an output channel, if it is not silent.
    #[must_use]
    pub fn source(&self, channel: usize) -> (source: Option<Source>)
        requires
            channel < self.table().len(),
        ensures
            match source {
                None => self.table()[channel as int] == SILENT,
                Some(s) => {
                    &&& self.table()[channel as int] != SILENT
                    &&& s == source_of(self.table()[channel as int] as int, self.coupled_count())
                    &&& s.stream < self.stream_count()
                    &&& s.channel < s.channels
                    &&& s.channels == if s.stream < self.coupled_count() {
                        2int
                    } else {
                        1
                    }
                },
            },
    {
        proof {
            use_type_invariant(self);
        }
        let m = self.mapping[channel];
        if m == SILENT {
            return None;
        }
        let m = m as usize;
        if m < 2 * self.coupled {
            Some(Source { stream: m / 2, channel: m % 2, channels: 2 })
        } else {
            Some(Source { stream: m - self.coupled, channel: 0, channels: 1 })
        }
    }

    /// Takes the packet of stream `s` from the front of `rest`. Returns it with
    /// what follows it and its duration in samples at 48 kHz, which must be
    /// that of the streams before it, if there are any.
    ///
    /// # Errors
    ///
    /// The error of a malformed packet, or [`PacketError::InvalidFrameCount`]
    /// if the stream does not last as long as those before it.
    pub fn next_stream<'a>(&self, s: usize, rest: &'a [u8], duration: Option<usize>) -> (res: Result<
        (Packet<'a>, &'a [u8], usize),
        PacketError,
    >)
        requires
            s < self.stream_count(),
        ensures
            match timed_packet(rest@, s + 1 == self.stream_count(), ghost_duration(duration)) {
                Ok((packet, after)) => res matches Ok((found, left, lasts)) && found@ == packet
                    && left@ == after && lasts == duration_48k(packet) && lasts
                    <= MAX_DURATION_48K,
                Err(e) => res matches Err(f) && f == e,
            },
    {
        proof {
            use_type_invariant(self);
        }
        let (packet, after) = match take_packet(rest, s + 1 == self.streams) {
            Ok(found) => found,
            Err(e) => return Err(e),
        };
        let lasts = packet_duration(&packet);
        match duration {
            Some(d) => {
                if d != lasts {
                    return Err(PacketError::InvalidFrameCount);
                }
            },
            None => {},
        }
        Ok((packet, after, lasts))
    }

    /// Splits a multistream packet into those of its streams, which must all
    /// last equally long. Returns them with that duration in samples at 48
    /// kHz.
    ///
    /// # Errors
    ///
    /// The error of the first malformed packet, or
    /// [`PacketError::InvalidFrameCount`] for streams of differing durations.
    pub fn split<'a>(&self, data: &'a [u8]) -> (res: Result<(Vec<Packet<'a>>, usize), PacketError>)
        ensures
            match split_packet(data@, self.stream_count() as nat, None) {
                Ok(packets) => res matches Ok((found, duration)) && packet_contents(found@)
                    == packets && packets.len() == self.stream_count() && duration == duration_48k(
                    packets[0],
                ) && duration <= MAX_DURATION_48K,
                Err(e) => res matches Err(f) && f == e,
            },
    {
        proof {
            use_type_invariant(self);
        }
        let streams = self.streams;
        let mut packets: Vec<Packet<'a>> = Vec::new();
        let mut rest = data;
        let mut duration: Option<usize> = None;
        let mut s: usize = 0;
        let ghost goal = split_packet(data@, streams as nat, None);
        assert(packet_contents(packets@) =~= seq![]);
        assert(prepended(packet_contents(packets@), goal) =~= goal) by {
            assert(seq![] + ok_or_empty(goal) =~= ok_or_empty(goal));
        }
        while s < streams
            invariant
                s <= streams <= 255,
                streams >= 1,
                streams == self.stream_count(),
                packets@.len() == s,
                s == 0 ==> duration is None,
                s > 0 ==> (duration matches Some(d) && d == duration_48k(packets@[0]@) && d
                    <= MAX_DURATION_48K),
                goal == split_packet(data@, streams as nat, None),
                goal == prepended(
                    packet_contents(packets@),
                    split_packet(rest@, (streams - s) as nat, ghost_duration(duration)),
                ),
            decreases streams - s,
        {
            let ghost before = packet_contents(packets@);
            let (packet, after, lasts) = match self.next_stream(s, rest, duration) {
                Ok(found) => found,
                Err(e) => return Err(e),
            };
            if s == 0 {
                duration = Some(lasts);
            }
            packets.push(packet);
            proof {
                let more = split_packet(
                    after@,
                    (streams - s - 1) as nat,
                    ghost_duration(duration),
                );
                assert(packet_contents(packets@) =~= before.push(packet@));
                assert(before + (seq![packet@] + ok_or_empty(more)) =~= before.push(packet@)
                    + ok_or_empty(more));
            }
            rest = after;
            s = s + 1;
        }
        assert(packet_contents(packets@) + seq![] =~= packet_contents(packets@));
        let duration = match duration {
            Some(d) => d,
            None => 0,
        };
        Ok((packets, duration))
    }
}

/// A split with packets put in front.
pub open spec fn prepended(
    before: Seq<PacketContents>,
    res: Result<Seq<PacketContents>, PacketError>,
) -> Result<Seq<PacketContents>, PacketError> {
    match res {
        Ok(more) => Ok(before + more),
        Err(e) => Err(e),
    }
}

/// Parses the packet of the next stream.
fn take_packet<'a>(rest: &'a [u8], last: bool) -> (res: Result<
    (Packet<'a>, &'a [u8]),
    PacketError,
>)
    ensures
        match res {
            Ok((packet, after)) => stream_packet(rest@, last) == Ok::<
                (PacketContents, Seq<u8>),
                PacketError,
            >((packet@, after@)) && within_duration(packet@.toc, packet@.frames.len()),
            Err(e) => stream_packet(rest@, last) == Err::<(PacketContents, Seq<u8>), PacketError>(
                e,
            ),
        },
{
    proof {
        reveal(stream_packet);
        law_packet_limits(rest@);
        law_self_delimited_limits(rest@);
    }
    let n = rest.len();
    if last {
        match Packet::parse(rest) {
            Ok(packet) => {
                let after = slice_subrange(rest, n, n);
                assert(after@ =~= seq![]);
                Ok((packet, after))
            },
            Err(e) => Err(e),
        }
    } else {
        match Packet::parse_self_delimited(rest) {
            Ok((packet, used)) => {
                let after = slice_subrange(rest, used, n);
                assert(after@ =~= rest@.skip(used as int));
                Ok((packet, after))
            },
            Err(e) => Err(e),
        }
    }
}

/// The duration of a packet in samples at 48 kHz.
fn packet_duration(packet: &Packet<'_>) -> (samples: usize)
    requires
        within_duration(packet@.toc, packet@.frames.len()),
    ensures
        samples == duration_48k(packet@),
        samples <= MAX_DURATION_48K,
{
    proof {
        lemma_frame_count(packet@);
    }
    let frames = packet.frames().len();
    let samples = packet.toc().frame_size().samples_per_channel_48k();
    assert(frames == packet@.frames.len());
    assert(frames * samples <= 48 * 2880) by (nonlinear_arith)
        requires
            frames <= 48,
            samples <= 2880,
    ;
    proof {
        lemma_duration(packet@, frames as int, samples as int);
    }
    frames * samples
}

/// A duration as a number.
pub open spec fn ghost_duration(duration: Option<usize>) -> Option<int> {
    match duration {
        None => None,
        Some(d) => Some(d as int),
    }
}

/// The packets of a successful split.
pub open spec fn ok_or_empty(res: Result<Seq<PacketContents>, PacketError>) -> Seq<
    PacketContents,
> {
    match res {
        Ok(packets) => packets,
        Err(_) => seq![],
    }
}

proof fn lemma_frame_count(packet: PacketContents)
    requires
        within_duration(packet.toc, packet.frames.len()),
    ensures
        packet.frames.len() <= 48,
{
    let n = packet.frames.len() as int;
    let t = toc_frame_size(packet.toc).tenths() as int;
    assert(n <= 48) by (nonlinear_arith)
        requires
            n * t <= 1200,
            t >= 25,
            n >= 0,
    ;
}

proof fn lemma_duration(packet: PacketContents, frames: int, samples: int)
    requires
        frames == packet.frames.len(),
        10_000 * samples == 48_000 * toc_frame_size(packet.toc).tenths(),
    ensures
        frames * samples == duration_48k(packet),
{
    let t = toc_frame_size(packet.toc).tenths() as int;
    assert(frames * t * 24 == 5 * (frames * samples)) by (nonlinear_arith)
        requires
            10_000 * samples == 48_000 * t,
    ;
}

/// The streams of a packet that can be split are as many as the layout has, and
/// all last equally long.
pub proof fn law_streams_last_equally_long(data: Seq<u8>, streams: nat, duration: Option<int>)
    ensures
        split_packet(data, streams, duration) matches Ok(packets) ==> {
            &&& packets.len() == streams
            &&& forall|i: int, j: int|
                0 <= i < packets.len() && 0 <= j < packets.len() ==> #[trigger] duration_48k(
                    packets[i],
                ) == #[trigger] duration_48k(packets[j])
            &&& duration matches Some(d) ==> forall|i: int|
                0 <= i < packets.len() ==> #[trigger] duration_48k(packets[i]) == d
        },
    decreases streams,
{
    if streams > 0 {
        match timed_packet(data, streams == 1, duration) {
            Err(_) => {},
            Ok((packet, rest)) => {
                let lasts = duration_48k(packet);
                law_streams_last_equally_long(rest, (streams - 1) as nat, Some(lasts));
                match split_packet(rest, (streams - 1) as nat, Some(lasts)) {
                    Err(_) => {},
                    Ok(more) => {
                        let packets = seq![packet] + more;
                        assert forall|i: int| 0 <= i < packets.len() implies #[trigger] duration_48k(
                            packets[i],
                        ) == lasts by {
                            if i > 0 {
                                assert(packets[i] == more[i - 1]);
                            }
                        }
                    },
                }
            },
        }
    }
}

/// The number of samples per channel at `fs_hz` that last as long as
/// `duration` samples at 48 kHz.
#[must_use]
pub fn samples_at(duration: usize, fs_hz: u32) -> (n: usize)
    requires
        duration <= MAX_DURATION_48K,
    ensures
        n == duration * fs_hz / 48_000,
{
    assert(duration * fs_hz <= 5760 * fs_hz) by (nonlinear_arith)
        requires
            duration <= 5760,
    ;
    (duration as u64 * fs_hz as u64 / 48_000) as usize
}

/// Sample `k` of an interleaved output of `channels` channels.
pub open spec fn routed<T>(
    layout: StreamLayout,
    decoded: Seq<Seq<T>>,
    silence: T,
    k: int,
) -> T {
    let channels = layout.table().len() as int;
    let frame = k / channels;
    let m = layout.table()[k % channels];
    if m == SILENT {
        silence
    } else {
        let s = source_of(m as int, layout.coupled_count());
        decoded[s.stream as int][frame * s.channels + s.channel]
    }
}

/// The samples of the decoded streams.
pub open spec fn sample_views<T>(decoded: Seq<Vec<T>>) -> Seq<Seq<T>> {
    Seq::new(decoded.len(), |i: int| decoded[i]@)
}

impl StreamLayout {
    /// Whether every decoded stream that is routed to the output holds what it
    /// needs of `n` samples per channel.
    pub open spec fn holds<T>(self, decoded: Seq<Seq<T>>, n: int) -> bool {
        &&& decoded.len() == self.stream_count()
        &&& n > 0 ==> forall|ch: int|
            0 <= ch < self.table().len() && (#[trigger] self.table()[ch]) != SILENT ==> {
                let s = source_of(self.table()[ch] as int, self.coupled_count());
                (n - 1) * s.channels + s.channel < decoded[s.stream as int].len()
            }
    }

    /// Routes `n` samples per channel of the decoded streams, each interleaved,
    /// to the interleaved output.
    pub fn route<T: Copy>(&self, decoded: &Vec<Vec<T>>, n: usize, silence: T) -> (out: Vec<T>)
        requires
            self.holds(sample_views(decoded@), n as int),
            n * self.table().len() <= usize::MAX,
        ensures
            out@.len() == n * self.table().len(),
            forall|k: int|
                0 <= k < out@.len() ==> (#[trigger] out@[k]) == routed(
                    *self,
                    sample_views(decoded@),
                    silence,
                    k,
                ),
    {
        let channels = self.channels();
        let mut out: Vec<T> = Vec::new();
        let mut i: usize = 0;
        assert(0 * channels == 0);
        while i < n
            invariant
                i <= n,
                channels == self.table().len(),
                self.holds(sample_views(decoded@), n as int),
                n * channels <= usize::MAX,
                out@.len() == i * channels,
                forall|k: int|
                    0 <= k < out@.len() ==> (#[trigger] out@[k]) == routed(
                        *self,
                        sample_views(decoded@),
                        silence,
                        k,
                    ),
            decreases n - i,
        {
            let mut ch: usize = 0;
            while ch < channels
                invariant
                    i < n,
                    ch <= channels,
                    channels == self.table().len(),
                    self.holds(sample_views(decoded@), n as int),
                    n * channels <= usize::MAX,
                    out@.len() == i * channels + ch,
                    forall|k: int|
                        0 <= k < out@.len() ==> (#[trigger] out@[k]) == routed(
                            *self,
                            sample_views(decoded@),
                            silence,
                            k,
                        ),
                decreases channels - ch,
            {
                proof {
                    lemma_position(i as int, channels as int, ch as int);
                }
                let value = match self.source(ch) {
                    None => silence,
                    Some(source) => {
                        let stream = &decoded[source.stream];
                        assert(stream@ == sample_views(decoded@)[source.stream as int]);
                        let len = stream.len();
                        assert(self.table()[ch as int] != SILENT);
                        assert(i * source.channels <= (n - 1) * source.channels)
                            by (nonlinear_arith)
                            requires
                                i < n,
                        ;
                        assert(0 <= i * source.channels) by (nonlinear_arith);
                        stream[i * source.channels + source.channel]
                    },
                };
                out.push(value);
                ch = ch + 1;
            }
            assert(i * channels + channels == (i + 1) * channels) by (nonlinear_arith);
            i = i + 1;
        }
        out
    }
}

proof fn lemma_position(frame: int, channels: int, ch: int)
    requires
        0 <= frame,
        0 <= ch < channels,
    ensures
        (frame * channels + ch) / channels == frame,
        (frame * channels + ch) % channels == ch,
{
    vstd::arithmetic::div_mod::lemma_fundamental_div_mod_converse(
        frame * channels + ch,
        channels,
        frame,
        ch,
    );
}

/// Decoded channels are numbered in the order of the streams: channel `c` of
/// stream `s` is preceded by all channels of the streams before it, of which
/// those that are coupled have two.
pub open spec fn channel_number(s: int, c: int, coupled: int) -> int {
    s + c + if s < coupled {
        s
    } else {
        coupled
    }
}

/// The source of a decoded channel is the stream and the channel with that
/// number.
pub proof fn law_channels_in_stream_order(m: int, coupled: int)
    requires
        0 <= m < usize::MAX,
        0 <= coupled,
    ensures
        ({
            let source = source_of(m, coupled);
            &&& m == channel_number(source.stream as int, source.channel as int, coupled)
            &&& source.stream < coupled ==> m == 2 * source.stream + source.channel
                && source.channel < 2 && source.channels == 2
            &&& source.stream >= coupled ==> m == coupled + source.stream && source.channel == 0
                && source.channels == 1
        }),
{
}

/// Every channel of every stream is the source of one decoded channel.
pub proof fn law_every_channel_has_a_number(s: int, c: int, coupled: int)
    requires
        0 <= s < 255,
        0 <= coupled < 255,
        0 <= c < 2,
        s >= coupled ==> c == 0,
    ensures
        ({
            let source = source_of(channel_number(s, c, coupled), coupled);
            source.stream == s && source.channel == c
        }),
{
}

/// Output is interleaved: at time `t`, output channel `ch` plays what the table
/// names: channel `c` of stream `s` at that time, or silence.
pub proof fn law_output_follows_table<T>(
    layout: StreamLayout,
    decoded: Seq<Seq<T>>,
    silence: T,
    t: int,
    ch: int,
    s: int,
    c: int,
)
    requires
        0 <= t,
        0 <= ch < layout.table().len(),
        0 <= s < 255,
        0 <= layout.coupled_count() < 255,
        0 <= c < 2,
        s >= layout.coupled_count() ==> c == 0,
    ensures
        ({
            let k = t * layout.table().len() + ch;
            let m = layout.table()[ch] as int;
            &&& m == 255 ==> routed(layout, decoded, silence, k) == silence
            &&& m != 255 && m == channel_number(s, c, layout.coupled_count()) ==> routed(
                layout,
                decoded,
                silence,
                k,
            ) == if s < layout.coupled_count() {
                decoded[s][2 * t + c]
            } else {
                decoded[s][t]
            }
        }),
{
    lemma_position(t, layout.table().len() as int, ch);
    let m = layout.table()[ch] as int;
    if m == channel_number(s, c, layout.coupled_count()) {
        law_every_channel_has_a_number(s, c, layout.coupled_count());
        let w = source_of(m, layout.coupled_count()).channels as int;
        assert(t * 2 == 2 * t && t * 1 == t);
        assert(w == 1 || w == 2);
    }
}

/// A packet of frames that last `tenths` tenths of a millisecond each lasts as
/// long as all its frames.
pub proof fn law_duration_counts_frames(packet: PacketContents)
    ensures
        10_000 * duration_48k(packet) == 48_000 * (packet.frames.len() * toc_frame_size(
            packet.toc,
        ).tenths()),
{
    let n = packet.frames.len() as int;
    let t = toc_frame_size(packet.toc).tenths() as int;
    let q = t / 5;
    assert(t == 5 * q);
    assert(n * t * 24 == 5 * (n * q * 24)) by (nonlinear_arith)
        requires
            t == 5 * q,
    ;
    assert(10_000 * (n * q * 24) == 48_000 * (n * t)) by (nonlinear_arith)
        requires
            t == 5 * q,
    ;
}

/// Streams follow one another: behind the bytes of a self-delimited packet the
/// next stream begins. The packet must last as long as those before it.
pub proof fn law_streams_follow(
    packet: Seq<u8>,
    rest: Seq<u8>,
    more: nat,
    duration: Option<int>,
)
    requires
        self_delimited_layout(packet) matches Ok(layout) && layout.size() == packet.len(),
        more >= 1,
    ensures
        ({
            let first = contents(packet, self_delimited_layout(packet)->Ok_0);
            let lasts = duration_48k(first);
            let split = split_packet(packet + rest, more + 1, duration);
            if duration matches Some(d) && d != lasts {
                split matches Err(e) && e is InvalidFrameCount
            } else {
                match split_packet(rest, more, Some(lasts)) {
                    Ok(packets) => split matches Ok(all) && all == seq![first] + packets,
                    Err(e) => split matches Err(f) && f == e,
                }
            }
        }),
{
    let layout = self_delimited_layout(packet)->Ok_0;
    let data = packet + rest;
    law_self_delimited_prefix(packet, data);
    reveal(stream_packet);
    assert(data.skip(layout.size() as int) =~= rest);
    assert(contents(data, layout) == contents(packet, layout));
}

/// The last stream takes all that is left, without naming its length.
pub proof fn law_last_stream_takes_rest(packet: Seq<u8>, duration: Option<int>)
    requires
        packet_layout(packet) is Ok,
        duration matches Some(d) ==> d == duration_48k(
            contents(packet, packet_layout(packet)->Ok_0),
        ),
    ensures
        split_packet(packet, 1, duration) matches Ok(all) && all == seq![
            contents(packet, packet_layout(packet)->Ok_0),
        ],
{
    reveal(stream_packet);
    let first = contents(packet, packet_layout(packet)->Ok_0);
    reveal_with_fuel(split_packet, 2);
    assert(seq![first] + seq![] =~= seq![first]);
}

} // verus!
