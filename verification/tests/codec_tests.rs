//! Tests of the decisions of the encoder, the decoder and the multistream
//! layer.

use opus_native::decoder::{
    end_band, read_redundancy, CeltPlan, DecoderHistory, FramePlan, Redundancy, SilkPlan,
    TransitionFade,
};
use opus_native::demo::{read_records, write_record};
use opus_native::encoder::{frame_packet, EncodeError, EncoderSettings};
use opus_native::multistream::{is_layout_valid, samples_at, Source, StreamLayout, SILENT};
use opus_native::packet::{Bandwidth, FrameSize, Mode, Packet, PacketError, Toc};
use opus_native::pcm::{check_shape, frames_in, ShapeError};
use opus_native::prof::StageTotals;
use opus_native::range::{RangeDecoder, RangeEncoder};

#[test]
fn rejects_bad_inputs() {
    let enc = EncoderSettings::new(1);
    assert_eq!(enc.plan(100, 64), Err(EncodeError::InvalidFrameSize));
    assert_eq!(enc.plan(960, 2), Err(EncodeError::InvalidBudget));
    assert_eq!(enc.plan(960, 2000), Err(EncodeError::InvalidBudget));
}

#[test]
fn the_frame_size_is_checked_first() {
    let mono = EncoderSettings::new(1);
    assert_eq!(mono.plan(0, 0), Err(EncodeError::InvalidFrameSize));
    let stereo = EncoderSettings::new(2);
    assert_eq!(stereo.channels(), 2);
    assert_eq!(stereo.plan(961, 64), Err(EncodeError::InvalidFrameSize));
    assert_eq!(stereo.plan(960, 1276), Err(EncodeError::InvalidBudget));
    assert_eq!(
        EncodeError::InvalidFrameSize.message(),
        "frame size must be 120/240/480/960 samples per channel at 48 kHz"
    );
    assert_eq!(
        EncodeError::InvalidBudget.message(),
        "output budget must be between 3 and 1275 bytes"
    );
}

#[test]
fn a_plan_names_the_configuration() {
    let plan = EncoderSettings::new(1).plan(960, 64).expect("plan");
    assert_eq!(plan.toc.byte(), 0xF8);
    assert_eq!((plan.end, plan.lm, plan.payload_bytes), (21, 3, 63));

    let bands = [
        (Bandwidth::NarrowBand, 16, 13, Bandwidth::NarrowBand),
        (Bandwidth::MediumBand, 20, 17, Bandwidth::WideBand),
        (Bandwidth::WideBand, 20, 17, Bandwidth::WideBand),
        (Bandwidth::SuperWideBand, 24, 19, Bandwidth::SuperWideBand),
        (Bandwidth::FullBand, 28, 21, Bandwidth::FullBand),
    ];
    let sizes = [
        (120, 0u8, FrameSize::Ms2_5),
        (240, 1, FrameSize::Ms5),
        (480, 2, FrameSize::Ms10),
        (960, 3, FrameSize::Ms20),
    ];
    for channels in [1usize, 2] {
        for (bandwidth, base, end, coded) in bands {
            for (samples, lm, size) in sizes {
                let mut settings = EncoderSettings::new(channels);
                settings.set_bandwidth(bandwidth);
                let plan = settings.plan(samples * channels, 1275).expect("plan");
                assert_eq!(plan.toc.config(), base + lm);
                assert_eq!(plan.toc.stereo(), channels == 2);
                assert_eq!(plan.toc.frame_count_code(), 0);
                assert_eq!(plan.toc.mode(), Mode::CeltOnly);
                assert_eq!(plan.toc.bandwidth(), coded);
                assert_eq!(plan.toc.frame_size(), size);
                assert_eq!(plan.end, end);
                assert_eq!(plan.lm, usize::from(lm));
                assert_eq!(plan.payload_bytes, 1274);
            }
        }
    }
}

#[test]
fn a_framed_payload_is_parsed_back() {
    let toc = Toc::from_parts(28, true, 0);
    let data = frame_packet(toc, &[9, 8, 7]);
    assert_eq!(data, vec![toc.byte(), 9, 8, 7]);
    match Packet::parse(&data) {
        Ok(packet) => {
            assert_eq!(packet.toc().byte(), toc.byte());
            assert_eq!(packet.frames(), &[&[9u8, 8, 7][..]][..]);
        },
        Err(e) => panic!("{}", e.message()),
    }
}

#[test]
fn end_bands() {
    assert_eq!(end_band(Bandwidth::NarrowBand), 13);
    assert_eq!(end_band(Bandwidth::MediumBand), 17);
    assert_eq!(end_band(Bandwidth::WideBand), 17);
    assert_eq!(end_band(Bandwidth::SuperWideBand), 19);
    assert_eq!(end_band(Bandwidth::FullBand), 21);
}

const NO_REDUNDANCY: Redundancy =
    Redundancy { present: false, celt_to_silk: false, bytes: 0, len: 50 };

#[test]
fn silk_parameters() {
    let fresh = DecoderHistory::new();
    assert_eq!(fresh.silk_plan(Mode::CeltOnly, Bandwidth::FullBand, 960), None);
    assert_eq!(
        fresh.silk_plan(Mode::SilkOnly, Bandwidth::NarrowBand, 480),
        Some(SilkPlan { reset: false, internal_sample_rate: 8000, payload_size_ms: 10, calls: 1 })
    );
    assert_eq!(
        fresh.silk_plan(Mode::SilkOnly, Bandwidth::MediumBand, 2880),
        Some(SilkPlan { reset: false, internal_sample_rate: 12_000, payload_size_ms: 60, calls: 3 })
    );
    let mut after_celt = DecoderHistory::new();
    after_celt.advance(Mode::CeltOnly, NO_REDUNDANCY);
    assert_eq!(
        after_celt.silk_plan(Mode::Hybrid, Bandwidth::FullBand, 960),
        Some(SilkPlan { reset: true, internal_sample_rate: 16_000, payload_size_ms: 20, calls: 1 })
    );
}

#[test]
fn transitions_are_faded() {
    let mut history = DecoderHistory::new();
    assert!(!history.transition(Mode::CeltOnly));
    history.advance(Mode::SilkOnly, NO_REDUNDANCY);
    assert!(history.transition(Mode::CeltOnly));
    assert!(!history.transition(Mode::Hybrid));
    let plan = history.plan(Mode::CeltOnly, Bandwidth::FullBand, 960, NO_REDUNDANCY);
    assert_eq!(
        plan,
        FramePlan {
            end_band: 21,
            redundant_first: false,
            celt: Some(CeltPlan { reset: true, frame_size: 960, start_band: 0 }),
            fade_out: false,
            redundant_last: false,
            blend_first: false,
            transition: TransitionFade::Long,
        }
    );
    let short = history.plan(Mode::CeltOnly, Bandwidth::FullBand, 120, NO_REDUNDANCY);
    assert_eq!(short.transition, TransitionFade::Short);
    assert_eq!(short.celt, Some(CeltPlan { reset: true, frame_size: 120, start_band: 0 }));
}

/// Redundancy in the last SILK frame prepares the change to CELT, and a
/// redundant frame takes the place of the fade.
#[test]
fn redundancy_takes_the_place_of_the_fade() {
    let to_celt = Redundancy { present: true, celt_to_silk: false, bytes: 10, len: 40 };
    let to_silk = Redundancy { present: true, celt_to_silk: true, bytes: 10, len: 40 };

    let mut history = DecoderHistory::new();
    history.advance(Mode::SilkOnly, to_celt);
    assert!(history.prev_redundancy);
    assert!(!history.transition(Mode::CeltOnly));
    let plan = history.plan(Mode::CeltOnly, Bandwidth::FullBand, 960, NO_REDUNDANCY);
    assert_eq!(plan.celt, Some(CeltPlan { reset: false, frame_size: 960, start_band: 0 }));
    assert_eq!(plan.transition, TransitionFade::Off);

    let mut history = DecoderHistory::new();
    history.advance(Mode::CeltOnly, NO_REDUNDANCY);
    let plan = history.plan(Mode::SilkOnly, Bandwidth::WideBand, 960, to_silk);
    assert_eq!(
        plan,
        FramePlan {
            end_band: 17,
            redundant_first: true,
            celt: None,
            fade_out: false,
            redundant_last: false,
            blend_first: true,
            transition: TransitionFade::Off,
        }
    );
    history.advance(Mode::SilkOnly, to_silk);
    assert!(!history.prev_redundancy);
    // The CELT state is stale now.
    let plan = history.plan(Mode::SilkOnly, Bandwidth::WideBand, 960, to_silk);
    assert!(plan.redundant_first && !plan.blend_first);

    history.advance(Mode::Hybrid, NO_REDUNDANCY);
    let plan = history.plan(Mode::SilkOnly, Bandwidth::WideBand, 960, to_celt);
    assert!(plan.fade_out && plan.redundant_last && !plan.redundant_first);
}

fn redundancy_in(data: &[u8], mode: Mode) -> Redundancy {
    let mut dec = RangeDecoder::new(data);
    read_redundancy(&mut dec, mode, data.len())
}

#[test]
fn redundancy_of_a_silk_frame_takes_what_is_left() {
    let mut enc = RangeEncoder::new(10);
    enc.encode_bit_logp(true, 1);
    let data = enc.finalize().expect("fits");
    assert_eq!(data.len(), 10);
    assert_eq!(
        redundancy_in(&data, Mode::SilkOnly),
        Redundancy { present: true, celt_to_silk: true, bytes: 9, len: 1 }
    );
    // Two bytes have no room, and CELT frames have no redundancy.
    assert_eq!(
        redundancy_in(&data[..2], Mode::SilkOnly),
        Redundancy { present: false, celt_to_silk: false, bytes: 0, len: 2 }
    );
    assert_eq!(
        redundancy_in(&data, Mode::CeltOnly),
        Redundancy { present: false, celt_to_silk: false, bytes: 0, len: 10 }
    );
}

fn hybrid_frame(flag: bool, celt_to_silk: bool, size: u32) -> Vec<u8> {
    let mut enc = RangeEncoder::new(20);
    enc.encode_bit_logp(flag, 12);
    if flag {
        enc.encode_bit_logp(celt_to_silk, 1);
        enc.encode_uint(size, 256);
    }
    enc.finalize().expect("fits")
}

#[test]
fn redundancy_of_a_hybrid_frame_is_announced() {
    assert_eq!(
        redundancy_in(&hybrid_frame(false, false, 0), Mode::Hybrid),
        Redundancy { present: false, celt_to_silk: false, bytes: 0, len: 20 }
    );
    assert_eq!(
        redundancy_in(&hybrid_frame(true, false, 3), Mode::Hybrid),
        Redundancy { present: true, celt_to_silk: false, bytes: 5, len: 15 }
    );
    assert_eq!(
        redundancy_in(&hybrid_frame(true, true, 0), Mode::Hybrid),
        Redundancy { present: true, celt_to_silk: true, bytes: 2, len: 18 }
    );
    // A size that leaves less than what was read, or more than there is.
    for size in [16u32, 18, 100, 255] {
        let red = redundancy_in(&hybrid_frame(true, false, size), Mode::Hybrid);
        assert_eq!(red, Redundancy { present: false, celt_to_silk: false, bytes: 0, len: 0 });
    }
}

fn celt20(code: u8, rest: &[u8]) -> Vec<u8> {
    let mut data = vec![Toc::from_parts(31, false, code).byte()];
    data.extend_from_slice(rest);
    data
}

#[test]
fn layouts_are_checked() {
    assert!(is_layout_valid(2, 1, &[0, 1, 2, SILENT]));
    assert!(is_layout_valid(1, 0, &[]));
    assert!(is_layout_valid(128, 127, &[254]));
    assert!(!is_layout_valid(0, 0, &[]));
    assert!(!is_layout_valid(1, 2, &[]));
    assert!(!is_layout_valid(128, 128, &[]));
    assert!(!is_layout_valid(2, 1, &[3]));
}

#[test]
fn channels_come_from_their_streams() {
    let layout = StreamLayout::new(3, 1, &[3, 0, SILENT, 1, 2]);
    assert_eq!(layout.channels(), 5);
    assert_eq!(layout.streams(), 3);
    assert_eq!(layout.stream_channels(0), 2);
    assert_eq!(layout.stream_channels(1), 1);
    assert_eq!(layout.source(0), Some(Source { stream: 2, channel: 0, channels: 1 }));
    assert_eq!(layout.source(1), Some(Source { stream: 0, channel: 0, channels: 2 }));
    assert_eq!(layout.source(2), None);
    assert_eq!(layout.source(3), Some(Source { stream: 0, channel: 1, channels: 2 }));
    assert_eq!(layout.source(4), Some(Source { stream: 1, channel: 0, channels: 1 }));
}

#[test]
fn streams_are_split() {
    let layout = StreamLayout::new(2, 1, &[0, 1, 2]);
    let mut data = celt20(0, &[2, 5, 6]);
    data.extend(celt20(0, &[7, 8, 9]));
    match layout.split(&data) {
        Ok((packets, duration)) => {
            assert_eq!(duration, 960);
            assert_eq!(packets.len(), 2);
            assert_eq!(packets[0].frames(), &[&[5u8, 6][..]][..]);
            assert_eq!(packets[1].frames(), &[&[7u8, 8, 9][..]][..]);
        },
        Err(e) => panic!("{}", e.message()),
    }
    // One stream after the other gives the same.
    match layout.next_stream(0, &data, None) {
        Ok((packet, rest, duration)) => {
            assert_eq!(packet.frames(), &[&[5u8, 6][..]][..]);
            assert_eq!(rest, &data[4..]);
            assert_eq!(duration, 960);
            match layout.next_stream(1, rest, Some(duration)) {
                Ok((packet, rest, duration)) => {
                    assert_eq!(packet.frames(), &[&[7u8, 8, 9][..]][..]);
                    assert!(rest.is_empty());
                    assert_eq!(duration, 960);
                },
                Err(e) => panic!("{}", e.message()),
            }
        },
        Err(e) => panic!("{}", e.message()),
    }
    assert_eq!(samples_at(960, 48_000), 960);
    assert_eq!(samples_at(960, 8000), 160);
}

#[test]
fn broken_streams_are_refused() {
    let layout = StreamLayout::new(2, 0, &[0, 1]);
    let first_error = |data: &[u8]| match layout.split(data) {
        Ok(_) => panic!("the packet is well-formed"),
        Err(e) => e,
    };
    assert_eq!(first_error(&[]), PacketError::Empty);
    // The second stream is missing.
    assert_eq!(first_error(&celt20(0, &[2, 5, 6])), PacketError::Empty);
    assert_eq!(first_error(&celt20(0, &[3, 5, 6])), PacketError::InvalidFrameLength);
    // The second stream lasts 40 ms.
    let mut data = celt20(0, &[2, 5, 6]);
    data.extend(celt20(1, &[7, 8]));
    assert_eq!(first_error(&data), PacketError::InvalidFrameCount);
}

#[test]
fn decoded_channels_are_routed() {
    let layout = StreamLayout::new(2, 1, &[2, 0, SILENT, 1]);
    let decoded = vec![vec![10, 11, 20, 21], vec![30, 40]];
    assert_eq!(layout.route(&decoded, 2, -1), vec![30, 10, -1, 11, 40, 20, -1, 21]);
    assert_eq!(layout.route(&decoded, 1, -1), vec![30, 10, -1, 11]);
    // A stream that no channel comes from may be short.
    let partial = StreamLayout::new(2, 1, &[0, SILENT]);
    assert_eq!(partial.route(&vec![vec![10, 11, 20], vec![]], 2, -1), vec![10, -1, 20, -1]);
    let none: Vec<i32> = vec![];
    assert_eq!(layout.route(&decoded, 0, -1), none);
}

#[test]
fn buffer_shapes_are_checked() {
    assert_eq!(check_shape(&[960], 2), Ok(960));
    assert_eq!(check_shape(&[480, 2], 2), Ok(960));
    assert_eq!(check_shape(&[0], 1), Ok(0));
    assert_eq!(check_shape(&[961], 2), Err(ShapeError::PartialFrame));
    assert_eq!(check_shape(&[4], 0), Err(ShapeError::PartialFrame));
    let wrong = ShapeError::ColumnMismatch { columns: 3, channels: 2 };
    assert_eq!(check_shape(&[480, 3], 2), Err(wrong));
    assert_eq!(check_shape(&[], 2), Err(ShapeError::Dimensions));
    assert_eq!(check_shape(&[1, 2, 3], 2), Err(ShapeError::Dimensions));
    assert_eq!(
        wrong.message(),
        "array has 3 columns but the codec is configured for 2 channels"
    );
    assert_eq!(
        ShapeError::Dimensions.message(),
        "PCM must be a 1-D interleaved array or a 2-D (frames, channels) array"
    );
    assert_eq!(
        ShapeError::PartialFrame.message(),
        "PCM length must be a whole number of frames for the channel count"
    );
    assert_eq!(frames_in(961, 2), 480);
}

#[test]
fn a_profile_starts_with_the_most_expensive_stage() {
    let mut totals = StageTotals::new();
    totals.record(String::from("mdct"), 10);
    assert!(totals.can_record(&String::from("mdct"), u128::MAX - 10));
    assert!(!totals.can_record(&String::from("mdct"), u128::MAX - 9));
    assert!(totals.can_record(&String::from("bands"), u128::MAX));
    totals.record(String::from("bands"), 70);
    totals.record(String::from("mdct"), 25);
    totals.record(String::from("energy"), 5);
    let report: Vec<(String, u128, u64)> =
        totals.take_report().into_iter().map(|r| (r.label, r.total_ns, r.calls)).collect();
    assert_eq!(
        report,
        vec![
            (String::from("bands"), 70, 1),
            (String::from("mdct"), 35, 2),
            (String::from("energy"), 5, 1),
        ]
    );
    // A report clears the totals.
    assert!(totals.take_report().is_empty());
}

#[test]
fn bitstream_records_round_trip() {
    let mut file = Vec::new();
    write_record(&mut file, &[0xF8, 1, 2], 0x1234_5678);
    write_record(&mut file, &[], 7);
    assert_eq!(
        file,
        vec![0, 0, 0, 3, 0x12, 0x34, 0x56, 0x78, 0xF8, 1, 2, 0, 0, 0, 0, 0, 0, 0, 7]
    );
    // What is too short for the head of a record is left out.
    file.extend([0, 0, 0, 9, 9, 9, 9]);
    let records = read_records(&file).expect("whole records");
    let found: Vec<(u32, &[u8])> = records.iter().map(|r| (r.final_range, r.packet)).collect();
    assert_eq!(found, vec![(0x1234_5678, &[0xF8u8, 1, 2][..]), (7, &[][..])]);
    // A packet that reaches beyond the end.
    file.push(9);
    assert!(read_records(&file).is_none());
    assert!(read_records(&[]).is_some_and(|records| records.is_empty()));
}
