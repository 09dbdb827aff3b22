//! Tests of the packet layer.

use core::time::Duration;
use opus_native::packet::{Bandwidth, FrameSize, Mode, Packet, PacketError, Toc, MAX_FRAME_LEN};

/// A packet of a 20 ms fullband CELT configuration with the given frame count
/// code.
fn celt20(code: u8, rest: &[u8]) -> Vec<u8> {
    let mut data = vec![Toc::from_parts(31, false, code).byte()];
    data.extend_from_slice(rest);
    data
}

fn error_of(data: &[u8]) -> PacketError {
    match Packet::parse(data) {
        Ok(_) => panic!("the packet is well-formed"),
        Err(e) => e,
    }
}

fn delimited_error_of(data: &[u8]) -> PacketError {
    match Packet::parse_self_delimited(data) {
        Ok(_) => panic!("the packet is well-formed"),
        Err(e) => e,
    }
}

fn parsed(data: &[u8]) -> Packet<'_> {
    match Packet::parse(data) {
        Ok(packet) => packet,
        Err(e) => panic!("{}", e.message()),
    }
}

#[test]
fn toc_fields_of_every_configuration() {
    for byte in 0..=255u8 {
        let toc = Toc::new(byte);
        assert_eq!(toc.byte(), byte);
        assert_eq!(toc.config(), byte >> 3);
        assert_eq!(toc.stereo(), byte & 4 != 0);
        assert_eq!(toc.channels(), if byte & 4 != 0 { 2 } else { 1 });
        assert_eq!(toc.frame_count_code(), byte & 3);
        let again = Toc::from_parts(toc.config(), toc.stereo(), toc.frame_count_code());
        assert_eq!(again.byte(), byte);
        let config = byte >> 3;
        let mode = if config < 12 {
            Mode::SilkOnly
        } else if config < 16 {
            Mode::Hybrid
        } else {
            Mode::CeltOnly
        };
        assert_eq!(toc.mode(), mode);
    }
}

#[test]
fn configurations_have_the_documented_bandwidth_and_frame_size() {
    let toc = |config: u8| Toc::from_parts(config, false, 0);
    assert_eq!(toc(0).bandwidth(), Bandwidth::NarrowBand);
    assert_eq!(toc(4).bandwidth(), Bandwidth::MediumBand);
    assert_eq!(toc(11).bandwidth(), Bandwidth::WideBand);
    assert_eq!(toc(12).bandwidth(), Bandwidth::SuperWideBand);
    assert_eq!(toc(15).bandwidth(), Bandwidth::FullBand);
    assert_eq!(toc(16).bandwidth(), Bandwidth::NarrowBand);
    assert_eq!(toc(20).bandwidth(), Bandwidth::WideBand);
    assert_eq!(toc(24).bandwidth(), Bandwidth::SuperWideBand);
    assert_eq!(toc(28).bandwidth(), Bandwidth::FullBand);

    assert_eq!(toc(0).frame_size(), FrameSize::Ms10);
    assert_eq!(toc(1).frame_size(), FrameSize::Ms20);
    assert_eq!(toc(6).frame_size(), FrameSize::Ms40);
    assert_eq!(toc(11).frame_size(), FrameSize::Ms60);
    assert_eq!(toc(12).frame_size(), FrameSize::Ms10);
    assert_eq!(toc(13).frame_size(), FrameSize::Ms20);
    assert_eq!(toc(14).frame_size(), FrameSize::Ms10);
    assert_eq!(toc(16).frame_size(), FrameSize::Ms2_5);
    assert_eq!(toc(21).frame_size(), FrameSize::Ms5);
    assert_eq!(toc(26).frame_size(), FrameSize::Ms10);
    assert_eq!(toc(31).frame_size(), FrameSize::Ms20);
}

#[test]
fn frame_sizes_and_bandwidths_have_exact_values() {
    let sizes = [
        (FrameSize::Ms2_5, 25, 120, 2500),
        (FrameSize::Ms5, 50, 240, 5000),
        (FrameSize::Ms10, 100, 480, 10_000),
        (FrameSize::Ms20, 200, 960, 20_000),
        (FrameSize::Ms40, 400, 1920, 40_000),
        (FrameSize::Ms60, 600, 2880, 60_000),
    ];
    for (size, tenths, samples, micros) in sizes {
        assert_eq!(size.tenth_ms(), tenths);
        assert_eq!(size.samples_per_channel_48k(), samples);
        assert_eq!(size.duration(), Duration::from_micros(micros));
    }
    let bands = [
        (Bandwidth::NarrowBand, 8000, 4000),
        (Bandwidth::MediumBand, 12_000, 6000),
        (Bandwidth::WideBand, 16_000, 8000),
        (Bandwidth::SuperWideBand, 24_000, 12_000),
        (Bandwidth::FullBand, 48_000, 20_000),
    ];
    for (band, rate, width) in bands {
        assert_eq!(band.sample_rate_hz(), rate);
        assert_eq!(band.audio_bandwidth_hz(), width);
    }
}

#[test]
fn one_frame_takes_the_whole_payload() {
    let data = celt20(0, &[7, 8, 9]);
    let packet = parsed(&data);
    assert_eq!(packet.toc().byte(), data[0]);
    assert_eq!(packet.frames(), &[&[7u8, 8, 9][..]][..]);
    assert_eq!(packet.padding(), 0);
    assert_eq!(packet.duration(), Duration::from_millis(20));
    let silent = celt20(0, &[]);
    assert_eq!(parsed(&silent).frames(), &[&[][..]][..]);
}

#[test]
fn two_frames_of_equal_size() {
    let data = celt20(1, &[1, 2, 3, 4]);
    let packet = parsed(&data);
    assert_eq!(packet.frames(), &[&[1u8, 2][..], &[3, 4][..]][..]);
    assert_eq!(packet.duration(), Duration::from_millis(40));
}

#[test]
fn two_frames_with_a_length() {
    let data = celt20(2, &[1, 9, 8, 7]);
    let packet = parsed(&data);
    assert_eq!(packet.frames(), &[&[9u8][..], &[8, 7][..]][..]);
    // 252..=255 starts a length of two bytes: 4 * 1 + 253.
    let mut rest = vec![253u8, 1];
    rest.extend(vec![5u8; 257]);
    rest.push(6);
    let data = celt20(2, &rest);
    let packet = parsed(&data);
    assert_eq!(packet.frames()[0].len(), 257);
    assert_eq!(packet.frames()[1], &[6u8][..]);
}

#[test]
fn many_frames_of_equal_size_with_padding() {
    // Three frames, padding of two bytes.
    let data = celt20(3, &[0x43, 2, 1, 1, 2, 2, 3, 3, 0xAA, 0xBB]);
    let packet = parsed(&data);
    assert_eq!(packet.frames(), &[&[1u8, 1][..], &[2, 2][..], &[3, 3][..]][..]);
    assert_eq!(packet.padding(), 2);
    assert_eq!(packet.duration(), Duration::from_millis(60));
}

#[test]
fn padding_lengths_chain() {
    // 255 stands for 254 and the next length byte.
    let mut rest = vec![0x41u8, 255, 3];
    rest.extend([4u8, 5]);
    rest.extend(vec![0u8; 257]);
    let data = celt20(3, &rest);
    let packet = parsed(&data);
    assert_eq!(packet.padding(), 257);
    assert_eq!(packet.frames(), &[&[4u8, 5][..]][..]);
}

#[test]
fn many_frames_with_lengths() {
    let data = celt20(3, &[0x83, 1, 2, 9, 8, 8, 7, 7, 7]);
    let packet = parsed(&data);
    assert_eq!(packet.frames(), &[&[9u8][..], &[8, 8][..], &[7, 7, 7][..]][..]);
}

#[test]
fn each_broken_rule_has_its_error() {
    assert_eq!(error_of(&[]), PacketError::Empty);
    assert_eq!(error_of(&celt20(0, &vec![0; MAX_FRAME_LEN + 1])), PacketError::FrameTooLarge);
    assert_eq!(error_of(&celt20(1, &[1, 2, 3])), PacketError::Code1UnevenPayload);
    assert_eq!(error_of(&celt20(1, &vec![0; 2 * MAX_FRAME_LEN + 2])), PacketError::FrameTooLarge);
    assert_eq!(error_of(&celt20(2, &[])), PacketError::InvalidFrameLength);
    assert_eq!(error_of(&celt20(2, &[252])), PacketError::InvalidFrameLength);
    assert_eq!(error_of(&celt20(2, &[3, 1, 2])), PacketError::InvalidFrameLength);
    assert_eq!(error_of(&celt20(3, &[])), PacketError::InvalidFrameLength);
    assert_eq!(error_of(&celt20(3, &[0])), PacketError::InvalidFrameCount);
    // Seven frames of 20 ms are more than 120 ms.
    assert_eq!(error_of(&celt20(3, &[7])), PacketError::InvalidFrameCount);
    assert_eq!(error_of(&celt20(3, &[0x41])), PacketError::InvalidPadding);
    assert_eq!(error_of(&celt20(3, &[0x41, 2, 1])), PacketError::InvalidPadding);
    assert_eq!(error_of(&celt20(3, &[2, 1, 2, 3])), PacketError::CbrPayloadNotDivisible);
}

#[test]
fn six_frames_of_20_ms_are_allowed() {
    let data = celt20(3, &[6]);
    let packet = parsed(&data);
    assert_eq!(packet.frames().len(), 6);
    assert_eq!(packet.duration(), Duration::from_millis(120));
}

#[test]
fn packet_messages() {
    assert_eq!(PacketError::Empty.message(), "packet is empty [R1]");
    assert_eq!(PacketError::FrameTooLarge.message(), "frame length exceeds 1275 bytes [R2]");
    assert_eq!(
        PacketError::Code1UnevenPayload.message(),
        "code 1 packet payload length is odd [R3]"
    );
    assert_eq!(
        PacketError::InvalidFrameLength.message(),
        "truncated or overrunning frame length [R4/R7]"
    );
    assert_eq!(
        PacketError::InvalidFrameCount.message(),
        "frame count is zero or exceeds 120 ms [R5]"
    );
    assert_eq!(PacketError::InvalidPadding.message(), "padding overruns the packet [R6/R7]");
    assert_eq!(
        PacketError::CbrPayloadNotDivisible.message(),
        "CBR payload is not a multiple of the frame count [R6]"
    );
}

/// A self-delimited packet does not depend on what follows it.
#[test]
fn a_self_delimited_packet_leaves_the_rest() {
    let cases: [(u8, Vec<u8>, Vec<Vec<u8>>, usize); 5] = [
        (0, vec![2, 5, 6], vec![vec![5, 6]], 0),
        (1, vec![1, 5, 6], vec![vec![5], vec![6]], 0),
        (2, vec![1, 2, 5, 6, 7], vec![vec![5], vec![6, 7]], 0),
        (3, vec![0x42, 1, 2, 1, 2, 3, 4, 0], vec![vec![1, 2], vec![3, 4]], 1),
        (3, vec![0x82, 1, 2, 9, 8, 7], vec![vec![9], vec![8, 7]], 0),
    ];
    for (code, rest, frames, padding) in cases {
        let mut data = celt20(code, &rest);
        let used = data.len();
        for tail in [&[][..], &[1, 2, 3][..]] {
            data.truncate(used);
            data.extend_from_slice(tail);
            match Packet::parse_self_delimited(&data) {
                Ok((packet, n)) => {
                    assert_eq!(n, used);
                    assert_eq!(packet.padding(), padding);
                    let found: Vec<Vec<u8>> = packet.frames().iter().map(|f| f.to_vec()).collect();
                    assert_eq!(found, frames);
                },
                Err(e) => panic!("{}", e.message()),
            }
        }
    }
}

#[test]
fn self_delimited_errors() {
    assert_eq!(delimited_error_of(&[]), PacketError::Empty);
    assert_eq!(delimited_error_of(&celt20(0, &[])), PacketError::InvalidFrameLength);
    assert_eq!(delimited_error_of(&celt20(0, &[4, 1, 2])), PacketError::InvalidFrameLength);
    assert_eq!(delimited_error_of(&celt20(1, &[2, 1, 2, 3])), PacketError::InvalidFrameLength);
    assert_eq!(delimited_error_of(&celt20(3, &[])), PacketError::InvalidFrameLength);
    assert_eq!(delimited_error_of(&celt20(3, &[0])), PacketError::InvalidFrameCount);
    assert_eq!(delimited_error_of(&celt20(3, &[0x41, 255])), PacketError::InvalidPadding);
    assert_eq!(delimited_error_of(&celt20(3, &[0x41, 2, 1, 9, 0])), PacketError::InvalidPadding);
}
