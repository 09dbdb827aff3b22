//! Tests of the Ogg container.

use opus_native::ogg::crc::{update, POLY};
use opus_native::ogg::{
    OggError, Page, PageReader, PageWriter, PacketReader, CAPTURE_PATTERN, NO_GRANULE,
};

#[test]
fn known_vectors() {
    assert_eq!(update(0, b""), 0);
    assert_eq!(update(0, &[0]), 0);
    // A single 0x01 byte shifts the polynomial straight through.
    assert_eq!(update(0, &[1]), POLY);
    assert_eq!(update(0, b"OggS"), 0x5FB0_A94F);
    // The standard CRC catalogue check string.
    assert_eq!(update(0, b"123456789"), 0x89A1_897F);
}

#[test]
fn incremental_equals_oneshot() {
    let data = b"The quick brown fox jumps over the lazy dog";
    let oneshot = update(0, data);
    let split = update(update(0, &data[..17]), &data[17..]);
    assert_eq!(oneshot, split);
}

fn sample_page() -> Vec<u8> {
    let mut out = Vec::new();
    let mut writer = PageWriter::new(0x1234_5678);
    writer.push(&mut out, b"hello", 960, false);
    writer.push(&mut out, b"", 1920, false);
    writer.flush(&mut out);
    out
}

#[test]
fn a_written_page_has_the_documented_layout() {
    let out = sample_page();
    assert_eq!(out[..4], CAPTURE_PATTERN);
    assert_eq!(out[4], 0);
    assert_eq!(out[5], 0x02);
    assert_eq!(out[6..14], 1920u64.to_le_bytes());
    assert_eq!(out[14..18], 0x1234_5678u32.to_le_bytes());
    assert_eq!(out[18..22], 0u32.to_le_bytes());
    assert_eq!(out[26], 2);
    assert_eq!(out[27..29], [5, 0]);
    assert_eq!(&out[29..], b"hello");
    let mut zeroed = out.clone();
    zeroed[22..26].copy_from_slice(&[0; 4]);
    assert_eq!(out[22..26], update(0, &zeroed).to_le_bytes());
}

#[test]
fn a_page_parses_back() {
    let out = sample_page();
    let (page, used) = Page::parse(&out).unwrap();
    assert_eq!(used, out.len());
    assert!(!page.continued && page.bos && !page.eos);
    assert_eq!(page.granule_position, 1920);
    assert_eq!(page.serial, 0x1234_5678);
    assert_eq!(page.sequence, 0);
    assert_eq!(page.segments, &[5, 0]);
    assert_eq!(page.body, b"hello");
}

#[test]
fn page_errors_name_the_defect() {
    let good = sample_page();
    assert_eq!(Page::parse(b"").unwrap_err(), OggError::MissingCapturePattern);
    assert_eq!(Page::parse(b"Og").unwrap_err(), OggError::MissingCapturePattern);
    assert_eq!(Page::parse(b"OggS").unwrap_err(), OggError::Truncated);
    assert_eq!(Page::parse(b"Oggs").unwrap_err(), OggError::MissingCapturePattern);
    assert_eq!(Page::parse(&good[..26]).unwrap_err(), OggError::Truncated);
    assert_eq!(Page::parse(&good[..28]).unwrap_err(), OggError::Truncated);
    assert_eq!(Page::parse(&good[..good.len() - 1]).unwrap_err(), OggError::Truncated);
    let mut bad = good.clone();
    bad[0] = b'X';
    assert_eq!(Page::parse(&bad).unwrap_err(), OggError::MissingCapturePattern);
    let mut bad = good.clone();
    bad[4] = 7;
    assert_eq!(Page::parse(&bad).unwrap_err(), OggError::UnsupportedVersion(7));
    let mut bad = good.clone();
    bad[30] ^= 1;
    assert_eq!(Page::parse(&bad).unwrap_err(), OggError::BadCrc);
}

#[test]
fn ogg_messages() {
    assert_eq!(OggError::MissingCapturePattern.message(), "missing OggS capture pattern");
    assert_eq!(OggError::UnsupportedVersion(7).message(), "unsupported Ogg version 7");
    assert_eq!(OggError::UnsupportedVersion(42).message(), "unsupported Ogg version 42");
    assert_eq!(OggError::UnsupportedVersion(205).message(), "unsupported Ogg version 205");
    assert_eq!(OggError::Truncated.message(), "page truncated");
    assert_eq!(OggError::BadCrc.message(), "page CRC mismatch");
}

#[test]
fn the_reader_resynchronises_behind_damage() {
    let page = sample_page();
    let mut stream = page.clone();
    stream[30] ^= 0xFF;
    stream.extend_from_slice(b"garbage");
    let second = stream.len();
    stream.extend_from_slice(&page);
    stream.extend_from_slice(&page[..20]);
    let mut reader = PageReader::new(&stream);
    let found = reader.next().unwrap();
    assert_eq!(found.body, b"hello");
    assert_eq!(reader.position(), second + page.len());
    assert!(reader.next().is_none());
    assert_eq!(reader.position(), second + page.len());
}

fn read_all(stream: &[u8], serial: u32) -> Vec<(Vec<u8>, u64, bool, bool)> {
    let mut reader = PacketReader::new(stream, serial);
    let mut packets = Vec::new();
    while let Some(p) = reader.next() {
        packets.push((p.data, p.granule_position, p.eos, p.completes_page));
    }
    packets
}

#[test]
fn packets_round_trip_through_pages() {
    let packets: Vec<Vec<u8>> = vec![
        vec![1; 10],
        vec![],
        vec![2; 254],
        vec![3; 255],
        vec![4; 510],
        vec![5; 70_000],
        vec![6; 3],
    ];
    let mut out = Vec::new();
    let mut writer = PageWriter::new(99);
    for (i, p) in packets.iter().enumerate() {
        let last = i + 1 == packets.len();
        writer.push(&mut out, p, 100 * (i as u64 + 1), last);
        if i == 0 {
            writer.flush(&mut out);
        }
    }
    let read = read_all(&out, 99);
    assert_eq!(read.len(), packets.len());
    for (i, (data, granule, _, completes)) in read.iter().enumerate() {
        assert_eq!(data, &packets[i], "packet {i}");
        if *completes {
            assert_eq!(*granule, 100 * (i as u64 + 1));
        } else {
            assert_eq!(*granule, NO_GRANULE);
        }
    }
    assert!(read.last().unwrap().2, "the last packet ends the stream");
    assert!(read[0].3, "the flushed packet is alone on its page");
    assert!(read_all(&out, 100).is_empty(), "another stream");
}

fn page_offsets(stream: &[u8]) -> Vec<usize> {
    let mut reader = PageReader::new(stream);
    let mut offsets = vec![0];
    while reader.next().is_some() {
        offsets.push(reader.position());
    }
    offsets
}

#[test]
fn the_last_packet_to_complete_carries_the_granule() {
    // The page ends in the middle of a packet; the one before is the last to
    // complete on it.
    let mut out = Vec::new();
    let mut writer = PageWriter::new(1);
    writer.push(&mut out, &[7; 20], 11, false);
    writer.push(&mut out, &[8; 65_025], 22, true);
    let read = read_all(&out, 1);
    assert_eq!(read.len(), 2);
    assert_eq!((read[0].1, read[0].3), (11, true));
    assert_eq!((read[1].1, read[1].3), (22, true));
}

#[test]
fn a_packet_that_lost_a_page_is_dropped_whole() {
    let mut out = Vec::new();
    let mut writer = PageWriter::new(1);
    writer.push(&mut out, &[1; 5], 1, false);
    writer.flush(&mut out);
    writer.push(&mut out, &[2; 150_000], 2, false);
    writer.push(&mut out, &[3; 5], 3, true);
    let at = page_offsets(&out);
    assert_eq!(at.len(), 5);
    // Without the page in the middle neither part of the long packet is left.
    let mut lossy = out[..at[2]].to_vec();
    lossy.extend_from_slice(&out[at[3]..]);
    let read = read_all(&lossy, 1);
    let data: Vec<Vec<u8>> = read.into_iter().map(|p| p.0).collect();
    assert_eq!(data, vec![vec![1; 5], vec![3; 5]]);
    // Nor is the end of a packet whose beginning was never seen.
    let tail = read_all(&out[at[2]..], 1);
    assert_eq!(tail.len(), 1);
    assert_eq!(tail[0].0, vec![3; 5]);
}

#[test]
fn a_packet_over_the_cap_is_dropped() {
    let mut out = Vec::new();
    let mut writer = PageWriter::new(1);
    writer.push(&mut out, &vec![9; 16 * 1024 * 1024 + 1], 1, false);
    writer.push(&mut out, &[1, 2, 3], 2, true);
    let read = read_all(&out, 1);
    assert_eq!(read.len(), 1);
    assert_eq!(read[0].0, vec![1, 2, 3]);
}

#[test]
fn the_checksum_is_linear() {
    let x = b"some bytes of a page";
    let y = b"and as many of others";
    let y = &y[..x.len()];
    let sum: Vec<u8> = x.iter().zip(y).map(|(a, b)| a ^ b).collect();
    assert_eq!(update(3 ^ 9, &sum), update(3, x) ^ update(9, y));
}

#[test]
fn every_changed_byte_is_noticed() {
    let good = sample_page();
    // All but the number of segments and the lacing values.
    let body = 27 + usize::from(good[26]);
    for i in (0..26).chain(body..good.len()) {
        for flip in [1u8, 0x80, 0xFF] {
            let mut bad = good.clone();
            bad[i] ^= flip;
            assert!(Page::parse(&bad).is_err(), "byte {i}");
        }
    }
    // A larger number of segments or lacing value asks for more than is there.
    for i in 26..body {
        let mut bad = good.clone();
        bad[i] += 1;
        assert!(matches!(Page::parse(&bad), Err(OggError::Truncated)), "byte {i}");
    }
}

#[test]
fn streams_do_not_interfere() {
    let (mut a, mut b) = (Vec::new(), Vec::new());
    let mut first = PageWriter::new(1);
    let mut second = PageWriter::new(2);
    for i in 0..4u8 {
        first.push(&mut a, &vec![i; 40_000], u64::from(i), i == 3);
        second.push(&mut b, &vec![!i; 50_000], u64::from(i), i == 3);
    }
    let (at_a, at_b) = (page_offsets(&a), page_offsets(&b));
    let mut mixed = Vec::new();
    for k in 0..at_a.len().max(at_b.len()) - 1 {
        for (stream, at) in [(&a, &at_a), (&b, &at_b)] {
            if k + 1 < at.len() {
                mixed.extend_from_slice(&stream[at[k]..at[k + 1]]);
            }
        }
    }
    assert_eq!(mixed.len(), a.len() + b.len());
    assert_eq!(read_all(&mixed, 1), read_all(&a, 1));
    assert_eq!(read_all(&mixed, 2), read_all(&b, 2));
    assert_eq!(read_all(&mixed, 1).len(), 4);
}

#[test]
fn pages_are_numbered_and_flagged() {
    let mut out = Vec::new();
    let mut writer = PageWriter::new(5);
    writer.push(&mut out, &[1; 10], 1, false);
    writer.flush(&mut out);
    writer.push(&mut out, &vec![2; 140_000], 2, false);
    writer.push(&mut out, &[3; 10], 3, true);
    let mut reader = PageReader::new(&out);
    let mut open = false;
    let mut granules = Vec::new();
    let mut count = 0;
    while let Some(page) = reader.next() {
        assert_eq!((page.serial, page.sequence), (5, count));
        assert_eq!(page.bos, count == 0);
        assert_eq!(page.continued, open);
        open = page.segments.last() == Some(&255);
        granules.push(page.granule_position);
        assert_eq!(page.eos, reader.position() == out.len());
        count += 1;
    }
    assert_eq!(granules, vec![1, NO_GRANULE, NO_GRANULE, 3]);
}
