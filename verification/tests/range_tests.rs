//! Tests of the range coder.

use opus_native::range::{ilog, RangeDecoder, RangeEncoder, RangeEncoderError};

const TABLE: [u8; 4] = [25, 23, 2, 0];

#[test]
fn a_message_of_every_kind_of_symbol_round_trips() {
    let mut enc = RangeEncoder::new(64);
    enc.encode(3, 7, 10);
    enc.encode_bin(100, 101, 15);
    enc.encode_bit_logp(true, 15);
    enc.encode_raw_bits(0x5A5A5, 20);
    enc.encode_bit_logp(false, 1);
    enc.encode_icdf(2, &TABLE, 5);
    enc.encode_uint(1_000_000, 4_000_000_000);
    enc.encode_uint(4, 5);
    enc.encode_raw_bits(1, 1);
    let (tell, eighths, rng) = (enc.tell(), enc.tell_frac(), enc.range_size());
    let data = enc.finalize().expect("fits");
    assert_eq!(data.len(), 64);

    let mut dec = RangeDecoder::new(&data);
    let fm = dec.decode(10);
    assert!((3..7).contains(&fm));
    dec.update(3, 7, 10);
    let fm = dec.decode_bin(15);
    assert_eq!(fm, 100);
    dec.update(100, 101, 1 << 15);
    assert!(dec.decode_bit_logp(15));
    assert_eq!(dec.decode_raw_bits(20), 0x5A5A5);
    assert!(!dec.decode_bit_logp(1));
    assert_eq!(dec.decode_icdf(&TABLE, 5), 2);
    assert_eq!(dec.decode_uint(4_000_000_000), Some(1_000_000));
    assert_eq!(dec.decode_uint(5), Some(4));
    assert_eq!(dec.decode_raw_bits(1), 1);
    // Both sides agree on the position and the range.
    assert_eq!(dec.tell(), tell);
    assert_eq!(dec.tell_frac(), eighths);
    assert_eq!(dec.range_size(), rng);
}

#[test]
fn every_table_symbol_round_trips() {
    for k in 0..TABLE.len() {
        let mut enc = RangeEncoder::new(8);
        for _ in 0..5 {
            enc.encode_icdf(k, &TABLE, 5);
        }
        let data = enc.finalize().expect("fits");
        let mut dec = RangeDecoder::new(&data);
        for _ in 0..5 {
            assert_eq!(dec.decode_icdf(&TABLE, 5), k);
        }
    }
}

#[test]
fn frames_have_exact_bytes() {
    assert_eq!(RangeEncoder::new(3).finalize(), Ok(vec![0, 0, 0]));

    let mut enc = RangeEncoder::new(2);
    enc.encode_bit_logp(true, 1);
    assert_eq!(enc.finalize(), Ok(vec![0x80, 0]));

    let mut enc = RangeEncoder::new(1);
    enc.encode_raw_bits(5, 3);
    assert_eq!(enc.finalize(), Ok(vec![5]));

    // Raw bits fill the buffer from its end.
    let mut enc = RangeEncoder::new(4);
    enc.encode_bit_logp(true, 1);
    enc.encode_raw_bits(0x3AB, 10);
    assert_eq!(enc.finalize(), Ok(vec![0x80, 0, 3, 0xAB]));
}

#[test]
fn the_position_has_exact_values() {
    let mut enc = RangeEncoder::new(16);
    assert_eq!((enc.tell(), enc.tell_frac()), (1, 8));
    enc.encode_bit_logp(false, 1);
    assert_eq!((enc.tell(), enc.tell_frac()), (2, 16));
    enc.encode_raw_bits(0, 7);
    assert_eq!((enc.tell(), enc.tell_frac()), (9, 72));
    enc.encode(0, 1, 3);
    // One of three symbols is 1.58 bits.
    assert_eq!((enc.tell(), enc.tell_frac()), (11, 85));
    assert_eq!(enc.range_size(), (1u32 << 30) - 2 * ((1u32 << 30) / 3));
}

#[test]
fn bit_lengths() {
    assert_eq!(ilog(0), 0);
    assert_eq!(ilog(1), 1);
    assert_eq!(ilog(255), 8);
    assert_eq!(ilog(256), 9);
    assert_eq!(ilog(u32::MAX), 32);
}

#[test]
fn an_overfull_frame_is_refused() {
    let mut enc = RangeEncoder::new(2);
    for i in 0..4 {
        enc.encode_uint(i, 256);
    }
    assert_eq!(enc.finalize(), Err(RangeEncoderError));

    let mut enc = RangeEncoder::new(2);
    enc.encode_raw_bits(0, 16);
    enc.encode_raw_bits(0, 1);
    assert_eq!(enc.finalize(), Err(RangeEncoderError));
    assert_eq!(RangeEncoderError.message(), "range encoder overflowed its frame buffer");

    // Raw bits and symbols meet in the middle.
    let mut enc = RangeEncoder::new(2);
    enc.encode_uint(200, 256);
    enc.encode_raw_bits(0xFF, 8);
    let data = enc.finalize().expect("fits");
    let mut dec = RangeDecoder::new(&data);
    assert_eq!(dec.decode_uint(256), Some(200));
    assert_eq!(dec.decode_raw_bits(8), 0xFF);
}

#[test]
fn a_decoder_reads_zeros_past_the_end() {
    let mut dec = RangeDecoder::new(&[]);
    assert_eq!(dec.decode_raw_bits(8), 0);
    assert!(!dec.decode_bit_logp(1));
}

#[test]
fn shrinking_moves_the_raw_bits() {
    let mut dec = RangeDecoder::new(&[0, 0, 0x12, 0x34]);
    dec.shrink_storage(3);
    assert_eq!(dec.decode_raw_bits(8), 0x12);
}

/// The position in eighths of a bit rounds up to the position in bits.
#[test]
fn eighths_round_up_to_bits() {
    let mut enc = RangeEncoder::new(200);
    for i in 0..200u32 {
        enc.encode(i % 7, i % 7 + 1, 7 + i % 11);
        assert_eq!(enc.tell(), enc.tell_frac().div_ceil(8));
    }
}

#[test]
fn the_position_never_falls() {
    let mut enc = RangeEncoder::new(300);
    let mut last = enc.tell();
    let mut step = |enc: &RangeEncoder| {
        assert!(enc.tell() >= last);
        assert!((1 << 23) < enc.range_size() && enc.range_size() <= 1 << 31);
        last = enc.tell();
    };
    for i in 0..40u32 {
        enc.encode(0, 65_534, 65_535);
        step(&enc);
        enc.encode_bin(i % 4, i % 4 + 1, 2);
        step(&enc);
        enc.encode_bit_logp(i % 5 == 0, 15);
        step(&enc);
        enc.encode_icdf(1, &[200, 100, 0], 8);
        step(&enc);
        enc.encode_uint(i, 70_000);
        step(&enc);
        enc.encode_raw_bits(i % 2, 1);
        step(&enc);
    }
}

#[test]
fn the_kinds_of_symbols_agree() {
    let mut enc = RangeEncoder::new(20);
    enc.encode_uint(77, 300);
    let same = |a: &dyn Fn(&mut RangeEncoder), b: &dyn Fn(&mut RangeEncoder)| {
        let (mut x, mut y) = (enc.clone(), enc.clone());
        a(&mut x);
        b(&mut y);
        assert_eq!((x.tell(), x.range_size()), (y.tell(), y.range_size()));
        assert_eq!(x.finalize(), y.finalize());
    };
    same(&|e| e.encode_bin(3, 5, 4), &|e| e.encode(3, 5, 16));
    same(&|e| e.encode_bit_logp(true, 4), &|e| e.encode_bin(15, 16, 4));
    same(&|e| e.encode_bit_logp(false, 4), &|e| e.encode_bin(0, 15, 4));
    same(&|e| e.encode_icdf(0, &[9, 2, 0], 4), &|e| e.encode_bin(0, 7, 4));
    same(&|e| e.encode_icdf(1, &[9, 2, 0], 4), &|e| e.encode_bin(7, 14, 4));
}

#[test]
fn a_copy_goes_its_own_way() {
    let mut enc = RangeEncoder::new(8);
    enc.encode_uint(200, 256);
    enc.encode_raw_bits(5, 3);
    let copy = enc.clone();
    enc.encode_uint(100, 256);
    assert_eq!(copy.tell() + 8, enc.tell());
    let data = copy.finalize().expect("fits");
    let mut dec = RangeDecoder::new(&data);
    let mut other = dec.clone();
    assert_eq!(dec.decode_uint(256), Some(200));
    assert_eq!(other.decode_raw_bits(3), 5);
    assert_eq!(other.decode_uint(256), Some(200));
}
