//! Tests of the CELT layer.

use opus_native::celt::cwrs::{
    cwrsi, decode_pulses, encode_pulses, icwrs, ncwrs_urow, pvq_codebook_size,
};
use opus_native::celt::encoder::{
    bands_for_leftover, encode_coarse_step, encode_fine_step, encode_flags, encode_side_info,
    frame_doublings,
    MAX_FINE_BITS, NB_EBANDS, SMALL_ENERGY_ICDF, SPREAD_ICDF, SPREAD_NORMAL, TRIM_ICDF,
    TRIM_NEUTRAL,
};
use opus_native::celt::laplace::{ec_laplace_decode, ec_laplace_encode, laplace_model_fits};
use opus_native::range::{RangeDecoder, RangeEncoder};

/// V(N, K) for N, K < 10.
const V_TABLE: [[u32; 10]; 10] = [
    [1, 0, 0, 0, 0, 0, 0, 0, 0, 0],
    [1, 2, 2, 2, 2, 2, 2, 2, 2, 2],
    [1, 4, 8, 12, 16, 20, 24, 28, 32, 36],
    [1, 6, 18, 38, 66, 102, 146, 198, 258, 326],
    [1, 8, 32, 88, 192, 360, 608, 952, 1408, 1992],
    [1, 10, 50, 170, 450, 1002, 1970, 3530, 5890, 9290],
    [1, 12, 72, 292, 912, 2364, 5336, 10836, 20256, 35436],
    [1, 14, 98, 462, 1666, 4942, 12642, 28814, 59906, 115598],
    [1, 16, 128, 688, 2816, 9424, 27008, 68464, 157184, 332688],
    [1, 18, 162, 978, 4482, 16722, 53154, 148626, 374274, 864146],
];

#[test]
fn codebook_sizes_match_reference_table() {
    for (n, row) in V_TABLE.iter().enumerate().skip(2) {
        for (k, &expected) in row.iter().enumerate().skip(1) {
            assert_eq!(pvq_codebook_size(n, k), expected, "V({n}, {k})");
        }
    }
}

/// The enumeration is a bijection: every index in `0..V(N, K)` decodes to a
/// distinct vector with exactly K pulses, and re-encodes to itself.
#[test]
fn exhaustive_index_bijection_small_nk() {
    for n in 2..=6usize {
        for k in 1..=6usize {
            let v = pvq_codebook_size(n, k);
            for i in 0..v {
                let mut u = vec![0u32; k + 2];
                ncwrs_urow(n, k, &mut u);
                let mut y = vec![0i32; n];
                cwrsi(k, i, &mut y, &mut u);

                let pulses: u32 = y.iter().map(|x| x.unsigned_abs()).sum();
                assert_eq!(pulses, k as u32, "N={n} K={k} i={i}: pulse count");

                let mut scratch = vec![0u32; k + 2];
                let (back, nc) = icwrs(k, &y, &mut scratch);
                assert_eq!(back, i, "N={n} K={k}: index round-trip");
                assert_eq!(nc, v, "N={n} K={k}: V agreement");
            }
        }
    }
}

/// Pulse vectors survive an actual range coder round trip, and the encoder and
/// decoder range sizes agree afterwards.
#[test]
fn range_coder_round_trip() {
    let cases: [(usize, usize); 6] = [(2, 1), (4, 3), (8, 8), (16, 4), (24, 5), (96, 3)];

    let mut enc = RangeEncoder::new(1024);
    let mut vectors = Vec::new();
    for &(n, k) in &cases {
        // Alternate signs, spread across the dimensions.
        let mut y = vec![0i32; n];
        for p in 0..k {
            let at = (p * 7) % n;
            y[at] += if p % 2 == 0 { 1 } else { -1 };
        }
        // Collisions of opposite sign cancel: fall back to one sign.
        let total: u32 = y.iter().map(|x| x.unsigned_abs()).sum();
        if total != k as u32 {
            y = vec![0i32; n];
            for p in 0..k {
                y[p % n] += 1;
            }
        }
        encode_pulses(&mut enc, &y, k);
        vectors.push((n, k, y));
    }
    let enc_rng = enc.range_size();
    let buf = enc.finalize().expect("within budget");

    let mut dec = RangeDecoder::new(&buf);
    for (n, k, expected) in vectors {
        let mut y = vec![0i32; n];
        decode_pulses(&mut dec, &mut y, k).expect("in range");
        assert_eq!(y, expected, "N={n} K={k}");
    }
    assert_eq!(dec.range_size(), enc_rng);
}

/// Pairs in the range that the CELT energy probability model produces.
const MODELS: [(u32, u32); 4] = [
    (9 << 7, 100 << 6),
    (42 << 7, 80 << 6),
    (110 << 7, 60 << 6),
    (66 << 7, 120 << 6),
];

#[test]
fn round_trips_in_range_values() {
    for &(fs, decay) in &MODELS {
        let values: Vec<i32> = (-20..=20).collect();
        let mut enc = RangeEncoder::new(256);
        let mut coded = Vec::new();
        for &v in &values {
            coded.push(ec_laplace_encode(&mut enc, v, fs, decay));
        }
        // Small magnitudes are never saturated.
        assert_eq!(coded, values, "fs={fs} decay={decay}");
        let enc_rng = enc.range_size();
        let buf = enc.finalize().expect("within budget");

        let mut dec = RangeDecoder::new(&buf);
        for &v in &values {
            assert_eq!(ec_laplace_decode(&mut dec, fs, decay), v, "fs={fs} decay={decay}");
        }
        assert_eq!(dec.range_size(), enc_rng, "encoder/decoder rng agreement");
    }
}

#[test]
fn saturates_extreme_values_consistently() {
    // A huge delta saturates on encode; the decoder returns exactly the value
    // that was coded.
    let (fs, decay) = MODELS[0];
    let mut enc = RangeEncoder::new(64);
    let coded = ec_laplace_encode(&mut enc, 30_000, fs, decay);
    assert!(coded < 30_000, "value must saturate");
    let buf = enc.finalize().expect("within budget");
    let mut dec = RangeDecoder::new(&buf);
    assert_eq!(ec_laplace_decode(&mut dec, fs, decay), coded);
}

#[test]
fn laplace_models_in_use_fit() {
    for &(fs, decay) in &MODELS {
        assert!(laplace_model_fits(fs, decay));
    }
    assert!(laplace_model_fits(0, 0));
    for fs in (0..=32_736).step_by(496) {
        assert!(laplace_model_fits(fs, 0) && laplace_model_fits(fs, 8192));
    }
    for decay in (0..=11_456).step_by(179) {
        assert!(laplace_model_fits(1, decay) && laplace_model_fits(9 << 7, decay));
    }
    assert!(!laplace_model_fits(32_768, 0));
    assert!(!laplace_model_fits(1_000, 16_385));
}

/// Saturated values keep their sign, small ones are coded as they are, and coding
/// a coded value again gives the same value.
#[test]
fn laplace_values_saturate_once() {
    for &(fs, decay) in &[(1, 11_456), (1152, 6400), (32_736, 1), (5000, 10_923), (700, 8192)] {
        for value in (-40..=40).chain([-30_000, 30_000, i32::MAX, i32::MIN + 1]) {
            let mut enc = RangeEncoder::new(8);
            let coded = ec_laplace_encode(&mut enc, value, fs, decay);
            assert_eq!(coded.signum(), value.signum());
            assert!(coded.abs() <= value.abs() && coded.abs() <= 16_384);
            if value.abs() <= 16 {
                assert_eq!(coded, value, "fs={fs} decay={decay}");
            }
            let mut again = RangeEncoder::new(8);
            assert_eq!(ec_laplace_encode(&mut again, coded, fs, decay), coded);
            assert_eq!(again.range_size(), enc.range_size());
        }
    }
}

/// A run of values at the slowest decay is read back as it was coded.
#[test]
fn a_run_of_laplace_values_round_trips() {
    let (fs, decay) = (200, 11_456);
    let values = [0, 1, -1, 16, -16, 25, -300, 30_000, -30_000, 0, 7];
    let mut enc = RangeEncoder::new(64);
    let coded: Vec<i32> =
        values.iter().map(|&v| ec_laplace_encode(&mut enc, v, fs, decay)).collect();
    let range = enc.range_size();
    let frame = enc.finalize().expect("within budget");
    let mut dec = RangeDecoder::new(&frame);
    for &c in &coded {
        assert_eq!(ec_laplace_decode(&mut dec, fs, decay), c);
    }
    assert_eq!(dec.range_size(), range);
}

#[test]
fn frame_sizes_and_budgets_are_checked() {
    for (samples, lm) in [(120, 0), (240, 1), (480, 2), (960, 3)] {
        assert_eq!(frame_doublings(samples, 2), Some(lm));
        assert_eq!(frame_doublings(samples, 1275), Some(lm));
        assert_eq!(frame_doublings(samples, 1), None);
        assert_eq!(frame_doublings(samples, 1276), None);
    }
    assert_eq!(frame_doublings(121, 100), None);
    assert_eq!(frame_doublings(1920, 100), None);
}

#[test]
fn a_truncated_frame_may_hold_no_pulse_vector() {
    // All ones select the last index that the coder can express, which lies
    // beyond a codebook whose size is no power of two.
    let data = [0xFFu8; 4];
    let mut dec = RangeDecoder::new(&data);
    let mut y = vec![0i32; 16];
    let found = decode_pulses(&mut dec, &mut y, 4);
    if found.is_some() {
        let pulses: u32 = y.iter().map(|x| x.unsigned_abs()).sum();
        assert_eq!(pulses, 4);
    }
}

/// A decoder that reads the symbols in their order finds them.
#[test]
fn side_information_is_read_back() {
    for (lm, intra) in [(0usize, true), (3, false)] {
        let total_bits = 800u32;
        let mut enc = RangeEncoder::new(100);
        encode_flags(&mut enc, lm, intra, total_bits);
        let mut caps = [100i32; 21];
        caps[3] = 0;
        let left = encode_side_info(&mut enc, lm, &caps, total_bits);
        assert_eq!(left, 6400 - enc.tell_frac() as i32 - 1);
        let rng = enc.range_size();
        let data = enc.finalize().expect("within budget");

        let mut dec = RangeDecoder::new(&data);
        assert!(!dec.decode_bit_logp(15));
        assert!(!dec.decode_bit_logp(1));
        if lm > 0 {
            assert!(!dec.decode_bit_logp(3));
        }
        assert_eq!(dec.decode_bit_logp(3), intra);
        for band in 0..NB_EBANDS {
            assert!(!dec.decode_bit_logp(if band == 0 { 4 } else { 5 }));
        }
        assert_eq!(dec.decode_icdf(&SPREAD_ICDF, 5), SPREAD_NORMAL);
        for cap in caps {
            if cap > 0 {
                assert!(!dec.decode_bit_logp(6));
            }
        }
        assert_eq!(dec.decode_icdf(&TRIM_ICDF, 7), TRIM_NEUTRAL);
        assert_eq!(dec.range_size(), rng);
    }
}

/// What does not fit the budget is not coded.
#[test]
fn a_small_budget_leaves_flags_out() {
    let mut enc = RangeEncoder::new(2);
    encode_flags(&mut enc, 3, true, 16);
    // The silence flag needs 15 bits and leaves none for the post-filter.
    let mut other = RangeEncoder::new(2);
    other.encode_bit_logp(false, 15);
    other.encode_bit_logp(false, 3);
    other.encode_bit_logp(true, 3);
    assert_eq!(enc.range_size(), other.range_size());
    assert_eq!(enc.tell(), other.tell());

    let mut enc = RangeEncoder::new(0);
    encode_flags(&mut enc, 3, true, 0);
    encode_side_info(&mut enc, 3, &[100; 21], 0);
    assert_eq!(enc.tell(), 1);
}

#[test]
fn coarse_energy_follows_the_budget() {
    let (fs, decay) = MODELS[1];
    // Plenty of bits: the Laplace model.
    let mut enc = RangeEncoder::new(100);
    assert_eq!(encode_coarse_step(&mut enc, -7, true, 21, fs, decay, 800), -7);
    assert_eq!(encode_coarse_step(&mut enc, 5, false, 20, fs, decay, 800), 5);
    let data = enc.finalize().expect("within budget");
    let mut dec = RangeDecoder::new(&data);
    assert_eq!(ec_laplace_decode(&mut dec, fs, decay), -7);
    assert_eq!(ec_laplace_decode(&mut dec, fs, decay), 5);

    // Near the end of the budget later bands take unit steps.
    let mut enc = RangeEncoder::new(100);
    assert_eq!(encode_coarse_step(&mut enc, 5, false, 1, fs, decay, 20), 1);
    let mut enc = RangeEncoder::new(100);
    assert_eq!(encode_coarse_step(&mut enc, -5, false, 1, fs, decay, 18), -1);
    let mut enc = RangeEncoder::new(100);
    assert_eq!(encode_coarse_step(&mut enc, -5, true, 1, fs, decay, 18), -5);

    // Fewer than 15 bits: the small table.
    for (qi, step, number) in [(-9, -1, 1usize), (0, 0, 0), (3, 1, 2)] {
        let mut enc = RangeEncoder::new(4);
        assert_eq!(encode_coarse_step(&mut enc, qi, true, 1, fs, decay, 10), step);
        let data = enc.finalize().expect("within budget");
        let mut dec = RangeDecoder::new(&data);
        assert_eq!(dec.decode_icdf(&SMALL_ENERGY_ICDF, 2), number);
    }

    // One bit, and none.
    let mut enc = RangeEncoder::new(4);
    assert_eq!(encode_coarse_step(&mut enc, -4, false, 1, fs, decay, 2), -1);
    assert_eq!(enc.tell(), 2);
    let mut enc = RangeEncoder::new(4);
    assert_eq!(encode_coarse_step(&mut enc, 4, false, 1, fs, decay, 2), 0);
    // The bit can only say minus one, for the first band too.
    let mut enc = RangeEncoder::new(4);
    assert_eq!(encode_coarse_step(&mut enc, -4, true, 1, fs, decay, 2), -1);
    let data = enc.finalize().expect("within budget");
    assert!(RangeDecoder::new(&data).decode_bit_logp(1));
    let mut enc = RangeEncoder::new(4);
    assert_eq!(encode_coarse_step(&mut enc, 4, false, 1, fs, decay, 1), -1);
    assert_eq!(enc.tell(), 1);
}

#[test]
fn fine_energy_is_clamped_to_its_bits() {
    let mut enc = RangeEncoder::new(8);
    assert_eq!(encode_fine_step(&mut enc, 5, 0), None);
    assert_eq!(encode_fine_step(&mut enc, -1, 3), Some(0));
    assert_eq!(encode_fine_step(&mut enc, 5, 3), Some(5));
    assert_eq!(encode_fine_step(&mut enc, 8, 3), Some(7));
    let data = enc.finalize().expect("within budget");
    let mut dec = RangeDecoder::new(&data);
    assert_eq!(dec.decode_raw_bits(3), 0);
    assert_eq!(dec.decode_raw_bits(3), 5);
    assert_eq!(dec.decode_raw_bits(3), 7);
}

#[test]
fn leftover_bits_go_by_priority() {
    let mut fine = [2i32; 21];
    fine[1] = MAX_FINE_BITS;
    let mut late = [false; 21];
    late[0] = true;
    late[3] = true;
    assert_eq!(bands_for_leftover(&fine, &late, 0, 5, 10), vec![2, 4, 0, 3]);
    assert_eq!(bands_for_leftover(&fine, &late, 0, 5, 3), vec![2, 4, 0]);
    assert_eq!(bands_for_leftover(&fine, &late, 1, 5, 3), vec![2, 4, 3]);
    assert!(bands_for_leftover(&fine, &late, 0, 21, 0).is_empty());
    assert!(bands_for_leftover(&fine, &late, 0, 21, -4).is_empty());
}
