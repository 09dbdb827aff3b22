//! Tests of the SILK layer.

use opus_native::range::{RangeDecoder, RangeEncoder};
use opus_native::silk::decoder::{CngState, DecoderControl, PlcState, SilkChannelDecoder};
use opus_native::silk::encode::api::{SilkEncoder, TableSymbol, PAYLOAD_BYTES};
use opus_native::silk::encode::frame::{doubled_predictor, FrameConfig, SilkChannelEncoder};
use opus_native::silk::encode::stereo::{
    stereo_encode_mid_only, stereo_encode_pred, stereo_quant_pred,
};
use opus_native::silk::energy::sum_sqr_shift;
use opus_native::silk::gains::{gains_dequant, gains_quant, MAX_NB_SUBFR};
use opus_native::silk::lpc::{bwexpander, lpc_analysis_filter};
use opus_native::silk::math::{
    add_sat16, add_sat32, clz32, inverse32_var_q, lin2log, log2lin, lshift_sat32, rshift_round,
    silk_rand, smlabb, smlawb, smulbb, smultt, smulwb, smulww, sqrt_approx,
};
use opus_native::silk::stereo::{stereo_decode_mid_only, stereo_decode_pred, weight_at};

/// Quantised predictor weights round-trip exactly through the decoder, and so
/// does the mid-only flag.
#[test]
fn stereo_pred_round_trips_through_the_decoder() {
    for &(p0, p1, mid_only) in &[
        (0i32, 0i32, 0i8),
        (4096, -2048, 1),
        (8000, 3000, 0),
        (-7000, 6000, 1),
        (1234, -5678, 0),
    ] {
        let mut pred = [p0, p1];
        let ix = stereo_quant_pred(&mut pred);
        // `pred` is now the quantised (difference, second) pair.

        let mut enc = RangeEncoder::new(16);
        stereo_encode_pred(&mut enc, &ix);
        stereo_encode_mid_only(&mut enc, mid_only);
        let bytes = enc.finalize().expect("fits");

        let mut dec = RangeDecoder::new(&bytes);
        let dec_pred = stereo_decode_pred(&mut dec);
        let dec_mid_only = stereo_decode_mid_only(&mut dec);

        assert_eq!(dec_pred, pred, "predictor weights disagree for ({p0},{p1})");
        assert_eq!(dec_mid_only, mid_only == 1, "mid-only flag disagrees");
    }
}

/// Pins of `gains_dequant` with these exact sequences.
#[test]
fn dequant_matches_reference_pins() {
    // Independent first frame: indices [32, 20, 20, 25], prev starts 10.
    let mut prev = 10i8;
    let gains = gains_dequant(&[32, 20, 20, 25], &mut prev, false, 4);
    assert_eq!(gains, [12_713_984, 158_334_976, 1_686_110_208, 1_686_110_208]);
    assert_eq!(prev, 63);

    // Conditional follow-up frame: deltas [4, 0, 5, 8].
    let gains = gains_dequant(&[4, 0, 5, 8], &mut prev, true, 4);
    assert_eq!(gains, [1_686_110_208, 897_581_056, 1_048_576_000, 1_686_110_208]);
    assert_eq!(prev, 63);

    // Independent restart from a low accumulator.
    let mut prev = 0i8;
    let gains = gains_dequant(&[40, 0, 0, 0], &mut prev, false, 4);
    assert_eq!(gains, [44_826_624, 23_855_104, 12_713_984, 6_782_976]);
    assert_eq!(prev, 28);
}

/// `gains_quant` and `gains_dequant` are exact inverses: the requantised gains
/// and the accumulator agree after a round trip, for both an independent and a
/// conditional frame.
#[test]
fn quant_dequant_round_trip() {
    for &conditional in &[false, true] {
        for target in [
            [12_000_000i32, 160_000_000, 1_600_000_000, 800_000_000],
            [500_000, 50_000_000, 5_000_000, 900_000_000],
            [1_000_000, 1_000_000, 1_000_000, 1_000_000],
        ] {
            let mut prev_e = 20i8;
            let mut ind = [0i8; MAX_NB_SUBFR];
            let mut gain = target;
            gains_quant(&mut ind, &mut gain, &mut prev_e, conditional, 4);

            // The decoder reconstructs the same gains from the indices.
            let mut prev_d = 20i8;
            let dec = gains_dequant(&ind, &mut prev_d, conditional, 4);
            assert_eq!(dec, gain, "gains differ (conditional={conditional})");
            assert_eq!(prev_d, prev_e, "prev_ind differs (conditional={conditional})");
            // Delta indices are non-negative as coded.
            let start = usize::from(!conditional);
            for &i in &ind[start..4] {
                assert!(i >= 0, "negative coded index {i}");
            }
        }
    }
}

#[test]
fn fixed_point_functions_have_exact_values() {
    assert_eq!(lin2log(1), 0);
    assert_eq!(lin2log(1 << 16), 2048);
    assert_eq!(lin2log(0), -128);
    assert_eq!(log2lin(2048), 1 << 16);
    assert_eq!(log2lin(-1), 0);
    assert_eq!(log2lin(3967), i32::MAX);
    assert_eq!(log2lin(3923), 1_686_110_208);
    assert_eq!(sqrt_approx(0), 0);
    assert_eq!(sqrt_approx(1 << 24), 4096);
    assert_eq!(silk_rand(0), 907_633_515);
    let inverse = inverse32_var_q(1 << 16, 46);
    assert!((inverse - (1 << 30)).abs() < 1 << 16, "{inverse}");
}

#[test]
fn products_keep_the_documented_bits() {
    assert_eq!(smulwb(1 << 20, 3 << 16 | 0x4000), 1 << 18);
    assert_eq!(smulwb(-5, 1), -1);
    assert_eq!(smlawb(7, 1 << 20, -2), 7 - 32);
    assert_eq!(smulbb(0x1_0003, -4), -12);
    assert_eq!(smlabb(100, 0x7_0003, 5), 115);
    assert_eq!(smultt(3 << 16, -(2 << 16)), -6);
    assert_eq!(smulww(1 << 20, 1 << 18), 1 << 22);
    assert_eq!(add_sat16(32_000, 1000), 32_767);
    assert_eq!(add_sat16(-32_000, -1000), -32_768);
    assert_eq!(add_sat32(i32::MAX, 1), i32::MAX);
    assert_eq!(add_sat32(i32::MIN, -1), i32::MIN);
    assert_eq!(lshift_sat32(1 << 28, 4), i32::MAX / 16 * 16);
    assert_eq!(lshift_sat32(-3, 4), -48);
    assert_eq!(rshift_round(5, 1), 3);
    assert_eq!(rshift_round(-5, 1), -2);
    assert_eq!(rshift_round(24, 4), 2);
    assert_eq!(clz32(0), 32);
    assert_eq!(clz32(1), 31);
    assert_eq!(clz32(-1), 0);
}

#[test]
fn the_energy_keeps_headroom() {
    assert_eq!(sum_sqr_shift(&[3, 4]), (25, 0));
    assert_eq!(sum_sqr_shift(&[32_767; 16]), (536_838_144, 5));
    assert_eq!(sum_sqr_shift(&[-32_768; 3]), (402_653_184, 3));
}

#[test]
fn filters_have_exact_values() {
    let mut ar = [0i16; 16];
    ar[..4].copy_from_slice(&[4096, -4096, 2048, 1000]);
    bwexpander(&mut ar, 4, 32_768);
    assert_eq!(ar[..5], [2048, -1024, 256, 63, 0]);

    // A first-order predictor with a tap of one takes differences.
    let mut b = [0i16; 16];
    b[0] = 4096;
    let input: Vec<i16> = vec![10, 13, 9, 9, 20];
    assert_eq!(lpc_analysis_filter(&input, &b, 1), vec![0, 3, -4, 0, 11]);
}

#[test]
fn stereo_levels_have_exact_values() {
    assert_eq!(weight_at(0, 0), -13_732 + (3682 * 6554 >> 16));
    assert_eq!(weight_at(7, 2), 0);
}

#[test]
fn frames_have_the_shape_of_their_rate() {
    assert_eq!(
        SilkChannelEncoder::new(16, 4).config(),
        FrameConfig {
            order: 16,
            subfr_length: 80,
            frame_length: 320,
            la_shape: 48,
            shaping_lpc_order: 12,
            shape_win_length: 176,
            ltp_mem_length: 320,
        }
    );
    assert_eq!(
        SilkChannelEncoder::new(8, 2).config(),
        FrameConfig {
            order: 10,
            subfr_length: 40,
            frame_length: 80,
            la_shape: 24,
            shaping_lpc_order: 10,
            shape_win_length: 88,
            ltp_mem_length: 160,
        }
    );
}

#[test]
fn side_information_keeps_the_indices_in_use() {
    let ch = SilkChannelEncoder::new(12, 2);
    assert_eq!(ch.last_gain_index, 10);
    let nlsf: [i8; 17] = [9; 17];
    let indices = ch.unvoiced_indices(1, &[5, 6, 7, 8], &nlsf);
    assert_eq!(indices.gains_indices, [5, 6, 0, 0]);
    assert_eq!(indices.nlsf_indices[..11], [9; 11]);
    assert_eq!(indices.nlsf_indices[11..], [0; 6]);
    assert_eq!(indices.signal_type, 1);
    assert_eq!(indices.quant_offset_type, 1);
    assert_eq!(indices.nlsf_interp_coef_q2, 4);
    assert_eq!(indices.seed, 0);

    let mut a = [0i16; 16];
    for (i, tap) in a.iter_mut().enumerate() {
        *tap = i as i16 + 1;
    }
    let taps = doubled_predictor(&a, 10);
    assert_eq!(taps[..10], a[..10]);
    assert_eq!(taps[10..16], [0; 6]);
    assert_eq!(taps[16..26], a[..10]);
    assert_eq!(taps[26..], [0; 6]);
}

#[test]
fn a_payload_starts_with_its_flags() {
    let table = [200u8, 100, 50, 0];
    let frame: Vec<TableSymbol<'_>> =
        (0..40).map(|i| TableSymbol { k: (i * 7 + 1) % 4, icdf: &table, ftb: 8 }).collect();
    let mut enc = SilkEncoder::new(16, 4);
    assert_eq!(enc.bitrate(), 0);
    enc.set_bitrate(24_000);
    assert_eq!(enc.bitrate(), 24_000);
    assert_eq!(enc.config().frame_length, 320);
    assert_eq!((enc.fs_khz(), enc.last_gain_index()), (16, 10));
    enc.set_last_gain_index(23);
    assert_eq!((enc.last_gain_index(), enc.bitrate()), (23, 24_000));
    let indices = enc.unvoiced_indices(1, &[5, 6, 7, 8], &[9; 17]);
    assert_eq!(indices, SilkChannelEncoder::new(16, 4).unvoiced_indices(1, &[5, 6, 7, 8], &[9; 17]));
    let payload = enc.encode(&frame).expect("fits");
    assert_eq!(payload.len(), PAYLOAD_BYTES);

    let mut dec = RangeDecoder::new(&payload);
    assert!(dec.decode_bit_logp(1));
    assert!(!dec.decode_bit_logp(1));
    for symbol in &frame {
        assert_eq!(dec.decode_icdf(symbol.icdf, symbol.ftb), symbol.k);
    }

    // 6000 symbols of more than two bits each do not fit.
    let long = vec![TableSymbol { k: 3, icdf: &table, ftb: 8 }; 6000];
    assert!(enc.encode(&long).is_err());
}

/// A channel with a known history.
fn channel(fs_khz: i32, nb_subfr: usize, signal_type: i8) -> SilkChannelDecoder {
    let subfr_length = 5 * fs_khz as usize;
    let mut d = SilkChannelDecoder {
        fs_khz,
        nb_subfr,
        subfr_length,
        frame_length: nb_subfr * subfr_length,
        ltp_mem_length: 20 * fs_khz as usize,
        lpc_order: if fs_khz == 16 { 16 } else { 10 },
        loss_cnt: 0,
        prev_signal_type: 0,
        signal_type,
        first_frame_after_reset: false,
        prev_nlsf_q15: [0; 16],
        exc_q14: [0; 320],
        out_buf: [0; 480],
        slpc_q14_buf: [0; 16],
        plc: PlcState::default(),
        cng: CngState::default(),
    };
    for (i, v) in d.exc_q14.iter_mut().enumerate() {
        *v = ((i as i32 * 7919) % 4001 - 2000) * 128;
    }
    for (i, v) in d.out_buf.iter_mut().enumerate() {
        *v = ((i as i32 * 37) % 2001 - 1000) as i16;
    }
    for i in 0..16 {
        d.slpc_q14_buf[i] = (i as i32 * 1000 - 8000) * 4;
        d.prev_nlsf_q15[i] = 1500 * (i as i16 + 1);
    }
    d
}

fn control(fs_khz: i32) -> DecoderControl {
    let mut ctrl = DecoderControl {
        pitch_l: [5 * fs_khz, 6 * fs_khz, 7 * fs_khz, 8 * fs_khz],
        gains_q16: [70_000, 200_000, 90_000, 150_000],
        pred_coef_q12: [[0; 16]; 2],
        ltp_coef_q14: [0; 20],
        ltp_scale_q14: 14_000,
    };
    for i in 0..16 {
        ctrl.pred_coef_q12[1][i] = 400 - 50 * i as i16;
    }
    for (i, v) in ctrl.ltp_coef_q14.iter_mut().enumerate() {
        *v = 100 * (i as i16 % 5) + 1500;
    }
    ctrl
}

fn checksum<I: Iterator<Item = i32>>(values: I) -> u64 {
    values.fold(0u64, |h, v| h.wrapping_mul(31).wrapping_add(u64::from(v as u32)))
}

/// What a lost frame leaves behind.
struct Loss {
    first: i16,
    last: i16,
    frame: u64,
    pitch_l_q8: i32,
    tap: i16,
    rand_scale_q14: i16,
    seed: i32,
    lag: i32,
    conc_energy: i32,
    synthesis: u64,
    noise_seed: i32,
    noise_state: u64,
}

fn conceal_two(
    nb_subfr: usize,
    signal_type: i8,
    (fs_khz, mut ctrl): (i32, DecoderControl),
    losses: &[Loss; 2],
) -> SilkChannelDecoder {
    let mut d = channel(fs_khz, nb_subfr, signal_type);
    let n = d.frame_length;
    let mut frame: Vec<i16> = (0..n as i32).map(|i| (((i * 53) % 301 - 150) * 20) as i16).collect();
    let good = frame.clone();
    d.plc(&mut ctrl, &mut frame, false, 0);
    d.cng(&ctrl, &mut frame, &[0; 16]);
    d.plc_glue_frames(&mut frame);
    assert_eq!(frame, good, "a good frame stays as it is");
    assert_eq!(d.prev_signal_type, i32::from(signal_type));

    let mut a_q12 = [0i16; 16];
    for (i, tap) in a_q12.iter_mut().enumerate() {
        *tap = 300 - 40 * i as i16;
    }
    for (k, loss) in losses.iter().enumerate() {
        let before = d.plc.clone();
        d.plc(&mut ctrl, &mut frame, true, 1 << 28);
        d.cng(&ctrl, &mut frame, &a_q12);
        d.plc_glue_frames(&mut frame);
        assert_eq!(d.loss_cnt, k as i32 + 1);
        assert!(d.plc.pitch_l_q8 >= before.pitch_l_q8);
        assert!(d.plc.ltp_coef_q14[2] <= before.ltp_coef_q14[2]);
        assert_eq!(frame[0], loss.first);
        assert_eq!(frame[n - 1], loss.last);
        assert_eq!(checksum(frame.iter().map(|&v| i32::from(v))), loss.frame);
        assert_eq!(d.plc.pitch_l_q8, loss.pitch_l_q8);
        assert_eq!(d.plc.ltp_coef_q14, [0, 0, loss.tap, 0, 0]);
        assert_eq!(d.plc.rand_scale_q14, loss.rand_scale_q14);
        assert_eq!(d.plc.rand_seed, loss.seed);
        assert_eq!(ctrl.pitch_l, [loss.lag; 4]);
        assert_eq!((d.plc.conc_energy, d.plc.conc_energy_shift), (loss.conc_energy, 0));
        assert!(d.plc.last_frame_lost);
        assert_eq!(checksum(d.slpc_q14_buf.iter().copied()), loss.synthesis);
        assert_eq!(d.cng.rand_seed, loss.noise_seed);
        assert_eq!(checksum(d.cng.synth_state.iter().copied()), loss.noise_state);
    }
    d
}

/// The first good frame behind a loss is faded in.
fn glue(d: &mut SilkChannelDecoder) -> Vec<i16> {
    d.loss_cnt = 0;
    let n = d.frame_length as i32;
    let mut frame: Vec<i16> = (0..n).map(|i| (((i * 53) % 301 - 150) * 200) as i16).collect();
    let good = frame.clone();
    d.plc_glue_frames(&mut frame);
    assert!(!d.plc.last_frame_lost);
    for (faded, sample) in frame.iter().zip(good) {
        assert!(faded.unsigned_abs() <= sample.unsigned_abs());
        assert!(*faded == 0 || (*faded < 0) == (sample < 0));
    }
    frame
}

#[test]
fn voiced_losses_are_concealed() {
    let mut d = conceal_two(2, 2, (8, control(8)), &[
        Loss {
            first: -546,
            last: 136,
            frame: 12_054_779_207_835_038_638,
            pitch_l_q8: 12_534,
            tap: 11_234,
            rand_scale_q14: 3793,
            seed: -165_065_712,
            lag: 49,
            conc_energy: 6_168_880,
            synthesis: 4_835_574_131_630_288_792,
            noise_seed: -981_425_008,
            noise_state: 16_570_952_939_682_017_280,
        },
        Loss {
            first: -608,
            last: 106,
            frame: 6_429_075_410_222_409_932,
            pitch_l_q8: 12_785,
            tap: 10_138,
            rand_scale_q14: 2427,
            seed: -932_563_936,
            lag: 50,
            conc_energy: 6_523_728,
            synthesis: 2_302_983_044_540_221_420,
            noise_seed: 502_295_712,
            noise_state: 16_570_952_939_682_017_280,
        },
    ]);
    let frame = glue(&mut d);
    assert_eq!((frame[0], frame[1], frame[79]), (-484, -1267, 24_800));
    assert_eq!(checksum(frame.iter().map(|&v| i32::from(v))), 17_602_540_828_747_792_602);
    assert_eq!(d.plc.conc_energy, 1_670_070_272);
    // The next frame stays as it is.
    let again = glue(&mut d);
    assert_eq!(again[0], -30_000);
}

#[test]
fn unvoiced_losses_are_concealed() {
    let mut d = conceal_two(4, 1, (16, control(16)), &[
        Loss {
            first: -25,
            last: -35,
            frame: 12_321_166_822_515_123_369,
            pitch_l_q8: 73_728,
            tap: 0,
            rand_scale_q14: 15_736,
            seed: -1_783_179_200,
            lag: 288,
            conc_energy: 130_453,
            synthesis: 5_810_521_772_580_015_548,
            noise_seed: -726_478_656,
            noise_state: 9_522_431_388_325_348_320,
        },
        Loss {
            first: -13,
            last: -9,
            frame: 15_587_300_631_888_541_079,
            pitch_l_q8: 73_728,
            tap: 0,
            rand_scale_q14: 10_322,
            seed: -451_448_704,
            lag: 288,
            conc_energy: 81_321,
            synthesis: 12_389_751_165_145_468_892,
            noise_seed: 1_935_599_872,
            noise_state: 799_013_152_801_831_440,
        },
    ]);
    let frame = glue(&mut d);
    assert_eq!((frame[0], frame[1], frame[319]), (-15, -252, -19_800));
    assert_eq!(checksum(frame.iter().map(|&v| i32::from(v))), 7_849_562_455_870_089_791);
}

#[test]
fn comfort_noise_is_mixed_into_losses() {
    check_comfort_noise(control(12));
}

/// A frame without voice activity has no pitch.
#[test]
fn comfort_noise_needs_no_lags() {
    check_comfort_noise(DecoderControl { pitch_l: [0; 4], ..control(12) });
}

fn check_comfort_noise(ctrl: DecoderControl) {
    let mut d = conceal_two(4, 0, (12, ctrl), &[
        Loss {
            first: -9,
            last: -30,
            frame: 13_377_827_632_278_744_400,
            pitch_l_q8: 55_296,
            tap: 0,
            rand_scale_q14: 15_736,
            seed: -1_267_484_624,
            lag: 216,
            conc_energy: 96_472,
            synthesis: 16_184_218_956_069_388_652,
            noise_seed: -718_221_136,
            noise_state: 4_792_370_778_694_581_632,
        },
        Loss {
            first: 11,
            last: 10,
            frame: 12_495_028_103_579_989_107,
            pitch_l_q8: 55_296,
            tap: 0,
            rand_scale_q14: 10_322,
            seed: 443_411_552,
            lag: 216,
            conc_energy: 66_477,
            synthesis: 1_065_387_380_119_882_728,
            noise_seed: 1_191_159_008,
            noise_state: 15_184_689_979_119_597_216,
        },
    ]);
    assert_eq!(d.cng.smth_gain_q16, 32_703);
    assert_eq!(d.cng.smth_nlsf_q15[..3], [2609, 5218, 7827]);
    assert_eq!(d.cng.smth_nlsf_q15[10..], [0; 6]);
    assert_eq!(checksum(d.cng.exc_buf_q14.iter().copied()), 2_742_163_609_199_756_160);
    let frame = glue(&mut d);
    assert_eq!((frame[0], frame[1], frame[239]), (-15, -332, -25_000));
    assert_eq!(checksum(frame.iter().map(|&v| i32::from(v))), 15_946_925_187_719_530_759);
}

/// The parameters of a frame of 10 ms: the later subframes have no gains.
fn short_control() -> DecoderControl {
    let mut level = 10;
    let gains_q16 = gains_dequant(&[40, 0, 0, 0], &mut level, false, 2);
    assert_eq!((gains_q16, level), ([44_826_624, 23_855_104, 0, 0], 36));
    DecoderControl { pitch_l: [0; 4], gains_q16, ..control(8) }
}

#[test]
fn short_frames_are_captured() {
    let mut frame = vec![100i16; 80];
    // Voiced: the lag and the gain of the last pitch pulse.
    let mut d = channel(8, 2, 2);
    let mut ctrl = DecoderControl { pitch_l: [40, 48, 0, 0], ..short_control() };
    d.plc(&mut ctrl, &mut frame, false, 0);
    assert_eq!(d.plc.pitch_l_q8, 48 << 8);
    assert_eq!(d.plc.ltp_coef_q14, [0, 0, 11_463, 0, 0]);
    assert_eq!(d.plc.prev_gain_q16, [44_826_624, 23_855_104]);
    assert_eq!((d.plc.nb_subfr, d.plc.subfr_length), (2, 40));
    assert_eq!(ctrl.pitch_l, [40, 48, 0, 0]);
    // Unvoiced: no lag is read.
    let mut d = channel(8, 2, 1);
    d.plc(&mut short_control(), &mut frame, false, 0);
    assert_eq!(d.plc.pitch_l_q8, (8 * 18) << 8);
    assert_eq!(d.plc.ltp_coef_q14, [0; 5]);
    assert_eq!(d.plc.prev_gain_q16, [44_826_624, 23_855_104]);
    assert_eq!(frame, vec![100; 80]);
}

#[test]
fn short_frames_teach_comfort_noise() {
    let mut frame = vec![100i16; 80];
    let mut d = channel(8, 2, 0);
    let mut ctrl = short_control();
    d.plc(&mut ctrl, &mut frame, false, 0);
    d.cng(&ctrl, &mut frame, &[0; 16]);
    assert_eq!(d.cng.smth_gain_q16, 4_632_308);
    // The first subframe is the louder one.
    assert_eq!(d.cng.exc_buf_q14[..40], d.exc_q14[..40]);
    assert_eq!(frame, vec![100; 80]);
}

#[test]
fn resets_have_exact_values() {
    let mut d = channel(8, 4, 1);
    d.plc.prev_gain_q16 = [5, 6];
    d.plc_reset();
    assert_eq!(d.plc.pitch_l_q8, 160 << 7);
    assert_eq!(d.plc.prev_gain_q16, [1 << 16, 1 << 16]);
    assert_eq!((d.plc.subfr_length, d.plc.nb_subfr), (20, 2));
    d.cng.smth_gain_q16 = 7;
    d.cng_reset();
    assert_eq!(d.cng.smth_nlsf_q15[..3], [2978, 5956, 8934]);
    assert_eq!(d.cng.smth_gain_q16, 0);
    assert_eq!(d.cng.rand_seed, 3_176_576);
}
