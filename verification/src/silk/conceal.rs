//! The synthesis of a concealed frame.

use vstd::arithmetic::power2::{lemma2_to64, pow2};
use vstd::prelude::*;

use super::decoder::{
    lemma_geometry, DecoderControl, PlcState, SilkChannelDecoder, LTP_ORDER, MAX_FRAME_LENGTH,
    MAX_PITCH_LAG_MS, TYPE_VOICED,
};
use super::energy::{energy, energy_shift, sum_sqr_shift};
use super::gains::MAX_NB_SUBFR;
use super::lpc::{
    bwexpander, expanded_tap, law_expansion_is_geometric, lpc_analysis_filter, lpc_synthesis,
    residual, synthesised, MAX_LPC_ORDER,
};
use super::math::{
    inverse32_var_q, inverse_of, law_inverse_is_quotient, least, low16, most, rand_of,
    rounded_shift, rshift_round, sat16, saturate16, shift_down, shift_up, sign_extend16, silk_rand,
    smlawb, smlawb_of, smulbb, smulbb_of, smulwb, smulwb_of, smulww, smulww_of, wrap32,
};

verus! {

/// The decay of the pitch taps per subframe for the first lost frame and for
/// later ones, in Q15.
pub const HARM_ATT_Q15: [i32; 2] = [32440, 31130];

/// The decay of the noise for voiced and for unvoiced frames, in Q15.
pub const PLC_RAND_ATTENUATE_V_Q15: [i32; 2] = [31130, 26214];

pub const PLC_RAND_ATTENUATE_UV_Q15: [i32; 2] = [32440, 29491];

/// The bandwidth expansion of the short-term predictor, in Q16.
pub const BWE_COEF_Q16: i32 = 64881;

/// The number of excitation samples that noise is drawn from.
pub const RAND_BUF_SIZE: usize = 128;

/// The drift of the pitch lag per subframe, in Q16.
pub const PITCH_DRIFT_FAC_Q16: i32 = 655;

/// The lowest share of noise in a voiced concealment, in Q14.
pub const MIN_RAND_SCALE_Q14: i32 = 3277;

impl SilkChannelDecoder {
    /// Excitation sample `i` of the last subframe but `1 - k`, at the gain of
    /// that subframe and in the precision of the output.
    pub open spec fn scaled_excitation(self, k: int, i: int) -> int {
        sat16(
            smulww_of(
                self.exc_q14@[i + (k + self.nb_subfr - 2) * self.subfr_length] as int,
                self.plc.prev_gain_q16@[k] as int / 64,
            ) / 256,
        )
    }

    /// The scaled excitation of one of the last two subframes.
    pub open spec fn scaled_subframe(self, k: int) -> Seq<i16> {
        Seq::new(self.subfr_length as nat, |i: int| self.scaled_excitation(k, i) as i16)
    }

    /// Whether the first of the last two subframes is the quieter one.
    pub open spec fn first_quieter(self) -> bool {
        let a = self.scaled_subframe(0);
        let b = self.scaled_subframe(1);
        let x = energy(a) / (pow2(energy_shift(b) as nat) as int);
        let y = energy(b) / (pow2(energy_shift(a) as nat) as int);
        x < y
    }

    /// Where the excitation begins that noise is drawn from: it ends with the
    /// quieter of the last two subframes.
    pub open spec fn noise_start(self) -> int {
        let count = if self.first_quieter() {
            self.plc.nb_subfr - 1
        } else {
            self.plc.nb_subfr as int
        };
        most(0, count * self.plc.subfr_length - RAND_BUF_SIZE)
    }

    /// The short-term predictor of a concealed frame: the last one, or zero
    /// after a reset, with its bandwidth expanded.
    pub open spec fn conceal_lpc(self) -> Seq<i16> {
        Seq::new(
            MAX_LPC_ORDER as nat,
            |i: int|
                {
                    let tap = if self.first_frame_after_reset {
                        0i16
                    } else {
                        self.plc.prev_lpc_q12@[i]
                    };
                    if i < self.lpc_order {
                        expanded_tap(tap as int, BWE_COEF_Q16 as int, i) as i16
                    } else {
                        tap
                    }
                },
        )
    }

    /// Zero for the first lost frame, one for later ones.
    pub open spec fn attenuation(self) -> int {
        if self.loss_cnt == 0 {
            0
        } else {
            1
        }
    }

    /// The share of noise that a concealed frame starts with, in Q14. It is
    /// set by the first lost frame.
    pub open spec fn starting_rand_scale(self) -> int {
        let b = self.plc.ltp_coef_q14@;
        if self.loss_cnt != 0 {
            self.plc.rand_scale_q14 as int
        } else if self.prev_signal_type == TYPE_VOICED {
            smulbb_of(
                most(0x4000 - b[0] - b[1] - b[2] - b[3] - b[4], MIN_RAND_SCALE_Q14 as int),
                self.plc.prev_ltp_scale_q14 as int,
            ) / 0x4000
        } else {
            0x4000
        }
    }

    /// The decay of the noise per subframe, in Q15. In the first lost frame of
    /// an unvoiced signal it is stronger where the short-term predictor has a
    /// high gain; `inv_gain_q30` is the inverse of that gain.
    pub open spec fn rand_gain(self, inv_gain_q30: int) -> int {
        if self.prev_signal_type == TYPE_VOICED {
            PLC_RAND_ATTENUATE_V_Q15@[self.attenuation()] as int
        } else if self.loss_cnt == 0 {
            smulwb_of(
                8 * most(0x40_0000, least(0x800_0000, inv_gain_q30)),
                PLC_RAND_ATTENUATE_UV_Q15@[0] as int,
            ) / 0x4000
        } else {
            PLC_RAND_ATTENUATE_UV_Q15@[1] as int
        }
    }

    /// Where the history begins that the long-term predictor is run from.
    pub open spec fn history_start(self) -> int {
        self.ltp_mem_length - rounded_shift(self.plc.pitch_l_q8 as int, 8) - self.lpc_order
            - LTP_ORDER as int / 2
    }

    /// The history of the long-term predictor: the last output, whitened by
    /// the short-term predictor and scaled to unit gain.
    pub open spec fn whitened(self) -> Seq<i32> {
        let start = self.history_start();
        let past = self.out_buf@.subrange(start, self.ltp_mem_length as int);
        let inv_gain = least(inverse_of(self.plc.prev_gain_q16@[1] as int, 46), 0x3FFF_FFFF);
        Seq::new(
            self.ltp_mem_length as nat,
            |i: int|
                if i < start + self.lpc_order {
                    0i32
                } else {
                    smulwb_of(
                        inv_gain,
                        residual(past, self.conceal_lpc(), self.lpc_order as int, i - start),
                    ) as i32
                },
        )
    }
}

/// The state of the long-term synthesis.
#[verifier::ext_equal]
pub struct LtpState {
    /// The history and the excitation made so far.
    pub buf: Seq<i32>,
    /// The pitch taps.
    pub taps: Seq<i16>,
    /// The share of noise.
    pub scale: int,
    /// The pitch lag, in Q8.
    pub pitch: int,
    /// The state of the noise generator.
    pub seed: int,
}

/// What the first `n` pitch taps predict of the sample behind `buf`.
pub open spec fn ltp_prediction(buf: Seq<i32>, taps: Seq<i16>, lag: int, n: int) -> int
    decreases n,
{
    if n <= 0 {
        2
    } else {
        smlawb_of(
            ltp_prediction(buf, taps, lag, n - 1),
            buf[buf.len() - lag + 2 - (n - 1)] as int,
            taps[n - 1] as int,
        )
    }
}

/// The noise sample that a state of the generator selects.
pub open spec fn noise_index(seed: int) -> int {
    (seed / 0x200_0000) % RAND_BUF_SIZE as int
}

impl LtpState {
    /// The state after one more sample, with noise from `noise`.
    pub open spec fn sampled(self, lag: int, noise: Seq<i32>) -> Self {
        let seed = rand_of(self.seed);
        let sample = wrap32(
            4 * smlawb_of(
                ltp_prediction(self.buf, self.taps, lag, LTP_ORDER as int),
                noise[noise_index(seed)] as int,
                self.scale,
            ),
        );
        LtpState { buf: self.buf.push(sample as i32), seed, ..self }
    }

    /// The state after `n` more samples.
    pub open spec fn sampled_all(self, lag: int, noise: Seq<i32>, n: int) -> Self
        decreases n,
    {
        if n <= 0 {
            self
        } else {
            self.sampled_all(lag, noise, n - 1).sampled(lag, noise)
        }
    }

    /// The pitch lag in samples.
    pub open spec fn lag(self) -> int {
        rounded_shift(self.pitch, 8)
    }

    /// The state after the gains have decayed and the pitch has drifted, up to
    /// the longest lag.
    pub open spec fn decayed(self, harm_gain: int, rand_gain: int, max_pitch: int) -> Self {
        LtpState {
            taps: Seq::new(
                self.taps.len(),
                |i: int| (smulbb_of(harm_gain, self.taps[i] as int) / 0x8000) as i16,
            ),
            scale: smulbb_of(self.scale, rand_gain) / 0x8000,
            pitch: least(
                smlawb_of(self.pitch, self.pitch, PITCH_DRIFT_FAC_Q16 as int),
                max_pitch,
            ),
            ..self
        }
    }
}

impl SilkChannelDecoder {
    /// The state of the long-term synthesis at the start of a lost frame.
    pub open spec fn ltp_start(self) -> LtpState {
        LtpState {
            buf: self.whitened(),
            taps: self.plc.ltp_coef_q14@,
            scale: self.starting_rand_scale(),
            pitch: self.plc.pitch_l_q8 as int,
            seed: self.plc.rand_seed as int,
        }
    }

    /// The state of the long-term synthesis after `k` subframes.
    pub open spec fn ltp_after(self, inv_gain_q30: int, k: int) -> LtpState
        decreases k,
    {
        if k <= 0 {
            self.ltp_start()
        } else {
            let before = self.ltp_after(inv_gain_q30, k - 1);
            let noise = self.exc_q14@.skip(self.noise_start());
            before.sampled_all(before.lag(), noise, self.subfr_length as int).decayed(
                HARM_ATT_Q15@[self.attenuation()] as int,
                self.rand_gain(inv_gain_q30),
                MAX_PITCH_LAG_MS * self.fs_khz * 256,
            )
        }
    }

    /// The signal of a concealed frame, in Q14 at unit gain, behind the state
    /// of the short-term synthesis filter.
    pub open spec fn concealed_signal(self, inv_gain_q30: int) -> Seq<i32> {
        let ltp = self.ltp_after(inv_gain_q30, self.nb_subfr as int);
        synthesised(
            self.slpc_q14_buf@,
            ltp.buf.skip(self.ltp_mem_length as int),
            self.conceal_lpc(),
            self.lpc_order as int,
            self.frame_length as int,
        )
    }

    /// Sample `i` of a concealed frame.
    pub open spec fn concealed_sample(self, inv_gain_q30: int, i: int) -> int {
        sat16(
            rounded_shift(
                smulww_of(
                    self.concealed_signal(inv_gain_q30)[MAX_LPC_ORDER + i] as int,
                    self.plc.prev_gain_q16@[1] as int / 64,
                ),
                8,
            ),
        )
    }

    /// The concealment state after a lost frame.
    pub open spec fn plc_concealed(self, inv_gain_q30: int, after: PlcState) -> bool {
        let end = self.ltp_after(inv_gain_q30, self.nb_subfr as int);
        &&& after.pitch_l_q8 == end.pitch
        &&& after.ltp_coef_q14@ == end.taps
        &&& after.prev_lpc_q12@ == self.conceal_lpc()
        &&& after.rand_seed == end.seed
        &&& after.rand_scale_q14 == low16(end.scale)
        &&& after == (PlcState {
            pitch_l_q8: after.pitch_l_q8,
            ltp_coef_q14: after.ltp_coef_q14,
            prev_lpc_q12: after.prev_lpc_q12,
            rand_seed: after.rand_seed,
            rand_scale_q14: after.rand_scale_q14,
            ..self.plc
        })
    }
}

/// A product with a gain below one, in Q15, is no larger than the value.
proof fn lemma_attenuated(gain: int, x: int)
    requires
        0 <= gain < 0x8000,
        -0x8000 <= x < 0x8000,
    ensures
        x >= 0 ==> 0 <= smulbb_of(gain, x) / 0x8000 <= x,
        x <= 0 ==> x <= smulbb_of(gain, x) / 0x8000 <= 0,
{
    assert(low16(gain) == gain && low16(x) == x);
    assert(x >= 0 ==> 0 <= gain * x <= 0x8000 * x) by (nonlinear_arith)
        requires
            0 <= gain < 0x8000,
    ;
    assert(x <= 0 ==> 0x8000 * x <= gain * x <= 0) by (nonlinear_arith)
        requires
            0 <= gain < 0x8000,
    ;
}

/// From one subframe of a loss to the next the pitch taps and the noise only
/// fade, and the pitch lag only grows, up to the longest lag.
proof fn lemma_decay(
    state: LtpState,
    harm_gain: int,
    rand_gain: int,
    max_pitch: int,
    i: int,
)
    requires
        0 <= harm_gain < 0x8000,
        0 <= rand_gain < 0x8000,
        0 <= state.scale < 0x8000,
        0 <= state.pitch <= max_pitch < 0x4000_0000,
        0 <= i < state.taps.len(),
    ensures
        ({
            let after = state.decayed(harm_gain, rand_gain, max_pitch);
            &&& state.taps[i] >= 0 ==> 0 <= after.taps[i] <= state.taps[i]
            &&& state.taps[i] <= 0 ==> state.taps[i] <= after.taps[i] <= 0
            &&& 0 <= after.scale <= state.scale
            &&& state.pitch <= after.pitch <= max_pitch
        }),
{
    lemma_attenuated(harm_gain, state.taps[i] as int);
    lemma_attenuated(state.scale, rand_gain);
    lemma_attenuated(rand_gain, state.scale);
    assert(rand_gain * state.scale == state.scale * rand_gain) by (nonlinear_arith);
    assert(low16(PITCH_DRIFT_FAC_Q16 as int) == 655);
}

/// The gains of a loss are below one, whatever the predictor's gain was.
pub proof fn law_loss_gains_below_one(channel: SilkChannelDecoder, inv_gain_q30: int)
    ensures
        0 <= HARM_ATT_Q15@[channel.attenuation()] < 0x8000,
        0 <= channel.rand_gain(inv_gain_q30) < 0x8000,
{
    let down = 8 * most(0x40_0000, least(0x800_0000, inv_gain_q30));
    assert(0x200_0000 <= down <= 0x4000_0000);
    assert(low16(32440) == 32440);
}

proof fn lemma_sampling_keeps_model(state: LtpState, lag: int, noise: Seq<i32>, n: int)
    ensures
        ({
            let after = state.sampled_all(lag, noise, n);
            &&& after.taps == state.taps
            &&& after.scale == state.scale
            &&& after.pitch == state.pitch
        }),
    decreases n,
{
    if n > 0 {
        lemma_sampling_keeps_model(state, lag, noise, n - 1);
    }
}

/// During a loss the pitch taps and the noise only fade, and the pitch lag only
/// grows, up to the longest lag.
pub proof fn law_loss_fades(channel: SilkChannelDecoder, inv_gain_q30: int, k: int, i: int)
    requires
        channel.geometry(),
        channel.plc.valid(channel.fs_khz as int),
        0 <= channel.starting_rand_scale() < 0x8000,
        0 <= k,
        0 <= i < LTP_ORDER,
    ensures
        ({
            let tap = channel.plc.ltp_coef_q14@[i];
            let after = channel.ltp_after(inv_gain_q30, k);
            &&& after.taps.len() == LTP_ORDER
            &&& tap >= 0 ==> 0 <= after.taps[i] <= tap
            &&& tap <= 0 ==> tap <= after.taps[i] <= 0
            &&& 0 <= after.scale <= channel.starting_rand_scale()
            &&& channel.plc.pitch_l_q8 <= after.pitch <= MAX_PITCH_LAG_MS * channel.fs_khz * 256
        }),
    decreases k,
{
    if k > 0 {
        law_loss_fades(channel, inv_gain_q30, k - 1, i);
        law_loss_gains_below_one(channel, inv_gain_q30);
        let before = channel.ltp_after(inv_gain_q30, k - 1);
        let noise = channel.exc_q14@.skip(channel.noise_start());
        let n = channel.subfr_length as int;
        lemma_sampling_keeps_model(before, before.lag(), noise, n);
        lemma_decay(
            before.sampled_all(before.lag(), noise, n),
            HARM_ATT_Q15@[channel.attenuation()] as int,
            channel.rand_gain(inv_gain_q30),
            MAX_PITCH_LAG_MS * channel.fs_khz * 256,
            i,
        );
    }
}

impl SilkChannelDecoder {
    /// The scaled excitation of one of the last two subframes.
    fn scale_subframe(&self, k: usize) -> (x: Vec<i16>)
        requires
            self.geometry(),
            k < 2,
        ensures
            x@ == self.scaled_subframe(k as int),
    {
        proof {
            lemma_geometry(*self);
            lemma2_to64();
        }
        let len = self.subfr_length;
        let gain_q10 = shift_down(self.plc.prev_gain_q16[k] as i64, 6) as i32;
        assert(0 <= k * len <= 80 && 0 <= (k + 2) * len <= 240) by (nonlinear_arith)
            requires
                0 <= k < 2,
                0 <= len <= 80,
        ;
        let first = if self.nb_subfr == 2 {
            k * len
        } else {
            (k + 2) * len
        };
        assert(first == (k + self.nb_subfr - 2) * self.subfr_length);
        assert(first + len <= MAX_FRAME_LENGTH) by (nonlinear_arith)
            requires
                first == (k + self.nb_subfr - 2) * len,
                k < 2,
                self.nb_subfr <= 4,
                len <= 80,
        ;
        let mut x: Vec<i16> = Vec::new();
        let mut i: usize = 0;
        while i < len
            invariant
                i <= len,
                len == self.subfr_length,
                k < 2,
                first == (k + self.nb_subfr - 2) * self.subfr_length,
                first + len <= MAX_FRAME_LENGTH,
                gain_q10 == self.plc.prev_gain_q16@[k as int] as int / 64,
                x@.len() == i,
                forall|j: int|
                    0 <= j < i ==> (#[trigger] x@[j]) == self.scaled_excitation(k as int, j),
            decreases len - i,
        {
            proof {
                lemma2_to64();
            }
            let product = smulww(self.exc_q14[i + first], gain_q10);
            x.push(saturate16(shift_down(product as i64, 8) as i32));
            i = i + 1;
        }
        assert(x@ =~= self.scaled_subframe(k as int));
        x
    }

    /// Where the excitation begins that noise is drawn from.
    fn noise_base(&self) -> (base: usize)
        requires
            self.geometry(),
            self.plc.valid(self.fs_khz as int),
        ensures
            base == self.noise_start(),
            base + RAND_BUF_SIZE <= MAX_FRAME_LENGTH,
    {
        proof {
            lemma_geometry(*self);
        }
        let a = self.scale_subframe(0);
        let b = self.scale_subframe(1);
        let (energy1, shift1) = sum_sqr_shift(a.as_slice());
        let (energy2, shift2) = sum_sqr_shift(b.as_slice());
        let first_quieter = shift_down(energy1 as i64, shift2 as u32) < shift_down(
            energy2 as i64,
            shift1 as u32,
        );
        let count = if first_quieter {
            self.plc.nb_subfr - 1
        } else {
            self.plc.nb_subfr
        };
        assert(0 <= count * self.plc.subfr_length <= MAX_FRAME_LENGTH) by (nonlinear_arith)
            requires
                0 <= count <= 4,
                self.plc.subfr_length <= 80,
        ;
        let end = count * self.plc.subfr_length;
        if end > RAND_BUF_SIZE {
            end - RAND_BUF_SIZE
        } else {
            0
        }
    }

    /// The short-term predictor that a concealed frame would use now.
    pub fn concealment_lpc(&self) -> (a: [i16; 16])
        requires
            self.geometry(),
        ensures
            a@ == self.conceal_lpc(),
    {
        let mut a: [i16; 16] = if self.first_frame_after_reset {
            [0; 16]
        } else {
            self.plc.prev_lpc_q12
        };
        bwexpander(&mut a, self.lpc_order, BWE_COEF_Q16);
        assert(a@ =~= self.conceal_lpc());
        a
    }

    /// The share of noise that a concealed frame starts with.
    fn first_rand_scale(&self) -> (scale: i32)
        requires
            self.loss_cnt >= 0,
        ensures
            scale == self.starting_rand_scale(),
    {
        let b = self.plc.ltp_coef_q14;
        if self.loss_cnt != 0 {
            self.plc.rand_scale_q14 as i32
        } else if self.prev_signal_type == TYPE_VOICED {
            let rest = 0x4000 - b[0] as i32 - b[1] as i32 - b[2] as i32 - b[3] as i32
                - b[4] as i32;
            let share = if rest > MIN_RAND_SCALE_Q14 {
                rest
            } else {
                MIN_RAND_SCALE_Q14
            };
            proof {
                lemma2_to64();
            }
            shift_down(smulbb(share, self.plc.prev_ltp_scale_q14 as i32) as i64, 14) as i32
        } else {
            0x4000
        }
    }

    /// The decay of the noise per subframe.
    fn rand_decay(&self, inv_gain_q30: i32) -> (gain: i32)
        requires
            self.loss_cnt >= 0,
        ensures
            gain == self.rand_gain(inv_gain_q30 as int),
    {
        let att: usize = if self.loss_cnt == 0 { 0 } else { 1 };
        if self.prev_signal_type == TYPE_VOICED {
            PLC_RAND_ATTENUATE_V_Q15[att]
        } else if self.loss_cnt == 0 {
            let capped = if inv_gain_q30 < 0x800_0000 {
                inv_gain_q30
            } else {
                0x800_0000
            };
            let down_scale = if capped > 0x40_0000 {
                capped
            } else {
                0x40_0000
            };
            proof {
                lemma2_to64();
            }
            shift_down(smulwb(8 * down_scale, PLC_RAND_ATTENUATE_UV_Q15[0]) as i64, 14) as i32
        } else {
            PLC_RAND_ATTENUATE_UV_Q15[1]
        }
    }

    /// The history of the long-term predictor.
    fn whiten(&self, a: &[i16; 16], lag: i32) -> (history: Vec<i32>)
        requires
            self.geometry(),
            self.plc.valid(self.fs_khz as int),
            a@ == self.conceal_lpc(),
            lag == rounded_shift(self.plc.pitch_l_q8 as int, 8),
            lag <= MAX_PITCH_LAG_MS * self.fs_khz,
            lag >= 0,
        ensures
            history@ == self.whitened(),
    {
        proof {
            lemma_geometry(*self);
        }
        let len = self.ltp_mem_length;
        let order = self.lpc_order;
        let start = len - lag as usize - order - LTP_ORDER / 2;
        let past = vstd::slice::slice_subrange(&self.out_buf, start, len);
        let error = lpc_analysis_filter(past, a, order);
        let inverse = inverse32_var_q(self.plc.prev_gain_q16[1], 46);
        let inv_gain = if inverse < 0x3FFF_FFFF {
            inverse
        } else {
            0x3FFF_FFFF
        };
        let mut history: Vec<i32> = Vec::new();
        let mut i: usize = 0;
        while i < len
            invariant
                i <= len,
                len == self.ltp_mem_length,
                order == self.lpc_order,
                start == self.history_start(),
                0 <= start,
                start + order <= len,
                past@ == self.out_buf@.subrange(start as int, len as int),
                error@.len() == len - start,
                a@ == self.conceal_lpc(),
                forall|k: int|
                    order <= k < error@.len() ==> (#[trigger] error@[k]) == residual(
                        past@,
                        a@,
                        order as int,
                        k,
                    ),
                inv_gain == least(
                    inverse_of(self.plc.prev_gain_q16@[1] as int, 46),
                    0x3FFF_FFFF,
                ),
                history@.len() == i,
                forall|k: int| 0 <= k < i ==> (#[trigger] history@[k]) == self.whitened()[k],
            decreases len - i,
        {
            if i < start + order {
                history.push(0);
            } else {
                assert(error@[i - start] == residual(past@, a@, order as int, i - start));
                history.push(smulwb(inv_gain, error[i - start] as i32));
            }
            i = i + 1;
        }
        assert(history@ =~= self.whitened());
        history
    }
}

/// Extends the excitation by `n` samples of the long-term synthesis.
fn extend_excitation(
    buf: &mut Vec<i32>,
    taps: &[i16; 5],
    scale: i32,
    lag: usize,
    seed: i32,
    exc: &[i32; 320],
    base: usize,
    n: usize,
) -> (next_seed: i32)
    requires
        3 <= lag,
        lag + 2 <= old(buf)@.len(),
        old(buf)@.len() + n <= 0x1_0000,
        base + RAND_BUF_SIZE <= MAX_FRAME_LENGTH,
    ensures
        forall|pitch: int|
            ({
                let end = #[trigger] (LtpState {
                    buf: old(buf)@,
                    taps: taps@,
                    scale: scale as int,
                    pitch,
                    seed: seed as int,
                }).sampled_all(lag as int, exc@.skip(base as int), n as int);
                end == (LtpState {
                    buf: final(buf)@,
                    taps: taps@,
                    scale: scale as int,
                    pitch,
                    seed: next_seed as int,
                })
            }),
        final(buf)@.len() == old(buf)@.len() + n,
{
    let ghost start = buf@;
    let ghost noise = exc@.skip(base as int);
    let mut state = seed;
    let mut i: usize = 0;
    while i < n
        invariant
            i <= n,
            3 <= lag,
            lag + 2 <= start.len(),
            start.len() + n <= 0x1_0000,
            base + RAND_BUF_SIZE <= MAX_FRAME_LENGTH,
            start == old(buf)@,
            noise == exc@.skip(base as int),
            buf@.len() == start.len() + i,
            forall|pitch: int|
                ({
                    let end = #[trigger] (LtpState {
                        buf: start,
                        taps: taps@,
                        scale: scale as int,
                        pitch,
                        seed: seed as int,
                    }).sampled_all(lag as int, noise, i as int);
                    end == (LtpState {
                        buf: buf@,
                        taps: taps@,
                        scale: scale as int,
                        pitch,
                        seed: state as int,
                    })
                }),
        decreases n - i,
    {
        let ghost before = buf@;
        let ghost before_state = state;
        let at = buf.len() - lag + LTP_ORDER / 2;
        let mut prediction: i32 = 2;
        let mut t: usize = 0;
        while t < LTP_ORDER
            invariant
                t <= LTP_ORDER,
                at == buf@.len() - lag + 2,
                3 <= lag,
                lag + 2 <= buf@.len(),
                prediction == ltp_prediction(buf@, taps@, lag as int, t as int),
            decreases LTP_ORDER - t,
        {
            prediction = smlawb(prediction, buf[at - t], taps[t] as i32);
            t = t + 1;
        }
        state = silk_rand(state);
        proof {
            lemma2_to64();
        }
        let top = shift_down(state as i64, 25);
        let index = if top < 0 {
            (top + 128) as usize
        } else {
            top as usize
        };
        assert(index == noise_index(state as int));
        let sample = shift_up(smlawb(prediction, exc[base + index], scale), 2);
        buf.push(sample);
        assert forall|pitch: int|
            ({
                let end = #[trigger] (LtpState {
                    buf: start,
                    taps: taps@,
                    scale: scale as int,
                    pitch,
                    seed: seed as int,
                }).sampled_all(lag as int, noise, i + 1);
                end == (LtpState {
                    buf: buf@,
                    taps: taps@,
                    scale: scale as int,
                    pitch,
                    seed: state as int,
                })
            }) by {
            let first = LtpState {
                buf: start,
                taps: taps@,
                scale: scale as int,
                pitch,
                seed: seed as int,
            };
            let mid = first.sampled_all(lag as int, noise, i as int);
            assert(mid == (LtpState {
                buf: before,
                taps: taps@,
                scale: scale as int,
                pitch,
                seed: before_state as int,
            }));
            assert(first.sampled_all(lag as int, noise, i + 1) == mid.sampled(lag as int, noise));
        }
        i = i + 1;
    }
    state
}

/// The pitch taps after they have decayed.
fn decay_taps(taps: &[i16; 5], harm_gain: i32) -> (res: [i16; 5])
    requires
        0 <= harm_gain <= 0x7FFF,
    ensures
        res@ == Seq::new(
            5,
            |i: int| (smulbb_of(harm_gain as int, taps@[i] as int) / 0x8000) as i16,
        ),
{
    let mut res: [i16; 5] = [0; 5];
    let mut i: usize = 0;
    while i < 5
        invariant
            i <= 5,
            0 <= harm_gain <= 0x7FFF,
            forall|k: int|
                0 <= k < i ==> (#[trigger] res@[k]) == (smulbb_of(
                    harm_gain as int,
                    taps@[k] as int,
                ) / 0x8000) as i16,
        decreases 5 - i,
    {
        let tap = taps[i] as i32;
        proof {
            lemma2_to64();
            assert(-0x4000_0000 <= harm_gain * tap <= 0x3FFF_FFFF) by (nonlinear_arith)
                requires
                    0 <= harm_gain <= 0x7FFF,
                    -0x8000 <= tap <= 0x7FFF,
            ;
        }
        res[i] = shift_down(smulbb(harm_gain, tap) as i64, 15) as i16;
        i = i + 1;
    }
    assert(res@ =~= Seq::new(
        5,
        |i: int| (smulbb_of(harm_gain as int, taps@[i] as int) / 0x8000) as i16,
    ));
    res
}

proof fn lemma_drift(pitch: int, fs: int)
    requires
        8 <= fs <= 16,
        2 * fs * 256 <= pitch <= 18 * fs * 256,
    ensures
        ({
            let next = least(
                smlawb_of(pitch, pitch, PITCH_DRIFT_FAC_Q16 as int),
                18 * fs * 256,
            );
            pitch <= next <= 18 * fs * 256
        }),
        2 * fs <= rounded_shift(pitch, 8) <= 18 * fs,
{
    lemma2_to64();
    assert(0 <= pitch * 655 <= 73728 * 655) by (nonlinear_arith)
        requires
            0 <= pitch <= 73728,
    ;
}

impl SilkChannelDecoder {
    /// Synthesises one concealed frame into `frame`. `inv_gain_q30` is the
    /// inverse prediction gain of [`concealment_lpc`](Self::concealment_lpc),
    /// in Q30.
    pub(crate) fn plc_conceal(
        &mut self,
        ctrl: &mut DecoderControl,
        frame: &mut [i16],
        inv_gain_q30: i32,
    )
        requires
            old(self).geometry(),
            old(self).loss_cnt >= 0,
            old(self).plc.valid(old(self).fs_khz as int),
            old(frame)@.len() >= old(self).frame_length,
        ensures
            old(self).plc_concealed(inv_gain_q30 as int, final(self).plc),
            final(self).plc.valid(final(self).fs_khz as int),
            final(self).slpc_q14_buf@ == old(self).concealed_signal(inv_gain_q30 as int).skip(
                old(self).frame_length as int,
            ),
            *final(self) == (SilkChannelDecoder {
                plc: final(self).plc,
                slpc_q14_buf: final(self).slpc_q14_buf,
                ..*old(self)
            }),
            final(frame)@.len() == old(frame)@.len(),
            forall|i: int|
                0 <= i < old(frame)@.len() ==> (#[trigger] final(frame)@[i]) == if i
                    < old(self).frame_length {
                    old(self).concealed_sample(inv_gain_q30 as int, i)
                } else {
                    old(frame)@[i] as int
                },
            forall|i: int|
                0 <= i < MAX_NB_SUBFR ==> (#[trigger] final(ctrl).pitch_l@[i]) == rounded_shift(
                    final(self).plc.pitch_l_q8 as int,
                    8,
                ),
            *final(ctrl) == (DecoderControl { pitch_l: final(ctrl).pitch_l, ..*old(ctrl) }),
    {
        let ghost start = *self;
        let ghost inv_gain = inv_gain_q30 as int;
        proof {
            lemma_geometry(*self);
            lemma_drift(self.plc.pitch_l_q8 as int, self.fs_khz as int);
        }
        let base = self.noise_base();
        let a_q12 = self.concealment_lpc();
        let rand_gain = self.rand_decay(inv_gain_q30);
        let att: usize = if self.loss_cnt == 0 { 0 } else { 1 };
        let harm_gain = HARM_ATT_Q15[att];
        let max_pitch = MAX_PITCH_LAG_MS * self.fs_khz * 256;

        let mut lag = rshift_round(self.plc.pitch_l_q8, 8);
        let mut buf = self.whiten(&a_q12, lag);
        let mut taps = self.plc.ltp_coef_q14;
        let mut scale = self.first_rand_scale();
        let mut seed = self.plc.rand_seed;
        let mut pitch = self.plc.pitch_l_q8;

        // Long-term synthesis over the noise.
        let mut k: usize = 0;
        while k < self.nb_subfr
            invariant
                *self == start,
                start.geometry(),
                start.plc.valid(start.fs_khz as int),
                k <= start.nb_subfr <= 4,
                start.subfr_length <= 80,
                base == start.noise_start(),
                base + RAND_BUF_SIZE <= MAX_FRAME_LENGTH,
                rand_gain == start.rand_gain(inv_gain),
                harm_gain == HARM_ATT_Q15@[start.attenuation()],
                0 <= harm_gain <= 0x7FFF,
                max_pitch == 18 * start.fs_khz * 256,
                2 * start.fs_khz * 256 <= pitch <= max_pitch,
                lag == rounded_shift(pitch as int, 8),
                2 * start.fs_khz <= lag <= 18 * start.fs_khz,
                buf@.len() == start.ltp_mem_length + k * start.subfr_length,
                start.ltp_after(inv_gain, k as int) == (LtpState {
                    buf: buf@,
                    taps: taps@,
                    scale: scale as int,
                    pitch: pitch as int,
                    seed: seed as int,
                }),
            decreases start.nb_subfr - k,
        {
            let ghost before = start.ltp_after(inv_gain, k as int);
            assert(k * start.subfr_length <= 320) by (nonlinear_arith)
                requires
                    k <= 4,
                    start.subfr_length <= 80,
            ;
            seed =
            extend_excitation(
                &mut buf,
                &taps,
                scale,
                lag as usize,
                seed,
                &self.exc_q14,
                base,
                self.subfr_length,
            );
            let ghost extended = before.sampled_all(
                lag as int,
                start.exc_q14@.skip(base as int),
                start.subfr_length as int,
            );
            assert(extended == (LtpState {
                buf: buf@,
                taps: taps@,
                scale: scale as int,
                pitch: pitch as int,
                seed: seed as int,
            }));
            // The gains fall and the lag drifts.
            taps = decay_taps(&taps, harm_gain);
            proof {
                lemma2_to64();
                lemma_drift(pitch as int, start.fs_khz as int);
            }
            scale = shift_down(smulbb(scale, rand_gain) as i64, 15) as i32;
            let drifted = smlawb(pitch, pitch, PITCH_DRIFT_FAC_Q16);
            pitch = if drifted < max_pitch {
                drifted
            } else {
                max_pitch
            };
            lag = rshift_round(pitch, 8);
            proof {
                lemma_drift(pitch as int, start.fs_khz as int);
                let next = start.ltp_after(inv_gain, k + 1);
                assert(next.taps =~= taps@);
                assert(next =~= (LtpState {
                    buf: buf@,
                    taps: taps@,
                    scale: scale as int,
                    pitch: pitch as int,
                    seed: seed as int,
                }));
                assert((k + 1) * start.subfr_length == k * start.subfr_length
                    + start.subfr_length) by (nonlinear_arith);
            }
            k = k + 1;
        }

        // Short-term synthesis over the extrapolated excitation.
        proof {
            lemma2_to64();
        }
        let gain_q10 = shift_down(self.plc.prev_gain_q16[1] as i64, 6) as i32;
        let excitation = vstd::slice::slice_subrange(
            buf.as_slice(),
            self.ltp_mem_length,
            buf.len(),
        );
        assert(excitation@ =~= buf@.skip(start.ltp_mem_length as int));
        let signal = lpc_synthesis(&self.slpc_q14_buf, excitation, &a_q12, self.lpc_order);
        assert(signal@ == start.concealed_signal(inv_gain));
        let mut i: usize = 0;
        while i < self.frame_length
            invariant
                *self == start,
                i <= start.frame_length <= 320,
                frame@.len() == old(frame)@.len(),
                frame@.len() >= start.frame_length,
                signal@.len() == MAX_LPC_ORDER + start.frame_length,
                signal@ == start.concealed_signal(inv_gain),
                gain_q10 == start.plc.prev_gain_q16@[1] as int / 64,
                forall|j: int|
                    0 <= j < i ==> (#[trigger] frame@[j]) == start.concealed_sample(inv_gain, j),
                forall|j: int|
                    i <= j < frame@.len() ==> (#[trigger] frame@[j]) == old(frame)@[j],
            decreases start.frame_length - i,
        {
            let product = smulww(signal[MAX_LPC_ORDER + i], gain_q10);
            frame[i] = saturate16(rshift_round(product, 8));
            i = i + 1;
        }
        let ghost tail = signal@.skip(start.frame_length as int);
        let mut state: [i32; 16] = [0; 16];
        let mut j: usize = 0;
        while j < MAX_LPC_ORDER
            invariant
                *self == start,
                j <= MAX_LPC_ORDER,
                start.frame_length <= 320,
                signal@.len() == MAX_LPC_ORDER + start.frame_length,
                tail == signal@.skip(start.frame_length as int),
                forall|m: int| 0 <= m < j ==> (#[trigger] state@[m]) == tail[m],
            decreases MAX_LPC_ORDER - j,
        {
            state[j] = signal[self.frame_length + j];
            j = j + 1;
        }
        assert(state@ =~= tail);
        self.slpc_q14_buf = state;

        self.plc.prev_lpc_q12 = a_q12;
        self.plc.pitch_l_q8 = pitch;
        self.plc.ltp_coef_q14 = taps;
        self.plc.rand_seed = seed;
        self.plc.rand_scale_q14 = sign_extend16(scale) as i16;
        ctrl.pitch_l = [lag, lag, lag, lag];
    }
}

impl SilkChannelDecoder {
    /// Noise is drawn from 128 samples of excitation that end with the last
    /// subframe, or with the one before where that is quieter, or from the first
    /// samples where there are fewer.
    pub proof fn law_noise_window(self)
        requires
            self.plc.nb_subfr >= 1,
        ensures
            ({
                let end = if self.first_quieter() {
                    (self.plc.nb_subfr - 1) * self.plc.subfr_length
                } else {
                    self.plc.nb_subfr * self.plc.subfr_length
                };
                &&& end >= 128 ==> self.noise_start() + 128 == end
                &&& end < 128 ==> self.noise_start() == 0
            }),
    {
    }

    /// The quieter subframe has the smaller energy, as far as the scaled energies
    /// can tell: they are compared with both shifts undone.
    pub proof fn law_quieter_has_less_energy(self)
        requires
            1 <= self.subfr_length < 0x1000_0000,
        ensures
            ({
                let (a, b) = (self.scaled_subframe(0), self.scaled_subframe(1));
                let (s, t) = (pow2(energy_shift(a) as nat), pow2(energy_shift(b) as nat));
                &&& self.first_quieter() ==> energy(a) * s < energy(b) * t
                &&& !self.first_quieter() ==> energy(b) * t < energy(a) * s + s * t
            }),
    {
        let (a, b) = (self.scaled_subframe(0), self.scaled_subframe(1));
        super::energy::law_energy_headroom(a);
        super::energy::law_energy_headroom(b);
        let s = pow2(energy_shift(a) as nat) as int;
        let t = pow2(energy_shift(b) as nat) as int;
        vstd::arithmetic::power2::lemma_pow2_pos(energy_shift(a) as nat);
        vstd::arithmetic::power2::lemma_pow2_pos(energy_shift(b) as nat);
        let (x, y) = (energy(a) / t, energy(b) / s);
        vstd::arithmetic::div_mod::lemma_fundamental_div_mod(energy(a), t);
        vstd::arithmetic::div_mod::lemma_fundamental_div_mod(energy(b), s);
        let (m, n) = (energy(a) % t, energy(b) % s);
        if x < y {
            assert(energy(a) * s < energy(b) * t) by (nonlinear_arith)
                requires
                    x + 1 <= y,
                    energy(a) == t * x + m,
                    energy(b) == s * y + n,
                    0 <= m < t,
                    0 <= n < s,
            ;
        } else {
            assert(energy(b) * t < energy(a) * s + s * t) by (nonlinear_arith)
                requires
                    y <= x,
                    energy(a) == t * x + m,
                    energy(b) == s * y + n,
                    0 <= m < t,
                    0 <= n < s,
            ;
        }
    }

    /// The share of noise. The first lost frame of an unvoiced signal is all
    /// noise; that of a voiced one has what the pitch leaves of one, but at least
    /// a fifth, times the scale of the long-term predictor. Later frames keep the
    /// share that they were left.
    pub proof fn law_noise_share(self, pitch: int)
        requires
            pitch == self.plc.ltp_coef_q14@[0] + self.plc.ltp_coef_q14@[1]
                + self.plc.ltp_coef_q14@[2] + self.plc.ltp_coef_q14@[3]
                + self.plc.ltp_coef_q14@[4],
            0 <= pitch,
            0 <= self.plc.prev_ltp_scale_q14 <= 0x4000,
        ensures
            ({
                let share = self.starting_rand_scale();
                let scale = self.plc.prev_ltp_scale_q14 as int;
                &&& self.loss_cnt != 0 ==> share == self.plc.rand_scale_q14
                &&& self.loss_cnt == 0 && self.prev_signal_type != TYPE_VOICED ==> share == 0x4000
                &&& self.loss_cnt == 0 && self.prev_signal_type == TYPE_VOICED ==> {
                    &&& 0 <= share <= 0x4000
                    &&& 5 * share >= scale - 5
                    &&& 0x4000 * share <= most(0x4000 - pitch, 3277) * scale
                    &&& most(0x4000 - pitch, 3277) * scale < 0x4000 * (share + 1)
                }
            }),
    {
        let scale = self.plc.prev_ltp_scale_q14 as int;
        let left = most(0x4000 - pitch, 3277);
        assert(low16(left) == left && low16(scale) == scale);
        assert(0 <= left * scale <= 0x4000 * 0x4000 && left * scale >= 3277 * scale)
            by (nonlinear_arith)
            requires
                3277 <= left <= 0x4000,
                0 <= scale <= 0x4000,
        ;
    }

    /// The noise fades from subframe to subframe: in voiced frames to 95 and then
    /// to 80 percent, in unvoiced ones to 99 and then to 90. In the first lost
    /// frame of an unvoiced signal it fades faster the higher the gain of the
    /// predictor is, down to a thirty-second of that.
    pub proof fn law_noise_decay(self, low: int, high: int)
        requires
            low <= high,
        ensures
            self.prev_signal_type == TYPE_VOICED && self.loss_cnt == 0 ==> percent(
                self.rand_gain(low),
                95,
            ),
            self.prev_signal_type == TYPE_VOICED && self.loss_cnt != 0 ==> percent(
                self.rand_gain(low),
                80,
            ),
            self.prev_signal_type != TYPE_VOICED && self.loss_cnt != 0 ==> percent(
                self.rand_gain(low),
                90,
            ),
            self.prev_signal_type != TYPE_VOICED && self.loss_cnt == 0 ==> {
                &&& self.rand_gain(low) <= self.rand_gain(high)
                &&& low >= 0x800_0000 ==> percent(self.rand_gain(low), 99)
                &&& high <= 0x40_0000 ==> percent(32 * self.rand_gain(high), 99)
            },
            self.loss_cnt == 0 ==> percent(HARM_ATT_Q15@[self.attenuation()] as int, 99),
            self.loss_cnt != 0 ==> percent(HARM_ATT_Q15@[self.attenuation()] as int, 95),
    {
        assert(low16(32440) == 32440);
        let (a, b) = (
            most(0x40_0000, least(0x800_0000, low)),
            most(0x40_0000, least(0x800_0000, high)),
        );
        assert(a <= b);
        assert((8 * a * 32440) / 0x1_0000 <= (8 * b * 32440) / 0x1_0000);
    }
}

/// Whether a factor in Q15 is that many percent, to within one in a thousand.
pub open spec fn percent(factor: int, n: int) -> bool {
    (n * 10 - 1) * 0x8000 <= 1000 * factor <= (n * 10 + 1) * 0x8000
}

proof fn lemma_single_tap(buf: Seq<i32>, taps: Seq<i16>, lag: int, j: int, n: int)
    requires
        taps.len() == 5,
        0 <= j < 5,
        0 <= n <= 5,
        forall|k: int| 0 <= k < 5 && k != j ==> (#[trigger] taps[k]) == 0,
        2 < lag <= buf.len() - 2,
    ensures
        ltp_prediction(buf, taps, lag, n) == if n <= j {
            2
        } else {
            2 + (buf[buf.len() - lag + 2 - j] * taps[j]) / 0x1_0000
        },
    decreases n,
{
    let x = buf[buf.len() - lag + 2 - j] as int;
    let b = taps[j] as int;
    assert(-0x4000_0000_0000 <= x * b <= 0x4000_0000_0000) by (nonlinear_arith)
        requires
            -0x8000_0000 <= x < 0x8000_0000,
            -0x8000 <= b < 0x8000,
    ;
    assert(low16(b) == b);
    if n > 0 {
        lemma_single_tap(buf, taps, lag, j, n - 1);
        if n - 1 != j {
            lemma_no_tap(buf[buf.len() - lag + 2 - (n - 1)] as int);
        }
    }
}

/// A pitch predictor with a single tap repeats what was there one lag before,
/// times the tap, in Q16. The lag is that of the middle tap, number two; each
/// tap before it is one sample closer, each behind it one further away.
pub proof fn law_pitch_repeats(buf: Seq<i32>, taps: Seq<i16>, lag: int, j: int)
    requires
        taps.len() == 5,
        0 <= j < 5,
        forall|k: int| 0 <= k < 5 && k != j ==> (#[trigger] taps[k]) == 0,
        2 < lag <= buf.len() - 2,
    ensures
        ltp_prediction(buf, taps, lag, 5) == 2 + (buf[buf.len() - lag + 2 - j] * taps[j])
            / 0x1_0000,
{
    lemma_single_tap(buf, taps, lag, j, 5);
}

/// Without a pitch, a sample is noise times its share, in Q14, and the noise is
/// selected by the seven highest bits of the next state of the generator.
pub proof fn law_sample_without_pitch_is_noise(state: LtpState, lag: int, noise: Seq<i32>)
    requires
        state.taps == seq![0i16, 0i16, 0i16, 0i16, 0i16],
        2 < lag <= state.buf.len() - 2,
        noise.len() == RAND_BUF_SIZE,
        0 <= state.scale <= 0x4000,
        forall|k: int| 0 <= k < noise.len() ==> -0x4000_0000 <= #[trigger] noise[k] < 0x4000_0000,
    ensures
        ({
            let after = state.sampled(lag, noise);
            let word = after.seed % 0x1_0000_0000;
            let drawn = noise[word / 0x200_0000];
            &&& after.seed == rand_of(state.seed)
            &&& after.buf.drop_last() == state.buf
            &&& 0 <= word / 0x200_0000 < RAND_BUF_SIZE
            &&& 0x4000 * (after.buf.last() - 8) <= drawn * state.scale < 0x4000
                * (after.buf.last() - 4)
        }),
{
    let seed = rand_of(state.seed);
    let after = state.sampled(lag, noise);
    lemma_single_tap(state.buf, state.taps, lag, 2, 5);
    lemma_no_tap(state.buf[state.buf.len() - lag] as int);
    let word = seed % 0x1_0000_0000;
    assert(word == seed - 0x1_0000_0000 * (seed / 0x1_0000_0000));
    assert(noise_index(seed) == word / 0x200_0000);
    let drawn = noise[word / 0x200_0000] as int;
    let product = drawn * state.scale;
    assert(low16(state.scale) == state.scale);
    assert(-0x1000_0000_0000 <= product <= 0x1000_0000_0000) by (nonlinear_arith)
        requires
            product == drawn * state.scale,
            -0x4000_0000 <= drawn < 0x4000_0000,
            0 <= state.scale <= 0x4000,
    ;
    assert(state.buf[state.buf.len() - lag] * state.taps[2] == 0) by (nonlinear_arith)
        requires
            state.taps[2] == 0,
    ;
    assert(after.buf.last() == 4 * (2 + product / 0x1_0000));
    assert(after.buf.drop_last() =~= state.buf);
}

/// The predictor of a concealment is that of the frames before, with its taps
/// expanded once more for each lost frame: the first by the factor, none grows,
/// and those behind the order stay. After a reset there is none.
pub proof fn law_concealment_predictor(channel: SilkChannelDecoder, i: int)
    requires
        channel.geometry(),
        0 <= i < MAX_LPC_ORDER,
    ensures
        ({
            let tap = channel.plc.prev_lpc_q12@[i];
            let expanded = channel.conceal_lpc()[i];
            &&& channel.first_frame_after_reset ==> expanded == 0
            &&& !channel.first_frame_after_reset ==> {
                &&& i >= channel.lpc_order ==> expanded == tap
                &&& tap >= 0 ==> 0 <= expanded <= tap
                &&& tap <= 0 ==> tap <= expanded <= 0
                &&& i == 0 ==> -0x8000 <= 0x1_0000 * expanded - BWE_COEF_Q16 * tap <= 0x8000
            }
        }),
{
    law_expansion_is_geometric(0, BWE_COEF_Q16 as int, i);
    law_expansion_is_geometric(channel.plc.prev_lpc_q12@[i] as int, BWE_COEF_Q16 as int, i);
}

/// The history of a concealment begins one pitch lag, rounded to whole samples,
/// before its end, and the reach of the two predictors before that.
pub proof fn law_history_reaches_back(channel: SilkChannelDecoder)
    ensures
        ({
            let lag = channel.ltp_mem_length - channel.lpc_order - 2 - channel.history_start();
            -128 <= channel.plc.pitch_l_q8 - 256 * lag < 128
        }),
{
    vstd::arithmetic::power2::lemma2_to64();
}

proof fn lemma_no_tap(x: int)
    ensures
        smulwb_of(x, 0) == 0,
{
    assert(low16(0) == 0);
    assert(x * 0 == 0);
}

/// From subframe to subframe the pitch lag grows by one percent, up to the
/// longest lag; the taps and the noise are multiplied by their factors in Q15.
pub proof fn law_decay_of_a_subframe(
    state: LtpState,
    harm_gain: int,
    rand_gain: int,
    max_pitch: int,
    i: int,
)
    requires
        0 <= harm_gain < 0x8000,
        0 <= rand_gain < 0x8000,
        0 <= state.scale < 0x8000,
        0 <= state.pitch <= max_pitch < 0x4000_0000,
        0 <= i < state.taps.len(),
    ensures
        ({
            let after = state.decayed(harm_gain, rand_gain, max_pitch);
            let grown = after.pitch - state.pitch;
            &&& after.buf == state.buf
            &&& after.seed == state.seed
            &&& 100 * grown <= state.pitch
            &&& after.pitch == max_pitch || 1000 * (grown + 1) > 9 * state.pitch
            &&& 0x8000 * after.taps[i] <= harm_gain * state.taps[i] < 0x8000 * (after.taps[i] + 1)
            &&& 0x8000 * after.scale <= state.scale * rand_gain < 0x8000 * (after.scale + 1)
        }),
{
    lemma_decay(state, harm_gain, rand_gain, max_pitch, i);
    lemma_attenuated(harm_gain, state.taps[i] as int);
    assert(low16(PITCH_DRIFT_FAC_Q16 as int) == 655);
    assert(low16(harm_gain) == harm_gain && low16(state.taps[i] as int) == state.taps[i]);
    assert(low16(rand_gain) == rand_gain && low16(state.scale) == state.scale);
    assert((state.pitch * 655) / 0x1_0000 <= state.pitch);
}

/// A product with the inverse of a gain undoes the gain: up to rounding it is
/// 2^30 times the factor over the gain.
proof fn lemma_unit_gain(gain: int, x: int)
    requires
        0x1_0002 <= gain < 0x8000_0000,
        -0x8000 <= x < 0x8000,
    ensures
        ({
            let scaled = smulwb_of(least(inverse_of(gain, 46), 0x3FFF_FFFF), x);
            &&& -5 * 0x1_0000 - 3 * gain <= 2 * (gain * scaled - 0x4000_0000 * x)
            &&& 2 * (gain * scaled - 0x4000_0000 * x) <= 5 * 0x1_0000 + 3 * gain
        }),
{
    lemma2_to64();
    vstd::arithmetic::power2::lemma_pow2_adds(30, 16);
    crate::range::lemma_bit_length_more_than(gain, 16);
    law_inverse_is_quotient(gain, 46);
    let inv = inverse_of(gain, 46);
    let p = gain * inv;
    assert(gain * (inv + 1) == p + gain) by (nonlinear_arith)
        requires
            p == gain * inv,
    ;
    assert(inv <= 0x3FFF_FFFF) by (nonlinear_arith)
        requires
            gain >= 0x1_0002,
            gain * inv <= 0x4000_0000_0000 + 3 * 0x1_0000,
    ;
    let e = p - 0x4000_0000_0000;
    assert(-5 * 0x1_0000 - gain <= e <= 5 * 0x1_0000 + gain);
    let ex = e * x;
    assert(-0x8000 * (5 * 0x1_0000 + gain) <= ex <= 0x8000 * (5 * 0x1_0000 + gain))
        by (nonlinear_arith)
        requires
            -5 * 0x1_0000 - gain <= e <= 5 * 0x1_0000 + gain,
            -0x8000 <= x <= 0x8000,
            ex == e * x,
    ;
    let w = (inv * x) / 0x1_0000;
    let rest = (inv * x) % 0x1_0000;
    assert(low16(x) == x);
    assert(gain * (0x1_0000 * w) == 0x4000_0000_0000 * x + ex - gain * rest) by (nonlinear_arith)
        requires
            0x1_0000 * w == inv * x - rest,
            p == gain * inv,
            e == p - 0x4000_0000_0000,
            ex == e * x,
    ;
    assert(gain * (0x1_0000 * w) == 0x1_0000 * (gain * w)) by (nonlinear_arith);
    assert(0 <= gain * rest <= 0x1_0000 * gain) by (nonlinear_arith)
        requires
            gain >= 0,
            0 <= rest <= 0x1_0000,
    ;
}

/// The history of the long-term predictor is the residual at unit gain: times the
/// last gain it is the residual, in Q30, up to rounding. Before the samples that
/// have a full prediction it is silent. Gains up to one are left out, and the one
/// next to it.
pub proof fn law_history_has_unit_gain(channel: SilkChannelDecoder, i: int)
    requires
        0x1_0002 <= channel.plc.prev_gain_q16@[1],
        0 <= i < channel.ltp_mem_length,
        0 <= channel.history_start(),
    ensures
        ({
            let start = channel.history_start();
            let gain = channel.plc.prev_gain_q16@[1] as int;
            let past = channel.out_buf@.subrange(start, channel.ltp_mem_length as int);
            let x = residual(past, channel.conceal_lpc(), channel.lpc_order as int, i - start);
            let sample = channel.whitened()[i];
            if i < start + channel.lpc_order {
                sample == 0
            } else {
                &&& -5 * 0x1_0000 - 3 * gain <= 2 * (gain * sample - 0x4000_0000 * x)
                &&& 2 * (gain * sample - 0x4000_0000 * x) <= 5 * 0x1_0000 + 3 * gain
            }
        }),
{
    let start = channel.history_start();
    let gain = channel.plc.prev_gain_q16@[1] as int;
    let past = channel.out_buf@.subrange(start, channel.ltp_mem_length as int);
    let x = residual(past, channel.conceal_lpc(), channel.lpc_order as int, i - start);
    lemma_unit_gain(gain, x);
    let inv = least(inverse_of(gain, 46), 0x3FFF_FFFF);
    let scaled = smulwb_of(inv, x);
    assert(-0x8000_0000 <= scaled < 0x8000_0000) by (nonlinear_arith)
        requires
            gain >= 0x1_0002,
            -0x8000 <= x < 0x8000,
            -5 * 0x1_0000 - 3 * gain <= 2 * (gain * scaled - 0x4000_0000 * x),
            2 * (gain * scaled - 0x4000_0000 * x) <= 5 * 0x1_0000 + 3 * gain,
    ;
}

} // verus!
