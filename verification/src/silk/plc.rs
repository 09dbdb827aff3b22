//! Packet-loss concealment.
//!
//! A lost frame is extrapolated from the model of the last good one: its
//! long-term and short-term predictors run over noise that is drawn from the
//! quieter of its last two subframes, with gains that fall and a pitch that
//! drifts from subframe to subframe. The first good frame afterwards is faded
//! in where it is louder than the concealment.

use vstd::arithmetic::power2::{lemma2_to64, pow2};
use vstd::prelude::*;

use crate::range::{
    bit_length, lemma_bit_length, lemma_bit_length_at_most, lemma_bit_length_more_than,
};

use super::decoder::{lemma_geometry, DecoderControl, PlcState, SilkChannelDecoder, TYPE_VOICED};
use super::energy::{energy, energy_shift, sum_sqr_shift};
use super::gains::MAX_NB_SUBFR;
use super::math::{
    clz32, law_root_is_accurate, leading_zeros, low16, most, rounded_shift, shift_down, shift_up,
    sign_extend16, smulbb, smulbb_of, smulwb, smulwb_of, sqrt_approx, sqrt_approx_of, wrap32,
};

verus! {

/// The gains of the pitch predictor between which a concealment starts, in
/// Q14.
pub const V_PITCH_GAIN_START_MIN_Q14: i32 = 11469;

pub const V_PITCH_GAIN_START_MAX_Q14: i32 = 15565;

/// The sum of the long-term taps of subframe `k`: its pitch gain.
pub open spec fn pitch_gain(ctrl: DecoderControl, k: int) -> int {
    let c = ctrl.ltp_coef_q14@;
    c[5 * k] + c[5 * k + 1] + c[5 * k + 2] + c[5 * k + 3] + c[5 * k + 4]
}

/// The number of subframes at the end of a frame, among the last `nb`, in
/// which the last pitch pulse may lie.
pub open spec fn pulse_subframes(lag: int, subfr_length: int, nb: int) -> int
    decreases nb,
{
    if nb <= 0 {
        0
    } else if (nb - 1) * subfr_length < lag {
        nb
    } else {
        pulse_subframes(lag, subfr_length, nb - 1)
    }
}

/// The largest pitch gain among the last `n` of `nb` subframes, or zero, and
/// how far from the end the last subframe with it lies.
pub open spec fn strongest_pitch(ctrl: DecoderControl, nb: int, n: int) -> (int, Option<int>)
    decreases n,
{
    if n <= 0 {
        (0, None)
    } else {
        let (gain, at) = strongest_pitch(ctrl, nb, n - 1);
        let next = pitch_gain(ctrl, nb - n);
        if next > gain {
            (next, Some(n - 1))
        } else {
            (gain, at)
        }
    }
}

/// The middle tap of the pitch predictor that a concealment starts with: the
/// pitch gain, moved towards the range that is allowed.
pub open spec fn starting_tap(gain: int) -> int {
    let tap = low16(gain);
    if gain < V_PITCH_GAIN_START_MIN_Q14 {
        low16(
            smulbb_of(tap, V_PITCH_GAIN_START_MIN_Q14 * 0x400 / most(gain, 1)) / 0x400,
        )
    } else if gain > V_PITCH_GAIN_START_MAX_Q14 {
        low16(
            smulbb_of(tap, V_PITCH_GAIN_START_MAX_Q14 * 0x4000 / most(gain, 1)) / 0x4000,
        )
    } else {
        tap
    }
}

impl SilkChannelDecoder {
    /// The concealment state after a reset to this channel's frame length.
    pub open spec fn plc_after_reset(self) -> PlcState {
        PlcState {
            pitch_l_q8: (128 * self.frame_length) as i32,
            prev_gain_q16: [0x1_0000, 0x1_0000],
            subfr_length: 20,
            nb_subfr: 2,
            ..self.plc
        }
    }

    /// Resets the concealment to a pitch of half a frame and unit gains.
    pub fn plc_reset(&mut self)
        requires
            old(self).geometry(),
        ensures
            final(self).plc == old(self).plc_after_reset(),
            *final(self) == (SilkChannelDecoder { plc: final(self).plc, ..*old(self) }),
    {
        proof {
            lemma_geometry(*self);
        }
        self.plc.pitch_l_q8 = self.frame_length as i32 * 128;
        self.plc.prev_gain_q16 = [0x1_0000, 0x1_0000];
        self.plc.subfr_length = 20;
        self.plc.nb_subfr = 2;
    }
}

/// Whether a state has captured the model of a frame with these parameters,
/// in a channel whose concealment state was `before`.
pub open spec fn plc_captured(
    channel: SilkChannelDecoder,
    ctrl: DecoderControl,
    before: PlcState,
    after: PlcState,
) -> bool {
    let nb = channel.nb_subfr as int;
    let voiced = channel.signal_type == TYPE_VOICED;
    let n = pulse_subframes(ctrl.pitch_l@[nb - 1] as int, channel.subfr_length as int, nb);
    let (gain, at) = strongest_pitch(ctrl, nb, n);
    &&& after.pitch_l_q8 == if !voiced {
        channel.fs_khz * 18 * 256
    } else {
        match at {
            Some(j) => ctrl.pitch_l@[nb - 1 - j] * 256,
            None => before.pitch_l_q8 as int,
        }
    }
    &&& after.ltp_coef_q14@ == if voiced {
        seq![0i16, 0i16, starting_tap(gain) as i16, 0i16, 0i16]
    } else {
        seq![0i16, 0i16, 0i16, 0i16, 0i16]
    }
    &&& after.prev_lpc_q12 == ctrl.pred_coef_q12@[1]
    &&& after.prev_ltp_scale_q14 == low16(ctrl.ltp_scale_q14 as int)
    &&& after.prev_gain_q16@ == seq![ctrl.gains_q16@[nb - 2], ctrl.gains_q16@[nb - 1]]
    &&& after.subfr_length == channel.subfr_length
    &&& after.nb_subfr == channel.nb_subfr
    &&& after.last_frame_lost == before.last_frame_lost
    &&& after.rand_seed == before.rand_seed
    &&& after.rand_scale_q14 == before.rand_scale_q14
    &&& after.conc_energy == before.conc_energy
    &&& after.conc_energy_shift == before.conc_energy_shift
    &&& after.fs_khz == before.fs_khz
}

proof fn lemma_pulse_subframes(lag: int, subfr_length: int, nb: int, j: int)
    requires
        0 <= j <= nb,
        subfr_length >= 0,
        j < nb ==> j * subfr_length >= lag,
        j > 0 ==> (j - 1) * subfr_length < lag,
    ensures
        pulse_subframes(lag, subfr_length, nb) == j,
    decreases nb,
{
    if j < nb {
        assert(j * subfr_length <= (nb - 1) * subfr_length) by (nonlinear_arith)
            requires
                j <= nb - 1,
                subfr_length >= 0,
        ;
        lemma_pulse_subframes(lag, subfr_length, nb - 1, j);
    }
}

proof fn lemma_strongest_pitch(ctrl: DecoderControl, nb: int, n: int)
    requires
        0 <= n <= nb,
    ensures
        strongest_pitch(ctrl, nb, n).1 matches Some(j) ==> 0 <= j < n,
        strongest_pitch(ctrl, nb, n).0 >= 0,
    decreases n,
{
    if n > 0 {
        lemma_strongest_pitch(ctrl, nb, n - 1);
    }
}

/// The starting tap for a pitch gain.
fn limited_tap(gain: i32) -> (tap: i16)
    requires
        gain >= 0,
    ensures
        tap == starting_tap(gain as int),
{
    let tap = sign_extend16(gain);
    let divisor = if gain > 1 { gain } else { 1 };
    proof {
        lemma2_to64();
    }
    if gain < V_PITCH_GAIN_START_MIN_Q14 {
        let scale_q10 = (V_PITCH_GAIN_START_MIN_Q14 * 0x400) / divisor;
        let scaled = shift_down(smulbb(tap, scale_q10) as i64, 10) as i32;
        sign_extend16(scaled) as i16
    } else if gain > V_PITCH_GAIN_START_MAX_Q14 {
        let scale_q14 = (V_PITCH_GAIN_START_MAX_Q14 * 0x4000) / divisor;
        let scaled = shift_down(smulbb(tap, scale_q14) as i64, 14) as i32;
        sign_extend16(scaled) as i16
    } else {
        tap as i16
    }
}

impl SilkChannelDecoder {
    /// Captures the model of the last good frame.
    fn plc_update(&mut self, ctrl: &DecoderControl)
        requires
            old(self).geometry(),
            old(self).plc.valid(old(self).fs_khz as int),
            ctrl.capturable(*old(self)),
        ensures
            plc_captured(*old(self), *ctrl, old(self).plc, final(self).plc),
            final(self).plc.valid(final(self).fs_khz as int),
            *final(self) == (SilkChannelDecoder {
                plc: final(self).plc,
                prev_signal_type: old(self).signal_type as i32,
                ..*old(self)
            }),
    {
        let nb = self.nb_subfr;
        let subfr_length = self.subfr_length;
        self.prev_signal_type = self.signal_type as i32;
        if self.signal_type as i32 == TYPE_VOICED {
            // The strongest of the subframes that may hold the last pitch
            // pulse.
            let lag = ctrl.pitch_l[nb - 1] as usize;
            let mut gain: i32 = 0;
            let mut pitch_l_q8 = self.plc.pitch_l_q8;
            let mut j: usize = 0;
            let mut start: usize = 0;
            let ghost before = self.plc.pitch_l_q8;
            while j < nb && start < lag
                invariant
                    j <= nb,
                    start == j * subfr_length,
                    lag <= 288,
                    nb == 2 || nb == 4,
                    subfr_length <= 80,
                    j > 0 ==> (j - 1) * subfr_length < lag,
                    ctrl.lags_valid(self.fs_khz as int, nb as int),
                    self.fs_khz <= 16,
                    gain == strongest_pitch(*ctrl, nb as int, j as int).0,
                    0 <= gain <= 5 * 0x7FFF,
                    pitch_l_q8 == match strongest_pitch(*ctrl, nb as int, j as int).1 {
                        Some(k) => ctrl.pitch_l@[nb - 1 - k] * 256,
                        None => before as int,
                    },
                decreases nb - j,
            {
                let k = nb - 1 - j;
                proof {
                    lemma_strongest_pitch(*ctrl, nb as int, j as int);
                    assert(nb - (j + 1) == k);
                    assert(ctrl.pitch_l@[k as int] <= 18 * self.fs_khz);
                }
                let c = &ctrl.ltp_coef_q14;
                let sum = c[5 * k] as i32 + c[5 * k + 1] as i32 + c[5 * k + 2] as i32 + c[5 * k
                    + 3] as i32 + c[5 * k + 4] as i32;
                if sum > gain {
                    gain = sum;
                    pitch_l_q8 = ctrl.pitch_l[k] * 256;
                }
                assert((j + 1) * subfr_length == j * subfr_length + subfr_length)
                    by (nonlinear_arith);
                start = start + subfr_length;
                j = j + 1;
            }
            proof {
                lemma_pulse_subframes(lag as int, subfr_length as int, nb as int, j as int);
                lemma_strongest_pitch(*ctrl, nb as int, j as int);
                match strongest_pitch(*ctrl, nb as int, j as int).1 {
                    Some(k) => {
                        assert(ctrl.pitch_l@[nb - 1 - k] >= 2 * self.fs_khz);
                    },
                    None => {},
                }
            }
            self.plc.pitch_l_q8 = pitch_l_q8;
            let tap = limited_tap(gain);
            let coefs = [0, 0, tap, 0, 0];
            assert(coefs@ =~= seq![0i16, 0i16, tap, 0i16, 0i16]);
            self.plc.ltp_coef_q14 = coefs;
        } else {
            self.plc.pitch_l_q8 = self.fs_khz * 18 * 256;
            let coefs = [0, 0, 0, 0, 0];
            assert(coefs@ =~= seq![0i16, 0i16, 0i16, 0i16, 0i16]);
            self.plc.ltp_coef_q14 = coefs;
        }
        self.plc.prev_lpc_q12 = ctrl.pred_coef_q12[1];
        self.plc.prev_ltp_scale_q14 = sign_extend16(ctrl.ltp_scale_q14) as i16;
        let gains = [ctrl.gains_q16[nb - 2], ctrl.gains_q16[nb - 1]];
        assert(gains@ =~= seq![ctrl.gains_q16@[nb - 2], ctrl.gains_q16@[nb - 1]]);
        self.plc.prev_gain_q16 = gains;
        self.plc.subfr_length = self.subfr_length;
        self.plc.nb_subfr = self.nb_subfr;
    }
}

/// The channel with a concealment state that belongs to its sample rate.
pub open spec fn plc_ready(channel: SilkChannelDecoder) -> SilkChannelDecoder {
    if channel.fs_khz != channel.plc.fs_khz {
        SilkChannelDecoder {
            plc: PlcState { fs_khz: channel.fs_khz, ..channel.plc_after_reset() },
            ..channel
        }
    } else {
        channel
    }
}

proof fn lemma_plc_ready(channel: SilkChannelDecoder)
    requires
        channel.valid(),
    ensures
        plc_ready(channel).valid(),
        plc_ready(channel).plc.valid(channel.fs_khz as int),
{
    lemma_geometry(channel);
    assert([0x1_0000i32, 0x1_0000i32]@[0] == 0x1_0000i32);
    assert([0x1_0000i32, 0x1_0000i32]@[1] == 0x1_0000i32);
}

impl SilkChannelDecoder {
    /// Captures a good frame, or conceals a lost one into `frame`.
    /// `inv_gain_q30` is the inverse prediction gain of the concealment filter
    /// (see [`concealment_lpc`](Self::concealment_lpc)); it matters only for a
    /// lost frame.
    pub fn plc(
        &mut self,
        ctrl: &mut DecoderControl,
        frame: &mut [i16],
        lost: bool,
        inv_gain_q30: i32,
    )
        requires
            old(self).valid(),
            lost ==> old(frame)@.len() >= old(self).frame_length && old(self).loss_cnt < i32::MAX,
            !lost ==> old(ctrl).capturable(*old(self)),
        ensures
            final(self).valid(),
            !lost ==> {
                let ready = plc_ready(*old(self));
                &&& plc_captured(ready, *old(ctrl), ready.plc, final(self).plc)
                &&& *final(self) == (SilkChannelDecoder {
                    plc: final(self).plc,
                    prev_signal_type: ready.signal_type as i32,
                    ..ready
                })
                &&& final(frame)@ == old(frame)@
                &&& *final(ctrl) == *old(ctrl)
            },
            lost ==> {
                let ready = plc_ready(*old(self));
                &&& ready.plc_concealed(inv_gain_q30 as int, final(self).plc)
                &&& final(self).slpc_q14_buf@ == ready.concealed_signal(inv_gain_q30 as int).skip(
                    ready.frame_length as int,
                )
                &&& *final(self) == (SilkChannelDecoder {
                    plc: final(self).plc,
                    slpc_q14_buf: final(self).slpc_q14_buf,
                    loss_cnt: (ready.loss_cnt + 1) as i32,
                    ..ready
                })
                &&& final(frame)@.len() == old(frame)@.len()
                &&& forall|i: int|
                    0 <= i < old(frame)@.len() ==> (#[trigger] final(frame)@[i]) == if i
                        < ready.frame_length {
                        ready.concealed_sample(inv_gain_q30 as int, i)
                    } else {
                        old(frame)@[i] as int
                    }
                &&& forall|i: int|
                    0 <= i < MAX_NB_SUBFR ==> (#[trigger] final(ctrl).pitch_l@[i])
                        == rounded_shift(final(self).plc.pitch_l_q8 as int, 8)
                &&& *final(ctrl) == (DecoderControl { pitch_l: final(ctrl).pitch_l, ..*old(ctrl) })
            },
    {
        proof {
            lemma_plc_ready(*self);
        }
        if self.fs_khz != self.plc.fs_khz {
            self.plc_reset();
            self.plc.fs_khz = self.fs_khz;
        }
        assert(*self == plc_ready(*old(self)));
        if lost {
            self.plc_conceal(ctrl, frame, inv_gain_q30);
            self.loss_cnt = self.loss_cnt + 1;
        } else {
            self.plc_update(ctrl);
        }
    }
}

/// The gain of sample `i` of a frame that is faded in from `gain`.
pub open spec fn fade_gain(gain: int, slope: int, i: int) -> int {
    gain + i * slope
}

/// Whether a fade reaches sample `i`: it ends behind the sample after which
/// its gain exceeds one.
pub open spec fn fade_reaches(gain: int, slope: int, i: int) -> bool {
    i == 0 || (fade_gain(gain, slope, 1) <= 0x1_0000 && fade_gain(gain, slope, i) <= 0x1_0000)
}

/// Sample `i` of a frame that is faded in.
pub open spec fn faded(frame: Seq<i16>, gain: int, slope: int, i: int) -> int {
    if fade_reaches(gain, slope, i) {
        low16(smulwb_of(fade_gain(gain, slope, i), frame[i] as int))
    } else {
        frame[i] as int
    }
}

/// The quotient of two words, rounded towards zero.
pub open spec fn truncated_quotient(a: int, b: int) -> int {
    if a >= 0 {
        a / b
    } else {
        -((-a) / b)
    }
}

/// The energies of the concealment and of a good frame, brought to the larger
/// of their shifts.
pub open spec fn common_energies(plc: PlcState, frame: Seq<i16>) -> (int, int) {
    let s = energy_shift(frame);
    let t = plc.conc_energy_shift as int;
    (
        if s > t {
            plc.conc_energy as int / pow2((s - t) as nat) as int
        } else {
            plc.conc_energy as int
        },
        if s < t {
            energy(frame) / pow2((t - s) as nat) as int
        } else {
            energy(frame)
        },
    )
}

/// The gain that a fade starts from, and the concealment energy that it was
/// computed with: the square root of the ratio of the energies.
pub open spec fn fade_start(concealed: int, actual: int) -> (int, int) {
    let headroom = leading_zeros(concealed) - 1;
    let scaled = wrap32(concealed * pow2(headroom as nat));
    let divisor = if headroom < 24 {
        actual / pow2((24 - headroom) as nat) as int
    } else {
        actual
    };
    (16 * sqrt_approx_of(scaled / most(divisor, 1)), scaled)
}

/// The step of the gain of a fade per sample: it would reach one after a
/// quarter of the frame.
pub open spec fn fade_slope(gain: int, len: int) -> int {
    4 * truncated_quotient(0x1_0000 - gain, len)
}

/// Whether `after` is the frame `before` faded in from `gain`.
pub open spec fn is_faded(before: Seq<i16>, after: Seq<i16>, gain: int) -> bool {
    &&& after.len() == before.len()
    &&& forall|i: int|
        0 <= i < before.len() ==> (#[trigger] after[i]) == faded(
            before,
            gain,
            fade_slope(gain, before.len() as int),
            i,
        )
}

proof fn lemma_slope(gain: int, len: int, i: int)
    requires
        0 <= gain <= 0x10_0000,
        1 <= len < 0x1000_0000,
        0 <= i <= len,
    ensures
        -0x40_0000 <= fade_slope(gain, len) <= 0x40_0000,
        -0x40_0000 <= fade_gain(gain, fade_slope(gain, len), i) <= 0x60_0000,
{
    let a = 0x1_0000 - gain;
    let q = truncated_quotient(a, len);
    let m = if a >= 0 {
        a
    } else {
        -a
    };
    assert(0 <= m / len && (m / len) * len <= m && m / len <= m) by (nonlinear_arith)
        requires
            0 <= m,
            len >= 1,
    ;
    assert(0 <= (m / len) * i <= (m / len) * len) by (nonlinear_arith)
        requires
            0 <= m / len,
            0 <= i <= len,
    ;
    let slope = fade_slope(gain, len);
    if a >= 0 {
        assert(i * slope == 4 * ((m / len) * i)) by (nonlinear_arith)
            requires
                slope == 4 * (m / len),
        ;
    } else {
        assert(i * slope == -4 * ((m / len) * i)) by (nonlinear_arith)
            requires
                slope == -4 * (m / len),
        ;
    }
}

/// Fades a frame in from `gain`.
fn fade_in(frame: &mut [i16], gain: i32)
    requires
        0 <= gain <= 0x10_0000,
        1 <= old(frame)@.len() < 0x1000_0000,
    ensures
        is_faded(old(frame)@, final(frame)@, gain as int),
{
    let len = frame.len();
    let ghost slope = fade_slope(gain as int, len as int);
    proof {
        lemma_slope(gain as int, len as int, 0);
    }
    let step: i32 = 4 * ((0x1_0000 - gain) / len as i32);
    assert(step == slope);
    let mut now = gain;
    let mut i: usize = 0;
    while i < len
        invariant_except_break
            i <= len,
            len == frame@.len(),
            len == old(frame)@.len(),
            0 <= gain <= 0x10_0000,
            1 <= len < 0x1000_0000,
            slope == fade_slope(gain as int, len as int),
            step == slope,
            now == fade_gain(gain as int, slope, i as int),
            i > 0 ==> fade_gain(gain as int, slope, 1) <= 0x1_0000 && now <= 0x1_0000,
            forall|k: int|
                0 <= k < i ==> (#[trigger] frame@[k]) == faded(
                    old(frame)@,
                    gain as int,
                    slope,
                    k,
                ),
            forall|k: int| i <= k < len ==> (#[trigger] frame@[k]) == old(frame)@[k],
        ensures
            len == frame@.len(),
            forall|k: int|
                0 <= k < len ==> (#[trigger] frame@[k]) == faded(
                    old(frame)@,
                    gain as int,
                    slope,
                    k,
                ),
        decreases len - i,
    {
        assert(fade_reaches(gain as int, slope, i as int));
        frame[i] = sign_extend16(smulwb(now, frame[i] as i32)) as i16;
        proof {
            lemma_slope(gain as int, len as int, i + 1);
            assert((i + 1) * slope == i * slope + slope) by (nonlinear_arith);
            if i == 0 {
                assert(1 * slope == slope);
            }
        }
        now = now + step;
        i = i + 1;
        if now > 0x1_0000 {
            proof {
                assert forall|k: int| i <= k < len implies (#[trigger] frame@[k]) == faded(
                    old(frame)@,
                    gain as int,
                    slope,
                    k,
                ) by {
                    lemma_fade_over(gain as int, slope, i as int, k);
                }
            }
            break;
        }
    }
}

proof fn lemma_fade_over(gain: int, slope: int, i: int, k: int)
    requires
        1 <= i <= k,
        fade_gain(gain, slope, i) > 0x1_0000,
        i > 1 ==> fade_gain(gain, slope, 1) <= 0x1_0000,
    ensures
        !fade_reaches(gain, slope, k),
{
    if i > 1 {
        assert(slope > 0) by (nonlinear_arith)
            requires
                gain + i * slope > 0x1_0000,
                gain + 1 * slope <= 0x1_0000,
                i > 1,
        ;
        assert(i * slope <= k * slope) by (nonlinear_arith)
            requires
                i <= k,
                slope > 0,
        ;
    }
}

/// A fade that starts from a gain of at most one only makes samples quieter.
pub proof fn law_fade_attenuates(before: Seq<i16>, after: Seq<i16>, gain: int, i: int)
    requires
        is_faded(before, after, gain),
        0 <= gain <= 0x1_0000,
        0 <= i < before.len(),
    ensures
        before[i] >= 0 ==> 0 <= after[i] <= before[i],
        before[i] <= 0 ==> before[i] <= after[i] <= 0,
{
    let slope = fade_slope(gain, before.len() as int);
    assert(after[i] == faded(before, gain, slope, i));
    if fade_reaches(gain, slope, i) {
        let g = fade_gain(gain, slope, i);
        let x = before[i] as int;
        let q = (0x1_0000 - gain) / before.len() as int;
        assert(q >= 0) by (nonlinear_arith)
            requires
                gain <= 0x1_0000,
                before.len() >= 1,
                q == (0x1_0000 - gain) / before.len() as int,
        ;
        assert(i * slope >= 0) by (nonlinear_arith)
            requires
                i >= 0,
                slope == 4 * q,
                q >= 0,
        ;
        if i == 0 {
            assert(i * slope == 0);
        }
        assert(0 <= g <= 0x1_0000);
        assert(x >= 0 ==> 0 <= g * x <= 0x1_0000 * x) by (nonlinear_arith)
            requires
                0 <= g <= 0x1_0000,
        ;
        assert(x <= 0 ==> 0x1_0000 * x <= g * x <= 0) by (nonlinear_arith)
            requires
                0 <= g <= 0x1_0000,
        ;
    }
}

impl SilkChannelDecoder {
    /// Measures the energy of a concealed frame; fades the first good frame in
    /// where it is louder than the concealment was.
    pub fn plc_glue_frames(&mut self, frame: &mut [i16])
        requires
            old(self).plc.energy_valid(),
            1 <= old(frame)@.len() < 0x1000_0000,
        ensures
            final(self).plc.energy_valid(),
            *final(self) == (SilkChannelDecoder { plc: final(self).plc, ..*old(self) }),
            final(self).plc == (PlcState {
                conc_energy: final(self).plc.conc_energy,
                conc_energy_shift: final(self).plc.conc_energy_shift,
                last_frame_lost: old(self).loss_cnt != 0,
                ..old(self).plc
            }),
            final(self).plc.conc_energy_shift == if old(self).loss_cnt != 0 {
                energy_shift(old(frame)@)
            } else {
                old(self).plc.conc_energy_shift as int
            },
            ({
                let (concealed, actual) = common_energies(old(self).plc, old(frame)@);
                if old(self).loss_cnt != 0 {
                    &&& final(self).plc.conc_energy == energy(old(frame)@)
                    &&& final(frame)@ == old(frame)@
                } else if !old(self).plc.last_frame_lost {
                    &&& final(self).plc.conc_energy == old(self).plc.conc_energy
                    &&& final(frame)@ == old(frame)@
                } else if actual <= concealed {
                    &&& final(self).plc.conc_energy == concealed
                    &&& final(frame)@ == old(frame)@
                } else {
                    let (gain, scaled) = fade_start(concealed, actual);
                    &&& final(self).plc.conc_energy == scaled
                    &&& is_faded(old(frame)@, final(frame)@, gain)
                }
            }),
    {
        if self.loss_cnt != 0 {
            let (energy, shift) = sum_sqr_shift(frame);
            self.plc.conc_energy = energy;
            self.plc.conc_energy_shift = shift;
            self.plc.last_frame_lost = true;
        } else {
            if self.plc.last_frame_lost {
                let (measured, shift) = sum_sqr_shift(frame);
                let mut actual = measured;
                let mut concealed = self.plc.conc_energy;
                let conc_shift = self.plc.conc_energy_shift;
                if shift > conc_shift {
                    concealed = shift_down(concealed as i64, (shift - conc_shift) as u32) as i32;
                } else if shift < conc_shift {
                    actual = shift_down(actual as i64, (conc_shift - shift) as u32) as i32;
                }
                assert((concealed as int, actual as int) == common_energies(self.plc, frame@));
                if actual > concealed {
                    let headroom = clz32(concealed) - 1;
                    let scaled = if concealed == 0 {
                        0
                    } else {
                        shift_up(concealed, headroom as u32)
                    };
                    proof {
                        lemma_scaled(concealed as int);
                    }
                    let divisor = if headroom < 24 {
                        shift_down(actual as i64, (24 - headroom) as u32) as i32
                    } else {
                        actual
                    };
                    let ratio = scaled / if divisor > 1 {
                        divisor
                    } else {
                        1
                    };
                    let gain = 16 * sqrt_approx(ratio);
                    assert((gain as int, scaled as int) == fade_start(
                        concealed as int,
                        actual as int,
                    ));
                    fade_in(frame, gain);
                    concealed = scaled;
                }
                self.plc.conc_energy = concealed;
            }
            self.plc.last_frame_lost = false;
        }
    }
}

proof fn lemma_scaled(x: int)
    requires
        0 <= x <= 0x7FFF_FFFF,
    ensures
        ({
            let headroom = leading_zeros(x) - 1;
            0 <= headroom <= 31 && 0 <= wrap32(x * pow2(headroom as nat)) && (x == 0 ==> wrap32(
                x * pow2(headroom as nat),
            ) == 0)
        }),
{
    lemma2_to64();
    let headroom = leading_zeros(x) - 1;
    if x > 0 {
        lemma_bit_length(x);
        lemma_bit_length_at_most(x, 31);
        let l = bit_length(x);
        vstd::arithmetic::power2::lemma_pow2_adds(headroom as nat, l);
        vstd::arithmetic::power2::lemma_pow2_pos(headroom as nat);
        let d = pow2(headroom as nat) as int;
        assert(0 <= x * d < 0x8000_0000) by (nonlinear_arith)
            requires
                d > 0,
                0 <= x < pow2(l),
                d * pow2(l) == 0x8000_0000,
        ;
    } else {
        assert(x * pow2(headroom as nat) == 0) by (nonlinear_arith)
            requires
                x == 0,
        ;
    }
}

/// The sum of a sequence of filter taps.
pub open spec fn tap_sum(taps: Seq<i16>) -> int
    decreases taps.len(),
{
    if taps.len() == 0 {
        0
    } else {
        tap_sum(taps.drop_last()) + taps.last()
    }
}

/// The taps of the pitch predictor of subframe `k`.
pub open spec fn pitch_taps(ctrl: DecoderControl, k: int) -> Seq<i16> {
    ctrl.ltp_coef_q14@.subrange(5 * k, 5 * k + 5)
}

proof fn lemma_pitch_gain(ctrl: DecoderControl, k: int)
    requires
        0 <= k < MAX_NB_SUBFR,
    ensures
        pitch_gain(ctrl, k) == tap_sum(pitch_taps(ctrl, k)),
{
    let t = pitch_taps(ctrl, k);
    reveal_with_fuel(tap_sum, 6);
    assert(t.drop_last().drop_last().drop_last().drop_last().drop_last().len() == 0);
}

/// The strongest pitch is no weaker than that of any subframe it was taken from,
/// and belongs to the last one that is as strong.
proof fn lemma_strongest_is_maximal(ctrl: DecoderControl, nb: int, n: int, j: int)
    requires
        0 <= j < n <= nb,
    ensures
        ({
            let (gain, at) = strongest_pitch(ctrl, nb, n);
            &&& gain >= 0
            &&& pitch_gain(ctrl, nb - 1 - j) <= gain
            &&& at is None ==> gain == 0
            &&& at matches Some(i) ==> {
                &&& 0 <= i < n
                &&& gain > 0
                &&& pitch_gain(ctrl, nb - 1 - i) == gain
                &&& j < i ==> pitch_gain(ctrl, nb - 1 - j) < gain
            }
        }),
    decreases n,
{
    lemma_strongest_pitch(ctrl, nb, n - 1);
    if j < n - 1 {
        lemma_strongest_is_maximal(ctrl, nb, n - 1, j);
    } else if n > 1 {
        lemma_strongest_is_maximal(ctrl, nb, n - 1, 0);
    }
}

proof fn lemma_in_reach(lag: int, length: int, nb: int, j: int)
    requires
        0 <= j < nb,
        length > 0,
    ensures
        0 <= pulse_subframes(lag, length, nb) <= nb,
        j * length < lag <==> j < pulse_subframes(lag, length, nb),
    decreases nb,
{
    if (nb - 1) * length < lag {
        assert(j * length <= (nb - 1) * length) by (nonlinear_arith)
            requires
                j <= nb - 1,
                length > 0,
        ;
    } else if j < nb - 1 {
        lemma_in_reach(lag, length, nb - 1, j);
    } else if nb > 1 {
        lemma_in_reach(lag, length, nb - 1, 0);
    } else {
        assert(pulse_subframes(lag, length, 0) == 0);
    }
}

/// What is captured of a voiced frame is the strongest pitch. Of the subframes
/// that begin less than the last lag before the end of the frame, counted in
/// subframes `j` from the end, the lag is that of one whose taps have the
/// largest sum, and of the last one if there are more. Where no sum is positive
/// the lag stays.
pub proof fn law_captured_pitch_is_strongest(
    channel: SilkChannelDecoder,
    ctrl: DecoderControl,
    before: PlcState,
    after: PlcState,
    j: int,
)
    requires
        channel.geometry(),
        channel.signal_type == TYPE_VOICED,
        plc_captured(channel, ctrl, before, after),
        0 <= j < channel.nb_subfr,
        j * channel.subfr_length < ctrl.pitch_l@[channel.nb_subfr - 1],
    ensures
        ({
            let nb = channel.nb_subfr as int;
            let other = tap_sum(pitch_taps(ctrl, nb - 1 - j));
            ||| other <= 0 && after.pitch_l_q8 == before.pitch_l_q8
            ||| exists|i: int|
                {
                    &&& 0 <= i < nb
                    &&& i * channel.subfr_length < ctrl.pitch_l@[nb - 1]
                    &&& after.pitch_l_q8 == 256 * (#[trigger] ctrl.pitch_l@[nb - 1 - i])
                    &&& tap_sum(pitch_taps(ctrl, nb - 1 - i)) > 0
                    &&& other <= tap_sum(pitch_taps(ctrl, nb - 1 - i))
                    &&& j < i ==> other < tap_sum(pitch_taps(ctrl, nb - 1 - i))
                    &&& after.ltp_coef_q14@[2] == starting_tap(
                        tap_sum(pitch_taps(ctrl, nb - 1 - i)),
                    )
                }
        }),
{
    lemma_geometry(channel);
    let nb = channel.nb_subfr as int;
    let length = channel.subfr_length as int;
    let lag = ctrl.pitch_l@[nb - 1] as int;
    let n = pulse_subframes(lag, length, nb);
    lemma_in_reach(lag, length, nb, j);
    lemma_strongest_is_maximal(ctrl, nb, n, j);
    lemma_pitch_gain(ctrl, nb - 1 - j);
    let (gain, at) = strongest_pitch(ctrl, nb, n);
    match at {
        Some(i) => {
            lemma_in_reach(lag, length, nb, i);
            lemma_pitch_gain(ctrl, nb - 1 - i);
            lemma_starting_tap(gain);
            assert(after.pitch_l_q8 == 256 * ctrl.pitch_l@[nb - 1 - i]);
        },
        None => {},
    }
}

proof fn lemma_starting_tap(gain: int)
    ensures
        -0x8000 <= starting_tap(gain) < 0x8000,
{
}

/// A concealment starts with the pitch gain itself where that lies between 0.7
/// and 0.95, in Q14. A weaker one is raised to 0.7, a stronger one lowered to
/// 0.95, up to rounding down; without a gain there is no pitch. Gains whose
/// scale does not fit in 16 bits, below 0.022 or beyond two, are left out.
pub proof fn law_starting_tap_limits(gain: int)
    requires
        gain == 0 || 359 <= gain <= 0x7FFF,
    ensures
        gain == 0 ==> starting_tap(gain) == 0,
        359 <= gain < 11469 ==> 11469 - 12 <= starting_tap(gain) <= 11469,
        11469 <= gain <= 15565 ==> starting_tap(gain) == gain,
        gain > 15565 ==> 15565 - 3 <= starting_tap(gain) <= 15565,
{
    if gain == 0 {
        let x = low16((11469int * 0x400) / 1int);
        assert(0 * x == 0);
    } else if gain < 11469 {
        let q = (11469int * 0x400) / gain;
        vstd::arithmetic::div_mod::lemma_fundamental_div_mod(11469int * 0x400, gain);
        assert(0 <= q <= 0x7FFF && 11469 * 0x400 - gain < gain * q <= 11469 * 0x400)
            by (nonlinear_arith)
            requires
                359 <= gain,
                11469 * 0x400 == gain * q + (11469int * 0x400) % gain,
                0 <= (11469int * 0x400) % gain < gain,
        ;
        assert(smulbb_of(gain, q) == gain * q);
    } else if gain > 15565 {
        let q = (15565int * 0x4000) / gain;
        vstd::arithmetic::div_mod::lemma_fundamental_div_mod(15565int * 0x4000, gain);
        assert(0 <= q <= 0x7FFF && 15565 * 0x4000 - gain < gain * q <= 15565 * 0x4000)
            by (nonlinear_arith)
            requires
                15565 < gain,
                15565 * 0x4000 == gain * q + (15565int * 0x4000) % gain,
                0 <= (15565int * 0x4000) % gain < gain,
        ;
        assert(smulbb_of(gain, q) == gain * q);
    }
}

/// A fade begins with the gain that it starts from, rises, and is back at one
/// after a quarter of the frame, to within the rounding of its step.
pub proof fn law_fade_takes_a_quarter(before: Seq<i16>, after: Seq<i16>, gain: int, i: int)
    requires
        is_faded(before, after, gain),
        0 <= gain <= 0x1_0000,
        1 <= before.len() < 0x1000_0000,
        0 <= i < before.len(),
    ensures
        gain * before[0] - 0x1_0000 < 0x1_0000 * after[0] <= gain * before[0],
        ({
            let slope = fade_slope(gain, before.len() as int);
            &&& slope >= 0
            &&& before.len() * slope <= 4 * (0x1_0000 - gain) < before.len() * (slope + 4)
            &&& gain + i * slope > 0x1_0000 && i > 0 ==> after[i] == before[i]
            &&& gain + i * slope <= 0x1_0000 ==> (gain + i * slope) * before[i] - 0x1_0000
                < 0x1_0000 * after[i] <= (gain + i * slope) * before[i]
        }),
{
    let len = before.len() as int;
    let slope = fade_slope(gain, len);
    let d = 0x1_0000 - gain;
    let q = d / len;
    vstd::arithmetic::div_mod::lemma_fundamental_div_mod(d, len);
    assert(q >= 0 && len * q <= d < len * (q + 1)) by (nonlinear_arith)
        requires
            len >= 1,
            d >= 0,
            d == len * q + d % len,
            0 <= d % len < len,
    ;
    assert(len * slope == 4 * (len * q) && len * (slope + 4) == 4 * (len * (q + 1)))
        by (nonlinear_arith)
        requires
            slope == 4 * q,
    ;
    assert(after[0] == faded(before, gain, slope, 0));
    assert(after[i] == faded(before, gain, slope, i));
    assert(0 * slope == 0 && 1 * slope == slope);
    lemma_faded_sample(gain, before[0] as int);
    let g = fade_gain(gain, slope, i);
    assert(i * slope >= 0 && (i >= 1 ==> i * slope >= slope)) by (nonlinear_arith)
        requires
            i >= 0,
            slope >= 0,
    ;
    if g <= 0x1_0000 {
        lemma_faded_sample(g, before[i] as int);
        if i == 0 {
            assert(i * slope == 0) by (nonlinear_arith)
                requires
                    i == 0,
            ;
        }
    }
}

proof fn lemma_faded_sample(g: int, x: int)
    requires
        0 <= g <= 0x1_0000,
        -0x8000 <= x < 0x8000,
    ensures
        ({
            let y = low16(smulwb_of(g, x));
            g * x - 0x1_0000 < 0x1_0000 * y <= g * x
        }),
{
    assert(low16(x) == x);
    assert(-0x8000 * 0x1_0000 <= g * x <= 0x7FFF * 0x1_0000) by (nonlinear_arith)
        requires
            0 <= g <= 0x1_0000,
            -0x8000 <= x < 0x8000,
    ;
    let y = (g * x) / 0x1_0000;
    assert(-0x8000 <= y <= 0x7FFF);
}

/// A concealment without a good frame before it starts with a pitch lag of half
/// a frame and gains of one.
pub proof fn law_reset_is_neutral(channel: SilkChannelDecoder)
    requires
        channel.geometry(),
    ensures
        2 * channel.plc_after_reset().pitch_l_q8 == 256 * channel.frame_length,
        channel.plc_after_reset().subfr_length == 20,
        channel.plc_after_reset().nb_subfr == 2,
        channel.plc_after_reset().prev_gain_q16@ == seq![0x1_0000i32, 0x1_0000i32],
        channel.plc_after_reset().ltp_coef_q14 == channel.plc.ltp_coef_q14,
        channel.plc_after_reset().last_frame_lost == channel.plc.last_frame_lost,
{
    lemma_geometry(channel);
    assert([0x1_0000i32, 0x1_0000i32]@ =~= seq![0x1_0000i32, 0x1_0000i32]);
}

/// The bounds on the gain of a fade, from those on the root `s` of the quotient
/// `x` and on the divisor `v` of that.
proof fn lemma_fade_bounds(concealed: int, actual: int, q: int, v: int, x: int, s: int)
    requires
        concealed >= 0,
        q > 0,
        v >= 64,
        x >= 0,
        s >= 0,
        q * v <= actual < q * v + q,
        q * (x * v) <= 0x100_0000 * concealed < q * (x * v) + q * v,
        100 * (s * s) <= 101 * x,
        94 * x < 100 * ((s + 3) * (s + 3)),
    ensures
        100 * ((16 * s) * (16 * s) * actual) <= 103 * (0x1_0000_0000 * concealed),
        94 * (0x1_0000_0000 * concealed) < 100 * ((16 * s + 64) * (16 * s + 64) * actual),
{
    let square = s * s;
    let next = (s + 4) * (s + 4);
    let xa = x * actual;
    let goal = 0x100_0000 * concealed;
    let (qv, xq) = (q * v, x * q);
    let xqv = q * (x * v);
    assert(xq * v == xqv && x * qv == xqv) by (nonlinear_arith)
        requires
            qv == q * v,
            xq == x * q,
            xqv == q * (x * v),
    ;
    assert(64 * q <= qv && actual >= 0) by (nonlinear_arith)
        requires
            q > 0,
            v >= 64,
            qv == q * v,
            qv <= actual,
    ;
    assert(64 * xq <= xqv) by (nonlinear_arith)
        requires
            xq * v == xqv,
            v >= 64,
            xq >= 0,
    ;
    assert(xqv <= xa <= xqv + xq) by (nonlinear_arith)
        requires
            x >= 0,
            qv <= actual <= qv + q,
            xa == x * actual,
            xq == x * q,
            x * qv == xqv,
    ;
    assert(100 * (square * actual) <= 101 * xa) by (nonlinear_arith)
        requires
            100 * square <= 101 * x,
            actual >= 0,
            xa == x * actual,
    ;
    assert((16 * s) * (16 * s) * actual == 256 * (square * actual)) by (nonlinear_arith)
        requires
            square == s * s,
    ;
    assert((16 * s + 64) * (16 * s + 64) * actual == 256 * (next * actual)) by (nonlinear_arith)
        requires
            next == (s + 4) * (s + 4),
    ;
    assert(94 * x + 94 <= 100 * next) by (nonlinear_arith)
        requires
            94 * x < 100 * ((s + 3) * (s + 3)),
            next == (s + 4) * (s + 4),
            s >= 0,
    ;
    assert(94 * xa + 94 * actual <= 100 * (next * actual)) by (nonlinear_arith)
        requires
            94 * x + 94 <= 100 * next,
            actual >= 0,
            xa == x * actual,
    ;
}

/// A fade starts from the square root of the ratio of the two energies, in Q16:
/// its square, times the energy of the frame, is the energy of the concealment to
/// within a few per cent. Energies of the concealment below 64 are left out.
pub proof fn law_fade_starts_at_energy_ratio(concealed: int, actual: int)
    requires
        64 <= concealed <= actual < 0x8000_0000,
    ensures
        ({
            let (gain, scaled) = fade_start(concealed, actual);
            &&& gain >= 0
            &&& 100 * (gain * gain * actual) <= 103 * (0x1_0000_0000 * concealed)
            &&& 94 * (0x1_0000_0000 * concealed) < 100 * ((gain + 64) * (gain + 64) * actual)
            &&& 0x4000_0000 <= scaled < 0x8000_0000
        }),
{
    vstd::arithmetic::power2::lemma2_to64();
    lemma_bit_length(concealed);
    lemma_bit_length_at_most(concealed, 31);
    lemma_bit_length_more_than(concealed, 6);
    let l = bit_length(concealed);
    let h = (31 - l) as nat;
    let p = pow2(h) as int;
    let q = pow2((24 - h) as nat) as int;
    vstd::arithmetic::power2::lemma_pow2_pos(h);
    vstd::arithmetic::power2::lemma_pow2_pos((24 - h) as nat);
    vstd::arithmetic::power2::lemma_pow2_adds(h, l);
    vstd::arithmetic::power2::lemma_pow2_adds(h, (l - 1) as nat);
    vstd::arithmetic::power2::lemma_pow2_adds(h, (24 - h) as nat);
    let scaled = concealed * p;
    assert(0x4000_0000 <= scaled < 0x8000_0000) by (nonlinear_arith)
        requires
            pow2((l - 1) as nat) <= concealed < pow2(l),
            p > 0,
            p * pow2((l - 1) as nat) == 0x4000_0000,
            p * pow2(l) == 0x8000_0000,
            scaled == concealed * p,
    ;
    let v = actual / q;
    vstd::arithmetic::div_mod::lemma_fundamental_div_mod(actual, q);
    assert(v >= 64) by (nonlinear_arith)
        requires
            q > 0,
            p > 0,
            p * q == 0x100_0000,
            actual >= concealed,
            concealed * p >= 0x4000_0000,
            actual == q * v + actual % q,
            0 <= actual % q < q,
    {
        assert(actual * p >= concealed * p);
        assert(p * (q * (v + 1)) == (p * q) * (v + 1));
    }
    let x = scaled / v;
    vstd::arithmetic::div_mod::lemma_fundamental_div_mod(scaled, v);
    let s = sqrt_approx_of(x);
    assert(0 <= x <= scaled) by (nonlinear_arith)
        requires
            v >= 64,
            scaled >= 0,
            scaled == v * x + scaled % v,
            0 <= scaled % v < v,
    ;
    if x > 0 {
        law_root_is_accurate(x);
    } else {
        assert(s == 0);
        assert(s * s == 0 && (s + 3) * (s + 3) == 9) by (nonlinear_arith)
            requires
                s == 0,
        ;
    }
    assert(fade_start(concealed, actual) == (16 * s, scaled)) by {
        if h == 24 {
            assert(actual / 1 == actual);
        }
    }
    assert(q * scaled == 0x100_0000 * concealed) by (nonlinear_arith)
        requires
            p * q == 0x100_0000,
            scaled == concealed * p,
    ;
    assert(q * (x * v) <= q * scaled < q * (x * v) + q * v) by (nonlinear_arith)
        requires
            q > 0,
            scaled == v * x + scaled % v,
            0 <= scaled % v < v,
    ;
    lemma_fade_bounds(concealed, actual, q, v, x, s);
}

/// The two energies are compared in a common unit, the coarser one of theirs, and
/// rounded down to it.
pub proof fn law_energies_in_common_unit(plc: PlcState, frame: Seq<i16>)
    requires
        plc.conc_energy_shift >= 0,
        energy_shift(frame) >= 0,
    ensures
        ({
            let (concealed, actual) = common_energies(plc, frame);
            let s = pow2(energy_shift(frame) as nat);
            let t = pow2(plc.conc_energy_shift as nat);
            let unit = if energy_shift(frame) > plc.conc_energy_shift {
                s
            } else {
                t
            };
            &&& unit * concealed <= t * plc.conc_energy < unit * (concealed + 1)
            &&& unit * actual <= s * energy(frame) < unit * (actual + 1)
        }),
{
    let s = energy_shift(frame);
    let t = plc.conc_energy_shift as int;
    vstd::arithmetic::power2::lemma_pow2_pos(s as nat);
    vstd::arithmetic::power2::lemma_pow2_pos(t as nat);
    if s > t {
        vstd::arithmetic::power2::lemma_pow2_pos((s - t) as nat);
        vstd::arithmetic::power2::lemma_pow2_adds(t as nat, (s - t) as nat);
        lemma_coarser(plc.conc_energy as int, pow2(t as nat) as int, pow2((s - t) as nat) as int);
        lemma_coarser(energy(frame), pow2(s as nat) as int, 1);
    } else {
        vstd::arithmetic::power2::lemma2_to64();
        vstd::arithmetic::power2::lemma_pow2_pos((t - s) as nat);
        vstd::arithmetic::power2::lemma_pow2_adds(s as nat, (t - s) as nat);
        lemma_coarser(energy(frame), pow2(s as nat) as int, pow2((t - s) as nat) as int);
        lemma_coarser(plc.conc_energy as int, pow2(t as nat) as int, 1);
    }
}

/// A quantity in units of `fine`, rounded down to units of `fine * d`.
proof fn lemma_coarser(x: int, fine: int, d: int)
    requires
        fine > 0,
        d > 0,
    ensures
        (fine * d) * (x / d) <= fine * x < (fine * d) * (x / d + 1),
        d == 1 ==> x / d == x && fine * d == fine,
{
    vstd::arithmetic::div_mod::lemma_fundamental_div_mod(x, d);
    assert((fine * d) * (x / d) <= fine * x < (fine * d) * (x / d + 1)) by (nonlinear_arith)
        requires
            fine > 0,
            x == d * (x / d) + x % d,
            0 <= x % d < d,
    ;
    if d == 1 {
        assert(fine * d == fine) by (nonlinear_arith)
            requires
                d == 1,
        ;
    }
}

} // verus!
