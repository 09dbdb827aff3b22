//! Comfort noise.
//!
//! While good frames without voice activity come in, their spectrum, gain and
//! excitation are smoothed into an estimate of the background noise. Frames
//! that are concealed get noise of that kind added.

use vstd::arithmetic::power2::lemma2_to64;
use vstd::prelude::*;

use super::decoder::{
    lemma_geometry, CngState, DecoderControl, SilkChannelDecoder, MAX_FRAME_LENGTH,
    TYPE_NO_VOICE_ACTIVITY,
};
use super::lpc::{lpc_synthesis, synthesised, MAX_LPC_ORDER};
use super::math::{
    add_sat16, rand_of, rounded_shift, rshift_round, sat16, saturate16, shift_down, shift_up,
    silk_rand, smultt, smultt_of, smulwb, smulwb_of, smulww, smulww_of, sqrt_approx,
    sqrt_approx_of, truncate32, wrap32,
};

verus! {

/// The smoothing of the line spectral frequencies, in Q16.
pub const CNG_NLSF_SMTH_Q16: i32 = 16348;

/// The smoothing of the gain, in Q16.
pub const CNG_GAIN_SMTH_Q16: i32 = 4634;

/// The share of the smoothed gain that a lower gain resets it from, in Q16.
pub const CNG_GAIN_SMTH_THRESHOLD_Q16: i32 = 46396;

/// The first state of the noise generator.
pub const CNG_SEED: i32 = 3_176_576;

/// A line spectral frequency moved towards a new one.
pub open spec fn smoothed_nlsf(smoothed: int, now: int) -> int {
    smoothed + smulwb_of(now - smoothed, CNG_NLSF_SMTH_Q16 as int)
}

/// The smoothed gain after the gain of one more subframe.
pub open spec fn smoothed_gain(smoothed: int, gain: int) -> int {
    let next = smoothed + smulwb_of(gain - smoothed, CNG_GAIN_SMTH_Q16 as int);
    if smulww_of(next, CNG_GAIN_SMTH_THRESHOLD_Q16 as int) > gain {
        gain
    } else {
        next
    }
}

/// The smoothed gain after the gains of `n` subframes.
pub open spec fn smoothed_gains(smoothed: int, gains: Seq<i32>, n: int) -> int
    decreases n,
{
    if n <= 0 {
        smoothed
    } else {
        smoothed_gain(smoothed_gains(smoothed, gains, n - 1), gains[n - 1] as int)
    }
}

/// The first of `n` subframes with the largest gain.
pub open spec fn loudest(gains: Seq<i32>, n: int) -> int
    decreases n,
{
    if n <= 1 {
        0
    } else if gains[n - 1] > gains[loudest(gains, n - 1)] {
        n - 1
    } else {
        loudest(gains, n - 1)
    }
}

/// The gain of the noise that fills a concealed frame up to the background
/// level, in Q16: the root of the difference between the background energy
/// and that of the concealment.
pub open spec fn comfort_gain(rand_scale: int, prev_gain: int, smoothed: int) -> int {
    let g = smulww_of(rand_scale, prev_gain);
    if g >= 0x20_0000 || smoothed > 0x80_0000 {
        wrap32(
            sqrt_approx_of(wrap32(smultt_of(smoothed, smoothed) - 32 * smultt_of(g, g)))
                * 0x1_0000,
        )
    } else {
        sqrt_approx_of(wrap32(smulww_of(smoothed, smoothed) - 32 * smulww_of(g, g))) * 0x100
    }
}

/// The number of buffered samples that noise is drawn from for a frame of this
/// length.
pub open spec fn noise_span(length: int) -> int {
    if length >= 255 {
        256
    } else if length >= 127 {
        128
    } else {
        64
    }
}

/// The state of the noise generator after `n` steps.
pub open spec fn seed_after(seed: int, n: int) -> int
    decreases n,
{
    if n <= 0 {
        seed
    } else {
        rand_of(seed_after(seed, n - 1))
    }
}

impl SilkChannelDecoder {
    /// Whether the comfort noise state belongs to another sample rate.
    pub open spec fn cng_stale(self) -> bool {
        self.fs_khz != self.cng.fs_khz
    }

    /// The smoothed line spectral frequency `i`: evenly spread where the state
    /// is stale.
    pub open spec fn comfort_nlsf_at(self, i: int) -> int {
        if self.cng_stale() && i < self.lpc_order {
            (i + 1) * (0x7FFFint / (self.lpc_order as int + 1))
        } else {
            self.cng.smth_nlsf_q15@[i] as int
        }
    }

    /// The smoothed gain.
    pub open spec fn comfort_level(self) -> int {
        if self.cng_stale() {
            0
        } else {
            self.cng.smth_gain_q16 as int
        }
    }

    /// The state of the noise generator.
    pub open spec fn comfort_seed(self) -> int {
        if self.cng_stale() {
            CNG_SEED as int
        } else {
            self.cng.rand_seed as int
        }
    }

    /// Whether the frame updates the estimate: a good one without voice
    /// activity.
    pub open spec fn cng_learns(self) -> bool {
        self.loss_cnt == 0 && self.prev_signal_type == TYPE_NO_VOICE_ACTIVITY
    }

    /// The buffered excitation after a frame: that of its loudest subframe in
    /// front, and the rest moved back by a subframe.
    pub open spec fn comfort_excitation(self, ctrl: DecoderControl, i: int) -> int {
        let len = self.subfr_length as int;
        if !self.cng_learns() || i >= self.frame_length {
            self.cng.exc_buf_q14@[i] as int
        } else if i < len {
            self.exc_q14@[loudest(ctrl.gains_q16@, self.nb_subfr as int) * len + i] as int
        } else {
            self.cng.exc_buf_q14@[i - len] as int
        }
    }

    /// The noise excitation of a concealed frame.
    pub open spec fn noise_excitation(self) -> Seq<i32> {
        Seq::new(
            self.frame_length as nat,
            |i: int|
                self.cng.exc_buf_q14@[(seed_after(self.comfort_seed(), i + 1) / 0x100_0000)
                    % noise_span(self.frame_length as int)],
        )
    }

    /// The comfort noise of a concealed frame, in Q14 at unit gain, behind the
    /// state of its filter.
    pub open spec fn noise_signal(self, a: Seq<i16>) -> Seq<i32> {
        synthesised(
            self.cng.synth_state@,
            self.noise_excitation(),
            a,
            self.lpc_order as int,
            self.frame_length as int,
        )
    }

    /// Sample `i` of a concealed frame with comfort noise added.
    pub open spec fn with_noise(self, frame: Seq<i16>, a: Seq<i16>, i: int) -> int {
        let gain = comfort_gain(
            self.plc.rand_scale_q14 as int,
            self.plc.prev_gain_q16@[1] as int,
            self.comfort_level(),
        ) / 64;
        sat16(
            frame[i] + sat16(
                rounded_shift(smulww_of(self.noise_signal(a)[MAX_LPC_ORDER + i] as int, gain), 8),
            ),
        )
    }

    /// Whether `after` is the comfort noise state behind a frame.
    pub open spec fn cng_updated(
        self,
        ctrl: DecoderControl,
        a: Seq<i16>,
        after: CngState,
    ) -> bool {
        &&& after.fs_khz == self.fs_khz
        &&& forall|i: int|
            0 <= i < MAX_LPC_ORDER ==> (#[trigger] after.smth_nlsf_q15@[i]) == if self.cng_learns()
                && i < self.lpc_order {
                smoothed_nlsf(self.comfort_nlsf_at(i), self.prev_nlsf_q15@[i] as int)
            } else {
                self.comfort_nlsf_at(i)
            }
        &&& after.smth_gain_q16 == if self.cng_learns() {
            smoothed_gains(self.comfort_level(), ctrl.gains_q16@, self.nb_subfr as int)
        } else {
            self.comfort_level()
        }
        &&& forall|i: int|
            0 <= i < MAX_FRAME_LENGTH ==> (#[trigger] after.exc_buf_q14@[i])
                == self.comfort_excitation(ctrl, i)
        &&& after.rand_seed == if self.loss_cnt != 0 {
            seed_after(self.comfort_seed(), self.frame_length as int)
        } else {
            self.comfort_seed()
        }
        &&& after.synth_state@ == if self.loss_cnt != 0 {
            self.noise_signal(a).skip(self.frame_length as int)
        } else {
            Seq::new(
                MAX_LPC_ORDER as nat,
                |i: int|
                    if i < self.lpc_order {
                        0
                    } else {
                        self.cng.synth_state@[i]
                    },
            )
        }
    }
}

proof fn lemma_smoothing(smoothed: int, now: int, rate: int)
    requires
        0 <= rate <= 0x7FFF,
    ensures
        now >= smoothed ==> smoothed <= smoothed + smulwb_of(now - smoothed, rate) <= now,
        now <= smoothed ==> now <= smoothed + smulwb_of(now - smoothed, rate) <= smoothed,
{
    let d = now - smoothed;
    if d >= 0 {
        assert(0 <= (d * rate) / 0x1_0000 <= d) by (nonlinear_arith)
            requires
                d >= 0,
                0 <= rate <= 0x7FFF,
        ;
    } else {
        assert(d <= (d * rate) / 0x1_0000 <= 0) by (nonlinear_arith)
            requires
                d < 0,
                0 <= rate <= 0x7FFF,
        ;
    }
}

proof fn lemma_loudest(gains: Seq<i32>, n: int)
    requires
        n >= 1,
    ensures
        0 <= loudest(gains, n) < n,
    decreases n,
{
    if n > 1 {
        lemma_loudest(gains, n - 1);
    }
}

/// Moves the smoothed frequencies towards those of a frame.
fn smooth_nlsf(smoothed: &mut [i16; 16], now: &[i16; 16], order: usize)
    requires
        order <= MAX_LPC_ORDER,
    ensures
        forall|i: int|
            0 <= i < MAX_LPC_ORDER ==> (#[trigger] final(smoothed)@[i]) == if i < order {
                smoothed_nlsf(old(smoothed)@[i] as int, now@[i] as int)
            } else {
                old(smoothed)@[i] as int
            },
{
    let mut i: usize = 0;
    while i < order
        invariant
            i <= order <= MAX_LPC_ORDER,
            forall|k: int|
                0 <= k < i ==> (#[trigger] smoothed@[k]) == smoothed_nlsf(
                    old(smoothed)@[k] as int,
                    now@[k] as int,
                ),
            forall|k: int| i <= k < MAX_LPC_ORDER ==> (#[trigger] smoothed@[k]) == old(smoothed)@[k],
        decreases order - i,
    {
        let s = smoothed[i] as i32;
        let p = now[i] as i32;
        proof {
            lemma_smoothing(s as int, p as int, CNG_NLSF_SMTH_Q16 as int);
        }
        smoothed[i] = (s + smulwb(p - s, CNG_NLSF_SMTH_Q16)) as i16;
        i = i + 1;
    }
}

/// The smoothed gain after the gains of a frame.
fn smooth_gain(level: i32, gains: &[i32; 4], n: usize) -> (res: i32)
    requires
        level >= 0,
        n <= 4,
        forall|i: int| 0 <= i < n ==> (#[trigger] gains@[i]) > 0,
    ensures
        res == smoothed_gains(level as int, gains@, n as int),
        res >= 0,
{
    let mut res = level;
    let mut i: usize = 0;
    while i < n
        invariant
            i <= n <= 4,
            forall|k: int| 0 <= k < n ==> (#[trigger] gains@[k]) > 0,
            res >= 0,
            res == smoothed_gains(level as int, gains@, i as int),
        decreases n - i,
    {
        let g = gains[i];
        proof {
            lemma_smoothing(res as int, g as int, CNG_GAIN_SMTH_Q16 as int);
        }
        res = res + smulwb(g - res, CNG_GAIN_SMTH_Q16);
        if smulww(res, CNG_GAIN_SMTH_THRESHOLD_Q16) > g {
            res = g;
        }
        i = i + 1;
    }
    res
}

/// The first of `n` subframes with the largest gain.
fn loudest_subframe(gains: &[i32; 4], n: usize) -> (at: usize)
    requires
        1 <= n <= 4,
    ensures
        at == loudest(gains@, n as int),
        at < n,
{
    let mut at: usize = 0;
    let mut i: usize = 1;
    while i < n
        invariant
            1 <= i <= n <= 4,
            at < i,
            at == loudest(gains@, i as int),
        decreases n - i,
    {
        if gains[i] > gains[at] {
            at = i;
        }
        i = i + 1;
    }
    at
}

/// The gain of the comfort noise.
fn noise_gain(rand_scale: i32, prev_gain: i32, level: i32) -> (gain: i32)
    ensures
        gain == comfort_gain(rand_scale as int, prev_gain as int, level as int),
{
    proof {
        lemma2_to64();
    }
    let g = smulww(rand_scale, prev_gain);
    if g >= 0x20_0000 || level > 0x80_0000 {
        let energy = truncate32(smultt(level, level) as i64 - 32 * smultt(g, g) as i64);
        shift_up(sqrt_approx(energy), 16)
    } else {
        let energy = truncate32(smulww(level, level) as i64 - 32 * smulww(g, g) as i64);
        sqrt_approx(energy) * 0x100
    }
}

/// The first `order` frequencies spread evenly.
fn spread_nlsf(before: [i16; 16], order: usize) -> (nlsf: [i16; 16])
    requires
        order <= MAX_LPC_ORDER,
    ensures
        forall|i: int|
            0 <= i < MAX_LPC_ORDER ==> (#[trigger] nlsf@[i]) == if i < order {
                (i + 1) * (0x7FFFint / (order as int + 1))
            } else {
                before@[i] as int
            },
{
    let step = 0x7FFF / (order as i32 + 1);
    assert(1 <= step && step * 17 <= 0x7FFF * 17 && step * (order + 1) <= 0x7FFF) by {
        assert((0x7FFFint / (order as int + 1)) * (order as int + 1) <= 0x7FFF)
            by (nonlinear_arith)
            requires
                order >= 0,
        ;
        assert(0x7FFFint / (order as int + 1) >= 1) by (nonlinear_arith)
            requires
                0 <= order <= 16,
        ;
    }
    let mut nlsf = before;
    let mut acc: i32 = 0;
    let mut i: usize = 0;
    while i < order
        invariant
            i <= order <= MAX_LPC_ORDER,
            acc == i * step,
            step >= 1,
            step * (order + 1) <= 0x7FFF,
            forall|k: int| 0 <= k < i ==> (#[trigger] nlsf@[k]) == (k + 1) * step,
            forall|k: int|
                i <= k < MAX_LPC_ORDER ==> (#[trigger] nlsf@[k])
                    == before@[k],
        decreases order - i,
    {
        assert(i * step + step == (i + 1) * step) by (nonlinear_arith);
        assert(0 <= (i + 1) * step <= step * (order + 1)) by (nonlinear_arith)
            requires
                0 <= i < order,
                step >= 1,
        ;
        acc = acc + step;
        nlsf[i] = acc as i16;
        i = i + 1;
    }
    nlsf
}

impl SilkChannelDecoder {
    /// Resets the comfort noise estimate: evenly spread frequencies and no
    /// gain.
    pub fn cng_reset(&mut self)
        requires
            old(self).geometry(),
        ensures
            forall|i: int|
                0 <= i < MAX_LPC_ORDER ==> (#[trigger] final(self).cng.smth_nlsf_q15@[i]) == if i
                    < old(self).lpc_order {
                    (i + 1) * (0x7FFFint / (old(self).lpc_order as int + 1))
                } else {
                    old(self).cng.smth_nlsf_q15@[i] as int
                },
            final(self).cng == (CngState {
                smth_nlsf_q15: final(self).cng.smth_nlsf_q15,
                smth_gain_q16: 0,
                rand_seed: CNG_SEED,
                ..old(self).cng
            }),
            *final(self) == (SilkChannelDecoder { cng: final(self).cng, ..*old(self) }),
    {
        self.cng.smth_nlsf_q15 = spread_nlsf(self.cng.smth_nlsf_q15, self.lpc_order);
        self.cng.smth_gain_q16 = 0;
        self.cng.rand_seed = CNG_SEED;
    }

    /// The excitation buffer with the loudest subframe of a frame in front.
    fn buffer_excitation(&self, ctrl: &DecoderControl) -> (buf: [i32; 320])
        requires
            self.geometry(),
            self.cng_learns(),
        ensures
            forall|i: int|
                0 <= i < MAX_FRAME_LENGTH ==> (#[trigger] buf@[i]) == self.comfort_excitation(
                    *ctrl,
                    i,
                ),
    {
        proof {
            lemma_geometry(*self);
        }
        let len = self.subfr_length;
        let at = loudest_subframe(&ctrl.gains_q16, self.nb_subfr);
        assert(0 <= at * len && at * len + len <= MAX_FRAME_LENGTH) by (nonlinear_arith)
            requires
                0 <= at < 4,
                40 <= len <= 80,
        ;
        let first = at * len;
        let mut buf = self.cng.exc_buf_q14;
        let mut i: usize = 0;
        while i < self.frame_length
            invariant
                i <= self.frame_length <= MAX_FRAME_LENGTH,
                len == self.subfr_length,
                first == loudest(ctrl.gains_q16@, self.nb_subfr as int) * len,
                first + len <= MAX_FRAME_LENGTH,
                self.cng_learns(),
                forall|k: int|
                    0 <= k < i ==> (#[trigger] buf@[k]) == self.comfort_excitation(*ctrl, k),
                forall|k: int|
                    i <= k < MAX_FRAME_LENGTH ==> (#[trigger] buf@[k])
                        == self.cng.exc_buf_q14@[k],
            decreases self.frame_length - i,
        {
            buf[i] =
            if i < len {
                self.exc_q14[first + i]
            } else {
                self.cng.exc_buf_q14[i - len]
            };
            i = i + 1;
        }
        buf
    }

    /// Draws the noise excitation of a concealed frame, and returns it with
    /// the next state of the generator.
    fn draw_noise(&self) -> (res: (Vec<i32>, i32))
        requires
            self.geometry(),
            !self.cng_stale(),
        ensures
            res.0@ == self.noise_excitation(),
            res.1 == seed_after(self.comfort_seed(), self.frame_length as int),
    {
        proof {
            lemma_geometry(*self);
        }
        let length = self.frame_length;
        let span: i64 = if length >= 255 {
            256
        } else if length >= 127 {
            128
        } else {
            64
        };
        let mut noise: Vec<i32> = Vec::new();
        let mut seed = self.cng.rand_seed;
        let mut i: usize = 0;
        while i < length
            invariant
                i <= length,
                length == self.frame_length,
                span == noise_span(length as int),
                !self.cng_stale(),
                seed == seed_after(self.comfort_seed(), i as int),
                noise@.len() == i,
                forall|k: int|
                    0 <= k < i ==> (#[trigger] noise@[k]) == self.noise_excitation()[k],
            decreases length - i,
        {
            proof {
                lemma2_to64();
            }
            seed = silk_rand(seed);
            let top = shift_down(seed as i64, 24);
            let index = ((top + 256) % span) as usize;
            assert(index == (seed as int / 0x100_0000) % span as int);
            noise.push(self.cng.exc_buf_q14[index]);
            i = i + 1;
        }
        assert(noise@ =~= self.noise_excitation());
        (noise, seed)
    }

    /// Updates the comfort noise estimate on good frames without voice
    /// activity, and adds comfort noise to concealed ones. `a_q12` are the
    /// prediction taps of the smoothed line spectral frequencies (see
    /// [`comfort_nlsf`](Self::comfort_nlsf)); they matter only for a concealed
    /// frame.
    pub fn cng(&mut self, ctrl: &DecoderControl, frame: &mut [i16], a_q12: &[i16; 16])
        requires
            old(self).valid(),
            old(self).cng_learns() ==> ctrl.gains_positive(old(self).nb_subfr as int),
            old(self).loss_cnt != 0 ==> old(frame)@.len() >= old(self).frame_length,
        ensures
            final(self).valid(),
            old(self).cng_updated(*ctrl, a_q12@, final(self).cng),
            *final(self) == (SilkChannelDecoder { cng: final(self).cng, ..*old(self) }),
            final(frame)@.len() == old(frame)@.len(),
            forall|i: int|
                0 <= i < old(frame)@.len() ==> (#[trigger] final(frame)@[i]) == if old(
                    self,
                ).loss_cnt != 0 && i < old(self).frame_length {
                    old(self).with_noise(old(frame)@, a_q12@, i)
                } else {
                    old(frame)@[i] as int
                },
    {
        let ghost start = *self;
        proof {
            lemma_geometry(*self);
        }
        if self.fs_khz != self.cng.fs_khz {
            self.cng_reset();
            self.cng.fs_khz = self.fs_khz;
        }
        let ghost ready = *self;
        assert(ready.comfort_level() == start.comfort_level());
        assert(ready.comfort_seed() == start.comfort_seed());
        assert(forall|i: int|
            0 <= i < MAX_LPC_ORDER ==> (#[trigger] ready.cng.smth_nlsf_q15@[i])
                == start.comfort_nlsf_at(i));
        if self.loss_cnt == 0 && self.prev_signal_type == TYPE_NO_VOICE_ACTIVITY {
            let mut nlsf = self.cng.smth_nlsf_q15;
            smooth_nlsf(&mut nlsf, &self.prev_nlsf_q15, self.lpc_order);
            let buf = self.buffer_excitation(ctrl);
            let level = smooth_gain(self.cng.smth_gain_q16, &ctrl.gains_q16, self.nb_subfr);
            self.cng.smth_nlsf_q15 = nlsf;
            self.cng.exc_buf_q14 = buf;
            self.cng.smth_gain_q16 = level;
        }
        if self.loss_cnt != 0 {
            // Comfort noise for the concealed frame.
            let length = self.frame_length;
            let gain_q16 = noise_gain(
                self.plc.rand_scale_q14 as i32,
                self.plc.prev_gain_q16[1],
                self.cng.smth_gain_q16,
            );
            proof {
                lemma2_to64();
            }
            let gain_q10 = shift_down(gain_q16 as i64, 6) as i32;
            let (noise, seed) = self.draw_noise();
            assert(noise@ =~= start.noise_excitation());
            let signal = lpc_synthesis(
                &self.cng.synth_state,
                noise.as_slice(),
                a_q12,
                self.lpc_order,
            );
            assert(signal@ == start.noise_signal(a_q12@));
            let mut i: usize = 0;
            while i < length
                invariant
                    i <= length <= 320,
                    length == start.frame_length,
                    start.loss_cnt != 0,
                    frame@.len() == old(frame)@.len(),
                    frame@.len() >= length,
                    signal@.len() == MAX_LPC_ORDER + length,
                    signal@ == start.noise_signal(a_q12@),
                    gain_q10 == comfort_gain(
                        start.plc.rand_scale_q14 as int,
                        start.plc.prev_gain_q16@[1] as int,
                        start.comfort_level(),
                    ) / 64,
                    forall|j: int|
                        0 <= j < i ==> (#[trigger] frame@[j]) == start.with_noise(
                            old(frame)@,
                            a_q12@,
                            j,
                        ),
                    forall|j: int|
                        i <= j < frame@.len() ==> (#[trigger] frame@[j]) == old(frame)@[j],
                decreases length - i,
            {
                let product = smulww(signal[MAX_LPC_ORDER + i], gain_q10);
                frame[i] = add_sat16(frame[i], saturate16(rshift_round(product, 8)));
                i = i + 1;
            }
            let ghost tail = signal@.skip(length as int);
            let mut state: [i32; 16] = [0; 16];
            let mut j: usize = 0;
            while j < MAX_LPC_ORDER
                invariant
                    j <= MAX_LPC_ORDER,
                    length <= 320,
                    signal@.len() == MAX_LPC_ORDER + length,
                    tail == signal@.skip(length as int),
                    forall|m: int| 0 <= m < j ==> (#[trigger] state@[m]) == tail[m],
                decreases MAX_LPC_ORDER - j,
            {
                state[j] = signal[length + j];
                j = j + 1;
            }
            assert(state@ =~= tail);
            self.cng.synth_state = state;
            self.cng.rand_seed = seed;
        } else {
            let order = self.lpc_order;
            let mut state = self.cng.synth_state;
            let mut j: usize = 0;
            while j < order
                invariant
                    j <= order <= MAX_LPC_ORDER,
                    forall|m: int| 0 <= m < j ==> (#[trigger] state@[m]) == 0,
                    forall|m: int|
                        j <= m < MAX_LPC_ORDER ==> (#[trigger] state@[m])
                            == start.cng.synth_state@[m],
                decreases order - j,
            {
                state[j] = 0;
                j = j + 1;
            }
            assert(state@ =~= Seq::new(
                MAX_LPC_ORDER as nat,
                |i: int|
                    if i < start.lpc_order {
                        0
                    } else {
                        start.cng.synth_state@[i]
                    },
            ));
            self.cng.synth_state = state;
        }
    }

    /// The smoothed line spectral frequencies that comfort noise would be made
    /// with now.
    pub fn comfort_nlsf(&self) -> (nlsf: [i16; 16])
        requires
            self.geometry(),
        ensures
            forall|i: int|
                0 <= i < MAX_LPC_ORDER ==> (#[trigger] nlsf@[i]) == self.comfort_nlsf_at(i),
    {
        if self.fs_khz != self.cng.fs_khz {
            spread_nlsf(self.cng.smth_nlsf_q15, self.lpc_order)
        } else {
            self.cng.smth_nlsf_q15
        }
    }
}

/// The loudest subframe is no quieter than any other, and is the first that is
/// as loud.
pub proof fn law_loudest_is_loudest(gains: Seq<i32>, n: int, i: int)
    requires
        0 <= i < n,
    ensures
        0 <= loudest(gains, n) < n,
        gains[i] <= gains[loudest(gains, n)],
        i < loudest(gains, n) ==> gains[i] < gains[loudest(gains, n)],
    decreases n,
{
    lemma_loudest(gains, n);
    if n > 1 {
        lemma_loudest(gains, n - 1);
        law_loudest_is_loudest(gains, n - 1, loudest(gains, n - 1));
        if i < n - 1 {
            law_loudest_is_loudest(gains, n - 1, i);
        }
    }
}

/// Line spectral frequencies move a quarter of the way towards those of a frame,
/// and never past them.
pub proof fn law_frequencies_move_a_quarter(smoothed: int, now: int)
    requires
        -0x8000 <= smoothed < 0x8000,
        -0x8000 <= now < 0x8000,
    ensures
        ({
            let moved = smoothed_nlsf(smoothed, now) - smoothed;
            let way = now - smoothed;
            &&& way >= 0 ==> 249 * way - 1000 < 1000 * moved <= 250 * way
            &&& way <= 0 ==> 250 * way - 1000 < 1000 * moved <= 249 * way
            &&& way >= 0 ==> 0 <= moved <= way
            &&& way <= 0 ==> way <= moved <= 0
        }),
{
    lemma_smoothing(smoothed, now, CNG_NLSF_SMTH_Q16 as int);
    assert(low16_is(CNG_NLSF_SMTH_Q16 as int));
    let way = now - smoothed;
    assert(smoothed_nlsf(smoothed, now) == smoothed + (way * 16348) / 0x1_0000);
}

/// The gain moves by between 7.0 and 7.1 percent of the way towards that of a
/// subframe. A gain that is lower by more than 3 dB is taken over at once, so the
/// estimate is never left more than that above the last gain.
pub proof fn law_gain_follows(smoothed: int, gain: int)
    requires
        0 <= smoothed < 0x8000_0000,
        0 < gain < 0x8000_0000,
    ensures
        ({
            let next = smoothed_gain(smoothed, gain);
            let step = next - smoothed;
            &&& 0 <= next < 0x8000_0000
            &&& gain >= smoothed ==> smoothed <= next <= gain
            &&& gain >= smoothed ==> 1000 * step <= 71 * (gain - smoothed) && 70 * (gain
                - smoothed) <= 1000 * (step + 1)
            &&& gain <= smoothed ==> gain <= next <= smoothed
            &&& 46396 * next < 0x1_0000 * (gain + 1) || next == gain
            &&& next == gain || gain > smoothed || -1000 * (step + 1) <= 71 * (smoothed - gain)
        }),
{
    lemma_smoothing(smoothed, gain, CNG_GAIN_SMTH_Q16 as int);
    let d = gain - smoothed;
    assert(low16_is(CNG_GAIN_SMTH_Q16 as int));
    let moved = smoothed + (d * 4634) / 0x1_0000;
    assert(0 <= moved < 0x8000_0000);
    assert(0 <= (moved * 46396) / 0x1_0000 <= moved) by (nonlinear_arith)
        requires
            moved >= 0,
    ;
}

/// Whether a number fits in 16 bits.
spec fn low16_is(x: int) -> bool {
    super::math::low16(x) == x
}

/// Noise is drawn from the largest power of two of samples, up to 256, that
/// exceeds the length of the frame by one at most.
pub proof fn law_noise_span_fits(length: int)
    requires
        63 <= length,
    ensures
        noise_span(length) == 64 || noise_span(length) == 128 || noise_span(length) == 256,
        noise_span(length) - 1 <= length,
        noise_span(length) == 256 || 2 * noise_span(length) - 1 > length,
{
}

impl SilkChannelDecoder {
    /// Without an estimate at this sample rate, the frequencies are spread
    /// evenly, the level is zero and the noise starts anew.
    pub proof fn law_noise_starts_flat(self, i: int)
        requires
            self.cng.fs_khz != self.fs_khz,
            0 <= i < self.lpc_order,
        ensures
            self.comfort_nlsf_at(i) == (i + 1) * self.comfort_nlsf_at(0),
            (self.lpc_order + 1) * self.comfort_nlsf_at(0) <= 0x7FFF,
            (self.lpc_order + 1) * (self.comfort_nlsf_at(0) + 1) > 0x7FFF,
            self.comfort_level() == 0,
            self.comfort_seed() == 3_176_576,
    {
        let n = self.lpc_order as int + 1;
        let q = 0x7FFFint / n;
        vstd::arithmetic::div_mod::lemma_fundamental_div_mod(0x7FFF, n);
        assert(1 * q == q);
        assert(n * (q + 1) == n * q + n) by (nonlinear_arith);
    }

    /// The excitation is kept in a queue: on a frame that is learned from, that
    /// of its loudest subframe goes in front and the rest moves back by a
    /// subframe. Other frames leave it.
    pub proof fn law_excitation_is_queued(
        self,
        ctrl: DecoderControl,
        a: Seq<i16>,
        after: CngState,
        i: int,
        k: int,
    )
        requires
            self.geometry(),
            self.cng_updated(ctrl, a, after),
            0 <= i < self.frame_length,
            0 <= k < self.nb_subfr,
        ensures
            !(self.loss_cnt == 0 && self.prev_signal_type == 0) ==> after.exc_buf_q14@[i]
                == self.cng.exc_buf_q14@[i],
            self.loss_cnt == 0 && self.prev_signal_type == 0 && i >= self.subfr_length
                ==> after.exc_buf_q14@[i] == self.cng.exc_buf_q14@[i - self.subfr_length],
            self.loss_cnt == 0 && self.prev_signal_type == 0 && i < self.subfr_length ==> exists|
                j: int,
            |
                0 <= j < self.nb_subfr && ctrl.gains_q16@[k] <= (#[trigger] ctrl.gains_q16@[j])
                    && after.exc_buf_q14@[i] == self.exc_q14@[j * self.subfr_length + i],
    {
        lemma_geometry(self);
        assert(after.exc_buf_q14@[i] == self.comfort_excitation(ctrl, i));
        law_loudest_is_loudest(ctrl.gains_q16@, self.nb_subfr as int, k);
        let j = loudest(ctrl.gains_q16@, self.nb_subfr as int);
        assert(ctrl.gains_q16@[k] <= ctrl.gains_q16@[j]);
    }

    /// A good frame leaves the noise generator alone and clears the filter; a
    /// concealed one draws a number for each sample.
    pub proof fn law_noise_is_drawn_for_losses(
        self,
        ctrl: DecoderControl,
        a: Seq<i16>,
        after: CngState,
        i: int,
    )
        requires
            self.cng_updated(ctrl, a, after),
            self.cng.fs_khz == self.fs_khz,
            0 <= i < self.lpc_order <= MAX_LPC_ORDER,
        ensures
            self.loss_cnt == 0 ==> after.rand_seed == self.cng.rand_seed && after.synth_state@[i]
                == 0,
            self.loss_cnt != 0 ==> after.rand_seed == seed_after(
                self.cng.rand_seed as int,
                self.frame_length as int,
            ),
            self.loss_cnt != 0 ==> after.smth_gain_q16 == self.cng.smth_gain_q16,
            self.loss_cnt != 0 ==> after.smth_nlsf_q15@[i] == self.cng.smth_nlsf_q15@[i],
    {
        assert(after.smth_nlsf_q15@[i] == self.comfort_nlsf_at(i) || self.cng_learns());
    }
}

/// Noise only fills a concealed frame up to the background: where the energy of
/// the concealment, which is its gain in Q14 squared, reaches that of the
/// background, there is none. With a louder background the energies are compared
/// in coarser units.
pub proof fn law_noise_only_fills_up(rand_scale: int, prev_gain: int, smoothed: int)
    requires
        0 <= rand_scale <= 0x4000,
        0 < prev_gain < 0x8000_0000,
        0 <= smoothed < 0x8000_0000,
    ensures
        ({
            let g = (rand_scale * prev_gain) / 0x1_0000;
            let fine = g < 0x20_0000 && smoothed <= 0x80_0000;
            let (a, b) = (smoothed / 0x1_0000, g / 0x1_0000);
            &&& fine && (smoothed * smoothed) / 0x1_0000 <= 32 * ((g * g) / 0x1_0000)
                ==> comfort_gain(rand_scale, prev_gain, smoothed) == 0
            &&& !fine && b < 8192 && a * a <= 32 * (b * b) ==> comfort_gain(
                rand_scale,
                prev_gain,
                smoothed,
            ) == 0
        }),
{
    let g = (rand_scale * prev_gain) / 0x1_0000;
    assert(0 <= rand_scale * prev_gain <= 0x4000 * 0x8000_0000) by (nonlinear_arith)
        requires
            0 <= rand_scale <= 0x4000,
            0 < prev_gain < 0x8000_0000,
    ;
    assert(smulww_of(rand_scale, prev_gain) == g);
    let (a, b) = (smoothed / 0x1_0000, g / 0x1_0000);
    if g < 0x20_0000 && smoothed <= 0x80_0000 {
        assert(0 <= smoothed * smoothed <= 0x4000_0000_0000) by (nonlinear_arith)
            requires
                0 <= smoothed <= 0x80_0000,
        ;
        assert(0 <= g * g <= 0x3FF_FFFF_FFFF) by (nonlinear_arith)
            requires
                0 <= g < 0x20_0000,
        ;
    } else {
        assert(0 <= a * a <= 0x3FFF_FFFF) by (nonlinear_arith)
            requires
                0 <= a <= 0x7FFF,
        ;
        if b < 8192 {
            assert(0 <= b * b <= 0x3FF_FFFF) by (nonlinear_arith)
                requires
                    0 <= b < 8192,
            ;
        }
    }
}

/// Comfort noise is added to the concealed frame: noise of either sign moves a
/// sample that way, by as much as it is, until the sample saturates.
pub proof fn law_noise_is_added(channel: SilkChannelDecoder, frame: Seq<i16>, a: Seq<i16>, i: int)
    requires
        0 <= i < frame.len(),
    ensures
        ({
            let gain = comfort_gain(
                channel.plc.rand_scale_q14 as int,
                channel.plc.prev_gain_q16@[1] as int,
                channel.comfort_level(),
            ) / 64;
            let noise = channel.noise_signal(a)[MAX_LPC_ORDER + i];
            let added = rounded_shift(smulww_of(noise as int, gain), 8);
            let sum = channel.with_noise(frame, a, i);
            &&& added >= 0 ==> frame[i] <= sum
            &&& added <= 0 ==> sum <= frame[i]
            &&& -0x8000 <= frame[i] + added < 0x8000 && -0x8000 <= added < 0x8000 ==> sum
                == frame[i] + added
        }),
{
}

/// The noise generator runs on from frame to frame: the steps of two frames are
/// those of both together.
pub proof fn law_generator_runs_on(seed: int, n: int, m: int)
    requires
        n >= 0,
        m >= 0,
    ensures
        seed_after(seed, 0) == seed,
        seed_after(seed, 1) == rand_of(seed),
        seed_after(seed, n + m) == seed_after(seed_after(seed, n), m),
    decreases m,
{
    reveal_with_fuel(seed_after, 2);
    if m > 0 {
        law_generator_runs_on(seed, n, m - 1);
    }
}

/// Each sample of the noise is one of the buffered samples: the eight highest bits
/// of the next state of the generator select it, as many of them as the samples
/// that are drawn from need.
pub proof fn law_noise_is_selected_by_high_bits(channel: SilkChannelDecoder, i: int)
    requires
        0 <= i < channel.frame_length,
    ensures
        ({
            let word = seed_after(channel.comfort_seed(), i + 1) % 0x1_0000_0000;
            let byte = word / 0x100_0000;
            &&& channel.noise_excitation().len() == channel.frame_length
            &&& channel.noise_excitation()[i] == channel.cng.exc_buf_q14@[byte % noise_span(
                channel.frame_length as int,
            )]
        }),
{
    let seed = seed_after(channel.comfort_seed(), i + 1);
    let word = seed % 0x1_0000_0000;
    let high = seed / 0x1_0000_0000;
    assert(seed == 0x1_0000_0000 * high + word);
    assert(seed / 0x100_0000 == 256 * high + word / 0x100_0000);
    let span = noise_span(channel.frame_length as int);
    assert((256 * high + word / 0x100_0000) % 256 == (word / 0x100_0000) % 256);
    assert((256 * high + word / 0x100_0000) % 128 == (word / 0x100_0000) % 128);
    assert((256 * high + word / 0x100_0000) % 64 == (word / 0x100_0000) % 64);
}

} // verus!
