//! The state of a channel of the SILK decoder that loss concealment and
//! comfort noise work on.

use vstd::prelude::*;

use super::gains::MAX_NB_SUBFR;
use super::lpc::MAX_LPC_ORDER;

verus! {

/// The most samples in a frame: 20 ms at 16 kHz.
pub const MAX_FRAME_LENGTH: usize = 320;

/// The samples that are kept of the output: a frame and two more subframes.
pub const OUT_BUF_LENGTH: usize = 480;

/// The taps of the long-term predictor.
pub const LTP_ORDER: usize = 5;

/// Signal types.
pub const TYPE_NO_VOICE_ACTIVITY: i32 = 0;

pub const TYPE_UNVOICED: i32 = 1;

pub const TYPE_VOICED: i32 = 2;

/// The longest pitch lag, in milliseconds.
pub const MAX_PITCH_LAG_MS: i32 = 18;

/// The parameters of one decoded frame.
#[derive(Debug, Clone)]
pub struct DecoderControl {
    /// Pitch lag of each subframe, in samples.
    pub pitch_l: [i32; 4],
    /// Gain of each subframe, in Q16.
    pub gains_q16: [i32; 4],
    /// Short-term prediction taps for the two halves of the frame, in Q12.
    pub pred_coef_q12: [[i16; 16]; 2],
    /// Long-term prediction taps of each subframe, in Q14.
    pub ltp_coef_q14: [i16; 20],
    /// Scale of the long-term prediction, in Q14.
    pub ltp_scale_q14: i32,
}

/// Concealment state.
#[derive(Debug, Clone)]
pub struct PlcState {
    pub pitch_l_q8: i32,
    pub ltp_coef_q14: [i16; 5],
    pub prev_lpc_q12: [i16; 16],
    pub last_frame_lost: bool,
    pub rand_seed: i32,
    pub rand_scale_q14: i16,
    pub conc_energy: i32,
    pub conc_energy_shift: i32,
    pub prev_ltp_scale_q14: i16,
    pub prev_gain_q16: [i32; 2],
    pub fs_khz: i32,
    pub nb_subfr: usize,
    pub subfr_length: usize,
}

impl Default for PlcState {
    fn default() -> (state: Self)
        ensures
            state.pitch_l_q8 == 0,
            forall|i: int| 0 <= i < LTP_ORDER ==> #[trigger] state.ltp_coef_q14@[i] == 0,
            forall|i: int| 0 <= i < MAX_LPC_ORDER ==> #[trigger] state.prev_lpc_q12@[i] == 0,
            !state.last_frame_lost,
            state.rand_seed == 0,
            state.rand_scale_q14 == 0,
            state.conc_energy == 0,
            state.conc_energy_shift == 0,
            state.prev_ltp_scale_q14 == 0,
            state.prev_gain_q16@ == seq![0x1_0000i32, 0x1_0000i32],
            state.fs_khz == 0,
            state.nb_subfr == 2,
            state.subfr_length == 20,
    {
        let prev_gain_q16: [i32; 2] = [0x1_0000, 0x1_0000];
        assert(prev_gain_q16@ =~= seq![0x1_0000i32, 0x1_0000i32]);
        PlcState {
            pitch_l_q8: 0,
            ltp_coef_q14: [0; 5],
            prev_lpc_q12: [0; 16],
            last_frame_lost: false,
            rand_seed: 0,
            rand_scale_q14: 0,
            conc_energy: 0,
            conc_energy_shift: 0,
            prev_ltp_scale_q14: 0,
            prev_gain_q16,
            fs_khz: 0,
            nb_subfr: 2,
            subfr_length: 20,
        }
    }
}

/// Comfort-noise state.
#[derive(Debug, Clone)]
pub struct CngState {
    pub exc_buf_q14: [i32; 320],
    pub smth_nlsf_q15: [i16; 16],
    pub synth_state: [i32; 16],
    pub smth_gain_q16: i32,
    pub rand_seed: i32,
    pub fs_khz: i32,
}

impl Default for CngState {
    fn default() -> (state: Self)
        ensures
            forall|i: int| 0 <= i < MAX_FRAME_LENGTH ==> #[trigger] state.exc_buf_q14@[i] == 0,
            forall|i: int| 0 <= i < MAX_LPC_ORDER ==> #[trigger] state.smth_nlsf_q15@[i] == 0,
            forall|i: int| 0 <= i < MAX_LPC_ORDER ==> #[trigger] state.synth_state@[i] == 0,
            state.smth_gain_q16 == 0,
            state.rand_seed == 3_176_576,
            state.fs_khz == 0,
    {
        CngState {
            exc_buf_q14: [0; 320],
            smth_nlsf_q15: [0; 16],
            synth_state: [0; 16],
            smth_gain_q16: 0,
            rand_seed: 3_176_576,
            fs_khz: 0,
        }
    }
}

/// A channel of the decoder.
#[derive(Debug, Clone)]
pub struct SilkChannelDecoder {
    /// Sample rate, in kHz.
    pub fs_khz: i32,
    pub nb_subfr: usize,
    pub subfr_length: usize,
    pub frame_length: usize,
    /// Samples of history that the long-term predictor reaches back.
    pub ltp_mem_length: usize,
    pub lpc_order: usize,
    /// Frames lost in a row.
    pub loss_cnt: i32,
    /// Type of the last good frame.
    pub prev_signal_type: i32,
    /// Type of the frame being decoded.
    pub signal_type: i8,
    pub first_frame_after_reset: bool,
    /// Line spectral frequencies of the last frame, in Q15.
    pub prev_nlsf_q15: [i16; 16],
    /// Excitation of the last frame, in Q14.
    pub exc_q14: [i32; 320],
    /// The last output samples.
    pub out_buf: [i16; 480],
    /// State of the short-term synthesis filter, in Q14.
    pub slpc_q14_buf: [i32; 16],
    pub plc: PlcState,
    pub cng: CngState,
}

impl DecoderControl {
    /// Whether the lags of the first `n` subframes are between 2 and 18 ms.
    pub open spec fn lags_valid(self, fs_khz: int, n: int) -> bool {
        forall|i: int|
            0 <= i < n ==> 2 * fs_khz <= (#[trigger] self.pitch_l@[i]) <= MAX_PITCH_LAG_MS * fs_khz
    }

    /// Whether the gains of the first `n` subframes are positive.
    pub open spec fn gains_positive(self, n: int) -> bool {
        forall|i: int| 0 <= i < n ==> (#[trigger] self.gains_q16@[i]) > 0
    }

    /// Whether a good frame of the channel can be captured: it has lags if it
    /// is voiced, and the gains of its last two subframes are positive.
    pub open spec fn capturable(self, channel: SilkChannelDecoder) -> bool {
        &&& channel.signal_type == TYPE_VOICED ==> self.lags_valid(
            channel.fs_khz as int,
            channel.nb_subfr as int,
        )
        &&& self.gains_q16@[channel.nb_subfr - 2] > 0
        &&& self.gains_q16@[channel.nb_subfr - 1] > 0
    }
}

impl PlcState {
    /// Whether the state belongs to a channel at this sample rate: the lag is
    /// between 2 and 18 ms, the gains are positive, and the excitation that is
    /// drawn from lies within a frame.
    pub open spec fn valid(self, fs_khz: int) -> bool {
        &&& self.fs_khz == fs_khz
        &&& 2 * fs_khz * 256 <= self.pitch_l_q8 <= MAX_PITCH_LAG_MS * fs_khz * 256
        &&& self.prev_gain_q16@[0] > 0
        &&& self.prev_gain_q16@[1] > 0
        &&& 2 <= self.nb_subfr <= MAX_NB_SUBFR
        &&& self.subfr_length <= 80
    }

    /// Whether the energy of the concealment, where it was measured, is a
    /// scaled energy.
    pub open spec fn energy_valid(self) -> bool {
        self.last_frame_lost ==> 0 <= self.conc_energy < 0x2000_0000 && 0
            <= self.conc_energy_shift <= 30
    }
}

impl SilkChannelDecoder {
    /// Whether the lengths fit the sample rate: subframes of 5 ms, two or four
    /// to a frame, and 20 ms of history.
    pub open spec fn geometry(self) -> bool {
        &&& self.fs_khz == 8 || self.fs_khz == 12 || self.fs_khz == 16
        &&& self.nb_subfr == 2 || self.nb_subfr == 4
        &&& self.subfr_length == 5 * self.fs_khz
        &&& self.frame_length == self.nb_subfr * self.subfr_length
        &&& self.ltp_mem_length == 20 * self.fs_khz
        &&& self.lpc_order == if self.fs_khz == 16 {
            16int
        } else {
            10
        }
    }

    /// Whether the channel can conceal losses: the lengths fit, the loss count
    /// is not negative, and the concealment and comfort noise states are valid
    /// where they belong to this sample rate.
    pub open spec fn valid(self) -> bool {
        &&& self.geometry()
        &&& self.loss_cnt >= 0
        &&& self.plc.fs_khz == self.fs_khz ==> self.plc.valid(self.fs_khz as int)
        &&& self.plc.energy_valid()
        &&& self.cng.smth_gain_q16 >= 0
    }
}

/// The lengths of a channel.
pub proof fn lemma_geometry(d: SilkChannelDecoder)
    requires
        d.geometry(),
    ensures
        40 <= d.subfr_length <= 80,
        d.frame_length == 2 * d.subfr_length || d.frame_length == 4 * d.subfr_length,
        d.frame_length <= MAX_FRAME_LENGTH,
        d.ltp_mem_length <= 320,
        10 <= d.lpc_order <= 16,
{
    if d.nb_subfr == 2 {
        assert(d.nb_subfr * d.subfr_length == 2 * d.subfr_length);
    } else {
        assert(d.nb_subfr * d.subfr_length == 4 * d.subfr_length);
    }
}

} // verus!
