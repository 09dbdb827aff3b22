//! The shape of a coded frame and its side information, for unvoiced frames
//! without interpolation of the line spectral frequencies.

use vstd::prelude::*;

use crate::silk::decoder::TYPE_UNVOICED;
use crate::silk::gains::MAX_NB_SUBFR;
use crate::silk::lpc::MAX_LPC_ORDER;

verus! {

/// The lengths and orders with which a frame is analysed and quantised.
#[derive(Debug, Clone, Copy, PartialEq, Eq, Structural)]
pub struct FrameConfig {
    /// Order of the short-term predictor.
    pub order: usize,
    /// Samples of a subframe of 5 ms.
    pub subfr_length: usize,
    /// Samples of the frame.
    pub frame_length: usize,
    /// Samples of look-ahead of the noise shaping, 3 ms.
    pub la_shape: usize,
    /// Order of the noise shaping filter.
    pub shaping_lpc_order: usize,
    /// Samples of the noise shaping window: a subframe with look-ahead on both
    /// sides.
    pub shape_win_length: usize,
    /// Samples of history of the long-term predictor, 20 ms.
    pub ltp_mem_length: usize,
}

/// The shape of a frame at this sample rate with this many subframes.
pub open spec fn config_of(fs_khz: int, nb_subfr: int) -> FrameConfig {
    FrameConfig {
        order: if fs_khz == 16 {
            16
        } else {
            10
        },
        subfr_length: (5 * fs_khz) as usize,
        frame_length: (nb_subfr * (5 * fs_khz)) as usize,
        la_shape: (3 * fs_khz) as usize,
        shaping_lpc_order: if fs_khz == 16 {
            12
        } else {
            10
        },
        shape_win_length: (11 * fs_khz) as usize,
        ltp_mem_length: (20 * fs_khz) as usize,
    }
}

/// Whether an encoder supports a sample rate, in kHz, and a number of
/// subframes.
pub open spec fn rate_supported(fs_khz: int, nb_subfr: int) -> bool {
    &&& fs_khz == 8 || fs_khz == 12 || fs_khz == 16
    &&& nb_subfr == 2 || nb_subfr == 4
}

/// The side information of a frame.
#[derive(Debug, Clone, Copy, PartialEq, Eq)]
pub struct SideInfoIndices {
    pub gains_indices: [i8; 4],
    pub nlsf_indices: [i8; 17],
    pub signal_type: i8,
    pub quant_offset_type: i8,
    pub nlsf_interp_coef_q2: i8,
    pub seed: i8,
}

/// A SILK encoder's state for one channel.
#[derive(Debug, Clone, Copy, PartialEq, Eq)]
pub struct SilkChannelEncoder {
    /// The level that the gains accumulate to.
    pub last_gain_index: i8,
    /// Sample rate, in kHz.
    pub fs_khz: i32,
    pub nb_subfr: usize,
}

/// Whether this is the side information of an unvoiced frame with these indices:
/// the gains of its subframes, and the line spectral frequencies up to the order
/// of its predictor, without interpolation and with the first seed.
pub open spec fn is_unvoiced(
    indices: SideInfoIndices,
    ch: SilkChannelEncoder,
    quant_offset_type: i8,
    gains_indices: Seq<i8>,
    nlsf_indices: Seq<i8>,
) -> bool {
    &&& indices.signal_type == TYPE_UNVOICED
    &&& indices.quant_offset_type == quant_offset_type
    &&& indices.nlsf_interp_coef_q2 == 4
    &&& indices.seed == 0
    &&& forall|k: int|
        0 <= k < MAX_NB_SUBFR ==> (#[trigger] indices.gains_indices@[k]) == if k < ch.nb_subfr {
            gains_indices[k]
        } else {
            0
        }
    &&& forall|k: int|
        0 <= k <= MAX_LPC_ORDER ==> (#[trigger] indices.nlsf_indices@[k]) == if k <= config_of(
            ch.fs_khz as int,
            ch.nb_subfr as int,
        ).order {
            nlsf_indices[k]
        } else {
            0
        }
}

impl SilkChannelEncoder {
    /// A reset encoder for the given internal rate and subframe count.
    #[must_use]
    pub fn new(fs_khz: i32, nb_subfr: usize) -> (ch: Self)
        ensures
            ch.last_gain_index == 10,
            ch.fs_khz == fs_khz,
            ch.nb_subfr == nb_subfr,
    {
        SilkChannelEncoder { last_gain_index: 10, fs_khz, nb_subfr }
    }

    /// The shape of the frames.
    #[must_use]
    pub fn config(&self) -> (config: FrameConfig)
        requires
            rate_supported(self.fs_khz as int, self.nb_subfr as int),
        ensures
            config == config_of(self.fs_khz as int, self.nb_subfr as int),
            config.frame_length <= 320,
            config.order <= MAX_LPC_ORDER,
    {
        let fs = self.fs_khz as usize;
        let subfr_length = 5 * fs;
        let la_shape = 3 * fs;
        let frame_length = if self.nb_subfr == 2 {
            2 * subfr_length
        } else {
            4 * subfr_length
        };
        FrameConfig {
            order: if self.fs_khz == 16 {
                16
            } else {
                10
            },
            subfr_length,
            frame_length,
            la_shape,
            shaping_lpc_order: if self.fs_khz == 16 {
                12
            } else {
                10
            },
            shape_win_length: subfr_length + 2 * la_shape,
            ltp_mem_length: 20 * fs,
        }
    }

    /// The side information of an unvoiced frame, from the indices of its gains
    /// and of its line spectral frequencies.
    #[must_use]
    pub fn unvoiced_indices(
        &self,
        quant_offset_type: i8,
        gains_indices: &[i8; 4],
        nlsf_indices: &[i8; 17],
    ) -> (indices: SideInfoIndices)
        requires
            rate_supported(self.fs_khz as int, self.nb_subfr as int),
        ensures
            is_unvoiced(indices, *self, quant_offset_type, gains_indices@, nlsf_indices@),
    {
        let order = self.config().order;
        let mut gains: [i8; 4] = [0; 4];
        let mut k: usize = 0;
        while k < self.nb_subfr
            invariant
                k <= self.nb_subfr <= 4,
                forall|j: int|
                    0 <= j < MAX_NB_SUBFR ==> (#[trigger] gains@[j]) == if j < k {
                        gains_indices@[j]
                    } else {
                        0
                    },
            decreases self.nb_subfr - k,
        {
            gains[k] = gains_indices[k];
            k = k + 1;
        }
        let mut nlsf: [i8; 17] = [0; 17];
        let mut i: usize = 0;
        while i <= order
            invariant
                i <= order + 1,
                order <= MAX_LPC_ORDER,
                forall|j: int|
                    0 <= j <= MAX_LPC_ORDER ==> (#[trigger] nlsf@[j]) == if j < i {
                        nlsf_indices@[j]
                    } else {
                        0
                    },
            decreases order + 1 - i,
        {
            nlsf[i] = nlsf_indices[i];
            i = i + 1;
        }
        SideInfoIndices {
            gains_indices: gains,
            nlsf_indices: nlsf,
            signal_type: TYPE_UNVOICED as i8,
            quant_offset_type,
            nlsf_interp_coef_q2: 4,
            seed: 0,
        }
    }
}

/// The taps of both halves of a frame that has one predictor: the first `order`
/// taps of `a_q12`, twice.
#[must_use]
pub fn doubled_predictor(a_q12: &[i16; 16], order: usize) -> (taps: [i16; 32])
    requires
        order <= MAX_LPC_ORDER,
    ensures
        forall|i: int|
            0 <= i < 32 ==> (#[trigger] taps@[i]) == if i % 16 < order {
                a_q12@[i % 16]
            } else {
                0
            },
{
    let mut taps: [i16; 32] = [0; 32];
    let mut i: usize = 0;
    while i < order
        invariant
            i <= order <= MAX_LPC_ORDER,
            forall|j: int|
                0 <= j < 32 ==> (#[trigger] taps@[j]) == if j % 16 < i {
                    a_q12@[j % 16]
                } else {
                    0
                },
        decreases order - i,
    {
        taps[i] = a_q12[i];
        taps[MAX_LPC_ORDER + i] = a_q12[i];
        i = i + 1;
    }
    taps
}

/// The lengths of a frame in time: subframes of 5 ms, of which a frame has two
/// or four, 3 ms of look-ahead on both sides of a subframe, and 20 ms of history.
/// Only the wide band has predictors and shaping filters of a higher order.
pub proof fn law_frame_lengths(fs_khz: int, nb_subfr: int)
    requires
        rate_supported(fs_khz, nb_subfr),
    ensures
        ({
            let config = config_of(fs_khz, nb_subfr);
            &&& config.frame_length == nb_subfr * config.subfr_length
            &&& config.subfr_length == 5 * fs_khz
            &&& config.shape_win_length == config.subfr_length + 2 * config.la_shape
            &&& config.la_shape == 3 * fs_khz
            &&& config.ltp_mem_length == 4 * config.subfr_length
            &&& config.frame_length <= config.ltp_mem_length
            &&& fs_khz == 16 ==> config.order == 16 && config.shaping_lpc_order == 12
            &&& fs_khz < 16 ==> config.order == 10 && config.shaping_lpc_order == 10
            &&& config.order <= MAX_LPC_ORDER
        }),
{
    assert(nb_subfr == 2 || nb_subfr == 4);
}

/// The indices of an unvoiced frame take over those of its subframes' gains and of
/// its spectrum: the first stage and one for each tap, ten or sixteen. The others
/// are zero, there is no voice, and the spectrum is not interpolated.
pub proof fn law_unvoiced_takes_indices(
    indices: SideInfoIndices,
    ch: SilkChannelEncoder,
    quant_offset_type: i8,
    gains: Seq<i8>,
    nlsf: Seq<i8>,
)
    requires
        rate_supported(ch.fs_khz as int, ch.nb_subfr as int),
        gains.len() == MAX_NB_SUBFR,
        nlsf.len() == MAX_LPC_ORDER + 1,
        is_unvoiced(indices, ch, quant_offset_type, gains, nlsf),
    ensures
        ({
            let coded = if ch.fs_khz == 16 {
                17int
            } else {
                11
            };
            &&& indices.signal_type == 1
            &&& indices.nlsf_interp_coef_q2 == 4
            &&& indices.gains_indices@.take(ch.nb_subfr as int) == gains.take(ch.nb_subfr as int)
            &&& ch.nb_subfr == 2 ==> indices.gains_indices@[2] == 0 && indices.gains_indices@[3] == 0
            &&& indices.nlsf_indices@.take(coded) == nlsf.take(coded)
            &&& coded == 11 ==> indices.nlsf_indices@[11] == 0 && indices.nlsf_indices@[16] == 0
        }),
{
}

} // verus!
