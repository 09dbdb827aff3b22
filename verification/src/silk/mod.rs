//! The SILK layer: fixed-point arithmetic, gains, stereo prediction and
//! packet-loss concealment.

pub mod cng;
pub mod conceal;
pub mod decoder;
pub mod encode;
pub mod energy;
pub mod gains;
pub mod gains_fit;
pub mod lpc;
pub mod math;
pub mod plc;
pub mod stereo;
pub mod tables;
