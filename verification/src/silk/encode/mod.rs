//! The SILK encoder: what surrounds the signal analysis.

pub mod api;
pub mod frame;
pub mod stereo;

pub use api::SilkEncoder;
