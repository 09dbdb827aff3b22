//! Verified building blocks of the Opus audio codec.

pub mod celt;
pub mod decoder;
pub mod demo;
pub mod encoder;
pub mod framing;
pub mod multistream;
pub mod ogg;
pub mod packet;
pub mod pcm;
pub mod prof;
pub mod range;
pub mod silk;
pub mod text;
