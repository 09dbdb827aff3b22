//! The CELT layer: pulse vectors, coarse energy, and the side information of a
//! frame.

pub mod budget;
pub mod cwrs;
pub mod encoder;
pub mod laplace;
pub mod laplace_fit;
