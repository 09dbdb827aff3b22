//! The Ogg container: pages, the packets that they carry, and the reading and
//! writing of both.

pub mod assembly;
pub mod bytes;
pub mod crc;
pub mod page;
pub mod reader;
pub mod round_trip;
pub mod streams;
pub mod writer;

pub use page::{OggError, Page, PageReader, CAPTURE_PATTERN, NO_GRANULE};
pub use reader::{OggPacket, PacketReader};
pub use writer::PageWriter;
