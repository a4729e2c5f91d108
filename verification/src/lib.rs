//! Chunked container format for caching large flat resource files.
//!
//! A container is a 4096-byte header, an 8192-byte section table of up to
//! 1024 entries, and the chunk payloads. Each chunk is either a zlib stream
//! or stored verbatim; the sign of its recorded size tells which.

pub mod layout;
pub mod error;
pub mod codec;
pub mod table;
pub mod unpack;
pub mod writer;
pub mod pack;
pub mod round_trip;
pub mod checked;
