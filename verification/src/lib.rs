//! Checksum and container-format core of a DEFLATE/zlib/gzip compression
//! library: portable Adler-32 and CRC-32 (reflected, IEEE polynomial)
//! reference algorithms with verified functional contracts, an explicit
//! implementation dispatcher, and the public compression/decompression
//! entry points with their resource-governance checks.

pub mod adler32;
pub mod api;
pub mod crc32;
pub mod dispatch;

pub use api::{Compressor, Decompressor, Error, ErrorKind};
