//! An embedded, file-backed document store built from checksummed 256-byte chunks.
pub mod apetypes;
pub mod bytes;
pub mod crc24;
pub mod dbio;
pub mod error;
pub mod uuid;
