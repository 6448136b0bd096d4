//! The errors that the storage engine reports.
use vstd::prelude::*;

verus! {

/// Why an operation of the storage engine failed.
#[derive(Debug, Clone, Copy, PartialEq, Eq, Structural)]
pub enum DbError {
    /// The host's file system reported a failure.
    Io,
    /// A file was to be created where one already exists.
    FileExists,
    /// A chunk or a record does not hold what the format requires.
    Corruption,
    /// An entry does not meet the structure of its list.
    SchemaViolation,
    /// An id or a value is longer than 255 bytes.
    ValueTooLarge,
    /// Bytes that should hold a string are not UTF-8.
    InvalidUtf8,
    /// A field's id is empty.
    EmptyId,
    /// An entry has no fields.
    EmptyEntry,
    /// A record ends before its declared length.
    ShortBuffer,
}

} // verus!
