//! Errors that decompression reports.
use vstd::prelude::*;

verus! {

/// Why a byte string could not be decompressed.
#[derive(Debug, Clone, Copy, PartialEq, Eq, Structural)]
pub enum Error {
    /// A decoded code names no text: a custom index beyond the custom list, or
    /// a repetition unit beyond the repetition table.
    Format,
    /// A code needs more bytes than the input still holds.
    UnexpectedEndOfBytes,
    /// The bytes after the Unicode escape are not the UTF-8 encoding of a
    /// Unicode scalar value.
    InvalidUnicodeChar,
}

impl Error {
    /// A one-line description of the error.
    pub fn message(&self) -> (r: &'static str) {
        match self {
            Error::Format => "Error converting IR to string",
            Error::UnexpectedEndOfBytes => "Unexpected end of bytes. Deserialiser expected more bytes in the decompress slice",
            Error::InvalidUnicodeChar => "Could not deserialize invalid unicode scalar value",
        }
    }
}

/// The result of a decompression.
pub type Result<T> = core::result::Result<T, Error>;

} // verus!
