pub mod cache;
pub mod disk;
pub mod fst;
pub mod index;
pub mod schema;
pub mod varint;
pub mod wal;

use vstd::prelude::*;

verus! {

/// Result type used throughout the library.
pub type GyResult<T> = Result<T, GyError>;

/// The error taxonomy of the index.
#[derive(Debug, Clone, Copy, PartialEq, Eq, Structural)]
pub enum GyError {
    /// A write would exceed the configured WAL file size.
    WalOverflow,
    /// The segment footer magic bytes do not match.
    BadMagicNumber,
    /// A read ran past the end of its input.
    UnexpectedEof,
    /// An unknown value tag byte was found while deserialising.
    InvalidValueType,
    /// A document id at or beyond the current document count.
    DocumentNotFound,
    /// A term that the index does not contain.
    TermNotFound,
    /// A generic encode/decode failure.
    Serialization,
}

} // verus!
