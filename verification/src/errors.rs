//! Error values returned by the column engine.

use vstd::prelude::*;

verus! {

/// Failures of the binary codec.
#[derive(Clone, Copy, Debug, PartialEq, Eq, Structural)]
pub enum DriverError {
    /// A length prefix or a size does not fit the machine's integers.
    Overflow,
    /// The input ended before the announced rows were complete.
    UnexpectedEof,
    /// A name is not valid UTF-8.
    Utf8Error,
    /// The cumulative offsets of an array column decrease.
    BadOffsets,
}

/// Failures of conversions between column types and values.
#[derive(Clone, Debug, PartialEq, Eq)]
pub enum FromSqlError {
    /// No cast leads from the type named `src` to the type named `dst`.
    InvalidType { src: String, dst: String },
    /// A value does not fit the storage it was offered to.
    OutOfRange,
    /// The storage does not offer the operation.
    UnsupportedOperation,
}

/// Any failure of the column engine.
#[derive(Clone, Debug, PartialEq, Eq)]
pub enum Error {
    Driver(DriverError),
    FromSql(FromSqlError),
    /// The type name is not one that the column factory knows.
    UnsupportedType(String),
}

} // verus!
