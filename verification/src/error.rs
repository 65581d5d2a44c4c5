//! Error types returned by the fallible operations of the library.

use vstd::prelude::*;

verus! {

/// Every error that an operation of the library can report.
#[derive(Debug, Clone, Copy, PartialEq, Eq, Structural)]
pub enum Error {
    /// The operation would need more room than the capacity, or an index lies past the end.
    OutOfBounds,
    /// The input held invalid UTF-16, or an unpaired surrogate.
    Utf16,
    /// The input held invalid UTF-8, or an index is not on a `char` boundary.
    Utf8,
}

/// The operation would need more room than the capacity, or an index lies past the end.
#[derive(Debug, Clone, Copy, PartialEq, Eq, Structural, Default)]
pub struct OutOfBounds;

/// The input held invalid UTF-8, or an index is not on a `char` boundary.
#[derive(Debug, Clone, Copy, PartialEq, Eq, Structural, Default)]
pub struct Utf8;

/// The input held invalid UTF-16.
#[derive(Debug, Clone, Copy, PartialEq, Eq, Structural, Default)]
pub struct Utf16;

impl From<OutOfBounds> for Error {
    fn from(_e: OutOfBounds) -> (r: Self) {
        Error::OutOfBounds
    }
}

impl vstd::std_specs::convert::FromSpecImpl<OutOfBounds> for Error {
    open spec fn obeys_from_spec() -> bool {
        true
    }

    open spec fn from_spec(e: OutOfBounds) -> Self {
        Error::OutOfBounds
    }
}

impl From<Utf8> for Error {
    fn from(_e: Utf8) -> (r: Self) {
        Error::Utf8
    }
}

impl vstd::std_specs::convert::FromSpecImpl<Utf8> for Error {
    open spec fn obeys_from_spec() -> bool {
        true
    }

    open spec fn from_spec(e: Utf8) -> Self {
        Error::Utf8
    }
}

impl From<Utf16> for Error {
    fn from(_e: Utf16) -> (r: Self) {
        Error::Utf16
    }
}

impl vstd::std_specs::convert::FromSpecImpl<Utf16> for Error {
    open spec fn obeys_from_spec() -> bool {
        true
    }

    open spec fn from_spec(e: Utf16) -> Self {
        Error::Utf16
    }
}

} // verus!
