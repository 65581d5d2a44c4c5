//! Fixed-capacity UTF-8 strings stored inline, with every operation verified.
//!
//! An `ArrayString<SIZE>` holds at most `SIZE` bytes (a `typenum` number, at most 255) of valid
//! UTF-8. Operations that could overflow come in three forms: `try_*` (an error when the result
//! would not fit), plain (the input is cut at the last `char` boundary that fits) and `*_unchecked`
//! (the caller shows that the input fits).

pub mod array;
pub mod capacity;
pub mod error;
pub mod laws;
pub mod utf;

pub use array::{ArrayString, Drain};
pub use capacity::{capacity_of, TypeNum};
pub use error::{Error, OutOfBounds, Utf16, Utf8};
