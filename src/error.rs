//! What can go wrong while encoding or decoding.

use vstd::prelude::*;

verus! {

/// The kinds of failure of the codec.
#[derive(Debug, Clone, PartialEq, Eq)]
pub enum Error {
    /// A free-form message from the layer that maps host types to values.
    Message(String),
    /// The input ended inside a value.
    Eof,
    /// The byte source or sink failed; the text describes how.
    IoError(String),
    /// A string payload was not valid UTF-8.
    InvalidUtf8,
    /// A value that the wire format cannot carry.
    UnsupportedType,
    /// A tag byte outside the alphabet, or a value of another kind than the
    /// one asked for, or one that the asked-for type cannot hold.
    InvalidType,
    /// A timestamp or time-zone offset outside the calendar's range.
    InvalidDateTime,
}

} // verus!
