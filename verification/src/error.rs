//! The ways in which decoding can fail.

use vstd::prelude::*;

verus! {

/// Why a frame could not be decoded.
#[derive(Debug, Clone, Copy, PartialEq, Eq, Structural)]
pub enum DecodeError {
    /// No byte was available where a new frame had to begin.
    EndOfStream,
    /// The header line holds fewer than the three bytes of the shortest frame;
    /// the field is the number of bytes that were there.
    ShortFrame(usize),
    /// A header line or a bulk payload does not end in CR LF; the fields are
    /// the two bytes found in its place.
    BadTerminator(u8, u8),
    /// A bulk or array length below -1 or at or above the ceiling.
    InvalidLength(i64),
    /// The digits of an integer or of a length are not a signed decimal number
    /// that fits 64 bits.
    Format,
    /// Text that is not valid UTF-8.
    Utf8,
    /// A type prefix that the protocol does not know; the field is that byte.
    UnknownType(u8),
    /// The byte source ended before a bulk payload and its terminator were
    /// complete.
    Truncated,
}

} // verus!
