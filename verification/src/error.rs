//! The errors of the codec and the frame reader.

use vstd::prelude::*;

verus! {

/// Why a value could not be turned into wire bytes.
#[derive(Debug, Clone, Copy, PartialEq, Eq)]
pub enum EncodeError {
    /// A length does not fit the four bytes of a remaining-length field.
    ValueTooLarge,
    /// A client identifier is present but empty, longer than 23 characters,
    /// or holds a character that is not an ASCII letter or digit.
    InvalidClientId,
    /// A topic filter is longer than the 65535 bytes its length prefix can state.
    TopicTooLong,
}

/// Why bytes could not be read as a packet.
#[derive(Debug, Clone, Copy, PartialEq, Eq)]
pub enum DecodeError {
    /// The bytes end before the packet does.
    Truncated,
    /// The fourth byte of a remaining-length field asks for a fifth.
    MalformedLength,
    /// More bytes follow than the remaining-length field announces.
    TrailingBytes,
    /// The body is shorter than the packet type needs.
    ShortBody,
}

} // verus!
