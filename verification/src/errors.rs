//! Error taxonomy for the codec, the buffer, and the iterative resolver.

use vstd::prelude::*;

verus! {

/// Errors raised while reading or writing the wire form of a message.
///
/// Buffer errors are fatal to the current encode or decode; codec validation
/// errors are fatal to the current decode (or encode, for length limits).
#[derive(Debug, Clone)]
pub enum NetworkBufferError {
    /// A write would cross the end of the 512-byte datagram buffer.
    BufferFullError,
    /// A read would cross the end of the 512-byte datagram buffer.
    BufferEmptyError,
    /// Unknown response code, unknown record type in RDATA, or malformed structure.
    InvalidPacket,
    /// A compression pointer referred to an offset at which no name is known.
    CompressionError,
    /// A label was longer than 63 octets; carries the offending label.
    InvalidLabelLengthError(String),
    /// A name was longer than 255 octets; carries the offending name.
    InvalidNameLengthError(String),
    /// A time-to-live value that cannot be represented.
    InvalidTimeToLiveError(usize),
    /// A message length field disagreed with the bytes present.
    InvalidMessageLengthError,
}

/// Errors raised by a connection; no finer distinction is drawn.
#[derive(Debug, Clone)]
pub enum ConnectionError {
    /// The peer conversation failed.
    Failed,
}

/// Errors raised by the iterative resolver while walking the hierarchy.
#[derive(Debug, Clone, PartialEq, Eq, Structural)]
pub enum RecurseError {
    /// A referral response held no NS record for the suffix being resolved.
    NoNameServerError,
    /// No A record could be found for a name server's own name.
    NoARecordError,
}

} // verus!
