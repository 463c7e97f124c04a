use vstd::prelude::*;

verus! {

/// Errors reported by RTP header operations.
#[derive(Debug, Clone, Copy, PartialEq, Eq, Structural)]
pub enum RTPError {
    /// The buffer holds fewer bytes than the fixed header and CSRC list need.
    HeaderSizeInsufficient,
    /// The buffer is too short for the header extension it announces.
    HeaderSizeInsufficientForExtension,
    /// The destination buffer is too small, or an RFC 3550 extension payload
    /// is not a whole number of 32-bit words.
    ShortBuffer,
    /// The header extension bit is not set.
    HeaderExtensionNotEnabled,
    /// No header extension carries the requested id.
    HeaderExtensionNotFound,
    /// A one-byte (RFC 8285) extension id outside 1..=14.
    RFC8285OneByteHeaderIDRange(u8),
    /// A one-byte (RFC 8285) extension payload longer than 16 bytes.
    RFC8285OneByteHeaderSize(u8),
    /// A two-byte (RFC 8285) extension id of 0.
    RFC8285TwoByteHeaderIDRange(u8),
    /// A two-byte (RFC 8285) extension payload longer than 255 bytes.
    RFC8285TwoByteHeaderSize(u8),
    /// An RFC 3550 extension id other than 0.
    RFC3550HeaderIDRange(u8),
}

} // verus!
