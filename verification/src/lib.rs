//! RTP packet header: model, marshalling and unmarshalling, and header
//! extension management (RFC 3550 and RFC 8285), verified with Verus.

pub mod endian;
pub mod errors;
pub mod header;
