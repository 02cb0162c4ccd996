//! Error taxonomy of the library.

use vstd::prelude::*;

verus! {

/// Everything that can go wrong inside the library or at its edges.
///
/// Wire-format faults carry a description; digest disagreements carry the
/// two hex-encoded digests so a caller can report them.
#[derive(Debug, Clone, PartialEq)]
pub enum Error {
    /// A chunk or whole-file digest disagreed with the expected one.
    HashMismatch { expected: String, actual: String },
    /// A chunk index lay outside the file's chunk range.
    InvalidChunkIndex { index: u32, total: u32 },
    /// A wire-format violation other than a version mismatch.
    Protocol(String),
    /// The envelope carried a version other than `PROTOCOL_VERSION`.
    VersionMismatch { expected: u8, actual: u32 },
    /// The payload bytes could not be decoded.
    Decode(String),
    /// The index store refused an operation.
    Database(String),
    /// A chunk or an entry was absent.
    NotFound(String),
    /// A length or structural validation failed.
    InvalidData(String),
    /// A transport fault outside the more specific kinds below.
    Transport(String),
    /// The transport could not connect.
    ConnectionFailed(String),
    /// The transport could not send.
    SendFailed(String),
    /// The transport could not receive.
    ReceiveFailed(String),
    /// An endpoint address failed validation.
    InvalidAddress(String),
    /// An input/output failure reported by the surrounding program.
    Io(String),
}

} // verus!
