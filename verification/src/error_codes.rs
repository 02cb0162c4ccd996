//! Numeric error codes carried in `ErrorResponse` payloads, partitioned
//! by hundreds: protocol, resource, validation.

use vstd::prelude::*;

verus! {

/// The peer speaks another protocol version.
pub const VERSION_MISMATCH: u32 = 100;

/// The message could not be decoded or was of an unexpected kind.
pub const INVALID_MESSAGE: u32 = 101;

/// The requested chunk or entry is absent.
pub const NOT_FOUND: u32 = 200;

/// The service cannot answer right now.
pub const UNAVAILABLE: u32 = 201;

/// A digest disagreed with the data it should describe.
pub const HASH_MISMATCH: u32 = 300;

/// A length or structural validation failed.
pub const INVALID_DATA: u32 = 301;

} // verus!
