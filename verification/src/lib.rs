//! Brisby: a privacy-preserving peer-to-peer file-sharing library.
//!
//! Files are split into fixed-size content-addressed chunks, described by
//! metadata that binds every chunk and the whole file to a cryptographic
//! digest. Peers exchange versioned, length-delimited protocol envelopes
//! over an abstract mixnet transport; an index provider offers keyword
//! search over published files with TTL-based expiry. Search hits come
//! in store order with a fixed relevance score: ranking is left to the
//! callers, since no floating-point scoring lives here.

pub mod chunk;
pub mod config;
pub mod dht;
pub mod downloader;
pub mod error;
pub mod error_codes;
pub mod hashing;
pub mod index;
pub mod keywords;
pub mod network;
pub mod proto;
pub mod seeder;
pub mod transport;
pub mod types;
pub mod varint;

pub use error::Error;
pub use hashing::{hash_to_hex, hex_to_hash, ContentHash};
pub use transport::{MockTransport, NymAddress, ReceivedMessage, SenderTag, Transport, TransportConfig};
pub use types::{ChunkInfo, FileMetadata, IndexEntry, Seeder, SearchResult};

use vstd::prelude::*;

verus! {

/// Version number carried in every protocol envelope.
pub const PROTOCOL_VERSION: u8 = 1;

/// Size of a file chunk in bytes: 256 KiB. Only the last chunk of a file
/// may be smaller.
pub const CHUNK_SIZE: usize = 262144;

} // verus!
