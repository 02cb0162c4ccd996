//! The core data model: chunks, file metadata, index entries, seeders
//! and search results.

use vstd::prelude::*;
use crate::hashing::ContentHash;
use crate::keywords;

verus! {

/// One chunk of a file: its 0-based position, its digest, and its size
/// in bytes. Only the last chunk of a file may fall short of `CHUNK_SIZE`.
#[derive(Debug, Clone)]
pub struct ChunkInfo {
    pub index: u32,
    pub hash: ContentHash,
    pub size: u32,
}

pub ghost struct ChunkInfoV {
    pub index: u32,
    pub hash: Seq<u8>,
    pub size: u32,
}

impl View for ChunkInfo {
    type V = ChunkInfoV;

    open spec fn view(&self) -> ChunkInfoV {
        ChunkInfoV { index: self.index, hash: self.hash@, size: self.size }
    }
}

impl DeepView for ChunkInfo {
    type V = ChunkInfoV;

    open spec fn deep_view(&self) -> ChunkInfoV {
        self.view()
    }
}

/// Everything known about a shared file: the whole-file digest over the
/// raw bytes, the name it was shared under, its chunk list, and the
/// keywords extracted from the name. Immutable once built.
#[derive(Debug, Clone)]
pub struct FileMetadata {
    pub content_hash: ContentHash,
    pub filename: String,
    pub size: u64,
    pub mime_type: Option<String>,
    pub chunks: Vec<ChunkInfo>,
    pub keywords: Vec<String>,
    pub created_at: u64,
}

pub ghost struct FileMetadataV {
    pub content_hash: Seq<u8>,
    pub filename: Seq<char>,
    pub size: u64,
    pub mime_type: Option<Seq<char>>,
    pub chunks: Seq<ChunkInfoV>,
    pub keywords: Seq<Seq<char>>,
    pub created_at: u64,
}

impl View for FileMetadata {
    type V = FileMetadataV;

    open spec fn view(&self) -> FileMetadataV {
        FileMetadataV {
            content_hash: self.content_hash@,
            filename: self.filename@,
            size: self.size,
            mime_type: self.mime_type.deep_view(),
            chunks: self.chunks.deep_view(),
            keywords: self.keywords.deep_view(),
            created_at: self.created_at,
        }
    }
}

impl FileMetadata {
    /// The searchable keywords of a filename: its lowercased alphanumeric
    /// runs of length at least two, in filename order.
    pub fn extract_keywords(filename: &str) -> (r: Vec<String>)
        ensures
            r.deep_view() == keywords::keywords_of(filename@),
    {
        keywords::extract_keywords(filename)
    }
}

/// An entry held by an index provider: one row per distinct file, with
/// the publication time and time-to-live that govern expiry.
#[derive(Debug, Clone)]
pub struct IndexEntry {
    pub content_hash: ContentHash,
    pub filename: String,
    pub keywords: Vec<String>,
    pub size: u64,
    pub chunk_count: u32,
    pub published_at: u64,
    pub ttl: u64,
}

pub ghost struct IndexEntryV {
    pub content_hash: Seq<u8>,
    pub filename: Seq<char>,
    pub keywords: Seq<Seq<char>>,
    pub size: u64,
    pub chunk_count: u32,
    pub published_at: u64,
    pub ttl: u64,
}

impl View for IndexEntry {
    type V = IndexEntryV;

    open spec fn view(&self) -> IndexEntryV {
        IndexEntryV {
            content_hash: self.content_hash@,
            filename: self.filename@,
            keywords: self.keywords.deep_view(),
            size: self.size,
            chunk_count: self.chunk_count,
            published_at: self.published_at,
            ttl: self.ttl,
        }
    }
}

impl DeepView for IndexEntry {
    type V = IndexEntryV;

    open spec fn deep_view(&self) -> IndexEntryV {
        self.view()
    }
}

/// A peer that holds chunks of a file, with a bitmap of which and when it
/// was last seen.
#[derive(Debug, Clone)]
pub struct Seeder {
    pub nym_address: String,
    pub chunk_bitmap: Vec<u8>,
    pub last_seen: u64,
}

pub ghost struct SeederV {
    pub nym_address: Seq<char>,
    pub chunk_bitmap: Seq<u8>,
    pub last_seen: u64,
}

impl View for Seeder {
    type V = SeederV;

    open spec fn view(&self) -> SeederV {
        SeederV {
            nym_address: self.nym_address@,
            chunk_bitmap: self.chunk_bitmap@,
            last_seen: self.last_seen,
        }
    }
}

impl DeepView for Seeder {
    type V = SeederV;

    open spec fn deep_view(&self) -> SeederV {
        self.view()
    }
}

/// A search hit handed back to a caller. The relevance score is carried
/// as the raw bits of a 32-bit float, since the score itself is only
/// ordered, never computed on, inside the library.
#[derive(Debug, Clone)]
pub struct SearchResult {
    pub content_hash: ContentHash,
    pub filename: String,
    pub size: u64,
    pub chunk_count: u32,
    pub relevance_bits: u32,
    pub seeders: Vec<String>,
}

pub ghost struct SearchResultV {
    pub content_hash: Seq<u8>,
    pub filename: Seq<char>,
    pub size: u64,
    pub chunk_count: u32,
    pub relevance_bits: u32,
    pub seeders: Seq<Seq<char>>,
}

impl View for SearchResult {
    type V = SearchResultV;

    open spec fn view(&self) -> SearchResultV {
        SearchResultV {
            content_hash: self.content_hash@,
            filename: self.filename@,
            size: self.size,
            chunk_count: self.chunk_count,
            relevance_bits: self.relevance_bits,
            seeders: self.seeders.deep_view(),
        }
    }
}

impl DeepView for SearchResult {
    type V = SearchResultV;

    open spec fn deep_view(&self) -> SearchResultV {
        self.view()
    }
}

} // verus!
