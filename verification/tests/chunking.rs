//! Chunking, hashing and keyword extraction.

use brisby::chunk::{chunk_file, detect_mime_type, reassemble_file, verify_chunk};
use brisby::hashing::{hash_bytes, hash_to_hex, hex_to_hash};
use brisby::error::Error;
use brisby::types::FileMetadata;
use brisby::CHUNK_SIZE;

#[test]
fn test_extract_keywords() {
    let keywords = FileMetadata::extract_keywords("Big_Buck-Bunny.1080p.mkv");
    assert!(keywords.contains(&"big".to_string()));
    assert!(keywords.contains(&"buck".to_string()));
    assert!(keywords.contains(&"bunny".to_string()));
    assert!(keywords.contains(&"1080p".to_string()));
    assert!(keywords.contains(&"mkv".to_string()));
}

#[test]
fn test_extract_keywords_order_and_length() {
    let keywords = FileMetadata::extract_keywords("A_to-B.TXT");
    // single-character runs are dropped; the rest come lowercased, in order
    assert_eq!(keywords, vec!["to".to_string(), "txt".to_string()]);
}

#[test]
fn test_chunk_and_reassemble() {
    let test_data = vec![0x42u8; CHUNK_SIZE * 2 + 1000];
    let (metadata, chunks) = chunk_file(&test_data, "two_and_a_bit.bin".to_string(), 7);

    assert_eq!(metadata.size, test_data.len() as u64);
    assert_eq!(chunks.len(), 3);
    assert_eq!(metadata.chunks.len(), 3);

    let rebuilt = reassemble_file(&chunks, &metadata).unwrap();
    assert_eq!(rebuilt, test_data);
}

#[test]
fn test_content_hash_matches_raw_data() {
    let test_data = b"hash-me-now";
    let (metadata, _) = chunk_file(test_data, "hash.bin".to_string(), 0);

    let expected = blake3::hash(test_data);
    assert_eq!(metadata.content_hash, *expected.as_bytes());
}

#[test]
fn test_chunking_sizes() {
    let (meta, chunks) = chunk_file(&vec![0u8; 1000], "small.txt".to_string(), 0);
    assert_eq!(chunks.len(), 1);
    assert_eq!(meta.size, 1000);

    let (meta, chunks) = chunk_file(&vec![0u8; CHUNK_SIZE], "boundary.txt".to_string(), 0);
    assert_eq!(chunks.len(), 1);
    assert_eq!(meta.size, CHUNK_SIZE as u64);

    let (meta, chunks) = chunk_file(&vec![0u8; CHUNK_SIZE + 100], "over.txt".to_string(), 0);
    assert_eq!(chunks.len(), 2);
    assert_eq!(meta.size, (CHUNK_SIZE + 100) as u64);
    assert_eq!(chunks[0].len(), CHUNK_SIZE);
    assert_eq!(chunks[1].len(), 100);
}

#[test]
fn test_empty_file_has_one_empty_chunk() {
    let (meta, chunks) = chunk_file(b"", "empty.bin".to_string(), 0);
    assert_eq!(chunks.len(), 1);
    assert_eq!(chunks[0].len(), 0);
    assert_eq!(meta.size, 0);
    assert_eq!(meta.content_hash, *blake3::hash(b"").as_bytes());
    let rebuilt = reassemble_file(&chunks, &meta).unwrap();
    assert_eq!(rebuilt, b"");
}

#[test]
fn test_per_chunk_hashes_and_sizes() {
    let data = vec![7u8; CHUNK_SIZE + 5];
    let (meta, chunks) = chunk_file(&data, "x.bin".to_string(), 0);
    for (i, info) in meta.chunks.iter().enumerate() {
        assert_eq!(info.index as usize, i);
        assert_eq!(info.size as usize, chunks[i].len());
        assert_eq!(info.hash, *blake3::hash(&chunks[i]).as_bytes());
        assert!(chunks[i].len() <= CHUNK_SIZE);
        assert!(verify_chunk(&chunks[i], &info.hash));
    }
}

#[test]
fn test_reassemble_refuses_wrong_count() {
    let data = b"some file contents";
    let (meta, mut chunks) = chunk_file(data, "a.txt".to_string(), 0);
    chunks.push(vec![1, 2, 3]);
    match reassemble_file(&chunks, &meta) {
        Err(Error::InvalidData(_)) => {},
        other => panic!("expected an invalid-data report, got {:?}", other.is_ok()),
    }
}

#[test]
fn test_reassemble_refuses_corrupt_chunk() {
    let data = b"some file contents";
    let (meta, mut chunks) = chunk_file(data, "a.txt".to_string(), 0);
    chunks[0][0] ^= 0xFF;
    match reassemble_file(&chunks, &meta) {
        Err(Error::HashMismatch { .. }) => {},
        other => panic!("expected a hash-mismatch report, got {:?}", other.is_ok()),
    }
}

#[test]
fn test_hex_round_trip() {
    let digest = hash_bytes(b"abc");
    let hex = hash_to_hex(&digest);
    assert_eq!(hex, blake3::hash(b"abc").to_hex().to_string());
    let back = hex_to_hash(&hex).unwrap();
    assert_eq!(back, digest);
}

#[test]
fn test_hex_rejects_bad_input() {
    match hex_to_hash("zz") {
        Err(Error::InvalidData(_)) => {},
        other => panic!("expected an invalid-data report, got {:?}", other.is_ok()),
    }
    let long = "0".repeat(64);
    assert!(hex_to_hash(&long).is_ok());
    let odd = "0".repeat(63);
    assert!(hex_to_hash(&odd).is_err());
}

#[test]
fn test_detect_mime_type_table() {
    assert_eq!(detect_mime_type("movie.mkv"), Some("video/x-matroska".to_string()));
    assert_eq!(detect_mime_type("page.HTML"), Some("text/html".to_string()));
    assert_eq!(detect_mime_type("shot.PNG"), Some("image/png".to_string()));
    assert_eq!(detect_mime_type("notes.txt"), Some("text/plain".to_string()));
    assert_eq!(detect_mime_type("archive.unknownext"), None);
    assert_eq!(detect_mime_type("no_extension"), None);
    assert_eq!(detect_mime_type(".hidden"), None);
}
