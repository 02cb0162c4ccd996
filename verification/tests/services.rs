//! The seeder, the index provider, the downloader and the mock
//! transport, exercised together.

use brisby::chunk::chunk_file;
use brisby::downloader::{process_chunk_message, DownloadState, Downloader};
use brisby::error::Error;
use brisby::error_codes;
use brisby::index::{IndexStats, MessageHandler, SearchIndex};
use brisby::proto::{self, chunk_request, Envelope, Payload};
use brisby::seeder::{ChunkSlot, ChunkStore, Seeder};
use brisby::transport::{MockTransport, NymAddress, ReceivedMessage, SenderTag, Transport};
use brisby::types::IndexEntry;

#[test]
fn test_upsert_and_search() {
    let mut index = SearchIndex::open("index.db");

    let entry = IndexEntry {
        content_hash: [1u8; 32],
        filename: "test_movie.mkv".to_string(),
        keywords: vec!["test".to_string(), "movie".to_string()],
        size: 1024 * 1024 * 100,
        chunk_count: 400,
        published_at: 1000,
        ttl: 3600,
    };

    index.upsert(&entry, "test-nym-address").unwrap();

    let results = index.search("movie", 10).unwrap();
    assert_eq!(results.len(), 1);
    assert_eq!(results[0].filename, "test_movie.mkv");
    assert_eq!(results[0].seeders, vec!["test-nym-address"]);
}

#[test]
fn test_multiple_seeders_aggregated() {
    let mut index = SearchIndex::open("index.db");

    let entry = IndexEntry {
        content_hash: [2u8; 32],
        filename: "shared_file.txt".to_string(),
        keywords: vec!["shared".to_string()],
        size: 1024,
        chunk_count: 1,
        published_at: 1000,
        ttl: 3600,
    };

    index.upsert(&entry, "seeder-one").unwrap();
    index.upsert(&entry, "seeder-two").unwrap();

    let results = index.search("shared", 10).unwrap();
    assert_eq!(results.len(), 1);
    assert_eq!(results[0].seeders.len(), 2);
    assert!(results[0].seeders.contains(&"seeder-one".to_string()));
    assert!(results[0].seeders.contains(&"seeder-two".to_string()));
}

#[test]
fn test_cleanup_expired_removes_exactly_the_dead() {
    let mut index = SearchIndex::open("index.db");
    let entry = IndexEntry {
        content_hash: [3u8; 32],
        filename: "stale_thing.txt".to_string(),
        keywords: vec![],
        size: 10,
        chunk_count: 1,
        published_at: 1000,
        ttl: 60,
    };
    index.upsert(&entry, "old-seeder").unwrap();
    let removed = index.cleanup_expired(1061).unwrap();
    assert_eq!(removed, 2);
    assert_eq!(index.search("stale", 10).unwrap().len(), 0);

    let mut index2 = SearchIndex::open("index.db");
    index2.upsert(&entry, "old-seeder").unwrap();
    // at exactly the expiry instant the row still lives
    assert_eq!(index2.cleanup_expired(1060).unwrap(), 0);
    assert_eq!(index2.search("stale", 10).unwrap().len(), 1);
}

#[test]
fn test_index_stats() {
    let mut index = SearchIndex::open("index.db");
    let mut entry = IndexEntry {
        content_hash: [4u8; 32],
        filename: "one.bin".to_string(),
        keywords: vec![],
        size: 100,
        chunk_count: 1,
        published_at: 0,
        ttl: 60,
    };
    index.upsert(&entry, "a").unwrap();
    entry.content_hash = [5u8; 32];
    entry.size = 50;
    index.upsert(&entry, "a").unwrap();
    let stats: IndexStats = index.stats().unwrap();
    assert_eq!(stats.entry_count, 2);
    assert_eq!(stats.total_size_bytes, 150);
}

fn publish_envelope(request_id: u64) -> Envelope {
    Envelope::new(
        request_id,
        Payload::PublishRequest(proto::PublishRequest {
            content_hash: vec![1u8; 32],
            filename: "test.txt".to_string(),
            keywords: vec!["test".to_string()],
            size: 1024,
            chunk_count: 1,
            nym_address: "test-address".to_string(),
        }),
    )
}

#[test]
fn test_handle_publish() {
    let index = SearchIndex::open("index.db");
    let mut handler = MessageHandler::new(index);

    let msg = ReceivedMessage::new(
        publish_envelope(1).to_bytes(),
        Some(SenderTag::new(vec![0u8; 16])),
    );

    let (_, response_bytes) = handler.handle(&msg, 1000).unwrap();
    let response = Envelope::from_bytes(&response_bytes).unwrap();

    match response.payload {
        Some(Payload::PublishResponse(resp)) => {
            assert!(resp.success);
        },
        _ => panic!("expected a publish response"),
    }
}

#[test]
fn test_handle_search() {
    let index = SearchIndex::open("index.db");
    let mut handler = MessageHandler::new(index);

    let publish = ReceivedMessage::new(
        Envelope::new(
            1,
            Payload::PublishRequest(proto::PublishRequest {
                content_hash: vec![1u8; 32],
                filename: "movie.mkv".to_string(),
                keywords: vec!["action".to_string(), "movie".to_string()],
                size: 1024 * 1024 * 100,
                chunk_count: 400,
                nym_address: "test-address".to_string(),
            }),
        )
        .to_bytes(),
        Some(SenderTag::new(vec![0u8; 16])),
    );
    handler.handle(&publish, 1000).unwrap();

    let request = Envelope::new(
        2,
        Payload::SearchRequest(proto::SearchRequest {
            query: "movie".to_string(),
            max_results: 10,
        }),
    );
    let msg = ReceivedMessage::new(request.to_bytes(), Some(SenderTag::new(vec![0u8; 16])));

    let (_, response_bytes) = handler.handle(&msg, 1000).unwrap();
    let response = Envelope::from_bytes(&response_bytes).unwrap();

    match response.payload {
        Some(Payload::SearchResponse(resp)) => {
            assert_eq!(resp.results.len(), 1);
            assert_eq!(resp.results[0].filename, "movie.mkv");
            assert_eq!(resp.results[0].seeders, vec!["test-address".to_string()]);
        },
        _ => panic!("expected a search response"),
    }
}

#[test]
fn test_message_loop_with_mock() {
    let index = SearchIndex::open("index.db");
    let mut handler = MessageHandler::new(index);
    let mut transport = MockTransport::new();
    transport.connect().unwrap();

    let request = Envelope::new(
        1,
        Payload::SearchRequest(proto::SearchRequest {
            query: "test".to_string(),
            max_results: 10,
        }),
    );
    transport.queue_message(ReceivedMessage::new(
        request.to_bytes(),
        Some(SenderTag::new(vec![0u8; 16])),
    ));

    // one turn of the provider's loop: receive, handle, reply
    let msg = transport.receive_timeout(100).unwrap().unwrap();
    if let Some((tag, bytes)) = handler.handle(&msg, 1000) {
        transport.send_reply(&tag, bytes).unwrap();
    }

    let replies = transport.get_sent_replies();
    assert_eq!(replies.len(), 1);
}

#[test]
fn test_chunk_store_add_file() {
    let mut store = ChunkStore::new("chunks".to_string());
    let data = b"Hello, World! This is test data for chunking.";

    let metadata = store.add_file(data, "hello.txt".to_string(), 0);
    assert_eq!(metadata.filename, "hello.txt");
    assert_eq!(metadata.chunks.len(), 1);

    let chunk = store.get_chunk(&metadata.content_hash, 0);
    assert!(chunk.is_some());
    assert_eq!(chunk.unwrap().as_slice(), data.as_slice());
}

#[test]
fn test_chunk_store_load_file() {
    let data = b"Persistent test data";
    let (metadata, chunks) = chunk_file(data, "persist.txt".to_string(), 0);
    let content_hash = metadata.content_hash;

    // a second store fed the records read back from disk
    let mut store2 = ChunkStore::new("chunks".to_string());
    store2.insert_file(metadata, chunks);

    let chunk = store2.get_chunk(&content_hash, 0);
    assert!(chunk.is_some());
    assert_eq!(chunk.unwrap().as_slice(), data.as_slice());
    assert!(store2.get_metadata(&content_hash).is_some());
    assert_eq!(store2.list_files().len(), 1);
}

#[test]
fn test_seeder_handle_chunk_request() {
    let mut store = ChunkStore::new("chunks".to_string());
    let metadata = store.add_file(b"Seeder test data", "seed.txt".to_string(), 0);
    let seeder = Seeder::new(store);

    let request = Envelope::new(
        1,
        Payload::ChunkRequest(proto::ChunkRequest {
            content_hash: metadata.content_hash.to_vec(),
            chunk_index: 0,
            surb: vec![],
        }),
    );

    let msg = ReceivedMessage::new(request.to_bytes(), Some(SenderTag::new(vec![0u8; 16])));

    let (_, response_bytes) = seeder.handle_message(&msg).unwrap();
    let response = Envelope::from_bytes(&response_bytes).unwrap();

    match response.payload {
        Some(Payload::ChunkResponse(resp)) => {
            assert_eq!(resp.chunk_index, 0);
            assert_eq!(resp.data, b"Seeder test data");
            assert_eq!(resp.chunk_hash, blake3::hash(b"Seeder test data").as_bytes().to_vec());
        },
        _ => panic!("expected a chunk response"),
    }
}

#[test]
fn test_seeder_reports_missing_chunk() {
    let store = ChunkStore::new("chunks".to_string());
    let seeder = Seeder::new(store);
    let request = chunk_request(5, vec![9u8; 32], 0, vec![]);
    let msg = ReceivedMessage::new(request.to_bytes(), Some(SenderTag::new(vec![1u8; 16])));
    let (_, response_bytes) = seeder.handle_message(&msg).unwrap();
    let response = Envelope::from_bytes(&response_bytes).unwrap();
    match response.payload {
        Some(Payload::ErrorResponse(err)) => {
            assert_eq!(err.code, error_codes::NOT_FOUND);
        },
        _ => panic!("expected an error response"),
    }
}

#[test]
fn test_seeder_silent_without_reply_token() {
    let store = ChunkStore::new("chunks".to_string());
    let seeder = Seeder::new(store);
    let request = chunk_request(5, vec![9u8; 32], 0, vec![]);
    let msg = ReceivedMessage::new(request.to_bytes(), None);
    assert!(seeder.handle_message(&msg).is_none());
}

#[test]
fn test_download_state() {
    let mut state = DownloadState::new([1u8; 32], 5);
    assert!(!state.is_complete());
    assert_eq!(state.missing_chunks(), vec![0, 1, 2, 3, 4]);

    state.received_chunks.push(ChunkSlot { index: 0, data: vec![1, 2, 3] });
    state.received_chunks.push(ChunkSlot { index: 2, data: vec![4, 5, 6] });

    assert!(!state.is_complete());
    assert_eq!(state.missing_chunks(), vec![1, 3, 4]);

    state.received_chunks.push(ChunkSlot { index: 1, data: vec![7] });
    state.received_chunks.push(ChunkSlot { index: 3, data: vec![8] });
    state.received_chunks.push(ChunkSlot { index: 4, data: vec![9] });

    assert!(state.is_complete());
    assert_eq!(state.missing_chunks(), Vec::<u32>::new());
}

#[test]
fn test_downloader_request() {
    let mut transport = MockTransport::new();
    transport.connect().unwrap();

    let mut downloader = Downloader::new(transport, 1);
    let seeder = NymAddress::new("seeder-address");
    let content_hash = [1u8; 32];

    let result = downloader.request_chunk(&seeder, &content_hash, 0);
    assert!(result.is_ok());
    assert_eq!(downloader.transport().get_sent_messages().len(), 1);
}

#[test]
fn test_corrupt_chunk_response_is_rejected() {
    let data = b"chunk bytes".to_vec();
    let mut wrong = blake3::hash(&data).as_bytes().to_vec();
    wrong[0] ^= 0xFF;
    let response = Envelope::new(
        1,
        Payload::ChunkResponse(proto::ChunkResponse {
            content_hash: vec![1u8; 32],
            chunk_index: 0,
            data,
            chunk_hash: wrong,
        }),
    );
    match process_chunk_message(&response.to_bytes()) {
        Err(Error::HashMismatch { .. }) => {},
        other => panic!("expected a hash mismatch, got ok={}", other.is_ok()),
    }
}

#[test]
fn test_download_falls_through_to_next_seeder() {
    let (metadata, chunks) = chunk_file(b"fallback contents", "f.txt".to_string(), 0);
    let chunk_hash = blake3::hash(&chunks[0]).as_bytes().to_vec();

    let mut transport = MockTransport::new();
    transport.connect().unwrap();
    // the first seeder answers with an error; the second with the chunk
    transport.queue_message(ReceivedMessage::new(
        proto::error_response(1, error_codes::UNAVAILABLE, "busy".to_string()).to_bytes(),
        None,
    ));
    transport.queue_message(ReceivedMessage::new(
        proto::chunk_response(
            2,
            metadata.content_hash.to_vec(),
            0,
            chunks[0].clone(),
            chunk_hash,
        )
        .to_bytes(),
        None,
    ));

    let mut downloader = Downloader::new(transport, 1);
    let seeders = vec![NymAddress::new("s1"), NymAddress::new("s2")];
    let got = downloader.download_sequential(&metadata, &seeders, 10).unwrap();
    assert_eq!(got.len(), 1);
    assert_eq!(got[0].data, chunks[0]);

    let rebuilt = downloader.reassemble_to_file(got, &metadata).unwrap();
    assert_eq!(rebuilt, b"fallback contents");
}

#[test]
fn test_download_fails_when_all_seeders_fail() {
    let (metadata, _) = chunk_file(b"unreachable", "u.txt".to_string(), 0);
    let mut transport = MockTransport::new();
    transport.connect().unwrap();
    let mut downloader = Downloader::new(transport, 1);
    let seeders = vec![NymAddress::new("s1"), NymAddress::new("s2")];
    assert!(downloader.download_sequential(&metadata, &seeders, 10).is_err());
    let empty: Vec<NymAddress> = vec![];
    assert!(downloader.download_sequential(&metadata, &empty, 10).is_err());
}

#[test]
fn test_reassemble_checks_whole_file_digest() {
    let (metadata, chunks) = chunk_file(b"whole file check", "w.txt".to_string(), 0);
    let transport = MockTransport::new();
    let downloader = Downloader::new(transport, 1);

    let good = vec![ChunkSlot { index: 0, data: chunks[0].clone() }];
    assert!(downloader.reassemble_to_file(good, &metadata).is_ok());

    let bad = vec![ChunkSlot { index: 0, data: b"tampered".to_vec() }];
    match downloader.reassemble_to_file(bad, &metadata) {
        Err(_) => {},
        Ok(_) => panic!("tampered bytes must not reassemble"),
    }
}

#[test]
fn test_search_result_seeders() {
    let result = brisby::types::SearchResult {
        content_hash: [1u8; 32],
        filename: "multi-seeder.txt".to_string(),
        size: 2048,
        chunk_count: 8,
        relevance_bits: 0.8f32.to_bits(),
        seeders: vec![
            "seeder1.nym".to_string(),
            "seeder2.nym".to_string(),
            "seeder3.nym".to_string(),
        ],
    };

    assert_eq!(result.seeders.len(), 3);
    assert!(result.seeders.contains(&"seeder1.nym".to_string()));
}

#[test]
fn test_reassemble_allows_unknown_sizes() {
    let transport = MockTransport::new();
    let downloader = Downloader::new(transport, 1);

    let data = b"short-file";
    let content_hash = *blake3::hash(data).as_bytes();
    let metadata = brisby::types::FileMetadata {
        content_hash,
        filename: "short.txt".to_string(),
        size: 0, // unknown total size: the byte count goes unchecked
        mime_type: None,
        chunks: vec![brisby::types::ChunkInfo { index: 0, hash: content_hash, size: 0 }],
        keywords: vec![],
        created_at: 0,
    };

    let written = downloader
        .reassemble_to_file(vec![ChunkSlot { index: 0, data: data.to_vec() }], &metadata)
        .unwrap();
    assert_eq!(written, data);
}
