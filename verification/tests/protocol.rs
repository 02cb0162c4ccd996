//! The wire format: round trips and version pinning.

use brisby::error::Error;
use brisby::proto::{
    self, chunk_request, error_response, search_request, search_response, Envelope, Payload,
};
use brisby::PROTOCOL_VERSION;

#[test]
fn test_envelope_roundtrip() {
    let original = search_request(42, "test query".to_string(), 10);
    let bytes = original.to_bytes();
    let decoded = Envelope::from_bytes(&bytes).unwrap();

    assert_eq!(original.version, decoded.version);
    assert_eq!(original.request_id, decoded.request_id);
    assert_eq!(original, decoded);
}

#[test]
fn test_message_roundtrip() {
    let messages = vec![
        search_request(1, "test query".to_string(), 10),
        search_response(
            2,
            vec![proto::SearchResult {
                content_hash: vec![1u8; 32],
                filename: "test.txt".to_string(),
                size: 1024,
                chunk_count: 4,
                relevance_bits: 0.95f32.to_bits(),
                seeders: vec!["seeder1".to_string(), "seeder2".to_string()],
            }],
        ),
        chunk_request(3, vec![2u8; 32], 5, vec![0u8; 16]),
        Envelope::new(
            4,
            Payload::ChunkResponse(proto::ChunkResponse {
                content_hash: vec![3u8; 32],
                chunk_index: 2,
                data: vec![4u8; 100],
                chunk_hash: vec![5u8; 32],
            }),
        ),
        error_response(5, 404, "Not found".to_string()),
    ];

    for original in messages {
        let bytes = original.to_bytes();
        let decoded = Envelope::from_bytes(&bytes).unwrap();

        assert_eq!(decoded.request_id, original.request_id);
        assert_eq!(decoded.version, original.version);
        assert_eq!(decoded, original);
    }
}

#[test]
fn test_all_payload_variants_roundtrip() {
    let node = proto::NodeInfo { node_id: vec![9u8; 32], nym_address: "n1".to_string() };
    let seeder = proto::ProtoSeeder {
        nym_address: "s1".to_string(),
        chunk_bitmap: vec![0xFF, 0x01],
        last_seen: 12345,
    };
    let payloads = vec![
        Payload::SearchRequest(proto::SearchRequest { query: "q".to_string(), max_results: 3 }),
        Payload::SearchResponse(proto::SearchResponse { results: vec![] }),
        Payload::ChunkRequest(proto::ChunkRequest {
            content_hash: vec![1u8; 32],
            chunk_index: 0,
            surb: vec![],
        }),
        Payload::ChunkResponse(proto::ChunkResponse {
            content_hash: vec![1u8; 32],
            chunk_index: 1,
            data: b"bytes".to_vec(),
            chunk_hash: vec![2u8; 32],
        }),
        Payload::PublishRequest(proto::PublishRequest {
            content_hash: vec![1u8; 32],
            filename: "f.txt".to_string(),
            keywords: vec!["one".to_string(), "two".to_string()],
            size: 99,
            chunk_count: 1,
            nym_address: "addr".to_string(),
        }),
        Payload::PublishResponse(proto::PublishResponse {
            success: true,
            error: String::new(),
        }),
        Payload::FindNodeRequest(proto::FindNodeRequest { target_id: vec![7u8; 32] }),
        Payload::FindNodeResponse(proto::FindNodeResponse { nodes: vec![node.clone()] }),
        Payload::FindValueRequest(proto::FindValueRequest { key: vec![8u8; 32] }),
        Payload::FindValueResponse(proto::FindValueResponse {
            seeders: vec![seeder.clone()],
            nodes: vec![node.clone()],
        }),
        Payload::StoreRequest(proto::StoreRequest {
            key: vec![6u8; 32],
            seeder: Some(seeder.clone()),
        }),
        Payload::StoreRequest(proto::StoreRequest { key: vec![6u8; 32], seeder: None }),
        Payload::StoreResponse(proto::StoreResponse { success: false }),
        Payload::PingRequest(proto::PingRequest { sender_id: vec![] }),
        Payload::PingResponse(proto::PingResponse { responder_id: b"me".to_vec() }),
        Payload::ErrorResponse(proto::ErrorResponse { code: 101, message: "bad".to_string() }),
    ];
    for (i, p) in payloads.into_iter().enumerate() {
        let original = Envelope::new(i as u64, p);
        let decoded = Envelope::from_bytes(&original.to_bytes()).unwrap();
        assert_eq!(decoded, original);
    }
}

#[test]
fn test_empty_payload_roundtrip() {
    let original = Envelope { version: PROTOCOL_VERSION as u32, request_id: 77, payload: None };
    let decoded = Envelope::from_bytes(&original.to_bytes()).unwrap();
    assert_eq!(decoded, original);
}

#[test]
fn test_version_mismatch_is_rejected() {
    let envelope = Envelope {
        version: 2,
        request_id: 1,
        payload: Some(Payload::PingRequest(proto::PingRequest { sender_id: vec![] })),
    };
    match Envelope::from_bytes(&envelope.to_bytes()) {
        Err(Error::VersionMismatch { expected, actual }) => {
            assert_eq!(expected, PROTOCOL_VERSION);
            assert_eq!(actual, 2);
        },
        other => panic!("expected a version mismatch, got ok={}", other.is_ok()),
    }
}

#[test]
fn test_garbage_is_a_decode_error() {
    match Envelope::from_bytes(&[0xFF, 0xFF, 0xFF, 0xFF]) {
        Err(Error::Decode(_)) => {},
        other => panic!("expected a decode error, got ok={}", other.is_ok()),
    }
    assert!(Envelope::from_bytes(&[]).is_err());
}

#[test]
fn test_unicode_text_survives_the_wire() {
    let original = search_request(9, "smörgåsbord \u{1F600}".to_string(), 1);
    let decoded = Envelope::from_bytes(&original.to_bytes()).unwrap();
    match decoded.payload {
        Some(Payload::SearchRequest(req)) => {
            assert_eq!(req.query, "smörgåsbord \u{1F600}");
        },
        _ => panic!("expected a search request"),
    }
}
