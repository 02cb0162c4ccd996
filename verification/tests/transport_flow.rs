//! The mock transport, the client exchanges, and one end-to-end flow.

use brisby::chunk::chunk_file;
use brisby::network::{next_request_id, process_publish_reply, search_index_provider};
use brisby::proto::{self, Envelope, Payload};
use brisby::transport::{MockTransport, NymAddress, ReceivedMessage, SenderTag, Transport};

#[test]
fn test_mock_transport_connect() {
    let mut transport = MockTransport::new();
    assert!(!transport.is_connected());
    assert!(transport.our_address().is_none());

    transport.connect().unwrap();
    assert!(transport.is_connected());
    assert!(transport.our_address().is_some());
}

#[test]
fn test_mock_transport_send_receive() {
    let mut transport = MockTransport::new();
    transport.connect().unwrap();

    let msg = ReceivedMessage::new(b"hello".to_vec(), None);
    transport.queue_message(msg);

    let recipient = NymAddress::new("recipient-address");
    transport.send(&recipient, b"world".to_vec()).unwrap();

    let sent = transport.get_sent_messages();
    assert_eq!(sent.len(), 1);
    assert_eq!(sent[0].1, b"world");

    let received = transport.receive_timeout(100).unwrap();
    assert!(received.is_some());
    assert_eq!(received.unwrap().data, b"hello");
}

#[test]
fn test_mock_transport_reply() {
    let mut transport = MockTransport::new();
    transport.connect().unwrap();

    let tag = SenderTag::new(vec![1, 2, 3, 4]);
    transport.send_reply(&tag, b"reply data".to_vec()).unwrap();

    let replies = transport.get_sent_replies();
    assert_eq!(replies.len(), 1);
    assert_eq!(replies[0].1, b"reply data");
}

#[test]
fn test_mock_transport_refuses_send_when_disconnected() {
    let mut transport = MockTransport::new();
    let recipient = NymAddress::new("nobody");
    assert!(transport.send(&recipient, b"x".to_vec()).is_err());
    assert!(transport.receive_timeout(5).unwrap().is_none());
}

#[test]
fn test_next_request_id_advances() {
    let mut counter: u64 = 41;
    assert_eq!(next_request_id(&mut counter), 41);
    assert_eq!(next_request_id(&mut counter), 42);
    let mut at_edge: u64 = u64::MAX;
    assert_eq!(next_request_id(&mut at_edge), u64::MAX);
    assert_eq!(at_edge, 0);
}

#[test]
fn test_search_index_provider() {
    let mut transport = MockTransport::new();
    transport.connect().unwrap();

    let index_provider = NymAddress::new("test-index-provider");

    let response = proto::search_response(
        0,
        vec![proto::SearchResult {
            content_hash: vec![1u8; 32],
            filename: "test.txt".to_string(),
            size: 1024,
            chunk_count: 1,
            relevance_bits: 1.0f32.to_bits(),
            seeders: vec!["test-seeder".to_string()],
        }],
    );
    transport.queue_message(ReceivedMessage::new(response.to_bytes(), None));

    let mut counter: u64 = 7;
    let results = search_index_provider(
        &mut transport,
        &mut counter,
        &index_provider,
        "test",
        10,
        100,
    )
    .unwrap();

    assert_eq!(results.len(), 1);
    assert_eq!(results[0].filename, "test.txt");
    assert_eq!(results[0].seeders, vec!["test-seeder".to_string()]);
}

#[test]
fn test_publish_reply_outcomes() {
    let ok = Envelope::new(
        1,
        Payload::PublishResponse(proto::PublishResponse { success: true, error: String::new() }),
    );
    assert!(process_publish_reply(&ok.to_bytes()).is_ok());
    let refused = Envelope::new(
        2,
        Payload::PublishResponse(proto::PublishResponse {
            success: false,
            error: "full".to_string(),
        }),
    );
    assert!(process_publish_reply(&refused.to_bytes()).is_err());
}

#[test]
fn test_full_flow_mock() {
    let test_content = b"Hello, Brisby! This is integration test content.";

    // chunk the file, as sharing does
    let (metadata, chunks) = chunk_file(test_content, "test.txt".to_string(), 0);
    assert_eq!(metadata.filename, "test.txt");
    assert_eq!(chunks.len(), 1);

    let mut index_transport = MockTransport::new();
    index_transport.connect().unwrap();

    // the publish announcement survives the wire
    let publish_request = Envelope::new(
        1,
        Payload::PublishRequest(proto::PublishRequest {
            content_hash: metadata.content_hash.to_vec(),
            filename: metadata.filename.clone(),
            keywords: metadata.keywords.clone(),
            size: metadata.size,
            chunk_count: metadata.chunks.len() as u32,
            nym_address: "test-seeder-address".to_string(),
        }),
    );
    let decoded = Envelope::from_bytes(&publish_request.to_bytes()).unwrap();
    match decoded.payload {
        Some(Payload::PublishRequest(req)) => {
            assert_eq!(req.filename, "test.txt");
            assert_eq!(req.nym_address, "test-seeder-address");
        },
        _ => panic!("expected a publish request"),
    }

    // the search answer survives the wire
    let search_response = proto::search_response(
        2,
        vec![proto::SearchResult {
            content_hash: metadata.content_hash.to_vec(),
            filename: metadata.filename.clone(),
            size: metadata.size,
            chunk_count: metadata.chunks.len() as u32,
            relevance_bits: 1.0f32.to_bits(),
            seeders: vec!["test-seeder-address".to_string()],
        }],
    );
    index_transport.queue_message(ReceivedMessage::new(search_response.to_bytes(), None));

    // the chunk request survives the wire
    let chunk_request = proto::chunk_request(3, metadata.content_hash.to_vec(), 0, vec![]);
    let decoded = Envelope::from_bytes(&chunk_request.to_bytes()).unwrap();
    match decoded.payload {
        Some(Payload::ChunkRequest(req)) => {
            assert_eq!(req.chunk_index, 0);
            assert_eq!(req.content_hash, metadata.content_hash.to_vec());
        },
        _ => panic!("expected a chunk request"),
    }

    // the chunk answer carries the right bytes under the right digest
    let chunk_hash = *blake3::hash(&chunks[0]).as_bytes();
    let chunk_response = Envelope::new(
        3,
        Payload::ChunkResponse(proto::ChunkResponse {
            content_hash: metadata.content_hash.to_vec(),
            chunk_index: 0,
            data: chunks[0].clone(),
            chunk_hash: chunk_hash.to_vec(),
        }),
    );
    let decoded = Envelope::from_bytes(&chunk_response.to_bytes()).unwrap();
    match decoded.payload {
        Some(Payload::ChunkResponse(resp)) => {
            assert_eq!(resp.chunk_index, 0);
            assert_eq!(resp.data, test_content.to_vec());
            let computed_hash = *blake3::hash(&resp.data).as_bytes();
            assert_eq!(resp.chunk_hash, computed_hash.to_vec());
        },
        _ => panic!("expected a chunk response"),
    }

    // reassembly gives the file back
    let reassembled = chunks.concat();
    assert_eq!(reassembled, test_content.to_vec());
    assert_eq!(metadata.content_hash, *blake3::hash(test_content).as_bytes());
}
