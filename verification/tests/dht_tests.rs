//! The XOR metric and the peer tables.

use brisby::dht::{bucket_index, xor_distance, KBucket, NodeInfo, RoutingTable};

#[test]
fn test_xor_distance() {
    let a = [0u8; 32];
    let mut b = [0u8; 32];
    b[31] = 1;

    let dist = xor_distance(&a, &b);
    assert_eq!(dist[31], 1);
}

#[test]
fn test_bucket_index() {
    let mut dist = [0u8; 32];
    dist[31] = 1;
    assert_eq!(bucket_index(&dist), 0);

    dist[31] = 0x80;
    assert_eq!(bucket_index(&dist), 7);

    dist[0] = 0x80;
    dist[31] = 0;
    assert_eq!(bucket_index(&dist), 255);
}

#[test]
fn test_bucket_index_of_zero_distance() {
    let dist = [0u8; 32];
    assert_eq!(bucket_index(&dist), 0);
}

fn node(id_byte: u8, addr: &str, seen: u64) -> NodeInfo {
    let mut id = [0u8; 32];
    id[31] = id_byte;
    NodeInfo { node_id: id, nym_address: addr.to_string(), last_seen: seen }
}

#[test]
fn test_kbucket_upsert_and_capacity() {
    let mut bucket = KBucket::new(2);
    assert!(!bucket.is_full());
    assert!(bucket.upsert(node(1, "a", 10)));
    assert!(bucket.upsert(node(2, "b", 20)));
    assert!(bucket.is_full());
    // a full bucket refuses a new node
    assert!(!bucket.upsert(node(3, "c", 30)));
    assert_eq!(bucket.nodes().len(), 2);
    // refreshing a known node moves it to the freshest position
    assert!(bucket.upsert(node(1, "a", 40)));
    assert_eq!(bucket.nodes().len(), 2);
    assert_eq!(bucket.nodes()[1].last_seen, 40);
}

#[test]
fn test_routing_table_closest_nodes() {
    let local = [0u8; 32];
    let mut table = RoutingTable::new(local, 20);
    table.upsert(node(1, "near", 1));
    table.upsert(node(4, "mid", 1));
    table.upsert(node(0x40, "far", 1));

    let target = [0u8; 32];
    let closest = table.closest_nodes(&target, 2);
    assert_eq!(closest.len(), 2);
    assert_eq!(closest[0].nym_address, "near");
    assert_eq!(closest[1].nym_address, "mid");

    let all = table.closest_nodes(&target, 10);
    assert_eq!(all.len(), 3);
    assert_eq!(all[2].nym_address, "far");
}

#[test]
fn test_generate_random_node_id() {
    let id = brisby::dht::generate_random_node_id();
    assert!(id.is_some());
    // two draws almost surely differ; equal draws would mean the
    // entropy source is not being consulted at all
    let other = brisby::dht::generate_random_node_id();
    assert_ne!(id.unwrap(), other.unwrap());
}
