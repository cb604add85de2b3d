//! Snapshot chunks and node addresses.
use chronix::meta::transport::{
    assemble_snapshot_chunks, chunk_snapshot, NodeAddressMap, SNAPSHOT_CHUNK_SIZE,
};

#[test]
fn node_address_map_operations() {
    let mut map = NodeAddressMap::new();
    assert!(map.is_empty());
    assert_eq!(map.len(), 0);

    map.insert(1, "http://127.0.0.1:9100");
    map.insert(2, "http://127.0.0.1:9200");
    assert_eq!(map.len(), 2);
    assert!(!map.is_empty());

    assert_eq!(map.get(1).unwrap(), "http://127.0.0.1:9100");
    assert_eq!(map.get(2).unwrap(), "http://127.0.0.1:9200");
    assert!(map.get(3).is_none());

    map.remove(1);
    assert_eq!(map.len(), 1);
    assert!(map.get(1).is_none());
}

#[test]
fn a_node_without_an_address_is_unreachable() {
    let map = NodeAddressMap::new();
    assert_eq!(map.require(99).unwrap_err(), "no address for node 99");
}

#[test]
fn chunk_snapshot_round_trip() {
    let data: Vec<u8> = (0..=255).cycle().take(10_000_000).collect();
    let chunks = chunk_snapshot(&data, SNAPSHOT_CHUNK_SIZE);
    // 10 MB / 4 MiB = 3 chunks (ceil)
    assert_eq!(chunks.len(), 3);
    assert_eq!(chunks[0].len(), SNAPSHOT_CHUNK_SIZE);
    assert_eq!(chunks[1].len(), SNAPSHOT_CHUNK_SIZE);
    assert!(chunks[2].len() < SNAPSHOT_CHUNK_SIZE);

    let reassembled = assemble_snapshot_chunks(&chunks);
    assert_eq!(reassembled, data);
}

#[test]
fn chunk_snapshot_empty() {
    let chunks = chunk_snapshot(&[], SNAPSHOT_CHUNK_SIZE);
    assert_eq!(chunks.len(), 1);
    assert!(chunks[0].is_empty());

    let reassembled = assemble_snapshot_chunks(&chunks);
    assert!(reassembled.is_empty());
}

#[test]
fn chunk_snapshot_smaller_than_chunk_size() {
    let data = vec![1u8; 100];
    let chunks = chunk_snapshot(&data, SNAPSHOT_CHUNK_SIZE);
    assert_eq!(chunks.len(), 1);
    assert_eq!(chunks[0].len(), 100);

    let reassembled = assemble_snapshot_chunks(&chunks);
    assert_eq!(reassembled, data);
}

#[test]
fn chunk_snapshot_exact_multiple() {
    let data = vec![42u8; 3 * SNAPSHOT_CHUNK_SIZE];
    let chunks = chunk_snapshot(&data, SNAPSHOT_CHUNK_SIZE);
    assert_eq!(chunks.len(), 3);
    for c in &chunks {
        assert_eq!(c.len(), SNAPSHOT_CHUNK_SIZE);
    }
    assert_eq!(assemble_snapshot_chunks(&chunks), data);
}

#[test]
fn chunk_snapshot_custom_size() {
    let data = vec![7u8; 25];
    let chunks = chunk_snapshot(&data, 10);
    assert_eq!(chunks.len(), 3); // 10 + 10 + 5
    assert_eq!(chunks[0].len(), 10);
    assert_eq!(chunks[1].len(), 10);
    assert_eq!(chunks[2].len(), 5);
    assert_eq!(assemble_snapshot_chunks(&chunks), data);
}

#[test]
fn a_chunk_size_of_zero_counts_as_one() {
    assert_eq!(chunk_snapshot(&[1, 2, 3], 0), vec![vec![1], vec![2], vec![3]]);
}

#[test]
fn assemble_empty_chunks_list() {
    let reassembled = assemble_snapshot_chunks(&[]);
    assert!(reassembled.is_empty());
}
