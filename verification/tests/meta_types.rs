//! The plain types of the cluster metadata.
use chronix::meta::types::{
    ClusterConfig, DataNodeInfo, KeyRange, MeasurementSchema, NodeMode, NodeState, RegionInfo,
    RegionState,
};
use chronix::sorted_map::SortedMap;

#[test]
fn node_state_display() {
    assert_eq!(NodeState::Active.to_text(), "active");
    assert_eq!(NodeState::Suspect.to_text(), "suspect");
    assert_eq!(NodeState::Dead.to_text(), "dead");
    assert_eq!(NodeState::Decommissioning.to_text(), "decommissioning");
}

#[test]
fn node_mode_display() {
    assert_eq!(NodeMode::Meta.to_text(), "meta");
    assert_eq!(NodeMode::Data.to_text(), "data");
    assert_eq!(NodeMode::Query.to_text(), "query");
}

#[test]
fn region_state_display() {
    assert_eq!(RegionState::Active.to_text(), "active");
    assert_eq!(RegionState::Migrating.to_text(), "migrating");
    assert_eq!(RegionState::ReadOnly.to_text(), "read-only");
    assert_eq!(RegionState::Replicating.to_text(), "replicating");
    assert_eq!(RegionState::Splitting.to_text(), "splitting");
}

#[test]
fn region_state_accepts_reads() {
    assert!(RegionState::Active.accepts_reads());
    assert!(RegionState::Splitting.accepts_reads());
    assert!(RegionState::Migrating.accepts_reads());
    assert!(RegionState::Replicating.accepts_reads());
    assert!(RegionState::ReadOnly.accepts_reads());
}

#[test]
fn region_state_accepts_writes() {
    assert!(RegionState::Active.accepts_writes());
    assert!(RegionState::Splitting.accepts_writes());
    assert!(!RegionState::Migrating.accepts_writes());
    assert!(!RegionState::ReadOnly.accepts_writes());
    assert!(!RegionState::Replicating.accepts_writes());
}

#[test]
fn data_node_new() {
    let node = DataNodeInfo::new(1, "127.0.0.1:9100");
    assert_eq!(node.node_id, 1);
    assert_eq!(node.grpc_addr, "127.0.0.1:9100");
    assert_eq!(node.state, NodeState::Active);
    assert_eq!(node.mode, NodeMode::Data);
    assert!(node.region_ids.is_empty());
}

#[test]
fn data_node_builders() {
    let mut labels: SortedMap<String, String> = SortedMap::new();
    labels.insert("zone".to_string(), "a".to_string());
    let node = DataNodeInfo::seen_at(7, "h:1", 99)
        .with_mode(NodeMode::Query)
        .with_capacity(10, 20, u64::from(u32::MAX) + 5)
        .with_labels(labels);
    assert_eq!(node.last_heartbeat_secs, 99);
    assert_eq!(node.mode, NodeMode::Query);
    assert_eq!(node.disk_bytes, 10);
    assert_eq!(node.memory_bytes, 20);
    assert_eq!(node.cpu_cores, u32::MAX);
    assert_eq!(node.labels.get(&"zone".to_string()), Some(&"a".to_string()));
}

#[test]
fn region_info_new() {
    let region = RegionInfo::new(42, "cpu", 1, vec![1, 2, 3]);
    assert_eq!(region.region_id, 42);
    assert_eq!(region.measurement, "cpu");
    assert_eq!(region.leader_node_id, 1);
    assert_eq!(region.replica_node_ids, vec![1, 2, 3]);
    assert_eq!(region.replication_factor, 3);
    assert_eq!(region.state, RegionState::Active);
}

#[test]
fn a_region_without_replicas_is_replicated_once() {
    assert_eq!(RegionInfo::new(1, "cpu", 1, vec![]).replication_factor, 1);
}

#[test]
fn measurement_schema_builder() {
    let schema = MeasurementSchema::new("cpu").with_region_count(5).with_replication_factor(2);
    assert_eq!(schema.name, "cpu");
    assert_eq!(schema.region_count, 5);
    assert_eq!(schema.replication_factor, 2);
}

#[test]
fn cluster_config_defaults() {
    let cfg = ClusterConfig::default();
    assert_eq!(cfg.default_replication_factor, 3);
    assert_eq!(cfg.default_region_count, 3);
    assert_eq!(cfg.heartbeat_interval_secs, 5);
    assert_eq!(cfg.heartbeat_dead_threshold, 6);
    assert_eq!(cfg.max_concurrent_rereplications, 2);
}

#[test]
fn key_range_text_and_midpoint() {
    let range = KeyRange::new(10, 20);
    assert_eq!(range.midpoint(), Some(15));
    let (left, right) = range.split().unwrap();
    assert_eq!((left.start, left.end, right.start, right.end), (10, 15, 15, 20));
    assert!(!range.contains(20));
    assert!(range.contains(19));
}

#[test]
fn a_reversed_key_range_is_not_split() {
    assert!(KeyRange::new(20, 10).split().is_none());
}
