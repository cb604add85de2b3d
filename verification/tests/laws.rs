//! What holds across calls, on concrete values.
use std::hash::Hasher;

use chronix::meta::log_store::{EntryPayload, LogId, MetaEntry};
use chronix::meta::routing::RoutingTable;
use chronix::meta::state_machine::MetaStateMachine;
use chronix::meta::store::MetaSmStore;
use chronix::meta::types::{
    DataNodeInfo, KeyRange, MeasurementSchema, MetaCommand, MetaResponse, RegionInfo, RegionState,
};
use chronix::query::batch::{Batch, Cell};
use chronix::query::cells::FieldValue;
use chronix::query::convert::{points_to_record_batch, Point};
use chronix::query::filter::{filter_batch, filter_tombstoned, Tombstone, TombstoneSet};
use chronix::query::series::{hash_canonical, SeriesKey};
use chronix::sorted_map::SortedMap;

fn node(id: u64) -> MetaCommand {
    MetaCommand::RegisterNode(DataNodeInfo::seen_at(id, &format!("a:{id}"), 100))
}

fn machine_with(nodes: u64) -> MetaStateMachine {
    let mut sm = MetaStateMachine::new();
    for id in 1..=nodes {
        sm.apply(id, &node(id));
    }
    sm
}

fn shown(sm: &MetaStateMachine) -> String {
    format!("{:?}", sm.snapshot_at(1))
}

#[test]
fn a_refused_command_changes_nothing() {
    let mut sm = machine_with(1);
    sm.apply(2, &MetaCommand::CreateRegion(RegionInfo::new(1, "cpu", 1, vec![1])));
    let before = sm.snapshot_at(1);
    let refused =
        sm.apply(3, &MetaCommand::UpdateRegionLeader { region_id: 1, leader_node_id: 9 });
    assert!(matches!(refused, MetaResponse::Error { .. }));
    let after = sm.snapshot_at(1);
    assert_eq!(format!("{:?}", before.regions), format!("{:?}", after.regions));
    assert_eq!(format!("{:?}", before.nodes), format!("{:?}", after.nodes));
}

#[test]
fn cancelling_undoes_beginning() {
    let mut sm = machine_with(2);
    sm.apply(3, &MetaCommand::CreateRegion(RegionInfo::new(1, "cpu", 1, vec![1])));
    let before = sm.snapshot_at(1);
    sm.apply(
        4,
        &MetaCommand::BeginMigration { region_id: 1, source_node_id: 1, dest_node_id: 2 },
    );
    let cancelled = sm.apply(5, &MetaCommand::CancelMigration { region_id: 1, dest_node_id: 2 });
    assert!(matches!(cancelled, MetaResponse::Done));
    let region = sm.get_region(1).unwrap();
    assert_eq!(region.state, RegionState::Active);
    assert_eq!(region.replica_node_ids, vec![1]);
    let after = sm.snapshot_at(1);
    assert_eq!(format!("{:?}", before.regions), format!("{:?}", after.regions));
    assert_eq!(format!("{:?}", before.nodes), format!("{:?}", after.nodes));
}

#[test]
fn migrations_keep_the_leader_among_the_replicas() {
    let mut sm = machine_with(2);
    sm.apply(3, &MetaCommand::CreateRegion(RegionInfo::new(1, "cpu", 1, vec![1])));
    sm.apply(
        4,
        &MetaCommand::BeginMigration { region_id: 1, source_node_id: 1, dest_node_id: 2 },
    );
    let itself = sm.apply(
        5,
        &MetaCommand::MigrateRegion { region_id: 1, source_node_id: 2, dest_node_id: 2 },
    );
    assert!(matches!(
        itself,
        MetaResponse::Error { message }
            if message == "source and destination are the same node 2 \u{2014} nothing to migrate"
    ));
    let leader = sm.apply(6, &MetaCommand::CancelMigration { region_id: 1, dest_node_id: 1 });
    assert!(matches!(
        leader,
        MetaResponse::Error { message } if message
            == "destination node 1 is the leader of region 1, its migration cannot be cancelled"
    ));
    let region = sm.get_region(1).unwrap();
    assert_eq!(region.state, RegionState::Migrating);
    assert_eq!(region.leader_node_id, 1);
    assert_eq!(region.replica_node_ids, vec![1, 2]);
}

#[test]
fn restoring_later_ages_the_heartbeats() {
    let mut sm = machine_with(1);
    sm.apply(2, &MetaCommand::Heartbeat { node_id: 1, generation: 7, timestamp_secs: 1000 });
    let mut same = MetaStateMachine::new();
    same.restore_at(sm.snapshot_at(2000), 2000);
    assert_eq!(same.heartbeat_data().get(&1), Some(&(7, 1000)));
    let mut later = MetaStateMachine::new();
    later.restore_at(sm.snapshot_at(2000), 2300);
    assert_eq!(later.heartbeat_data().get(&1), Some(&(7, 700)));
    assert_eq!(later.last_applied_log(), 2);
}

#[test]
fn planned_regions_have_fresh_ids() {
    let mut sm = machine_with(3);
    let schema = MeasurementSchema::new("cpu").with_region_count(2).with_replication_factor(2);
    let first = sm.prepare_create_regions(&schema).unwrap();
    let second = sm.prepare_create_regions(&schema).unwrap();
    let ids = |commands: &Vec<MetaCommand>| -> Vec<u64> {
        commands
            .iter()
            .map(|c| match c {
                MetaCommand::CreateRegion(region) => {
                    assert_eq!(region.leader_node_id, region.replica_node_ids[0]);
                    region.region_id
                }
                other => panic!("unexpected command: {other:?}"),
            })
            .collect()
    };
    let mut all = ids(&first);
    all.extend(ids(&second));
    let count = all.len();
    all.sort_unstable();
    all.dedup();
    assert_eq!(all.len(), count);
}

fn entry(index: u64, command: MetaCommand) -> MetaEntry {
    MetaEntry {
        log_id: LogId { term: 1, node_id: 0, index },
        payload: EntryPayload::Normal(command),
    }
}

#[test]
fn it_does_not_matter_how_entries_are_batched() {
    let mut whole = MetaSmStore::new();
    whole.apply(&vec![entry(1, node(1)), entry(2, node(2))]);
    let mut parts = MetaSmStore::new();
    parts.apply(&vec![entry(1, node(1))]);
    parts.apply(&vec![entry(2, node(2))]);
    assert_eq!(shown(whole.state_machine()), shown(parts.state_machine()));
    assert_eq!(whole.applied_state().0, parts.applied_state().0);
}

fn ranged(id: u64, range: KeyRange) -> RegionInfo {
    RegionInfo::new(id, "cpu", 1, vec![1]).with_key_range(range)
}

fn table(regions: Vec<RegionInfo>) -> RoutingTable {
    let mut map = SortedMap::new();
    for region in regions {
        map.insert(region.region_id, region);
    }
    let mut nodes = SortedMap::new();
    nodes.insert(1, DataNodeInfo::seen_at(1, "a:1", 5));
    let mut table = RoutingTable::new();
    table.rebuild(&map, &nodes);
    table
}

#[test]
fn a_split_moves_only_the_hashes_of_its_range() {
    let left = KeyRange::new(0, 1000);
    let right = KeyRange::new(1000, 2000);
    let before = table(vec![ranged(1, left), ranged(2, right)]);
    let (low, high) = left.split().unwrap();
    let after = table(vec![ranged(1, low), ranged(3, high), ranged(2, right)]);
    for hash in [1000, 1500, 1999] {
        assert_eq!(before.route_series("cpu", hash).unwrap().region_id, 2);
        assert_eq!(after.route_series("cpu", hash).unwrap().region_id, 2);
    }
    assert_eq!(after.route_series("cpu", 499).unwrap().region_id, 1);
    assert_eq!(after.route_series("cpu", 500).unwrap().region_id, 3);
    assert_eq!(after.route_series("cpu", 500).unwrap().leader_addr, "a:1");
}

#[test]
fn the_routing_checksum_is_that_of_the_encoded_rows() {
    let mut sm = MetaStateMachine::new();
    let empty = sm.snapshot_at(1);
    sm.apply(1, &MetaCommand::CreateRegion(RegionInfo::new(7, "cpu", 3, vec![3, 4])));
    let snapshot = sm.snapshot_at(1);
    assert!(snapshot.checksum_matches());
    assert_ne!(snapshot.routing_checksum, empty.routing_checksum);

    let range: Option<(u64, u64)> = None;
    let regions =
        vec![(7u64, (7u64, "cpu".to_string(), 3u64, vec![3u64, 4], 0u32, 2u32, range))];
    let nodes: Vec<u64> = Vec::new();
    let bytes = postcard::to_stdvec(&(regions, nodes)).unwrap();
    let mut hasher = fnv::FnvHasher::default();
    hasher.write(&bytes);
    assert_eq!(snapshot.routing_checksum, hasher.finish());

    let mut tampered = sm.snapshot_at(1);
    tampered.routing_checksum ^= 1;
    assert!(!tampered.checksum_matches());
}

#[test]
fn series_are_hashed_with_fnv_1a() {
    assert_eq!(hash_canonical(""), 0xcbf2_9ce4_8422_2325);
    assert_eq!(hash_canonical("a"), 0xaf63_dc4c_8601_ec8c);
    assert_eq!(hash_canonical("foobar"), 0x8594_4171_f739_67e8);
}

fn point(tags: &[(&str, &str)], ts: i64) -> Point {
    let mut map = SortedMap::new();
    for (name, value) in tags {
        map.insert(name.to_string(), value.to_string());
    }
    let mut fields = SortedMap::new();
    fields.insert("note".to_string(), FieldValue::String(format!("n{ts}")));
    Point::new(SeriesKey::new("cpu", map), fields, ts)
}

fn times_of(batch: &Batch) -> Vec<i64> {
    batch
        .column(0)
        .cells
        .iter()
        .map(|cell| match cell {
            Cell::Int(t) => *t,
            other => panic!("not a timestamp: {other:?}"),
        })
        .collect()
}

#[test]
fn a_point_is_deleted_by_the_tombstone_of_its_series() {
    let points = vec![
        point(&[("host", "a"), ("dc", "eu")], 1),
        point(&[("host", "a")], 2),
        point(&[("dc", "eu")], 3),
        point(&[], 4),
    ];
    let batch = points_to_record_batch(&points).unwrap();
    for (i, deleted) in points.iter().enumerate() {
        let mut tombstones = TombstoneSet::new();
        tombstones.insert(Tombstone::all_time(&deleted.series_key().canonical_form()));
        let kept =
            filter_tombstoned(&batch, "cpu", &tombstones, Some(&["dc", "host"])).unwrap();
        let expected: Vec<i64> = (1..=4).filter(|t| *t != i as i64 + 1).collect();
        assert_eq!(times_of(&kept), expected);
    }
}

#[test]
fn a_wider_filter_keeps_at_least_the_same_rows() {
    let points =
        vec![point(&[("host", "a")], 1), point(&[("host", "b")], 2), point(&[("host", "a")], 3)];
    let batch = points_to_record_batch(&points).unwrap();
    let narrow = filter_batch(&batch, 1, 2, &[("host", "a")]).unwrap();
    let wide = filter_batch(&batch, 0, 3, &[]).unwrap();
    assert_eq!(times_of(&narrow), vec![1]);
    assert_eq!(times_of(&wide), vec![1, 2, 3]);
}
