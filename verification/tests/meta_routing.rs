//! The routing table.
use chronix::meta::routing::RoutingTable;
use chronix::meta::types::{DataNodeInfo, KeyRange, RegionInfo};
use chronix::sorted_map::SortedMap;

fn make_nodes() -> SortedMap<u64, DataNodeInfo> {
    let mut nodes = SortedMap::new();
    for id in 1..=3 {
        let mut node = DataNodeInfo::new(id, &format!("127.0.0.1:{}", 9100 + id));
        node.node_id = id;
        nodes.insert(id, node);
    }
    nodes
}

fn make_regions() -> SortedMap<u64, RegionInfo> {
    let mut regions = SortedMap::new();
    // cpu measurement: 3 regions
    for i in 0..3 {
        let region = RegionInfo::new(i + 1, "cpu", (i % 3) + 1, vec![1, 2, 3]);
        regions.insert(region.region_id, region);
    }
    // mem measurement: 2 regions
    for i in 0..2 {
        let region = RegionInfo::new(i + 4, "mem", (i % 3) + 1, vec![1, 2]);
        regions.insert(region.region_id, region);
    }
    regions
}

#[test]
fn rebuild_and_query() {
    let mut table = RoutingTable::new();
    assert_eq!(table.version(), 0);
    assert_eq!(table.measurement_count(), 0);

    let nodes = make_nodes();
    let regions = make_regions();
    table.rebuild(&regions, &nodes);

    assert_eq!(table.version(), 1);
    assert_eq!(table.measurement_count(), 2);
    assert_eq!(table.region_count(), 5);

    let cpu_routes = table.routes_for_measurement("cpu");
    assert_eq!(cpu_routes.len(), 3);
    assert_eq!(cpu_routes[0].measurement, "cpu");

    let mem_routes = table.routes_for_measurement("mem");
    assert_eq!(mem_routes.len(), 2);

    assert!(table.routes_for_measurement("disk").is_empty());
}

#[test]
fn route_for_region() {
    let mut table = RoutingTable::new();
    table.rebuild(&make_regions(), &make_nodes());

    let route = table.route_for_region(2).unwrap();
    assert_eq!(route.region_id, 2);
    assert_eq!(route.measurement, "cpu");

    assert!(table.route_for_region(999).is_none());
}

#[test]
fn route_series_modulo_fallback() {
    let mut table = RoutingTable::new();
    table.rebuild(&make_regions(), &make_nodes());

    // Different hashes should map to different regions (modulo)
    let r0 = table.route_series("cpu", 0).unwrap();
    let r1 = table.route_series("cpu", 1).unwrap();
    let r2 = table.route_series("cpu", 2).unwrap();
    assert_ne!(r0.region_id, r1.region_id);
    assert_ne!(r1.region_id, r2.region_id);

    // Same hash always routes to same region
    let ra = table.route_series("cpu", 42).unwrap();
    let rb = table.route_series("cpu", 42).unwrap();
    assert_eq!(ra.region_id, rb.region_id);
}

#[test]
fn a_measurement_without_regions_has_no_route() {
    assert!(RoutingTable::new().route_series("cpu", 1).is_none());
}

#[test]
fn route_series_range_based() {
    let nodes = make_nodes();
    let mut regions = SortedMap::new();

    // 3 regions covering the full u64 key space
    let third = u64::MAX / 3;
    let ranges = [
        KeyRange::new(0, third),
        KeyRange::new(third, third * 2),
        KeyRange::new(third * 2, u64::MAX),
    ];
    for (i, kr) in ranges.iter().enumerate() {
        let region = RegionInfo::new(i as u64 + 1, "cpu", (i as u64 % 3) + 1, vec![1, 2, 3])
            .with_key_range(*kr);
        regions.insert(region.region_id, region);
    }

    let mut table = RoutingTable::new();
    table.rebuild(&regions, &nodes);

    // Hash 0 is in the first range
    let r = table.route_series("cpu", 0).unwrap();
    assert_eq!(r.region_id, 1);
    assert!(r.key_range.unwrap().contains(0));

    // Hash in the middle is in the second range
    let mid = third + 1;
    let r = table.route_series("cpu", mid).unwrap();
    assert_eq!(r.region_id, 2);

    // Hash near the end is in the third range
    let r = table.route_series("cpu", u64::MAX - 1).unwrap();
    assert_eq!(r.region_id, 3);

    // Deterministic
    let ra = table.route_series("cpu", 12345).unwrap();
    let rb = table.route_series("cpu", 12345).unwrap();
    assert_eq!(ra.region_id, rb.region_id);
}

#[test]
fn key_range_split() {
    let full = KeyRange::full();
    assert!(full.contains(0));
    assert!(full.contains(u64::MAX - 1));
    assert!(!full.contains(u64::MAX)); // end is exclusive

    let (left, right) = full.split().expect("full range must be splittable");
    assert_eq!(left.start, 0);
    assert_eq!(left.end, right.start);
    assert_eq!(right.end, u64::MAX);

    // Left and right are disjoint and cover the full range
    assert!(left.contains(0));
    assert!(!left.contains(left.end));
    assert!(right.contains(right.start));

    // Unsplittable: single-element range [5, 6)
    let tiny = KeyRange::new(5, 6);
    assert!(tiny.split().is_none());
    assert!(tiny.midpoint().is_none());

    // Empty range [5, 5)
    let empty = KeyRange::new(5, 5);
    assert!(empty.split().is_none());
}

#[test]
fn snapshot_roundtrip() {
    let mut table = RoutingTable::new();
    table.rebuild(&make_regions(), &make_nodes());
    let snap = table.snapshot();

    let mut table2 = RoutingTable::new();
    table2.restore(snap);
    assert_eq!(table2.version(), table.version());
    assert_eq!(table2.measurement_count(), table.measurement_count());
    assert_eq!(table2.region_count(), table.region_count());

    let again = table2.snapshot();
    assert_eq!(again.version, table.snapshot().version);
}

#[test]
fn version_increments() {
    let mut table = RoutingTable::new();
    assert_eq!(table.version(), 0);
    table.rebuild(&make_regions(), &make_nodes());
    assert_eq!(table.version(), 1);
    table.rebuild(&make_regions(), &make_nodes());
    assert_eq!(table.version(), 2);
}

#[test]
fn routing_debug_output() {
    let table = RoutingTable::new();
    let debug = format!("{table:?}");
    assert!(debug.contains("RoutingTable"));
    assert!(debug.contains("version"));
}
