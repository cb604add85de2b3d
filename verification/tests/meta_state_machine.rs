//! Commands applied to the metadata state machine.
use chronix::meta::state_machine::MetaStateMachine;
use chronix::meta::types::{
    ClusterConfig, DataNodeInfo, MeasurementSchema, MetaCommand, MetaResponse, NodeState,
    RegionInfo, RegionState,
};
use chronix::sorted_map::SortedMap;


#[test]
fn create_and_drop_measurement() {
    let mut sm = MetaStateMachine::new();
    let cmd = MetaCommand::CreateMeasurement(MeasurementSchema::new("cpu"));
    let resp = sm.apply(1, &cmd);
    assert!(matches!(resp, MetaResponse::Created { .. }));
    assert!(sm.get_schema("cpu").is_some());

    // Duplicate
    let resp2 = sm.apply(2, &cmd);
    assert!(matches!(resp2, MetaResponse::Error { .. }));

    // Drop
    let resp3 = sm.apply(3, &MetaCommand::DropMeasurement { name: "cpu".into() });
    assert!(matches!(resp3, MetaResponse::Done));
    assert!(sm.get_schema("cpu").is_none());

    // Drop non-existent
    let resp4 = sm.apply(4, &MetaCommand::DropMeasurement { name: "cpu".into() });
    assert!(matches!(resp4, MetaResponse::Error { .. }));
}

#[test]
fn register_and_deregister_node() {
    let mut sm = MetaStateMachine::new();
    let node = DataNodeInfo::new(1, "127.0.0.1:9100");

    let resp = sm.apply(1, &MetaCommand::RegisterNode(node));
    assert!(matches!(resp, MetaResponse::Created { .. }));
    assert!(sm.get_node(1).is_some());
    assert_eq!(sm.active_nodes().len(), 1);

    let resp2 = sm.apply(2, &MetaCommand::DeregisterNode { node_id: 1 });
    assert!(matches!(resp2, MetaResponse::Done));
    assert!(sm.get_node(1).is_none());
}

#[test]
fn heartbeat_updates_generation() {
    let mut sm = MetaStateMachine::new();
    sm.apply(1, &MetaCommand::RegisterNode(DataNodeInfo::new(1, "addr")));

    sm.apply(
        2,
        &MetaCommand::Heartbeat {
            node_id: 1,
            generation: 5,
            timestamp_secs: 1000,
        },
    );

    let node = sm.get_node(1).unwrap();
    assert_eq!(node.heartbeat_generation, 5);
    assert_eq!(node.last_heartbeat_secs, 1000);

    // Out-of-band heartbeat store should also be updated
    let hb = sm.heartbeat_data();
    assert_eq!(hb.get(&1), Some(&(5, 1000)));
}

#[test]
fn record_heartbeat_out_of_band() {
    let mut sm = MetaStateMachine::new();
    sm.apply(1, &MetaCommand::RegisterNode(DataNodeInfo::new(1, "addr")));

    // Direct (out-of-band) heartbeat — no Raft proposal
    let ok = sm.record_heartbeat(1, 10);
    assert!(ok);

    let hb = sm.heartbeat_data();
    let (generation, ts) = hb.get(&1).expect("heartbeat should be recorded");
    assert_eq!(*generation, 10);
    // Timestamp is receiver-side (SystemTime::now()), so just verify it's non-zero
    assert!(*ts > 0);

    // last_heartbeat_secs should prefer out-of-band store
    assert!(sm.last_heartbeat_secs(1) > 0);

    // Unknown node should return false
    assert!(!sm.record_heartbeat(999, 1));
}

#[test]
fn heartbeat_recovers_suspect_node() {
    let mut sm = MetaStateMachine::new();
    sm.apply(1, &MetaCommand::RegisterNode(DataNodeInfo::new(1, "addr")));
    sm.apply(
        2,
        &MetaCommand::UpdateNodeState {
            node_id: 1,
            state: NodeState::Suspect,
        },
    );
    assert_eq!(sm.get_node(1).unwrap().state, NodeState::Suspect);

    sm.apply(
        3,
        &MetaCommand::Heartbeat {
            node_id: 1,
            generation: 1,
            timestamp_secs: 2000,
        },
    );
    assert_eq!(sm.get_node(1).unwrap().state, NodeState::Active);
}

#[test]
fn region_lifecycle() {
    let mut sm = MetaStateMachine::new();
    sm.apply(1, &MetaCommand::RegisterNode(DataNodeInfo::new(1, "a:1")));
    sm.apply(2, &MetaCommand::RegisterNode(DataNodeInfo::new(2, "a:2")));
    sm.apply(3, &MetaCommand::RegisterNode(DataNodeInfo::new(3, "a:3")));

    let region = RegionInfo::new(1, "cpu", 1, vec![1, 2, 3]);
    sm.apply(4, &MetaCommand::CreateRegion(region));

    assert!(sm.get_region(1).is_some());
    assert_eq!(sm.regions_for_measurement("cpu").len(), 1);
    assert_eq!(sm.routing_table().region_count(), 1);

    // Update leader
    sm.apply(
        5,
        &MetaCommand::UpdateRegionLeader {
            region_id: 1,
            leader_node_id: 2,
        },
    );
    assert_eq!(sm.get_region(1).unwrap().leader_node_id, 2);

    // Update state
    sm.apply(
        6,
        &MetaCommand::UpdateRegionState {
            region_id: 1,
            state: RegionState::Migrating,
        },
    );
    assert_eq!(sm.get_region(1).unwrap().state, RegionState::Migrating);
}

#[test]
fn region_replica_management() {
    let mut sm = MetaStateMachine::new();
    sm.apply(1, &MetaCommand::RegisterNode(DataNodeInfo::new(1, "a:1")));
    sm.apply(2, &MetaCommand::RegisterNode(DataNodeInfo::new(2, "a:2")));

    let region = RegionInfo::new(1, "cpu", 1, vec![1]);
    sm.apply(3, &MetaCommand::CreateRegion(region));

    // Add replica
    sm.apply(
        4,
        &MetaCommand::AddRegionReplica {
            region_id: 1,
            node_id: 2,
        },
    );
    let r = sm.get_region(1).unwrap();
    assert_eq!(r.replica_node_ids, vec![1, 2]);

    // Remove replica
    sm.apply(
        5,
        &MetaCommand::RemoveRegionReplica {
            region_id: 1,
            node_id: 2,
        },
    );
    let r = sm.get_region(1).unwrap();
    assert_eq!(r.replica_node_ids, vec![1]);
}

#[test]
fn deregister_node_updates_regions() {
    let mut sm = MetaStateMachine::new();
    sm.apply(1, &MetaCommand::RegisterNode(DataNodeInfo::new(1, "a:1")));
    sm.apply(2, &MetaCommand::RegisterNode(DataNodeInfo::new(2, "a:2")));

    let region = RegionInfo::new(1, "cpu", 1, vec![1, 2]);
    sm.apply(3, &MetaCommand::CreateRegion(region));

    // Deregister node 1 (was leader)
    sm.apply(4, &MetaCommand::DeregisterNode { node_id: 1 });

    let r = sm.get_region(1).unwrap();
    assert!(!r.replica_node_ids.contains(&1));
    assert_eq!(r.leader_node_id, 2); // leader promoted
}

#[test]
fn drop_measurement_cleans_up_regions() {
    let mut sm = MetaStateMachine::new();
    sm.apply(1, &MetaCommand::RegisterNode(DataNodeInfo::new(1, "a:1")));
    sm.apply(
        2,
        &MetaCommand::CreateMeasurement(MeasurementSchema::new("cpu")),
    );

    let region = RegionInfo::new(1, "cpu", 1, vec![1]);
    sm.apply(3, &MetaCommand::CreateRegion(region));

    sm.apply(4, &MetaCommand::DropMeasurement { name: "cpu".into() });
    assert!(sm.regions_for_measurement("cpu").is_empty());
    assert_eq!(sm.routing_table().region_count(), 0);
}

#[test]
fn snapshot_and_restore() {
    let mut sm = MetaStateMachine::new();
    sm.apply(1, &MetaCommand::RegisterNode(DataNodeInfo::new(1, "a:1")));
    sm.apply(2, &MetaCommand::RegisterNode(DataNodeInfo::new(2, "a:2")));
    sm.apply(
        3,
        &MetaCommand::CreateMeasurement(MeasurementSchema::new("cpu")),
    );
    let region = RegionInfo::new(1, "cpu", 1, vec![1, 2]);
    sm.apply(4, &MetaCommand::CreateRegion(region));
    sm.apply(
        5,
        &MetaCommand::SaveModel {
            measurement: "cpu".into(),
            model_id: "m1".into(),
            metadata: vec![1, 2, 3],
        },
    );

    let snap = sm.snapshot();
    assert_eq!(snap.last_applied_log, 5);

    let mut sm2 = MetaStateMachine::new();
    sm2.restore(snap);

    assert_eq!(sm2.last_applied_log(), 5);
    assert!(sm2.get_schema("cpu").is_some());
    assert_eq!(sm2.nodes().len(), 2);
    assert_eq!(sm2.regions().len(), 1);
    assert_eq!(sm2.get_model("cpu", "m1").unwrap(), vec![1, 2, 3]);
    assert_eq!(sm2.routing_table().region_count(), 1);
}

#[test]
fn auto_create_regions() {
    let mut sm = MetaStateMachine::new();
    sm.apply(1, &MetaCommand::RegisterNode(DataNodeInfo::new(1, "a:1")));
    sm.apply(2, &MetaCommand::RegisterNode(DataNodeInfo::new(2, "a:2")));
    sm.apply(3, &MetaCommand::RegisterNode(DataNodeInfo::new(3, "a:3")));

    let schema = MeasurementSchema::new("cpu")
        .with_region_count(3)
        .with_replication_factor(3);

    let ids = sm.auto_create_regions(&schema).unwrap();
    assert_eq!(ids.len(), 3);
    assert_eq!(sm.regions().len(), 3);
    assert_eq!(sm.routing_table().region_count(), 3);

    // Each region should have 3 replicas
    for id in &ids {
        let r = sm.get_region(*id).unwrap();
        assert_eq!(r.replica_node_ids.len(), 3);
    }
}

#[test]
fn auto_create_regions_no_nodes() {
    let mut sm = MetaStateMachine::new();
    let schema = MeasurementSchema::new("cpu");
    assert!(sm.auto_create_regions(&schema).is_err());
}

#[test]
fn under_replicated_regions() {
    let mut sm = MetaStateMachine::new();
    sm.apply(1, &MetaCommand::RegisterNode(DataNodeInfo::new(1, "a:1")));
    sm.apply(2, &MetaCommand::RegisterNode(DataNodeInfo::new(2, "a:2")));
    sm.apply(3, &MetaCommand::RegisterNode(DataNodeInfo::new(3, "a:3")));

    let mut region = RegionInfo::new(1, "cpu", 1, vec![1, 2, 3]);
    region.replication_factor = 3;
    sm.apply(4, &MetaCommand::CreateRegion(region));

    // All active — not under-replicated
    assert!(sm.under_replicated_regions().is_empty());

    // Kill node 3
    sm.apply(
        5,
        &MetaCommand::UpdateNodeState {
            node_id: 3,
            state: NodeState::Dead,
        },
    );
    let under = sm.under_replicated_regions();
    assert_eq!(under.len(), 1);
    assert_eq!(under[0].region_id, 1);
}

#[test]
fn cluster_config_update() {
    let mut sm = MetaStateMachine::new();
    let cfg = ClusterConfig {
        cluster_name: "test-cluster".into(),
        default_replication_factor: 5,
        ..Default::default()
    };

    sm.apply(1, &MetaCommand::UpdateClusterConfig(cfg));
    let retrieved = sm.cluster_config();
    assert_eq!(retrieved.cluster_name, "test-cluster");
    assert_eq!(retrieved.default_replication_factor, 5);
}

#[test]
fn save_and_get_model() {
    let mut sm = MetaStateMachine::new();
    sm.apply(
        1,
        &MetaCommand::SaveModel {
            measurement: "cpu".into(),
            model_id: "arima_v1".into(),
            metadata: vec![42, 43, 44],
        },
    );
    let data = sm.get_model("cpu", "arima_v1").unwrap();
    assert_eq!(data, vec![42, 43, 44]);
    assert!(sm.get_model("cpu", "nonexistent").is_none());
}

#[test]
fn determinism_same_commands_same_state() {
    let cmds = [
        MetaCommand::RegisterNode(DataNodeInfo::new(1, "a:1")),
        MetaCommand::RegisterNode(DataNodeInfo::new(2, "a:2")),
        MetaCommand::CreateMeasurement(MeasurementSchema::new("cpu")),
        MetaCommand::CreateRegion(RegionInfo::new(1, "cpu", 1, vec![1, 2])),
        MetaCommand::Heartbeat {
            node_id: 1,
            generation: 1,
            timestamp_secs: 1000,
        },
        MetaCommand::UpdateRegionLeader {
            region_id: 1,
            leader_node_id: 2,
        },
    ];

    let mut sm1 = MetaStateMachine::new();
    let mut sm2 = MetaStateMachine::new();

    for (i, cmd) in cmds.iter().enumerate() {
        sm1.apply((i + 1) as u64, cmd);
        sm2.apply((i + 1) as u64, cmd);
    }

    // Both state machines should produce identical snapshots
    let s1 = sm1.snapshot_at(5000);
    let s2 = sm2.snapshot_at(5000);
    assert_eq!(format!("{s1:?}"), format!("{s2:?}"));
}

#[test]
fn last_applied_tracks_log_index() {
    let mut sm = MetaStateMachine::new();
    assert_eq!(sm.last_applied_log(), 0);
    sm.apply(
        42,
        &MetaCommand::CreateMeasurement(MeasurementSchema::new("cpu")),
    );
    assert_eq!(sm.last_applied_log(), 42);
}

#[test]
fn state_machine_debug_output() {
    let mut sm = MetaStateMachine::new();
    let dbg = format!("{sm:?}");
    assert!(dbg.contains("MetaStateMachine"));
    assert!(dbg.contains("last_applied"));
}

#[test]
fn update_leader_rejects_non_replica() {
    let mut sm = MetaStateMachine::new();
    sm.apply(1, &MetaCommand::RegisterNode(DataNodeInfo::new(1, "a:1")));
    sm.apply(2, &MetaCommand::RegisterNode(DataNodeInfo::new(2, "a:2")));
    sm.apply(
        3,
        &MetaCommand::CreateRegion(RegionInfo::new(1, "cpu", 1, vec![1])),
    );

    // Node 2 is not in the replica set — must be rejected
    let resp = sm.apply(
        4,
        &MetaCommand::UpdateRegionLeader {
            region_id: 1,
            leader_node_id: 2,
        },
    );
    assert!(matches!(resp, MetaResponse::Error { .. }));

    // Leader should remain node 1
    let region = sm.get_region(1).unwrap();
    assert_eq!(region.leader_node_id, 1);
}

#[test]
fn update_leader_rejects_dead_node() {
    let mut sm = MetaStateMachine::new();
    sm.apply(1, &MetaCommand::RegisterNode(DataNodeInfo::new(1, "a:1")));
    sm.apply(2, &MetaCommand::RegisterNode(DataNodeInfo::new(2, "a:2")));
    sm.apply(
        3,
        &MetaCommand::CreateRegion(RegionInfo::new(1, "cpu", 1, vec![1, 2])),
    );

    // Mark node 2 as dead
    sm.apply(
        4,
        &MetaCommand::UpdateNodeState {
            node_id: 2,
            state: NodeState::Dead,
        },
    );

    // Promoting dead node should fail
    let resp = sm.apply(
        5,
        &MetaCommand::UpdateRegionLeader {
            region_id: 1,
            leader_node_id: 2,
        },
    );
    assert!(matches!(resp, MetaResponse::Error { .. }));
}

#[test]
fn add_replica_rejects_unregistered_node() {
    let mut sm = MetaStateMachine::new();
    sm.apply(1, &MetaCommand::RegisterNode(DataNodeInfo::new(1, "a:1")));
    sm.apply(
        2,
        &MetaCommand::CreateRegion(RegionInfo::new(1, "cpu", 1, vec![1])),
    );

    // Node 99 is not registered
    let resp = sm.apply(
        3,
        &MetaCommand::AddRegionReplica {
            region_id: 1,
            node_id: 99,
        },
    );
    assert!(matches!(resp, MetaResponse::Error { .. }));
}

#[test]
fn add_replica_updates_node_region_ids() {
    let mut sm = MetaStateMachine::new();
    sm.apply(1, &MetaCommand::RegisterNode(DataNodeInfo::new(1, "a:1")));
    sm.apply(2, &MetaCommand::RegisterNode(DataNodeInfo::new(2, "a:2")));
    sm.apply(
        3,
        &MetaCommand::CreateRegion(RegionInfo::new(1, "cpu", 1, vec![1])),
    );

    sm.apply(
        4,
        &MetaCommand::AddRegionReplica {
            region_id: 1,
            node_id: 2,
        },
    );

    let node = sm.get_node(2).unwrap();
    assert!(node.region_ids.contains(&1));
}

#[test]
fn remove_last_replica_rejected() {
    let mut sm = MetaStateMachine::new();
    sm.apply(1, &MetaCommand::RegisterNode(DataNodeInfo::new(1, "a:1")));
    sm.apply(
        2,
        &MetaCommand::CreateRegion(RegionInfo::new(1, "cpu", 1, vec![1])),
    );

    let resp = sm.apply(
        3,
        &MetaCommand::RemoveRegionReplica {
            region_id: 1,
            node_id: 1,
        },
    );
    assert!(matches!(resp, MetaResponse::Error { .. }));

    // Region should still have the replica
    let region = sm.get_region(1).unwrap();
    assert_eq!(region.replica_node_ids, vec![1]);
}

#[test]
fn remove_leader_auto_reassigns() {
    let mut sm = MetaStateMachine::new();
    sm.apply(1, &MetaCommand::RegisterNode(DataNodeInfo::new(1, "a:1")));
    sm.apply(2, &MetaCommand::RegisterNode(DataNodeInfo::new(2, "a:2")));
    sm.apply(
        3,
        &MetaCommand::CreateRegion(RegionInfo::new(1, "cpu", 1, vec![1, 2])),
    );

    // Remove the leader (node 1)
    let resp = sm.apply(
        4,
        &MetaCommand::RemoveRegionReplica {
            region_id: 1,
            node_id: 1,
        },
    );
    assert!(matches!(resp, MetaResponse::Done));

    let region = sm.get_region(1).unwrap();
    // Leader should have been reassigned to node 2
    assert_eq!(region.leader_node_id, 2);
    assert_eq!(region.replica_node_ids, vec![2]);
}

#[test]
fn deregister_node_marks_orphan_regions_readonly() {
    let mut sm = MetaStateMachine::new();
    sm.apply(1, &MetaCommand::RegisterNode(DataNodeInfo::new(1, "a:1")));
    sm.apply(
        2,
        &MetaCommand::CreateRegion(RegionInfo::new(1, "cpu", 1, vec![1])),
    );

    // Deregister the only node
    sm.apply(3, &MetaCommand::DeregisterNode { node_id: 1 });

    let region = sm.get_region(1).unwrap();
    assert!(region.replica_node_ids.is_empty());
    assert_eq!(region.state, RegionState::ReadOnly);
}

#[test]
fn begin_migration_success() {
    let mut sm = MetaStateMachine::new();
    sm.apply(1, &MetaCommand::RegisterNode(DataNodeInfo::new(1, "a:1")));
    sm.apply(2, &MetaCommand::RegisterNode(DataNodeInfo::new(2, "a:2")));
    sm.apply(
        3,
        &MetaCommand::CreateRegion(RegionInfo::new(1, "cpu", 1, vec![1])),
    );

    // Phase 1: BeginMigration
    let resp = sm.apply(
        4,
        &MetaCommand::BeginMigration {
            region_id: 1,
            source_node_id: 1,
            dest_node_id: 2,
        },
    );
    assert!(matches!(resp, MetaResponse::Done));

    let region = sm.get_region(1).unwrap();
    assert_eq!(region.state, RegionState::Migrating);
    assert!(
        region.replica_node_ids.contains(&2),
        "dest should be added as learner"
    );
    assert!(
        region.replica_node_ids.contains(&1),
        "source should still be present"
    );
    assert_eq!(
        region.leader_node_id, 1,
        "leader unchanged until MigrateRegion"
    );

    // Dest node should track this region
    let dst = sm.get_node(2).unwrap();
    assert!(dst.region_ids.contains(&1));
}

#[test]
fn migrate_region_atomic_success() {
    let mut sm = MetaStateMachine::new();
    sm.apply(1, &MetaCommand::RegisterNode(DataNodeInfo::new(1, "a:1")));
    sm.apply(2, &MetaCommand::RegisterNode(DataNodeInfo::new(2, "a:2")));
    sm.apply(
        3,
        &MetaCommand::CreateRegion(RegionInfo::new(1, "cpu", 1, vec![1])),
    );

    // Phase 1: BeginMigration
    sm.apply(
        4,
        &MetaCommand::BeginMigration {
            region_id: 1,
            source_node_id: 1,
            dest_node_id: 2,
        },
    );

    // Phase 2: MigrateRegion
    let resp = sm.apply(
        5,
        &MetaCommand::MigrateRegion {
            region_id: 1,
            source_node_id: 1,
            dest_node_id: 2,
        },
    );
    assert!(matches!(resp, MetaResponse::Done));

    let region = sm.get_region(1).unwrap();
    assert_eq!(region.leader_node_id, 2);
    assert_eq!(region.replica_node_ids, vec![2]);
    assert_eq!(region.state, RegionState::Active);

    // Source node should no longer track this region
    let src = sm.get_node(1).unwrap();
    assert!(!src.region_ids.contains(&1));

    // Dest node should track this region
    let dst = sm.get_node(2).unwrap();
    assert!(dst.region_ids.contains(&1));
}

#[test]
fn migrate_region_rejects_non_migrating_state() {
    let mut sm = MetaStateMachine::new();
    sm.apply(1, &MetaCommand::RegisterNode(DataNodeInfo::new(1, "a:1")));
    sm.apply(2, &MetaCommand::RegisterNode(DataNodeInfo::new(2, "a:2")));
    sm.apply(
        3,
        &MetaCommand::CreateRegion(RegionInfo::new(1, "cpu", 1, vec![1])),
    );

    // Skip BeginMigration — region is still Active
    let resp = sm.apply(
        4,
        &MetaCommand::MigrateRegion {
            region_id: 1,
            source_node_id: 1,
            dest_node_id: 2,
        },
    );
    assert!(matches!(resp, MetaResponse::Error { .. }));

    // Region should be unchanged
    let region = sm.get_region(1).unwrap();
    assert_eq!(region.leader_node_id, 1);
    assert_eq!(region.state, RegionState::Active);
}

#[test]
fn migrate_region_rejects_dead_dest() {
    let mut sm = MetaStateMachine::new();
    sm.apply(1, &MetaCommand::RegisterNode(DataNodeInfo::new(1, "a:1")));
    sm.apply(2, &MetaCommand::RegisterNode(DataNodeInfo::new(2, "a:2")));
    sm.apply(
        3,
        &MetaCommand::CreateRegion(RegionInfo::new(1, "cpu", 1, vec![1])),
    );

    // Begin migration while dest is still alive
    sm.apply(
        4,
        &MetaCommand::BeginMigration {
            region_id: 1,
            source_node_id: 1,
            dest_node_id: 2,
        },
    );

    // Dest node dies after BeginMigration
    sm.apply(
        5,
        &MetaCommand::UpdateNodeState {
            node_id: 2,
            state: NodeState::Dead,
        },
    );

    // MigrateRegion should reject dead destination
    let resp = sm.apply(
        6,
        &MetaCommand::MigrateRegion {
            region_id: 1,
            source_node_id: 1,
            dest_node_id: 2,
        },
    );
    assert!(matches!(resp, MetaResponse::Error { .. }));

    // Region should still be in Migrating state (not corrupted)
    let region = sm.get_region(1).unwrap();
    assert_eq!(region.leader_node_id, 1);
}

#[test]
fn migrate_region_rejects_invalid_source() {
    let mut sm = MetaStateMachine::new();
    sm.apply(1, &MetaCommand::RegisterNode(DataNodeInfo::new(1, "a:1")));
    sm.apply(2, &MetaCommand::RegisterNode(DataNodeInfo::new(2, "a:2")));
    sm.apply(3, &MetaCommand::RegisterNode(DataNodeInfo::new(3, "a:3")));
    sm.apply(
        4,
        &MetaCommand::CreateRegion(RegionInfo::new(1, "cpu", 1, vec![1])),
    );

    // Begin migration from 1 → 2
    sm.apply(
        5,
        &MetaCommand::BeginMigration {
            region_id: 1,
            source_node_id: 1,
            dest_node_id: 2,
        },
    );

    // Try to complete with wrong source (node 3 not in replica set)
    let resp = sm.apply(
        6,
        &MetaCommand::MigrateRegion {
            region_id: 1,
            source_node_id: 3,
            dest_node_id: 2,
        },
    );
    assert!(matches!(resp, MetaResponse::Error { .. }));
}

#[test]
fn begin_migration_rejects_non_active() {
    let mut sm = MetaStateMachine::new();
    sm.apply(1, &MetaCommand::RegisterNode(DataNodeInfo::new(1, "a:1")));
    sm.apply(2, &MetaCommand::RegisterNode(DataNodeInfo::new(2, "a:2")));
    sm.apply(3, &MetaCommand::RegisterNode(DataNodeInfo::new(3, "a:3")));
    sm.apply(
        4,
        &MetaCommand::CreateRegion(RegionInfo::new(1, "cpu", 1, vec![1])),
    );

    // Begin migration 1 → 2
    sm.apply(
        5,
        &MetaCommand::BeginMigration {
            region_id: 1,
            source_node_id: 1,
            dest_node_id: 2,
        },
    );

    // Try to begin again (region is now Migrating, not Active)
    let resp = sm.apply(
        6,
        &MetaCommand::BeginMigration {
            region_id: 1,
            source_node_id: 1,
            dest_node_id: 3,
        },
    );
    assert!(matches!(resp, MetaResponse::Error { .. }));
}

#[test]
fn begin_migration_rejects_non_leader_source() {
    let mut sm = MetaStateMachine::new();
    sm.apply(1, &MetaCommand::RegisterNode(DataNodeInfo::new(1, "a:1")));
    sm.apply(2, &MetaCommand::RegisterNode(DataNodeInfo::new(2, "a:2")));
    sm.apply(
        3,
        &MetaCommand::CreateRegion(RegionInfo::new(1, "cpu", 1, vec![1])),
    );

    // Node 2 is not the leader
    let resp = sm.apply(
        4,
        &MetaCommand::BeginMigration {
            region_id: 1,
            source_node_id: 2,
            dest_node_id: 1,
        },
    );
    assert!(matches!(resp, MetaResponse::Error { .. }));
}

#[test]
fn begin_migration_rejects_dead_dest() {
    let mut sm = MetaStateMachine::new();
    sm.apply(1, &MetaCommand::RegisterNode(DataNodeInfo::new(1, "a:1")));
    sm.apply(2, &MetaCommand::RegisterNode(DataNodeInfo::new(2, "a:2")));
    sm.apply(
        3,
        &MetaCommand::CreateRegion(RegionInfo::new(1, "cpu", 1, vec![1])),
    );
    sm.apply(
        4,
        &MetaCommand::UpdateNodeState {
            node_id: 2,
            state: NodeState::Dead,
        },
    );

    let resp = sm.apply(
        5,
        &MetaCommand::BeginMigration {
            region_id: 1,
            source_node_id: 1,
            dest_node_id: 2,
        },
    );
    assert!(matches!(resp, MetaResponse::Error { .. }));
}

#[test]
fn begin_migration_rejects_same_source_dest() {
    let mut sm = MetaStateMachine::new();
    sm.apply(1, &MetaCommand::RegisterNode(DataNodeInfo::new(1, "a:1")));
    sm.apply(
        2,
        &MetaCommand::CreateRegion(RegionInfo::new(1, "cpu", 1, vec![1])),
    );

    let resp = sm.apply(
        3,
        &MetaCommand::BeginMigration {
            region_id: 1,
            source_node_id: 1,
            dest_node_id: 1,
        },
    );
    assert!(matches!(resp, MetaResponse::Error { .. }));
}

#[test]
fn batch_heartbeat_updates_node_info() {
    let mut sm = MetaStateMachine::new();
    sm.apply(1, &MetaCommand::RegisterNode(DataNodeInfo::new(1, "addr1")));
    sm.apply(2, &MetaCommand::RegisterNode(DataNodeInfo::new(2, "addr2")));

    let mut entries = SortedMap::new();
    entries.insert(1, (10_u64, 1000_u64));
    entries.insert(2, (20_u64, 2000_u64));

    let resp = sm.apply(3, &MetaCommand::BatchHeartbeat { entries });
    assert!(matches!(resp, MetaResponse::Done));

    // Raft-replicated field updated
    let node1 = sm.get_node(1).unwrap();
    assert_eq!(node1.last_heartbeat_secs, 1000);
    assert_eq!(node1.heartbeat_generation, 10);

    let node2 = sm.get_node(2).unwrap();
    assert_eq!(node2.last_heartbeat_secs, 2000);

    // Out-of-band heartbeat store also updated
    let hb = sm.heartbeat_data();
    assert_eq!(hb.get(&1), Some(&(10, 1000)));
    assert_eq!(hb.get(&2), Some(&(20, 2000)));
}

#[test]
fn batch_heartbeat_ignores_unknown_nodes() {
    let mut sm = MetaStateMachine::new();
    sm.apply(1, &MetaCommand::RegisterNode(DataNodeInfo::new(1, "addr")));

    let mut entries = SortedMap::new();
    entries.insert(1, (1_u64, 100_u64));
    entries.insert(999, (1_u64, 100_u64)); // unknown node

    sm.apply(2, &MetaCommand::BatchHeartbeat { entries });

    // Known node updated
    assert_eq!(sm.get_node(1).unwrap().last_heartbeat_secs, 100);
    // Unknown node: not in Raft state, but present in heartbeat store
    assert!(sm.get_node(999).is_none());
    assert_eq!(sm.heartbeat_data().get(&999), Some(&(1, 100)));
}

#[test]
fn snapshot_includes_heartbeat_store() {
    let mut sm = MetaStateMachine::new();
    sm.apply(1, &MetaCommand::RegisterNode(DataNodeInfo::new(1, "addr")));
    sm.record_heartbeat(1, 42);

    let snap = sm.snapshot();
    assert!(!snap.heartbeat_store.is_empty());
    let (generation, _ts) = snap.heartbeat_store.get(&1).unwrap();
    assert_eq!(*generation, 42);
}

#[test]
fn restore_repopulates_heartbeat_store() {
    let mut sm = MetaStateMachine::new();
    sm.apply(1, &MetaCommand::RegisterNode(DataNodeInfo::new(1, "addr")));
    sm.record_heartbeat(1, 42);
    let snap = sm.snapshot();

    // New state machine (simulates leader failover)
    let mut sm2 = MetaStateMachine::new();
    assert!(sm2.heartbeat_data().is_empty());

    sm2.restore(snap);
    let hb = sm2.heartbeat_data();
    assert_eq!(hb.get(&1).unwrap().0, 42);
}
