//! The Raft log and the replica behind it.
use chronix::meta::log_store::{EntryPayload, LogId, Membership, MetaEntry, MetaLogStore, Vote};
use chronix::meta::store::{MetaSmStore, MetaStore};
use chronix::meta::types::{DataNodeInfo, MeasurementSchema, MetaCommand, MetaResponse};
use chronix::sorted_map::SortedMap;

fn log_id(term: u64, index: u64) -> LogId {
    LogId { term, node_id: 0, index }
}

fn blank_entry(log_id: LogId) -> MetaEntry {
    MetaEntry { log_id, payload: EntryPayload::Blank }
}

fn normal_entry(log_id: LogId, cmd: MetaCommand) -> MetaEntry {
    MetaEntry { log_id, payload: EntryPayload::Normal(cmd) }
}

fn three_entries() -> Vec<MetaEntry> {
    vec![blank_entry(log_id(1, 1)), blank_entry(log_id(1, 2)), blank_entry(log_id(1, 3))]
}

#[test]
fn log_store_append_and_read() {
    let mut store = MetaLogStore::new();
    store.append(&three_entries());

    let read = store.try_get_log_entries(1, Some(4));
    assert_eq!(read.len(), 3);
    assert_eq!(read[0].log_id.index, 1);
    assert_eq!(read[2].log_id.index, 3);
}

#[test]
fn a_read_can_be_open_ended() {
    let mut store = MetaLogStore::new();
    store.append(&three_entries());
    assert_eq!(store.try_get_log_entries(2, None).len(), 2);
    assert_eq!(store.try_get_log_entries(2, Some(3)).len(), 1);
    assert!(store.try_get_log_entries(4, None).is_empty());
}

#[test]
fn log_store_state() {
    let mut store = MetaLogStore::new();

    let state = store.get_log_state();
    assert!(state.last_log_id.is_none());
    assert!(state.last_purged_log_id.is_none());

    store.append(&vec![blank_entry(log_id(1, 1)), blank_entry(log_id(1, 2))]);

    let state = store.get_log_state();
    assert_eq!(state.last_log_id.unwrap().index, 2);
}

#[test]
fn log_store_truncate() {
    let mut store = MetaLogStore::new();
    store.append(&three_entries());

    store.truncate(log_id(1, 2));
    let read = store.try_get_log_entries(1, Some(4));
    assert_eq!(read.len(), 1); // only entry 1 remains
    assert_eq!(read[0].log_id.index, 1);
}

#[test]
fn log_store_purge() {
    let mut store = MetaLogStore::new();
    store.append(&three_entries());

    store.purge(log_id(1, 2)).unwrap();
    let state = store.get_log_state();
    assert_eq!(state.last_purged_log_id.unwrap().index, 2);

    let read = store.try_get_log_entries(1, Some(4));
    assert_eq!(read.len(), 1); // only entry 3 remains
}

#[test]
fn a_purged_log_ends_where_it_was_purged() {
    let mut store = MetaLogStore::new();
    store.append(&three_entries());
    store.purge(log_id(1, 3)).unwrap();
    assert_eq!(store.get_log_state().last_log_id, Some(log_id(1, 3)));
}

#[test]
fn durable_purge_rejects_backward() {
    let mut store = MetaLogStore::new();
    store.append(&three_entries());
    store.purge(log_id(1, 3)).unwrap();

    let refused = store.purge(log_id(1, 1)).unwrap_err();
    assert!(refused.message.contains("LogId { leader_id: LeaderId { term: 1, node_id: 0 }, index: 1 }"));
    assert_eq!(store.get_log_state().last_purged_log_id, Some(log_id(1, 3)));
}

#[test]
fn log_store_vote() {
    let mut store = MetaLogStore::new();
    assert!(store.read_vote().is_none());

    let vote = Vote { term: 1, node_id: 0, committed: false };
    store.save_vote(&vote);
    assert_eq!(store.read_vote().unwrap(), vote);
}

#[test]
fn log_store_committed() {
    let mut store = MetaLogStore::new();
    assert!(store.read_committed().is_none());

    let lid = log_id(1, 5);
    store.save_committed(Some(lid));
    assert_eq!(store.read_committed().unwrap(), lid);

    store.save_committed(None);
    assert!(store.read_committed().is_none());
}

#[test]
fn sm_store_apply_normal() {
    let mut store = MetaSmStore::new();
    let entries = vec![normal_entry(
        log_id(1, 1),
        MetaCommand::CreateMeasurement(MeasurementSchema::new("cpu")),
    )];

    let responses = store.apply(&entries);
    assert_eq!(responses.len(), 1);
    assert!(matches!(responses[0], MetaResponse::Created { .. }));
    assert!(store.state_machine().get_schema("cpu").is_some());
}

#[test]
fn sm_store_apply_blank() {
    let mut store = MetaSmStore::new();
    let responses = store.apply(&vec![blank_entry(log_id(1, 1))]);
    assert_eq!(responses.len(), 1);
    assert!(matches!(responses[0], MetaResponse::Done));
}

#[test]
fn sm_store_applied_state() {
    let mut store = MetaSmStore::new();
    let (last, _membership) = store.applied_state();
    assert!(last.is_none());

    store.apply(&vec![blank_entry(log_id(1, 1)), blank_entry(log_id(1, 2))]);

    let (last, _) = store.applied_state();
    assert_eq!(last.unwrap().index, 2);
}

#[test]
fn a_membership_entry_sets_the_members() {
    let mut store = MetaSmStore::new();
    let mut nodes = SortedMap::new();
    nodes.insert(1, "a:1".to_string());
    let members = Membership { configs: vec![vec![1]], nodes };
    store.apply(&vec![MetaEntry {
        log_id: log_id(1, 1),
        payload: EntryPayload::Membership(members),
    }]);
    let (_, membership) = store.applied_state();
    assert_eq!(membership.log_id, Some(log_id(1, 1)));
    assert_eq!(membership.membership.configs, vec![vec![1]]);
}

fn two_commands() -> Vec<MetaEntry> {
    vec![
        normal_entry(
            log_id(1, 1),
            MetaCommand::RegisterNode(DataNodeInfo::new(1, "127.0.0.1:9001")),
        ),
        normal_entry(
            log_id(1, 2),
            MetaCommand::CreateMeasurement(MeasurementSchema::new("cpu")),
        ),
    ]
}

#[test]
fn sm_store_snapshot_roundtrip() {
    let mut store = MetaSmStore::new();
    store.apply(&two_commands());

    // Build snapshot
    let (snapshot, meta) = store.build_snapshot();
    assert_eq!(meta.last_log_id.unwrap().index, 2);
    assert_eq!(meta.snapshot_id, "T1-N0-2-1");

    // Restore into a fresh store
    let mut store2 = MetaSmStore::new();
    store2.install_snapshot(&meta, vec![1, 2, 3], snapshot);

    // Verify restored state
    assert!(store2.state_machine().get_schema("cpu").is_some());
    assert!(store2.state_machine().get_node(1).is_some());
    let (last, _) = store2.applied_state();
    assert_eq!(last.unwrap().index, 2);
    assert_eq!(store2.get_current_snapshot().unwrap().data, vec![1, 2, 3]);
}

#[test]
fn sm_store_get_current_snapshot() {
    let mut store = MetaSmStore::new();

    // No snapshot initially
    assert!(store.get_current_snapshot().is_none());

    // Build one
    let (_, meta) = store.build_snapshot();
    assert_eq!(meta.snapshot_id, "--1");
    store.keep_snapshot(meta, vec![9]);

    // Now it should exist
    assert!(store.get_current_snapshot().is_some());
}

#[test]
fn meta_store_facade() {
    let store = MetaStore::new_in_memory();
    assert!(store.state_machine().schemas().is_empty());
    assert!(store.state_machine().nodes().is_empty());
    assert!(store.log_store().get_log_state().last_log_id.is_none());
    assert!(store.sm_store().applied_state().0.is_none());
}

#[test]
fn applying_entries_again_changes_nothing() {
    let mut store = MetaSmStore::new();
    store.apply(&two_commands());
    let before = format!("{:?}", store.state_machine().snapshot_at(7));
    let responses = store.apply(&two_commands());
    assert!(responses.iter().all(|r| matches!(r, MetaResponse::Done)));
    assert_eq!(format!("{:?}", store.state_machine().snapshot_at(7)), before);
}
