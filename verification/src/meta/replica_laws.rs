//! What a replica does with its log, and what is kept of nodes and regions.
use vstd::prelude::*;

#[allow(unused_imports)]
use crate::meta::admin::{announced_node, mode_named};
#[allow(unused_imports)]
use crate::hash::fnv1a;
#[allow(unused_imports)]
use crate::meta::checksum::{
    node_mode_number, node_row, node_state_number, postcard_encoding, region_row,
    region_state_number, routing_checksum, NodeRowModel, RegionRowModel,
};
#[allow(unused_imports)]
use crate::meta::clock::HeartbeatInstant;
#[allow(unused_imports)]
use crate::meta::log_store::{EntryModel, LogId, PayloadModel};
#[allow(unused_imports)]
use crate::meta::model::{
    affects_routing, have_an_id_order, heartbeats_after, in_id_order, including, step, MetaModel,
};
#[allow(unused_imports)]
use crate::meta::routing::{routes_depend_on_addresses, table_of};
#[allow(unused_imports)]
use crate::meta::state_machine::{
    heartbeat_recorded, next_version, restored, MetaSnapshot, MetaStateMachine,
};
#[allow(unused_imports)]
use crate::meta::store::{after_entries, after_entry, new_replica, snapshot_name, Replica};
#[allow(unused_imports)]
use crate::meta::transport::{chunks_of, effective_size};
#[allow(unused_imports)]
use crate::meta::types::{
    default_config, CommandModel, KeyRange, NodeId, NodeMode, NodeModel, NodeState, RegionId,
    RegionModel, RegionState, Reply,
};
#[allow(unused_imports)]
use crate::sorted_map::{ascending, enumeration, lemma_enumeration, lemma_map_of_ascending, map_of};
#[allow(unused_imports)]
use crate::text::decimal;
#[allow(unused_imports)]
use crate::text_laws::numerals_differ;

verus! {

// ---------------------------------------------------------------------------
// Entries
// ---------------------------------------------------------------------------

/// A command behind those applied is applied: the metadata is what the command
/// makes of it, the command's own reply is given, and its index is remembered.
/// Membership stays.
pub proof fn a_new_command_is_applied(r: Replica, log_id: LogId, command: CommandModel)
    requires
        log_id.index > r.applied,
    ensures
        ({
            let entry = EntryModel { log_id, payload: PayloadModel::Normal(command) };
            let (after, reply) = after_entry(r, entry);
            &&& (after.state, reply) == step(r.state, command)
            &&& after.applied == log_id.index
            &&& after.last_applied_log == Some(log_id)
            &&& after.last_membership == r.last_membership
        }),
{
}

/// A command that was applied already changes nothing but what entry was seen
/// last, and is answered as done.
pub proof fn an_old_command_is_skipped(r: Replica, log_id: LogId, command: CommandModel)
    requires
        log_id.index <= r.applied,
    ensures
        after_entry(r, EntryModel { log_id, payload: PayloadModel::Normal(command) }) == (
            (Replica { last_applied_log: Some(log_id), ..r }),
            Reply::Done,
        ),
{
}

/// An entry without a command changes neither the metadata nor the heartbeats
/// nor the index of the last command. A change of members is remembered with its
/// entry.
pub proof fn other_entries_leave_the_metadata(r: Replica, entry: EntryModel)
    requires
        !(entry.payload is Normal),
    ensures
        ({
            let (after, reply) = after_entry(r, entry);
            &&& after.state == r.state
            &&& after.applied == r.applied
            &&& after.heartbeats == r.heartbeats
            &&& after.last_applied_log == Some(entry.log_id)
            &&& reply is Done
            &&& entry.payload is Blank ==> after.last_membership == r.last_membership
            &&& entry.payload matches PayloadModel::Membership(members) ==> after.last_membership
                == (Some(entry.log_id), members)
        }),
{
}

/// Entries are applied one after the other, and the last one is remembered.
pub proof fn entries_are_applied_in_order(r: Replica, entries: Seq<EntryModel>, entry: EntryModel)
    ensures
        after_entries(r, Seq::empty()) == r,
        after_entries(r, entries.push(entry)) == after_entry(after_entries(r, entries), entry).0,
        after_entries(r, entries.push(entry)).last_applied_log == Some(entry.log_id),
{
    assert(entries.push(entry).drop_last() =~= entries);
}

/// A heartbeat that goes through the log is kept with its generation and time;
/// those of other nodes stay. Other commands leave them all.
pub proof fn heartbeats_are_kept_by_node(
    store: Map<NodeId, (u64, u64)>,
    node_id: NodeId,
    generation: u64,
    timestamp_secs: u64,
    other: NodeId,
    command: CommandModel,
)
    ensures
        ({
            let after = heartbeats_after(
                store,
                CommandModel::Heartbeat { node_id, generation, timestamp_secs },
            );
            &&& after.contains_key(node_id)
            &&& after[node_id] == (generation, timestamp_secs)
            &&& other != node_id ==> (after.contains_key(other) <==> store.contains_key(other))
            &&& other != node_id && store.contains_key(other) ==> after[other] == store[other]
        }),
        command matches CommandModel::BatchHeartbeat(batch) ==> {
            let after = heartbeats_after(store, command);
            &&& batch.contains_key(other) ==> after.contains_key(other) && after[other]
                == batch[other]
            &&& !batch.contains_key(other) ==> (after.contains_key(other) <==> store.contains_key(
                other,
            ))
            &&& !batch.contains_key(other) && store.contains_key(other) ==> after[other]
                == store[other]
        },
        !(command is Heartbeat) && !(command is BatchHeartbeat) ==> heartbeats_after(
            store,
            command,
        ) == store,
{
}

/// Restoring a snapshot moves the time of each heartbeat back by the seconds
/// that have passed since the snapshot was taken, to zero where it would go
/// below. A snapshot without a time, or with one that is not past, moves none.
pub proof fn restored_heartbeats_are_as_old_as_the_snapshot(
    before: MetaStateMachine,
    snapshot: MetaSnapshot,
    now_secs: u64,
    after: MetaStateMachine,
    node_id: NodeId,
)
    requires
        restored(before, snapshot, now_secs, after),
    ensures
        ({
            let kept = snapshot.heartbeat_store@;
            let taken = snapshot.snapshot_timestamp_secs;
            let (generation, time) = kept[node_id];
            let (generation_after, time_after) = after.heartbeats()[node_id];
            &&& after.heartbeats().contains_key(node_id) <==> kept.contains_key(node_id)
            &&& kept.contains_key(node_id) ==> generation_after == generation
            &&& kept.contains_key(node_id) && 0 < taken < now_secs ==> (time_after + (now_secs
                - taken) == time || (time_after == 0 && time < now_secs - taken))
            &&& kept.contains_key(node_id) && !(0 < taken < now_secs) ==> time_after == time
        }),
        after.applied() == snapshot.last_applied_log,
        after@ == snapshot.model(),
        after.instants() == before.instants(),
{
}

/// A heartbeat that is recorded out of band is kept for its node and for no
/// other, and changes nothing else.
pub proof fn a_recorded_heartbeat_is_its_nodes(
    before: MetaStateMachine,
    node_id: NodeId,
    generation: u64,
    now_secs: u64,
    instant: HeartbeatInstant,
    after: MetaStateMachine,
    other: NodeId,
)
    requires
        heartbeat_recorded(before, node_id, generation, now_secs, instant, after),
    ensures
        after.heartbeats().contains_key(node_id),
        after.heartbeats()[node_id] == (generation, now_secs),
        after.instants().contains_key(node_id),
        after.instants()[node_id] == instant,
        other != node_id ==> (after.heartbeats().contains_key(other)
            <==> before.heartbeats().contains_key(other)),
        other != node_id && before.heartbeats().contains_key(other) ==> after.heartbeats()[other]
            == before.heartbeats()[other],
        other != node_id ==> (after.instants().contains_key(other)
            <==> before.instants().contains_key(other)),
        other != node_id && before.instants().contains_key(other) ==> after.instants()[other]
            == before.instants()[other],
        after@ == before@,
        after.applied() == before.applied(),
        after.routes() == before.routes(),
{
}

/// Each version of the routing table is the one behind the last, so that a
/// change is seen; the count starts over only when it is exhausted.
pub proof fn versions_count_up(version: u64)
    ensures
        next_version(version) != version,
        version < u64::MAX ==> next_version(version) == version + 1,
        next_version(u64::MAX) == 0,
{
}

/// A command that leaves the routing table as it is could not have changed it:
/// neither regions nor addresses are touched.
pub proof fn unrouted_commands_change_no_route(m: MetaModel, command: CommandModel)
    requires
        !affects_routing(command),
    ensures
        step(m, command).0.regions == m.regions,
        table_of(in_id_order(m.regions), step(m, command).0.nodes) == table_of(
            in_id_order(m.regions),
            m.nodes,
        ),
{
    let after = step(m, command).0;
    assert(after.nodes.dom() =~= m.nodes.dom());
    routes_depend_on_addresses(in_id_order(m.regions), after.nodes, m.nodes);
}

/// A snapshot is taken to be whole just if it has no checksum or the one of its
/// regions and nodes.
pub proof fn a_snapshot_with_another_checksum_is_not_intact(snapshot: MetaSnapshot)
    ensures
        snapshot.intact() <==> snapshot.routing_checksum == 0 || snapshot.routing_checksum
            == routing_checksum(snapshot.model().regions, snapshot.model().nodes),
{
}

/// Snapshots taken behind the same entry are told apart by their count.
pub proof fn snapshot_names_differ(last: Option<LogId>, a: u64, b: u64)
    ensures
        snapshot_name(last, a) == snapshot_name(last, b) ==> a == b,
{
    let front = match last {
        Some(id) => "T"@ + decimal(id.term as nat) + "-N"@ + decimal(id.node_id as nat) + "-"@
            + decimal(id.index as nat) + "-"@,
        None => "--"@,
    };
    assert(snapshot_name(last, a).skip(front.len() as int) =~= decimal(a as nat));
    assert(snapshot_name(last, b).skip(front.len() as int) =~= decimal(b as nat));
    numerals_differ(a as int, b as int);
}

/// A replica starts with nothing applied.
pub proof fn a_new_replica_is_empty()
    ensures
        ({
            let r = new_replica();
            &&& r.applied == 0
            &&& r.last_applied_log is None
            &&& r.last_membership.0 is None
            &&& r.heartbeats.len() == 0
            &&& r.state.nodes.len() == 0
            &&& r.state.regions.len() == 0
            &&& r.state.schemas.len() == 0
            &&& r.state.models.len() == 0
            &&& r.state.next_region_id == 1
        }),
{
}

// ---------------------------------------------------------------------------
// Checksums
// ---------------------------------------------------------------------------

/// What goes into the checksum tells everything about a region: two that differ
/// in anything have different rows.
pub proof fn rows_tell_regions_apart(a: (RegionId, RegionModel), b: (RegionId, RegionModel))
    requires
        region_row(a) == region_row(b),
    ensures
        a == b,
{
    assert(a.1.key_range == b.1.key_range);
    assert(a.1 =~= b.1);
}

/// What goes into the checksum tells everything about a node, its labels by
/// their names.
pub proof fn rows_tell_nodes_apart(a: (NodeId, NodeModel), b: (NodeId, NodeModel))
    requires
        node_row(a) == node_row(b),
        map_of(enumeration::<String, Seq<char>>(a.1.labels)) == a.1.labels,
        map_of(enumeration::<String, Seq<char>>(b.1.labels)) == b.1.labels,
    ensures
        a == b,
{
    assert(a.1 =~= b.1);
}

/// The checksum is over a row for each region and a row for each node, in the
/// ascending order of their ids.
pub proof fn the_checksum_is_over_all_regions_and_nodes(
    regions: Map<RegionId, RegionModel>,
    nodes: Map<NodeId, NodeModel>,
    region_rows: Seq<RegionRowModel>,
    node_rows: Seq<NodeRowModel>,
)
    requires
        have_an_id_order(regions),
        have_an_id_order(nodes),
        forall|i: int, j: int|
            0 <= i < j < region_rows.len() ==> (#[trigger] region_rows[i]).0 < (
            #[trigger] region_rows[j]).0,
        forall|i: int|
            0 <= i < region_rows.len() ==> regions.contains_key((#[trigger] region_rows[i]).0)
                && region_rows[i] == region_row((region_rows[i].0, regions[region_rows[i].0])),
        forall|k: RegionId| #[trigger]
            regions.contains_key(k) ==> exists|i: int|
                0 <= i < region_rows.len() && (#[trigger] region_rows[i]).0 == k,
        forall|i: int, j: int|
            0 <= i < j < node_rows.len() ==> (#[trigger] node_rows[i]).0 < (
            #[trigger] node_rows[j]).0,
        forall|i: int|
            0 <= i < node_rows.len() ==> nodes.contains_key((#[trigger] node_rows[i]).0)
                && node_rows[i] == node_row((node_rows[i].0, nodes[node_rows[i].0])),
        forall|k: NodeId| #[trigger]
            nodes.contains_key(k) ==> exists|i: int|
                0 <= i < node_rows.len() && (#[trigger] node_rows[i]).0 == k,
    ensures
        routing_checksum(regions, nodes) == fnv1a(postcard_encoding(region_rows, node_rows)),
{
    let rs = Seq::new(region_rows.len(), |i: int| (region_rows[i].0, regions[region_rows[i].0]));
    let ns = Seq::new(node_rows.len(), |i: int| (node_rows[i].0, nodes[node_rows[i].0]));
    assert forall|k: RegionId| #[trigger] regions.contains_key(k) implies exists|i: int|
        0 <= i < rs.len() && (#[trigger] rs[i]).0 == k by {
        let i = choose|i: int| 0 <= i < region_rows.len() && (#[trigger] region_rows[i]).0 == k;
        assert(rs[i].0 == k);
    }
    assert forall|k: NodeId| #[trigger] nodes.contains_key(k) implies exists|i: int|
        0 <= i < ns.len() && (#[trigger] ns[i]).0 == k by {
        let i = choose|i: int| 0 <= i < node_rows.len() && (#[trigger] node_rows[i]).0 == k;
        assert(ns[i].0 == k);
    }
    lemma_listed(regions, rs);
    lemma_listed(nodes, ns);
    assert(rs.map_values(|e: (RegionId, RegionModel)| region_row(e)) =~= region_rows);
    assert(ns.map_values(|e: (NodeId, NodeModel)| node_row(e)) =~= node_rows);
}

proof fn lemma_listed<B>(entries: Map<u64, B>, pairs: Seq<(u64, B)>)
    requires
        have_an_id_order(entries),
        forall|i: int, j: int|
            0 <= i < j < pairs.len() ==> (#[trigger] pairs[i]).0 < (#[trigger] pairs[j]).0,
        forall|i: int|
            0 <= i < pairs.len() ==> entries.contains_key((#[trigger] pairs[i]).0) && pairs[i].1
                == entries[pairs[i].0],
        forall|k: u64| #[trigger]
            entries.contains_key(k) ==> exists|i: int|
                0 <= i < pairs.len() && (#[trigger] pairs[i]).0 == k,
    ensures
        in_id_order(entries) == pairs,
{
    assert(ascending::<u64, B>(pairs));
    lemma_map_of_ascending::<u64, B>(pairs);
    assert forall|k: u64| map_of(pairs).contains_key(k) <==> entries.contains_key(k) by {
        if entries.contains_key(k) {
            let i = choose|i: int| 0 <= i < pairs.len() && (#[trigger] pairs[i]).0 == k;
            assert(map_of(pairs).contains_key(pairs[i].0));
        }
    }
    assert forall|k: u64| map_of(pairs).contains_key(k) implies map_of(pairs)[k] == entries[k] by {
        let i = choose|i: int| 0 <= i < pairs.len() && (#[trigger] pairs[i]).0 == k;
        assert(map_of(pairs)[pairs[i].0] == pairs[i].1);
    }
    assert(map_of(pairs) =~= entries);
    lemma_enumeration::<u64, B>(pairs);
}

/// States and modes are numbered from zero on, in the order of their
/// declaration.
pub proof fn states_are_numbered_in_order()
    ensures
        region_state_number(RegionState::Active) == 0,
        region_state_number(RegionState::Migrating) == region_state_number(RegionState::Active) + 1,
        region_state_number(RegionState::ReadOnly) == region_state_number(RegionState::Migrating)
            + 1,
        region_state_number(RegionState::Replicating) == region_state_number(RegionState::ReadOnly)
            + 1,
        region_state_number(RegionState::Splitting) == region_state_number(
            RegionState::Replicating,
        ) + 1,
        node_state_number(NodeState::Active) == 0,
        node_state_number(NodeState::Suspect) == node_state_number(NodeState::Active) + 1,
        node_state_number(NodeState::Dead) == node_state_number(NodeState::Suspect) + 1,
        node_state_number(NodeState::Decommissioning) == node_state_number(NodeState::Dead) + 1,
        node_mode_number(NodeMode::Meta) == 0,
        node_mode_number(NodeMode::Data) == node_mode_number(NodeMode::Meta) + 1,
        node_mode_number(NodeMode::Query) == node_mode_number(NodeMode::Data) + 1,
{
}

// ---------------------------------------------------------------------------
// Nodes, ranges and voters
// ---------------------------------------------------------------------------

/// A node that is announced is active, has what the request says, and tracks no
/// region yet.
pub proof fn an_announced_node_is_as_told(
    node_id: NodeId,
    grpc_addr: Seq<char>,
    mode: NodeMode,
    disk_bytes: u64,
    memory_bytes: u64,
    cpu_cores: u32,
    now_secs: u64,
)
    ensures
        ({
            let node = announced_node(
                node_id,
                grpc_addr,
                mode,
                disk_bytes,
                memory_bytes,
                cpu_cores,
                now_secs,
            );
            &&& node.node_id == node_id
            &&& node.grpc_addr == grpc_addr
            &&& node.mode == mode
            &&& node.disk_bytes == disk_bytes
            &&& node.memory_bytes == memory_bytes
            &&& node.cpu_cores == cpu_cores
            &&& node.last_heartbeat_secs == now_secs
            &&& node.state is Active
            &&& node.heartbeat_generation == 0
            &&& node.region_ids.len() == 0
            &&& node.labels.len() == 0
        }),
{
}

/// Only the names of the modes are read as modes.
pub proof fn only_mode_names_are_read(name: Seq<char>)
    ensures
        mode_named(name) matches Some(mode) ==> name == mode.name(),
        mode_named(name) is None ==> forall|mode: NodeMode| #[trigger] mode.name() != name,
{
}

/// A range holds its start and not its end, and is split in the middle: the lower
/// part has as many values as the upper, or one less.
pub proof fn a_range_is_split_in_the_middle(range: KeyRange)
    requires
        range.start < range.end,
    ensures
        range.holds(range.start),
        !range.holds(range.end),
        range.divisible() <==> range.end - range.start > 1,
        range.divisible() ==> range.start < range.middle() < range.end && 0 <= (range.end
            - range.middle()) - (range.middle() - range.start) <= 1,
{
}

/// A voter that is added votes, the others still do in their order, and nobody
/// votes twice.
pub proof fn an_added_voter_votes_once(voters: Seq<NodeId>, node_id: NodeId)
    requires
        voters.no_duplicates(),
    ensures
        including(voters, node_id).contains(node_id),
        including(voters, node_id).no_duplicates(),
        voters.is_prefix_of(including(voters, node_id)),
        including(voters, node_id).len() == voters.len() + if voters.contains(node_id) {
            0int
        } else {
            1int
        },
{
    let all = including(voters, node_id);
    if !voters.contains(node_id) {
        assert(all[voters.len() as int] == node_id);
    }
}

/// Data is cut into no more chunks than it takes, and into one where it is empty.
pub proof fn as_many_chunks_as_it_takes(data: Seq<u8>, size: nat)
    requires
        size > 0,
    ensures
        ({
            let n = chunks_of(data, size).len();
            &&& n >= 1
            &&& data.len() <= n * size
            &&& n > 1 ==> (n - 1) * size < data.len()
        }),
    decreases data.len(),
{
    let n = chunks_of(data, size).len();
    if data.len() > size {
        let rest = data.skip(size as int);
        as_many_chunks_as_it_takes(rest, size);
        let m = chunks_of(rest, size).len();
        assert(n == m + 1);
        assert(n * size == m * size + size) by (nonlinear_arith)
            requires
                n == m + 1,
        ;
        assert((m - 1) * size == m * size - size) by (nonlinear_arith);
        if m == 1 {
            assert((n - 1) * size == size) by (nonlinear_arith)
                requires
                    n - 1 == 1,
            ;
        } else {
            assert((n - 1) * size == (m - 1) * size + size) by (nonlinear_arith)
                requires
                    n == m + 1,
            ;
        }
    } else {
        assert(n * size == size) by (nonlinear_arith)
            requires
                n == 1,
        ;
    }
}

/// A chunk size of zero bytes counts as one; any other is taken as it is.
pub proof fn chunks_have_at_least_one_byte(size: usize)
    ensures
        effective_size(0) == 1,
        size > 0 ==> effective_size(size) == size,
{
}

/// A new cluster suspects a node before it gives it up, and has at least one
/// region and one replica for each measurement.
pub proof fn the_default_configuration_is_sound()
    ensures
        0 < default_config().heartbeat_suspect_threshold
            < default_config().heartbeat_dead_threshold,
        default_config().heartbeat_interval_secs > 0,
        default_config().default_replication_factor >= 1,
        default_config().default_region_count >= 1,
        default_config().max_concurrent_rereplications >= 1,
        new_replica().state.cluster_config == default_config(),
{
}

} // verus!
