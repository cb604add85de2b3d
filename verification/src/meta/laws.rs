//! What holds of the cluster metadata as a whole, over all commands.
use vstd::prelude::*;

#[allow(unused_imports)]
use crate::meta::model::{
    begin_migration, cancel_migration, deregister_node, drop_measurement, including, is_region_of,
    lemma_outside_members, lemma_without_including, live_nodes, lookup, model_key, planned_regions,
    region_ids_of, step, without, MetaModel,
};
#[allow(unused_imports)]
use crate::meta::state_machine::{restored, snapshot_of, MetaSnapshot, MetaStateMachine};
#[allow(unused_imports)]
use crate::meta::types::{CommandModel, NodeId, RegionId, RegionModel, Reply, SchemaModel};

verus! {

/// A command that is refused changes nothing.
pub proof fn a_refused_command_changes_nothing(m: MetaModel, command: CommandModel)
    requires
        step(m, command).1 is Refused,
    ensures
        step(m, command).0 == m,
{
}

// ---------------------------------------------------------------------------
// Keys
// ---------------------------------------------------------------------------

/// Nodes, regions and schemas are stored under their own ids and names.
pub open spec fn well_keyed(m: MetaModel) -> bool {
    &&& forall|k: NodeId| #[trigger] m.nodes.contains_key(k) ==> m.nodes[k].node_id == k
    &&& forall|k: RegionId| #[trigger] m.regions.contains_key(k) ==> m.regions[k].region_id == k
    &&& forall|k: Seq<char>| #[trigger] m.schemas.contains_key(k) ==> m.schemas[k].name == k
}

/// Every command keeps nodes, regions and schemas under their own ids and
/// names.
pub proof fn commands_keep_the_keys(m: MetaModel, command: CommandModel)
    requires
        well_keyed(m),
    ensures
        well_keyed(step(m, command).0),
{
    let n = step(m, command).0;
    assert forall|k: NodeId| #[trigger] n.nodes.contains_key(k) implies n.nodes[k].node_id == k by {
        if m.nodes.contains_key(k) {
            assert(m.nodes[k].node_id == k);
        }
    }
    assert forall|k: RegionId| #[trigger] n.regions.contains_key(k) implies n.regions[k].region_id
        == k by {
        if m.regions.contains_key(k) {
            assert(m.regions[k].region_id == k);
        }
    }
    assert forall|k: Seq<char>| #[trigger] n.schemas.contains_key(k) implies n.schemas[k].name
        == k by {
        if m.schemas.contains_key(k) {
            assert(m.schemas[k].name == k);
        }
    }
}

// ---------------------------------------------------------------------------
// Measurements and nodes
// ---------------------------------------------------------------------------

/// A measurement that was created can be read back, and creating it again is
/// refused.
pub proof fn a_created_measurement_is_there(m: MetaModel, schema: SchemaModel)
    requires
        !m.schemas.contains_key(schema.name),
    ensures
        ({
            let n = step(m, CommandModel::CreateMeasurement(schema)).0;
            &&& lookup(n.schemas, schema.name) == Some(schema)
            &&& step(n, CommandModel::CreateMeasurement(schema)).1 is Refused
        }),
{
}

/// Dropping a measurement drops all its regions and no others, and no node
/// tracks a dropped region any more.
pub proof fn a_dropped_measurement_leaves_nothing(m: MetaModel, name: Seq<char>)
    requires
        well_keyed(m),
        m.schemas.contains_key(name),
    ensures
        ({
            let n = step(m, CommandModel::DropMeasurement(name)).0;
            &&& !n.schemas.contains_key(name)
            &&& forall|k: RegionId| #[trigger]
                n.regions.contains_key(k) <==> m.regions.contains_key(k)
                    && m.regions[k].measurement != name
            &&& forall|k: RegionId| #[trigger] n.regions.contains_key(k) ==> n.regions[k]
                == m.regions[k]
            &&& forall|i: NodeId, k: RegionId|
                n.nodes.contains_key(i) && m.regions.contains_key(k) && m.regions[k].measurement
                    == name ==> !(#[trigger] n.nodes[i].region_ids.contains(k))
        }),
{
    let n = drop_measurement(m, name).0;
    let gone = region_ids_of(m.regions, name);
    assert forall|k: RegionId| m.regions.contains_key(k) implies (gone.contains(k)
        <==> m.regions[k].measurement == name) by {
        if m.regions[k].measurement == name {
            assert(m.regions[k].region_id == k);
            assert(is_region_of(m.regions, name, k));
        }
        if gone.contains(k) {
            let j = choose|j: RegionId| #[trigger]
                m.regions.contains_key(j) && m.regions[j].measurement == name
                    && m.regions[j].region_id == k;
            assert(j == k);
        }
    }
    assert forall|i: NodeId, k: RegionId|
        n.nodes.contains_key(i) && m.regions.contains_key(k) && m.regions[k].measurement
            == name implies !(#[trigger] n.nodes[i].region_ids.contains(k)) by {
        lemma_outside_members(m.nodes[i].region_ids, gone, k);
    }
}

/// A node that was deregistered is gone, and no region has it as a replica.
pub proof fn a_deregistered_node_is_no_replica(m: MetaModel, node_id: NodeId)
    requires
        m.nodes.contains_key(node_id),
    ensures
        ({
            let n = step(m, CommandModel::DeregisterNode(node_id)).0;
            &&& !n.nodes.contains_key(node_id)
            &&& n.regions.dom() == m.regions.dom()
            &&& forall|k: RegionId| #[trigger]
                n.regions.contains_key(k) ==> !n.regions[k].replica_node_ids.contains(node_id)
        }),
{
    let n = deregister_node(m, node_id).0;
    assert(n.regions.dom() =~= m.regions.dom());
    assert forall|k: RegionId| #[trigger]
        n.regions.contains_key(k) implies !n.regions[k].replica_node_ids.contains(node_id) by {
        lemma_outside_members(m.regions[k].replica_node_ids, set![node_id], node_id);
    }
}

/// A heartbeat brings a node that was given up back to life.
pub proof fn a_heartbeat_revives_a_node(
    m: MetaModel,
    node_id: NodeId,
    generation: u64,
    timestamp_secs: u64,
)
    requires
        m.nodes.contains_key(node_id),
        m.nodes[node_id].state is Suspect || m.nodes[node_id].state is Dead,
    ensures
        step(m, CommandModel::Heartbeat { node_id, generation, timestamp_secs })
            .0.nodes[node_id].state is Active,
{
}

/// A saved model is read back as it was saved.
pub proof fn a_saved_model_is_read_back(
    m: MetaModel,
    measurement: Seq<char>,
    model_id: Seq<char>,
    metadata: Seq<u8>,
)
    ensures
        lookup(
            step(m, CommandModel::SaveModel { measurement, model_id, metadata }).0.models,
            model_key(measurement, model_id),
        ) == Some(metadata),
{
}

// ---------------------------------------------------------------------------
// Leaders
// ---------------------------------------------------------------------------

/// A region that has replicas is led by one of them.
pub open spec fn led_by_a_replica(r: RegionModel) -> bool {
    r.replica_node_ids.len() > 0 ==> r.replica_node_ids.contains(r.leader_node_id)
}

/// Every region that has replicas is led by one of them.
pub open spec fn all_led_by_replicas(m: MetaModel) -> bool {
    forall|k: RegionId| #[trigger] m.regions.contains_key(k) ==> led_by_a_replica(m.regions[k])
}

/// The commands that can leave a region with a leader that is no replica:
/// creating one that way, and giving a region without replicas its first one.
pub open spec fn may_strand_the_leader(m: MetaModel, command: CommandModel) -> bool {
    match command {
        CommandModel::CreateRegion(info) => !led_by_a_replica(info),
        CommandModel::AddRegionReplica(region_id, node_id) => m.regions.contains_key(region_id)
            && m.regions[region_id].replica_node_ids.len() == 0,
        CommandModel::BeginMigration { region_id, source, dest } => m.regions.contains_key(
            region_id,
        ) && m.regions[region_id].replica_node_ids.len() == 0,
        _ => false,
    }
}

/// Every other command keeps each region led by one of its replicas.
pub proof fn commands_keep_leaders_among_replicas(m: MetaModel, command: CommandModel)
    requires
        all_led_by_replicas(m),
        !may_strand_the_leader(m, command),
    ensures
        all_led_by_replicas(step(m, command).0),
{
    let n = step(m, command).0;
    assert forall|k: RegionId| #[trigger] n.regions.contains_key(k) implies led_by_a_replica(
        n.regions[k],
    ) by {
        let r = n.regions[k];
        if m.regions.contains_key(k) {
            let old_r = m.regions[k];
            assert(led_by_a_replica(old_r));
            match command {
                CommandModel::DeregisterNode(node_id) => {
                    lemma_outside_members(
                        old_r.replica_node_ids,
                        set![node_id],
                        old_r.leader_node_id,
                    );
                    if r.replica_node_ids.len() > 0 {
                        assert(r.replica_node_ids.contains(r.replica_node_ids[0]));
                    }
                },
                CommandModel::RemoveRegionReplica(region_id, node_id) => {
                    if region_id == k {
                        let rest = without(old_r.replica_node_ids, node_id);
                        lemma_outside_members(
                            old_r.replica_node_ids,
                            set![node_id],
                            old_r.leader_node_id,
                        );
                        if rest.len() > 0 {
                            assert(rest.contains(rest[0]));
                        }
                    }
                },
                CommandModel::AddRegionReplica(region_id, node_id) => {
                    if region_id == k {
                        lemma_including(
                            old_r.replica_node_ids,
                            node_id,
                            old_r.leader_node_id,
                        );
                    }
                },
                CommandModel::BeginMigration { region_id, source, dest } => {
                    if region_id == k {
                        lemma_including(old_r.replica_node_ids, dest, old_r.leader_node_id);
                    }
                },
                CommandModel::MigrateRegion { region_id, source, dest } => {
                    if region_id == k {
                        lemma_outside_members(old_r.replica_node_ids, set![source], dest);
                    }
                },
                CommandModel::CancelMigration { region_id, dest } => {
                    if region_id == k {
                        lemma_outside_members(
                            old_r.replica_node_ids,
                            set![dest],
                            old_r.leader_node_id,
                        );
                    }
                },
                _ => {},
            }
        }
    }
}

proof fn lemma_including(ids: Seq<u64>, id: u64, other: u64)
    ensures
        including(ids, id).contains(other) <==> ids.contains(other) || other == id,
{
    let out = including(ids, id);
    if ids.contains(other) && !ids.contains(id) {
        let i = choose|i: int| 0 <= i < ids.len() && ids[i] == other;
        assert(out[i] == other);
    }
    if !ids.contains(id) {
        assert(out[out.len() - 1] == id);
        if out.contains(other) && other != id {
            let i = choose|i: int| 0 <= i < out.len() && out[i] == other;
            assert(ids[i] == other);
        }
    }
}


// ---------------------------------------------------------------------------
// Migration
// ---------------------------------------------------------------------------

/// Cancelling a migration undoes its beginning, where the destination was no
/// replica before and did not track the region.
pub proof fn cancelling_undoes_beginning(
    m: MetaModel,
    region_id: RegionId,
    source: NodeId,
    dest: NodeId,
)
    requires
        step(m, CommandModel::BeginMigration { region_id, source, dest }).1 is Done,
        !m.regions[region_id].replica_node_ids.contains(dest),
        !m.nodes[dest].region_ids.contains(region_id),
    ensures
        ({
            let begun = step(m, CommandModel::BeginMigration { region_id, source, dest }).0;
            step(begun, CommandModel::CancelMigration { region_id, dest }) == (m, Reply::Done)
        }),
{
    let begun = begin_migration(m, region_id, source, dest).0;
    let back = cancel_migration(begun, region_id, dest).0;
    lemma_without_including(m.regions[region_id].replica_node_ids, dest);
    lemma_without_including(m.nodes[dest].region_ids, region_id);
    assert(back.regions[region_id] =~= m.regions[region_id]);
    assert(back.regions =~= m.regions);
    assert(back.nodes[dest] =~= m.nodes[dest]);
    assert(back.nodes =~= m.nodes);
    assert(back =~= m);
}

/// A migration that was begun can be completed as long as nothing else has
/// happened, if the source is a replica. Then the destination leads, the
/// source is no replica, and the region is active.
pub proof fn a_begun_migration_completes(
    m: MetaModel,
    region_id: RegionId,
    source: NodeId,
    dest: NodeId,
)
    requires
        step(m, CommandModel::BeginMigration { region_id, source, dest }).1 is Done,
        m.regions[region_id].replica_node_ids.contains(source),
    ensures
        ({
            let begun = step(m, CommandModel::BeginMigration { region_id, source, dest }).0;
            let (done, reply) = step(begun, CommandModel::MigrateRegion { region_id, source, dest });
            &&& begun.regions[region_id].state is Migrating
            &&& begun.regions[region_id].replica_node_ids.contains(dest)
            &&& reply is Done
            &&& done.regions[region_id].state is Active
            &&& done.regions[region_id].leader_node_id == dest
            &&& done.regions[region_id].replica_node_ids.contains(dest)
            &&& !done.regions[region_id].replica_node_ids.contains(source)
        }),
{
    let begun = begin_migration(m, region_id, source, dest).0;
    let replicas = begun.regions[region_id].replica_node_ids;
    lemma_including(m.regions[region_id].replica_node_ids, dest, dest);
    lemma_including(m.regions[region_id].replica_node_ids, dest, source);
    lemma_outside_members(replicas, set![source], dest);
    lemma_outside_members(replicas, set![source], source);
    assert(begun.nodes[dest].state == m.nodes[dest].state);
}

/// A migration cannot be completed without having been begun: the region of
/// a completed migration was migrating.
pub proof fn only_begun_migrations_complete(
    m: MetaModel,
    region_id: RegionId,
    source: NodeId,
    dest: NodeId,
)
    requires
        step(m, CommandModel::MigrateRegion { region_id, source, dest }).1 is Done,
    ensures
        m.regions[region_id].state is Migrating,
        step(m, CommandModel::MigrateRegion { region_id, source, dest })
            .0.regions[region_id].replica_node_ids.len() > 0,
{
}

/// Removing a replica never removes the last one.
pub proof fn the_last_replica_stays(m: MetaModel, region_id: RegionId, node_id: NodeId)
    requires
        m.regions.contains_key(region_id),
        m.regions[region_id].replica_node_ids == seq![node_id],
    ensures
        step(m, CommandModel::RemoveRegionReplica(region_id, node_id)).1 is Refused,
{
    assert(seq![node_id][0] == node_id);
}

// ---------------------------------------------------------------------------
// Planned regions
// ---------------------------------------------------------------------------

/// Every planned region has an id of its own that no earlier plan has used.
pub proof fn planned_ids_are_fresh(m: MetaModel, schema: SchemaModel, i: int, j: int)
    requires
        m.next_region_id + schema.region_count <= u64::MAX,
        0 <= i < schema.region_count,
        0 <= j < schema.region_count,
    ensures
        planned_regions(m, schema)[i].region_id == m.next_region_id + i,
        i != j ==> planned_regions(m, schema)[i].region_id != planned_regions(
            m,
            schema,
        )[j].region_id,
{
}

/// Every planned region is led by its first replica, if it has one.
pub proof fn planned_regions_are_led_by_their_first_replica(
    m: MetaModel,
    schema: SchemaModel,
    i: int,
)
    requires
        0 <= i < schema.region_count,
        live_nodes(m).len() > 0,
        planned_regions(m, schema)[i].replica_node_ids.len() > 0,
    ensures
        ({
            let r = planned_regions(m, schema)[i];
            r.replica_node_ids[0] == r.leader_node_id
        }),
{
    let live = live_nodes(m);
    let from = i % (live.len() as int);
    vstd::arithmetic::div_mod::lemma_small_mod(from as nat, live.len());
}

// ---------------------------------------------------------------------------
// Snapshots
// ---------------------------------------------------------------------------

/// A machine restored from a snapshot of another at the moment it was taken
/// holds what the other held, and the snapshot's checksum is right.
pub proof fn restoring_a_snapshot_gives_back_the_state(
    source: MetaStateMachine,
    snapshot: MetaSnapshot,
    target: MetaStateMachine,
    after: MetaStateMachine,
)
    requires
        snapshot_of(source, snapshot),
        restored(target, snapshot, snapshot.snapshot_timestamp_secs, after),
    ensures
        snapshot.intact(),
        after@ == source@,
        after.applied() == source.applied(),
        after.heartbeats() == source.heartbeats(),
        after.routes_are_current(),
{
}

/// Restoring later changes only the times of the heartbeats: the generations
/// stay, and no heartbeat becomes younger.
pub proof fn restoring_later_only_ages_heartbeats(
    source: MetaStateMachine,
    snapshot: MetaSnapshot,
    now_secs: u64,
    target: MetaStateMachine,
    after: MetaStateMachine,
    node_id: NodeId,
)
    requires
        snapshot_of(source, snapshot),
        restored(target, snapshot, now_secs, after),
        source.heartbeats().contains_key(node_id),
    ensures
        after@ == source@,
        after.heartbeats().contains_key(node_id),
        after.heartbeats()[node_id].0 == source.heartbeats()[node_id].0,
        after.heartbeats()[node_id].1 <= source.heartbeats()[node_id].1,
{
}

} // verus!
