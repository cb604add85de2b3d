//! What each command is for: when it is done, what it changes, and that it
//! changes nothing else.
use vstd::prelude::*;

#[allow(unused_imports)]
use crate::meta::model::{
    heartbeats_after, lemma_outside_members, outside, step, without, MetaModel,
};
#[allow(unused_imports)]
use crate::meta::types::{
    CommandModel, ConfigModel, NodeId, NodeModel, NodeState, RegionId, RegionModel, RegionState,
    SchemaModel,
};

verus! {

// ---------------------------------------------------------------------------
// Lists of ids
// ---------------------------------------------------------------------------

/// To take ids out of a list is to keep all others, in their order.
pub proof fn taking_out_keeps_the_others(ids: Seq<u64>, gone: Set<u64>)
    ensures
        outside(ids, gone) == ids.filter(|id: u64| !gone.contains(id)),
    decreases ids.len(),
{
    reveal(Seq::filter);
    if ids.len() > 0 {
        taking_out_keeps_the_others(ids.drop_last(), gone);
    } else {
        assert(outside(ids, gone) =~= ids);
    }
}

/// The list without one id.
pub open spec fn all_but(ids: Seq<u64>, id: u64) -> Seq<u64> {
    ids.filter(|x: u64| x != id)
}

proof fn lemma_all_but(ids: Seq<u64>, id: u64)
    ensures
        without(ids, id) == all_but(ids, id),
    decreases ids.len(),
{
    reveal(Seq::filter);
    if ids.len() > 0 {
        lemma_all_but(ids.drop_last(), id);
    } else {
        assert(without(ids, id) =~= ids);
    }
}

/// `after` is `before` with `id` in it: at its end, where it was not there.
pub open spec fn has_gained(before: Seq<u64>, id: u64, after: Seq<u64>) -> bool {
    &&& before.contains(id) ==> after == before
    &&& !before.contains(id) ==> after == before.push(id)
}

// ---------------------------------------------------------------------------
// What stays
// ---------------------------------------------------------------------------

/// Only nodes changed.
pub open spec fn only_nodes_changed(m: MetaModel, n: MetaModel) -> bool {
    &&& n.schemas == m.schemas
    &&& n.regions == m.regions
    &&& n.cluster_config == m.cluster_config
    &&& n.models == m.models
    &&& n.next_region_id == m.next_region_id
}

/// Only regions and nodes changed.
pub open spec fn only_regions_and_nodes_changed(m: MetaModel, n: MetaModel) -> bool {
    &&& n.schemas == m.schemas
    &&& n.cluster_config == m.cluster_config
    &&& n.models == m.models
    &&& n.next_region_id == m.next_region_id
}

/// The nodes are as before, but for one.
pub open spec fn other_nodes_stay(m: MetaModel, n: MetaModel, node_id: NodeId) -> bool {
    forall|k: NodeId|
        k != node_id ==> (#[trigger] n.nodes.contains_key(k) <==> m.nodes.contains_key(k)) && (
        m.nodes.contains_key(k) ==> n.nodes[k] == m.nodes[k])
}

/// The regions are as before, but for one.
pub open spec fn other_regions_stay(m: MetaModel, n: MetaModel, region_id: RegionId) -> bool {
    forall|k: RegionId|
        k != region_id ==> (#[trigger] n.regions.contains_key(k) <==> m.regions.contains_key(k))
            && (m.regions.contains_key(k) ==> n.regions[k] == m.regions[k])
}

/// What the node is and can hold stays: only its state, heartbeat and regions
/// may differ.
pub open spec fn same_machine(a: NodeModel, b: NodeModel) -> bool {
    b == (NodeModel {
        state: b.state,
        heartbeat_generation: b.heartbeat_generation,
        last_heartbeat_secs: b.last_heartbeat_secs,
        region_ids: b.region_ids,
        ..a
    })
}

/// The node tracks the region from now on, and nothing else of it changed.
pub open spec fn tracks(m: MetaModel, n: MetaModel, node_id: NodeId, region_id: RegionId) -> bool {
    &&& other_nodes_stay(m, n, node_id)
    &&& n.nodes.contains_key(node_id) <==> m.nodes.contains_key(node_id)
    &&& m.nodes.contains_key(node_id) ==> {
        &&& has_gained(m.nodes[node_id].region_ids, region_id, n.nodes[node_id].region_ids)
        &&& n.nodes[node_id] == (NodeModel {
            region_ids: n.nodes[node_id].region_ids,
            ..m.nodes[node_id]
        })
    }
}

/// The node does not track the region any more, and nothing else of it changed.
pub open spec fn forgets(m: MetaModel, n: MetaModel, node_id: NodeId, region_id: RegionId) -> bool {
    &&& other_nodes_stay(m, n, node_id)
    &&& n.nodes.contains_key(node_id) <==> m.nodes.contains_key(node_id)
    &&& m.nodes.contains_key(node_id) ==> n.nodes[node_id] == (NodeModel {
        region_ids: all_but(m.nodes[node_id].region_ids, region_id),
        ..m.nodes[node_id]
    })
}

// ---------------------------------------------------------------------------
// Nodes
// ---------------------------------------------------------------------------

/// A registered node is there as it was given, replacing what was known of it.
pub proof fn a_registered_node_is_there(m: MetaModel, info: NodeModel)
    ensures
        ({
            let (n, reply) = step(m, CommandModel::RegisterNode(info));
            &&& reply is Created
            &&& n.nodes.contains_key(info.node_id) && n.nodes[info.node_id] == info
            &&& other_nodes_stay(m, n, info.node_id)
            &&& only_nodes_changed(m, n)
        }),
{
}

/// How a region is left when a node that it may be on is gone.
pub open spec fn is_left_by(before: RegionModel, node_id: NodeId, after: RegionModel) -> bool {
    let rest = all_but(before.replica_node_ids, node_id);
    &&& after.replica_node_ids == rest
    &&& before.leader_node_id != node_id ==> after == (RegionModel {
        replica_node_ids: rest,
        ..before
    })
    &&& before.leader_node_id == node_id && rest.len() > 0 ==> after == (RegionModel {
        replica_node_ids: rest,
        leader_node_id: rest[0],
        ..before
    })
    &&& before.leader_node_id == node_id && rest.len() == 0 ==> after == (RegionModel {
        replica_node_ids: rest,
        leader_node_id: 0,
        state: RegionState::ReadOnly,
        ..before
    })
}

/// Deregistering a node is done just if it is known. The node is gone, and each
/// region is without it: where it led, the first other replica leads, and where
/// there is none the region is read-only.
pub proof fn a_deregistered_node_leaves_its_regions(m: MetaModel, node_id: NodeId)
    ensures
        ({
            let (n, reply) = step(m, CommandModel::DeregisterNode(node_id));
            &&& reply is Done <==> m.nodes.contains_key(node_id)
            &&& reply is Done ==> {
                &&& !n.nodes.contains_key(node_id)
                &&& other_nodes_stay(m, n, node_id)
                &&& only_regions_and_nodes_changed(m, n)
                &&& forall|k: RegionId| #[trigger]
                    n.regions.contains_key(k) <==> m.regions.contains_key(k)
                &&& forall|k: RegionId| #[trigger]
                    m.regions.contains_key(k) ==> is_left_by(m.regions[k], node_id, n.regions[k])
            }
        }),
{
    assert forall|k: RegionId| #[trigger] m.regions.contains_key(k) && m.nodes.contains_key(
        node_id,
    ) implies is_left_by(
        m.regions[k],
        node_id,
        step(m, CommandModel::DeregisterNode(node_id)).0.regions[k],
    ) by {
        lemma_all_but(m.regions[k].replica_node_ids, node_id);
    }
}

/// A heartbeat is done just if the node is registered. It sets the generation
/// and the time, revives a node that was suspected or dead, and leaves any other
/// state as it is.
pub proof fn a_heartbeat_is_recorded(
    m: MetaModel,
    node_id: NodeId,
    generation: u64,
    timestamp_secs: u64,
)
    ensures
        ({
            let (n, reply) = step(
                m,
                CommandModel::Heartbeat { node_id, generation, timestamp_secs },
            );
            &&& reply is Done <==> m.nodes.contains_key(node_id)
            &&& reply is Done ==> {
                let was = m.nodes[node_id];
                let is = n.nodes[node_id];
                &&& n.nodes.contains_key(node_id)
                &&& is.heartbeat_generation == generation
                &&& is.last_heartbeat_secs == timestamp_secs
                &&& was.state is Suspect || was.state is Dead ==> is.state is Active
                &&& !(was.state is Suspect || was.state is Dead) ==> is.state == was.state
                &&& is.region_ids == was.region_ids
                &&& same_machine(was, is)
                &&& other_nodes_stay(m, n, node_id)
                &&& only_nodes_changed(m, n)
            }
        }),
{
}

/// The state of a node that is known is set, and nothing else of it.
pub proof fn a_node_state_is_set(m: MetaModel, node_id: NodeId, state: NodeState)
    ensures
        ({
            let (n, reply) = step(m, CommandModel::UpdateNodeState(node_id, state));
            &&& reply is Done <==> m.nodes.contains_key(node_id)
            &&& reply is Done ==> {
                &&& n.nodes.contains_key(node_id)
                &&& n.nodes[node_id] == (NodeModel { state, ..m.nodes[node_id] })
                &&& other_nodes_stay(m, n, node_id)
                &&& only_nodes_changed(m, n)
            }
        }),
{
}

/// A batch of heartbeats gives each registered node that it names its generation
/// and time there, and touches no other node and nothing else.
pub proof fn a_batch_of_heartbeats_is_recorded(
    m: MetaModel,
    batch: Map<NodeId, (u64, u64)>,
    k: NodeId,
)
    ensures
        ({
            let (n, reply) = step(m, CommandModel::BatchHeartbeat(batch));
            &&& reply is Done
            &&& n.nodes.contains_key(k) <==> m.nodes.contains_key(k)
            &&& m.nodes.contains_key(k) && batch.contains_key(k) ==> n.nodes[k] == (NodeModel {
                heartbeat_generation: batch[k].0,
                last_heartbeat_secs: batch[k].1,
                ..m.nodes[k]
            })
            &&& m.nodes.contains_key(k) && !batch.contains_key(k) ==> n.nodes[k] == m.nodes[k]
            &&& only_nodes_changed(m, n)
        }),
{
}

/// The last heartbeat of a node is that of the last command that brought one.
pub proof fn the_last_heartbeat_is_kept(
    store: Map<NodeId, (u64, u64)>,
    command: CommandModel,
    k: NodeId,
)
    ensures
        ({
            let after = heartbeats_after(store, command);
            &&& command matches CommandModel::Heartbeat { node_id, generation, timestamp_secs }
                ==> (k == node_id ==> after.contains_key(k) && after[k] == (
                generation,
                timestamp_secs,
            )) && (k != node_id ==> (after.contains_key(k) <==> store.contains_key(k)) && (
            store.contains_key(k) ==> after[k] == store[k]))
            &&& command matches CommandModel::BatchHeartbeat(batch) ==> (batch.contains_key(k)
                ==> after.contains_key(k) && after[k] == batch[k]) && (!batch.contains_key(k) ==> (
            after.contains_key(k) <==> store.contains_key(k)) && (store.contains_key(k)
                ==> after[k] == store[k]))
            &&& !(command is Heartbeat) && !(command is BatchHeartbeat) ==> after == store
        }),
{
}

// ---------------------------------------------------------------------------
// Regions
// ---------------------------------------------------------------------------

/// A region is created just if its id is free. It is there as it was given, and
/// its leader tracks it.
pub proof fn a_created_region_is_there(m: MetaModel, info: RegionModel)
    ensures
        ({
            let (n, reply) = step(m, CommandModel::CreateRegion(info));
            &&& reply is Created <==> !m.regions.contains_key(info.region_id)
            &&& !(reply is Created) ==> reply is Refused
            &&& reply is Created ==> {
                &&& n.regions.contains_key(info.region_id) && n.regions[info.region_id] == info
                &&& other_regions_stay(m, n, info.region_id)
                &&& tracks(m, n, info.leader_node_id, info.region_id)
                &&& only_regions_and_nodes_changed(m, n)
            }
        }),
{
}

/// The state of a region that is there is set, and nothing else of it.
pub proof fn a_region_state_is_set(m: MetaModel, region_id: RegionId, state: RegionState)
    ensures
        ({
            let (n, reply) = step(m, CommandModel::UpdateRegionState(region_id, state));
            &&& reply is Done <==> m.regions.contains_key(region_id)
            &&& reply is Done ==> {
                &&& n.regions.contains_key(region_id)
                &&& n.regions[region_id] == (RegionModel { state, ..m.regions[region_id] })
                &&& other_regions_stay(m, n, region_id)
                &&& n.nodes == m.nodes
                &&& only_regions_and_nodes_changed(m, n)
            }
        }),
{
}

/// A node becomes the leader of a region just if it is a replica of it,
/// registered, and not dead; nothing else changes.
pub proof fn a_leader_is_a_live_replica(m: MetaModel, region_id: RegionId, leader: NodeId)
    ensures
        ({
            let (n, reply) = step(m, CommandModel::UpdateRegionLeader(region_id, leader));
            &&& reply is Done <==> m.regions.contains_key(region_id)
                && m.regions[region_id].replica_node_ids.contains(leader) && m.nodes.contains_key(
                leader,
            ) && !(m.nodes[leader].state is Dead)
            &&& reply is Done ==> {
                &&& n.regions.contains_key(region_id)
                &&& n.regions[region_id] == (RegionModel {
                    leader_node_id: leader,
                    ..m.regions[region_id]
                })
                &&& other_regions_stay(m, n, region_id)
                &&& n.nodes == m.nodes
                &&& only_regions_and_nodes_changed(m, n)
            }
        }),
{
}

/// A replica is added just if the region is there and the node registered. The
/// node is a replica then and tracks the region; leader and state stay.
pub proof fn an_added_replica_is_tracked(m: MetaModel, region_id: RegionId, node_id: NodeId)
    ensures
        ({
            let (n, reply) = step(m, CommandModel::AddRegionReplica(region_id, node_id));
            &&& reply is Done <==> m.regions.contains_key(region_id) && m.nodes.contains_key(
                node_id,
            )
            &&& reply is Done ==> {
                let was = m.regions[region_id];
                let is = n.regions[region_id];
                &&& n.regions.contains_key(region_id)
                &&& has_gained(was.replica_node_ids, node_id, is.replica_node_ids)
                &&& is == (RegionModel { replica_node_ids: is.replica_node_ids, ..was })
                &&& other_regions_stay(m, n, region_id)
                &&& tracks(m, n, node_id, region_id)
                &&& only_regions_and_nodes_changed(m, n)
            }
        }),
{
}

/// A replica is removed unless it is the only one. The node is no replica then
/// and forgets the region; where it led, the first other replica leads.
pub proof fn a_removed_replica_is_forgotten(m: MetaModel, region_id: RegionId, node_id: NodeId)
    ensures
        ({
            let (n, reply) = step(m, CommandModel::RemoveRegionReplica(region_id, node_id));
            let was = m.regions[region_id];
            let rest = all_but(was.replica_node_ids, node_id);
            &&& reply is Done <==> m.regions.contains_key(region_id) && !(
            was.replica_node_ids.len() <= 1 && was.replica_node_ids.contains(node_id))
            &&& reply is Done ==> {
                &&& n.regions.contains_key(region_id)
                &&& n.regions[region_id] == (RegionModel {
                    replica_node_ids: rest,
                    leader_node_id: if was.leader_node_id == node_id && rest.len() > 0 {
                        rest[0]
                    } else {
                        was.leader_node_id
                    },
                    ..was
                })
                &&& other_regions_stay(m, n, region_id)
                &&& forgets(m, n, node_id, region_id)
                &&& only_regions_and_nodes_changed(m, n)
            }
        }),
{
    lemma_all_but(m.regions[region_id].replica_node_ids, node_id);
    if m.nodes.contains_key(node_id) {
        lemma_all_but(m.nodes[node_id].region_ids, region_id);
    }
}

// ---------------------------------------------------------------------------
// Migration
// ---------------------------------------------------------------------------

/// A migration begins just if the region is active, its leader is the source,
/// and the destination is another node, registered and not dead. The
/// destination is a replica then and tracks the region, which is migrating; the
/// leader stays.
pub proof fn a_begun_migration_adds_the_destination(
    m: MetaModel,
    region_id: RegionId,
    source: NodeId,
    dest: NodeId,
)
    ensures
        ({
            let (n, reply) = step(m, CommandModel::BeginMigration { region_id, source, dest });
            &&& reply is Done <==> m.regions.contains_key(region_id)
                && m.regions[region_id].state is Active && m.regions[region_id].leader_node_id
                == source && m.nodes.contains_key(dest) && !(m.nodes[dest].state is Dead)
                && source != dest
            &&& reply is Done ==> {
                let was = m.regions[region_id];
                let is = n.regions[region_id];
                &&& n.regions.contains_key(region_id)
                &&& has_gained(was.replica_node_ids, dest, is.replica_node_ids)
                &&& is == (RegionModel {
                    replica_node_ids: is.replica_node_ids,
                    state: RegionState::Migrating,
                    ..was
                })
                &&& other_regions_stay(m, n, region_id)
                &&& tracks(m, n, dest, region_id)
                &&& only_regions_and_nodes_changed(m, n)
            }
        }),
{
}

/// A migration completes just if the region is migrating, source and destination
/// are two of its replicas, and the destination is registered and not dead. The
/// destination leads then, the source is no replica and forgets the region,
/// which is active.
pub proof fn a_completed_migration_hands_over(
    m: MetaModel,
    region_id: RegionId,
    source: NodeId,
    dest: NodeId,
)
    ensures
        ({
            let (n, reply) = step(m, CommandModel::MigrateRegion { region_id, source, dest });
            let was = m.regions[region_id];
            &&& reply is Done <==> m.regions.contains_key(region_id) && was.state is Migrating
                && was.replica_node_ids.contains(dest) && m.nodes.contains_key(dest) && !(
            m.nodes[dest].state is Dead) && was.replica_node_ids.contains(source) && source != dest
            &&& reply is Done ==> {
                &&& n.regions.contains_key(region_id)
                &&& n.regions[region_id] == (RegionModel {
                    leader_node_id: dest,
                    replica_node_ids: all_but(was.replica_node_ids, source),
                    state: RegionState::Active,
                    ..was
                })
                &&& other_regions_stay(m, n, region_id)
                &&& forgets(m, n, source, region_id)
                &&& only_regions_and_nodes_changed(m, n)
            }
        }),
{
    let replicas = m.regions[region_id].replica_node_ids;
    lemma_all_but(replicas, source);
    if m.nodes.contains_key(source) {
        lemma_all_but(m.nodes[source].region_ids, region_id);
    }
    lemma_outside_members(replicas, set![source], dest);
    if replicas.contains(dest) && source != dest {
        assert(without(replicas, source).contains(dest));
        let i = choose|i: int|
            0 <= i < without(replicas, source).len() && without(replicas, source)[i] == dest;
        assert(without(replicas, source).len() > 0);
    }
}

/// A migration is cancelled just if the region is migrating and the destination
/// does not lead it. The destination is no replica then and forgets the region,
/// which is active.
pub proof fn a_cancelled_migration_takes_the_destination_out(
    m: MetaModel,
    region_id: RegionId,
    dest: NodeId,
)
    ensures
        ({
            let (n, reply) = step(m, CommandModel::CancelMigration { region_id, dest });
            let was = m.regions[region_id];
            &&& reply is Done <==> m.regions.contains_key(region_id) && was.state is Migrating
                && was.leader_node_id != dest
            &&& reply is Done ==> {
                &&& n.regions.contains_key(region_id)
                &&& n.regions[region_id] == (RegionModel {
                    replica_node_ids: all_but(was.replica_node_ids, dest),
                    state: RegionState::Active,
                    ..was
                })
                &&& other_regions_stay(m, n, region_id)
                &&& forgets(m, n, dest, region_id)
                &&& only_regions_and_nodes_changed(m, n)
            }
        }),
{
    lemma_all_but(m.regions[region_id].replica_node_ids, dest);
    if m.nodes.contains_key(dest) {
        lemma_all_but(m.nodes[dest].region_ids, region_id);
    }
}

// ---------------------------------------------------------------------------
// Measurements, models and configuration
// ---------------------------------------------------------------------------

/// A measurement is created just if its name is free: it is there as it was
/// given, and nothing else changes.
pub proof fn a_created_measurement_is_as_given(m: MetaModel, schema: SchemaModel, k: Seq<char>)
    ensures
        ({
            let (n, reply) = step(m, CommandModel::CreateMeasurement(schema));
            &&& reply is Created <==> !m.schemas.contains_key(schema.name)
            &&& reply is Created ==> {
                &&& n.schemas.contains_key(schema.name) && n.schemas[schema.name] == schema
                &&& k != schema.name ==> (n.schemas.contains_key(k) <==> m.schemas.contains_key(k))
                    && (m.schemas.contains_key(k) ==> n.schemas[k] == m.schemas[k])
                &&& n == (MetaModel { schemas: n.schemas, ..m })
            }
        }),
{
}

/// A measurement is dropped just if it is there; other measurements stay, and
/// of a node only the regions that it tracks can change.
pub proof fn a_dropped_measurement_spares_the_others(
    m: MetaModel,
    name: Seq<char>,
    k: Seq<char>,
    i: NodeId,
    id: RegionId,
)
    ensures
        ({
            let (n, reply) = step(m, CommandModel::DropMeasurement(name));
            &&& reply is Done <==> m.schemas.contains_key(name)
            &&& reply is Done ==> {
                &&& !n.schemas.contains_key(name)
                &&& k != name ==> (n.schemas.contains_key(k) <==> m.schemas.contains_key(k)) && (
                m.schemas.contains_key(k) ==> n.schemas[k] == m.schemas[k])
                &&& n.nodes.contains_key(i) <==> m.nodes.contains_key(i)
                &&& m.nodes.contains_key(i) ==> n.nodes[i] == (NodeModel {
                    region_ids: n.nodes[i].region_ids,
                    ..m.nodes[i]
                })
                &&& m.nodes.contains_key(i) && !(exists|r: RegionId| #[trigger]
                    m.regions.contains_key(r) && m.regions[r].measurement == name
                        && m.regions[r].region_id == id) ==> (n.nodes[i].region_ids.contains(id)
                    <==> m.nodes[i].region_ids.contains(id))
                &&& only_regions_and_nodes_changed(
                    m,
                    (MetaModel { schemas: m.schemas, ..n }),
                )
            }
        }),
{
    if m.nodes.contains_key(i) {
        lemma_outside_members(
            m.nodes[i].region_ids,
            crate::meta::model::region_ids_of(m.regions, name),
            id,
        );
    }
}

/// The configuration that was given is the one in force, and nothing else
/// changes.
pub proof fn the_configuration_is_replaced(
    m: MetaModel,
    config: ConfigModel,
)
    ensures
        ({
            let (n, reply) = step(m, CommandModel::UpdateClusterConfig(config));
            &&& reply is Done
            &&& n.cluster_config == config
            &&& n == (MetaModel { cluster_config: config, ..m })
        }),
{
}

/// A saved model is read back under its measurement and id, and every other
/// entry stays.
pub proof fn a_saved_model_spares_the_others(
    m: MetaModel,
    measurement: Seq<char>,
    model_id: Seq<char>,
    metadata: Seq<u8>,
    k: Seq<char>,
)
    ensures
        ({
            let (n, reply) = step(m, CommandModel::SaveModel { measurement, model_id, metadata });
            let key = measurement + ":"@ + model_id;
            &&& reply is Done
            &&& n.models.contains_key(key) && n.models[key] == metadata
            &&& k != key ==> (n.models.contains_key(k) <==> m.models.contains_key(k)) && (
            m.models.contains_key(k) ==> n.models[k] == m.models[k])
            &&& n == (MetaModel { models: n.models, ..m })
        }),
{
}

} // verus!
