//! The cluster metadata as a mathematical object, and what each command does
//! to it.
use vstd::prelude::*;

#[allow(unused_imports)]
use crate::meta::types::{
    default_config, CommandModel, ConfigModel, NodeId, NodeModel, NodeState, RegionId,
    RegionModel, RegionState, Reply, SchemaModel,
};
#[allow(unused_imports)]
use crate::sorted_map::enumeration;
#[allow(unused_imports)]
use crate::text::{decimal, id_list, numbered, numbered_twice};

verus! {

/// The replicated metadata of a cluster.
#[verifier::ext_equal]
pub struct MetaModel {
    pub schemas: Map<Seq<char>, SchemaModel>,
    pub nodes: Map<NodeId, NodeModel>,
    pub regions: Map<RegionId, RegionModel>,
    pub cluster_config: ConfigModel,
    pub models: Map<Seq<char>, Seq<u8>>,
    pub next_region_id: u64,
}

/// The metadata of a new cluster. Region ids start at one.
pub open spec fn empty_cluster() -> MetaModel {
    MetaModel {
        schemas: Map::empty(),
        nodes: Map::empty(),
        regions: Map::empty(),
        cluster_config: default_config(),
        models: Map::empty(),
        next_region_id: 1,
    }
}

/// The entries in ascending order of their ids.
pub open spec fn in_id_order<B>(entries: Map<u64, B>) -> Seq<(u64, B)> {
    enumeration::<u64, B>(entries)
}

/// The entries in the order of their ids are all the entries, strictly
/// ascending.
pub open spec fn have_an_id_order<B>(entries: Map<u64, B>) -> bool {
    &&& crate::sorted_map::ascending::<u64, B>(in_id_order(entries))
    &&& crate::sorted_map::map_of(in_id_order(entries)) == entries
}

/// The value stored under a key, if there is one.
pub open spec fn lookup<A, B>(m: Map<A, B>, k: A) -> Option<B> {
    if m.contains_key(k) {
        Some(m[k])
    } else {
        None
    }
}

/// The values that meet a condition, in the order of the pairs.
pub open spec fn selected<B>(pairs: Seq<(u64, B)>, wanted: spec_fn(B) -> bool) -> Seq<B>
    decreases pairs.len(),
{
    if pairs.len() == 0 {
        Seq::<B>::empty()
    } else {
        let rest = selected(pairs.drop_last(), wanted);
        if wanted(pairs.last().1) {
            rest.push(pairs.last().1)
        } else {
            rest
        }
    }
}

// ---------------------------------------------------------------------------
// Lists of ids
// ---------------------------------------------------------------------------

/// `ids` without those in the set, in the same order.
pub open spec fn outside(ids: Seq<u64>, gone: Set<u64>) -> Seq<u64>
    decreases ids.len(),
{
    if ids.len() == 0 {
        Seq::<u64>::empty()
    } else {
        let rest = outside(ids.drop_last(), gone);
        if gone.contains(ids.last()) {
            rest
        } else {
            rest.push(ids.last())
        }
    }
}

/// `ids` without `id`.
pub open spec fn without(ids: Seq<u64>, id: u64) -> Seq<u64> {
    outside(ids, set![id])
}

/// `ids` with `id` at the end, unless it is there already.
pub open spec fn including(ids: Seq<u64>, id: u64) -> Seq<u64> {
    if ids.contains(id) {
        ids
    } else {
        ids.push(id)
    }
}

/// What remains are the ids that are not gone.
pub proof fn lemma_outside_members(ids: Seq<u64>, gone: Set<u64>, id: u64)
    ensures
        outside(ids, gone).contains(id) <==> ids.contains(id) && !gone.contains(id),
        outside(ids, gone).len() <= ids.len(),
    decreases ids.len(),
{
    if ids.len() > 0 {
        let init = ids.drop_last();
        lemma_outside_members(init, gone, id);
        let rest = outside(init, gone);
        assert(ids =~= init.push(ids.last()));
        if ids.contains(id) && id != ids.last() {
            let i = choose|i: int| 0 <= i < ids.len() && ids[i] == id;
            assert(init[i] == id);
        }
        if init.contains(id) {
            let i = choose|i: int| 0 <= i < init.len() && init[i] == id;
            assert(ids[i] == id);
        }
        assert(ids.contains(ids.last())) by {
            assert(ids[ids.len() - 1] == ids.last());
        }
        if !gone.contains(ids.last()) {
            let out = rest.push(ids.last());
            if out.contains(id) && id != ids.last() {
                let i = choose|i: int| 0 <= i < out.len() && out[i] == id;
                assert(rest[i] == id);
            }
            if rest.contains(id) {
                let i = choose|i: int| 0 <= i < rest.len() && rest[i] == id;
                assert(out[i] == id);
            }
            assert(out[out.len() - 1] == ids.last());
        }
    } else {
        assert(!ids.contains(id));
    }
}

/// Taking out an id that is not there changes nothing.
pub proof fn lemma_without_absent(ids: Seq<u64>, id: u64)
    requires
        !ids.contains(id),
    ensures
        without(ids, id) == ids,
    decreases ids.len(),
{
    if ids.len() > 0 {
        let init = ids.drop_last();
        assert(!init.contains(id)) by {
            if init.contains(id) {
                let i = choose|i: int| 0 <= i < init.len() && init[i] == id;
                assert(ids[i] == id);
            }
        }
        lemma_without_absent(init, id);
        assert(ids[ids.len() - 1] == ids.last());
        assert(ids =~= init.push(ids.last()));
    } else {
        assert(without(ids, id) =~= ids);
    }
}

/// Taking out an id that was just put in gives back the list.
pub proof fn lemma_without_including(ids: Seq<u64>, id: u64)
    requires
        !ids.contains(id),
    ensures
        without(including(ids, id), id) == ids,
{
    lemma_without_absent(ids, id);
    let more = ids.push(id);
    assert(more.drop_last() =~= ids);
}

// ---------------------------------------------------------------------------
// Measurements
// ---------------------------------------------------------------------------

/// Create a measurement that does not exist yet.
pub open spec fn create_measurement(m: MetaModel, schema: SchemaModel) -> (MetaModel, Reply) {
    if m.schemas.contains_key(schema.name) {
        (m, Reply::Refused("measurement '"@ + schema.name + "' already exists"@))
    } else {
        (
            MetaModel { schemas: m.schemas.insert(schema.name, schema), ..m },
            Reply::Created("measurement '"@ + schema.name + "'"@),
        )
    }
}

/// `id` is the id of a region of the measurement.
pub open spec fn is_region_of(
    regions: Map<RegionId, RegionModel>,
    name: Seq<char>,
    id: RegionId,
) -> bool {
    exists|k: RegionId| #[trigger]
        regions.contains_key(k) && regions[k].measurement == name && regions[k].region_id == id
}

/// The ids of a measurement's regions.
pub open spec fn region_ids_of(regions: Map<RegionId, RegionModel>, name: Seq<char>) -> Set<
    RegionId,
> {
    Set::new(|id: RegionId| is_region_of(regions, name, id))
}

/// Drop a measurement with its regions; the nodes forget those regions.
pub open spec fn drop_measurement(m: MetaModel, name: Seq<char>) -> (MetaModel, Reply) {
    if !m.schemas.contains_key(name) {
        (m, Reply::Refused("measurement '"@ + name + "' not found"@))
    } else {
        let gone = region_ids_of(m.regions, name);
        (
            MetaModel {
                schemas: m.schemas.remove(name),
                regions: m.regions.remove_keys(gone),
                nodes: m.nodes.map_values(
                    |n: NodeModel| NodeModel { region_ids: outside(n.region_ids, gone), ..n },
                ),
                ..m
            },
            Reply::Done,
        )
    }
}

// ---------------------------------------------------------------------------
// Nodes
// ---------------------------------------------------------------------------

/// Register a node, replacing what was known of it.
pub open spec fn register_node(m: MetaModel, info: NodeModel) -> (MetaModel, Reply) {
    (
        MetaModel { nodes: m.nodes.insert(info.node_id, info), ..m },
        Reply::Created(numbered("node ", info.node_id, "")),
    )
}

/// A region after one of the nodes is gone: the node is no replica any more;
/// where it led, the first remaining replica takes over, and where none
/// remains the region is read-only and without a leader.
pub open spec fn region_without_node(r: RegionModel, node_id: NodeId) -> RegionModel {
    let replicas = without(r.replica_node_ids, node_id);
    if r.leader_node_id != node_id {
        RegionModel { replica_node_ids: replicas, ..r }
    } else if replicas.len() > 0 {
        RegionModel { replica_node_ids: replicas, leader_node_id: replicas[0], ..r }
    } else {
        RegionModel {
            replica_node_ids: replicas,
            leader_node_id: 0,
            state: RegionState::ReadOnly,
            ..r
        }
    }
}

/// Deregister a node.
pub open spec fn deregister_node(m: MetaModel, node_id: NodeId) -> (MetaModel, Reply) {
    if !m.nodes.contains_key(node_id) {
        (m, Reply::Refused(numbered("node ", node_id, " not found")))
    } else {
        (
            MetaModel {
                nodes: m.nodes.remove(node_id),
                regions: m.regions.map_values(|r: RegionModel| region_without_node(r, node_id)),
                ..m
            },
            Reply::Done,
        )
    }
}

/// A node after a heartbeat: one that was given up is active again.
pub open spec fn node_after_heartbeat(n: NodeModel, generation: u64, timestamp_secs: u64) -> NodeModel {
    NodeModel {
        heartbeat_generation: generation,
        last_heartbeat_secs: timestamp_secs,
        state: if n.state is Suspect || n.state is Dead {
            NodeState::Active
        } else {
            n.state
        },
        ..n
    }
}

/// Record a heartbeat.
pub open spec fn heartbeat(
    m: MetaModel,
    node_id: NodeId,
    generation: u64,
    timestamp_secs: u64,
) -> (MetaModel, Reply) {
    if m.nodes.contains_key(node_id) {
        (
            MetaModel {
                nodes: m.nodes.insert(
                    node_id,
                    node_after_heartbeat(m.nodes[node_id], generation, timestamp_secs),
                ),
                ..m
            },
            Reply::Done,
        )
    } else {
        (m, Reply::Refused(numbered("node ", node_id, " not registered")))
    }
}

/// Set a node's lifecycle state.
pub open spec fn update_node_state(m: MetaModel, node_id: NodeId, state: NodeState) -> (
    MetaModel,
    Reply,
) {
    if m.nodes.contains_key(node_id) {
        (
            MetaModel {
                nodes: m.nodes.insert(node_id, NodeModel { state, ..m.nodes[node_id] }),
                ..m
            },
            Reply::Done,
        )
    } else {
        (m, Reply::Refused(numbered("node ", node_id, " not found")))
    }
}

/// The nodes after a batch of heartbeats: each one that the batch names has
/// the batch's generation and time.
pub open spec fn nodes_after_batch(
    nodes: Map<NodeId, NodeModel>,
    batch: Map<NodeId, (u64, u64)>,
) -> Map<NodeId, NodeModel> {
    nodes.map_entries(
        |id: NodeId, n: NodeModel|
            if batch.contains_key(id) {
                NodeModel {
                    heartbeat_generation: batch[id].0,
                    last_heartbeat_secs: batch[id].1,
                    ..n
                }
            } else {
                n
            },
    )
}

// ---------------------------------------------------------------------------
// Regions
// ---------------------------------------------------------------------------

/// `nodes` with the region tracked on one of them, where that one exists.
pub open spec fn tracked_on(
    nodes: Map<NodeId, NodeModel>,
    node_id: NodeId,
    region_id: RegionId,
) -> Map<NodeId, NodeModel> {
    if nodes.contains_key(node_id) {
        nodes.insert(
            node_id,
            NodeModel {
                region_ids: including(nodes[node_id].region_ids, region_id),
                ..nodes[node_id]
            },
        )
    } else {
        nodes
    }
}

/// `nodes` with the region no longer tracked on one of them.
pub open spec fn untracked_on(
    nodes: Map<NodeId, NodeModel>,
    node_id: NodeId,
    region_id: RegionId,
) -> Map<NodeId, NodeModel> {
    if nodes.contains_key(node_id) {
        nodes.insert(
            node_id,
            NodeModel {
                region_ids: without(nodes[node_id].region_ids, region_id),
                ..nodes[node_id]
            },
        )
    } else {
        nodes
    }
}

/// Create a region and track it on its leader.
pub open spec fn create_region(m: MetaModel, info: RegionModel) -> (MetaModel, Reply) {
    if m.regions.contains_key(info.region_id) {
        (m, Reply::Refused(numbered("region ", info.region_id, " already exists")))
    } else {
        (
            MetaModel {
                regions: m.regions.insert(info.region_id, info),
                nodes: tracked_on(m.nodes, info.leader_node_id, info.region_id),
                ..m
            },
            Reply::Created(numbered("region ", info.region_id, "")),
        )
    }
}

/// The reply to a command on a region that does not exist.
pub open spec fn region_not_found(region_id: RegionId) -> Reply {
    Reply::Refused(numbered("region ", region_id, " not found"))
}

/// `m` with one region replaced.
pub open spec fn with_region(m: MetaModel, region_id: RegionId, r: RegionModel) -> MetaModel {
    MetaModel { regions: m.regions.insert(region_id, r), ..m }
}

/// Set a region's lifecycle state.
pub open spec fn update_region_state(m: MetaModel, region_id: RegionId, state: RegionState) -> (
    MetaModel,
    Reply,
) {
    if m.regions.contains_key(region_id) {
        (
            with_region(m, region_id, RegionModel { state, ..m.regions[region_id] }),
            Reply::Done,
        )
    } else {
        (m, region_not_found(region_id))
    }
}

/// Make a replica the leader. It must be registered and not dead.
pub open spec fn update_region_leader(m: MetaModel, region_id: RegionId, leader: NodeId) -> (
    MetaModel,
    Reply,
) {
    if !m.regions.contains_key(region_id) {
        (m, region_not_found(region_id))
    } else if !m.regions[region_id].replica_node_ids.contains(leader) {
        (
            m,
            Reply::Refused(
                numbered_twice(
                    "cannot set leader ",
                    leader,
                    " for region ",
                    region_id,
                    ": node is not in replica set ",
                ) + id_list(m.regions[region_id].replica_node_ids),
            ),
        )
    } else if !m.nodes.contains_key(leader) {
        (
            m,
            Reply::Refused(
                numbered_twice(
                    "cannot set unregistered node ",
                    leader,
                    " as leader for region ",
                    region_id,
                    "",
                ),
            ),
        )
    } else if m.nodes[leader].state is Dead {
        (
            m,
            Reply::Refused(
                numbered_twice(
                    "cannot set dead node ",
                    leader,
                    " as leader for region ",
                    region_id,
                    "",
                ),
            ),
        )
    } else {
        (
            with_region(
                m,
                region_id,
                RegionModel { leader_node_id: leader, ..m.regions[region_id] },
            ),
            Reply::Done,
        )
    }
}

/// Add a registered node to a region's replicas.
pub open spec fn add_region_replica(m: MetaModel, region_id: RegionId, node_id: NodeId) -> (
    MetaModel,
    Reply,
) {
    if !m.regions.contains_key(region_id) {
        (m, region_not_found(region_id))
    } else if !m.nodes.contains_key(node_id) {
        (
            m,
            Reply::Refused(
                numbered_twice(
                    "cannot add unregistered node ",
                    node_id,
                    " as replica for region ",
                    region_id,
                    "",
                ),
            ),
        )
    } else {
        let r = m.regions[region_id];
        (
            MetaModel {
                regions: m.regions.insert(
                    region_id,
                    RegionModel {
                        replica_node_ids: including(r.replica_node_ids, node_id),
                        ..r
                    },
                ),
                nodes: tracked_on(m.nodes, node_id, region_id),
                ..m
            },
            Reply::Done,
        )
    }
}

/// Remove a replica, but not the last one. Where it led, the first other
/// replica takes over.
pub open spec fn remove_region_replica(m: MetaModel, region_id: RegionId, node_id: NodeId) -> (
    MetaModel,
    Reply,
) {
    if !m.regions.contains_key(region_id) {
        (m, region_not_found(region_id))
    } else {
        let r = m.regions[region_id];
        let rest = without(r.replica_node_ids, node_id);
        if r.replica_node_ids.len() <= 1 && r.replica_node_ids.contains(node_id) {
            (
                m,
                Reply::Refused(
                    numbered_twice(
                        "cannot remove last replica ",
                        node_id,
                        " from region ",
                        region_id,
                        "",
                    ),
                ),
            )
        } else {
            (
                MetaModel {
                    regions: m.regions.insert(
                        region_id,
                        RegionModel {
                            replica_node_ids: rest,
                            leader_node_id: if r.leader_node_id == node_id && rest.len() > 0 {
                                rest[0]
                            } else {
                                r.leader_node_id
                            },
                            ..r
                        },
                    ),
                    nodes: untracked_on(m.nodes, node_id, region_id),
                    ..m
                },
                Reply::Done,
            )
        }
    }
}

// ---------------------------------------------------------------------------
// Migration
// ---------------------------------------------------------------------------

/// The reply when the destination of a migration cannot take the region, if
/// that is so.
pub open spec fn unfit_destination(
    nodes: Map<NodeId, NodeModel>,
    region_id: RegionId,
    dest: NodeId,
) -> Option<Reply> {
    if !nodes.contains_key(dest) {
        Some(
            Reply::Refused(
                numbered_twice(
                    "cannot migrate region ",
                    region_id,
                    " to unregistered node ",
                    dest,
                    "",
                ),
            ),
        )
    } else if nodes[dest].state is Dead {
        Some(
            Reply::Refused(
                numbered_twice("cannot migrate region ", region_id, " to dead node ", dest, ""),
            ),
        )
    } else {
        None
    }
}

/// Why a migration cannot be completed, if it cannot. The gates are tried in
/// this order: the region is migrating, the destination is a replica, it is
/// registered and not dead, the source is a replica, it is not the
/// destination, which would then lead without being a replica, and another
/// replica remains when the source is gone.
pub open spec fn migrate_refusal(
    m: MetaModel,
    region_id: RegionId,
    source: NodeId,
    dest: NodeId,
) -> Option<Reply> {
    let r = m.regions[region_id];
    if !(r.state is Migrating) {
        Some(
            Reply::Refused(
                numbered("region ", region_id, " is in state ") + r.state.variant_name()
                    + ", expected Migrating (call BeginMigration first)"@,
            ),
        )
    } else if !r.replica_node_ids.contains(dest) {
        Some(
            Reply::Refused(
                numbered_twice(
                    "destination node ",
                    dest,
                    " is not a replica of region ",
                    region_id,
                    " (call BeginMigration first)",
                ),
            ),
        )
    } else if unfit_destination(m.nodes, region_id, dest) is Some {
        unfit_destination(m.nodes, region_id, dest)
    } else if !r.replica_node_ids.contains(source) {
        Some(
            Reply::Refused(
                numbered_twice(
                    "source node ",
                    source,
                    " is not a replica of region ",
                    region_id,
                    "",
                ),
            ),
        )
    } else if source == dest {
        Some(
            Reply::Refused(
                numbered(
                    "source and destination are the same node ",
                    source,
                    " — nothing to migrate",
                ),
            ),
        )
    } else if without(r.replica_node_ids, source).len() == 0 {
        Some(
            Reply::Refused(
                numbered_twice(
                    "cannot remove source ",
                    source,
                    ": would leave region ",
                    region_id,
                    " with 0 replicas",
                ),
            ),
        )
    } else {
        None
    }
}

/// Complete a migration: the destination leads, the source is no replica any
/// more, and the region is active.
pub open spec fn migrate_region(
    m: MetaModel,
    region_id: RegionId,
    source: NodeId,
    dest: NodeId,
) -> (MetaModel, Reply) {
    if !m.regions.contains_key(region_id) {
        (m, region_not_found(region_id))
    } else {
        let r = m.regions[region_id];
        match migrate_refusal(m, region_id, source, dest) {
            Some(reply) => (m, reply),
            None => (
                MetaModel {
                    regions: m.regions.insert(
                        region_id,
                        RegionModel {
                            leader_node_id: dest,
                            replica_node_ids: without(r.replica_node_ids, source),
                            state: RegionState::Active,
                            ..r
                        },
                    ),
                    nodes: untracked_on(m.nodes, source, region_id),
                    ..m
                },
                Reply::Done,
            ),
        }
    }
}

/// Why a migration cannot begin, if it cannot. The gates are tried in this
/// order: the region is active, the source leads it, the destination is
/// registered and not dead, and it is not the source.
pub open spec fn begin_refusal(
    m: MetaModel,
    region_id: RegionId,
    source: NodeId,
    dest: NodeId,
) -> Option<Reply> {
    let r = m.regions[region_id];
    if !(r.state is Active) {
        Some(
            Reply::Refused(
                numbered("region ", region_id, " is in state ") + r.state.variant_name()
                    + ", only Active regions can be migrated"@,
            ),
        )
    } else if r.leader_node_id != source {
        Some(
            Reply::Refused(
                numbered_twice(
                    "source node ",
                    source,
                    " is not the leader of region ",
                    region_id,
                    " (leader is ",
                ) + decimal(r.leader_node_id as nat) + ")"@,
            ),
        )
    } else if unfit_destination(m.nodes, region_id, dest) is Some {
        unfit_destination(m.nodes, region_id, dest)
    } else if source == dest {
        Some(
            Reply::Refused(
                numbered(
                    "source and destination are the same node ",
                    source,
                    " — nothing to migrate",
                ),
            ),
        )
    } else {
        None
    }
}

/// Begin a migration: the destination becomes a replica and the region is
/// migrating.
pub open spec fn begin_migration(
    m: MetaModel,
    region_id: RegionId,
    source: NodeId,
    dest: NodeId,
) -> (MetaModel, Reply) {
    if !m.regions.contains_key(region_id) {
        (m, region_not_found(region_id))
    } else {
        let r = m.regions[region_id];
        match begin_refusal(m, region_id, source, dest) {
            Some(reply) => (m, reply),
            None => (
                MetaModel {
                    regions: m.regions.insert(
                        region_id,
                        RegionModel {
                            replica_node_ids: including(r.replica_node_ids, dest),
                            state: RegionState::Migrating,
                            ..r
                        },
                    ),
                    nodes: tracked_on(m.nodes, dest, region_id),
                    ..m
                },
                Reply::Done,
            ),
        }
    }
}

/// Cancel a migration: the destination is no replica any more and the region
/// is active. The leader cannot be such a destination: the region would be led
/// by a node that is no replica.
pub open spec fn cancel_migration(m: MetaModel, region_id: RegionId, dest: NodeId) -> (
    MetaModel,
    Reply,
) {
    if !m.regions.contains_key(region_id) {
        (m, region_not_found(region_id))
    } else {
        let r = m.regions[region_id];
        if !(r.state is Migrating) {
            (
                m,
                Reply::Refused(
                    numbered("region ", region_id, " is in state ") + r.state.variant_name()
                        + ", only Migrating regions can be cancelled"@,
                ),
            )
        } else if r.leader_node_id == dest {
            (
                m,
                Reply::Refused(
                    numbered_twice(
                        "destination node ",
                        dest,
                        " is the leader of region ",
                        region_id,
                        ", its migration cannot be cancelled",
                    ),
                ),
            )
        } else {
            (
                MetaModel {
                    regions: m.regions.insert(
                        region_id,
                        RegionModel {
                            replica_node_ids: without(r.replica_node_ids, dest),
                            state: RegionState::Active,
                            ..r
                        },
                    ),
                    nodes: untracked_on(m.nodes, dest, region_id),
                    ..m
                },
                Reply::Done,
            )
        }
    }
}

// ---------------------------------------------------------------------------
// Every command
// ---------------------------------------------------------------------------

/// The name under which a model is saved.
pub open spec fn model_key(measurement: Seq<char>, model_id: Seq<char>) -> Seq<char> {
    measurement + ":"@ + model_id
}

/// What a command does to the metadata, and the reply to it.
pub open spec fn step(m: MetaModel, command: CommandModel) -> (MetaModel, Reply) {
    match command {
        CommandModel::CreateMeasurement(schema) => create_measurement(m, schema),
        CommandModel::DropMeasurement(name) => drop_measurement(m, name),
        CommandModel::RegisterNode(info) => register_node(m, info),
        CommandModel::DeregisterNode(node_id) => deregister_node(m, node_id),
        CommandModel::Heartbeat { node_id, generation, timestamp_secs } => heartbeat(
            m,
            node_id,
            generation,
            timestamp_secs,
        ),
        CommandModel::UpdateNodeState(node_id, state) => update_node_state(m, node_id, state),
        CommandModel::CreateRegion(info) => create_region(m, info),
        CommandModel::UpdateRegionState(region_id, state) => update_region_state(
            m,
            region_id,
            state,
        ),
        CommandModel::UpdateRegionLeader(region_id, leader) => update_region_leader(
            m,
            region_id,
            leader,
        ),
        CommandModel::AddRegionReplica(region_id, node_id) => add_region_replica(
            m,
            region_id,
            node_id,
        ),
        CommandModel::RemoveRegionReplica(region_id, node_id) => remove_region_replica(
            m,
            region_id,
            node_id,
        ),
        CommandModel::MigrateRegion { region_id, source, dest } => migrate_region(
            m,
            region_id,
            source,
            dest,
        ),
        CommandModel::BeginMigration { region_id, source, dest } => begin_migration(
            m,
            region_id,
            source,
            dest,
        ),
        CommandModel::CancelMigration { region_id, dest } => cancel_migration(m, region_id, dest),
        CommandModel::UpdateClusterConfig(config) => (
            MetaModel { cluster_config: config, ..m },
            Reply::Done,
        ),
        CommandModel::SaveModel { measurement, model_id, metadata } => (
            MetaModel {
                models: m.models.insert(model_key(measurement, model_id), metadata),
                ..m
            },
            Reply::Done,
        ),
        CommandModel::BatchHeartbeat(batch) => (
            MetaModel { nodes: nodes_after_batch(m.nodes, batch), ..m },
            Reply::Done,
        ),
    }
}

/// The last heartbeats after a command.
pub open spec fn heartbeats_after(
    store: Map<NodeId, (u64, u64)>,
    command: CommandModel,
) -> Map<NodeId, (u64, u64)> {
    match command {
        CommandModel::Heartbeat { node_id, generation, timestamp_secs } => store.insert(
            node_id,
            (generation, timestamp_secs),
        ),
        CommandModel::BatchHeartbeat(batch) => store.union_prefer_right(batch),
        _ => store,
    }
}

/// Whether a command can change regions or addresses, so that the routes are
/// built anew.
pub open spec fn affects_routing(command: CommandModel) -> bool {
    !(command is SaveModel || command is BatchHeartbeat || command is UpdateClusterConfig)
}

// ---------------------------------------------------------------------------
// Reading the metadata, and planning regions
// ---------------------------------------------------------------------------

/// The nodes that are not dead, in the order of their ids.
pub open spec fn live_nodes(m: MetaModel) -> Seq<NodeModel> {
    selected(in_id_order(m.nodes), |n: NodeModel| !(n.state is Dead))
}

/// How many of the given replicas are on active nodes.
pub open spec fn active_replicas(nodes: Map<NodeId, NodeModel>, replicas: Seq<NodeId>) -> nat
    decreases replicas.len(),
{
    if replicas.len() == 0 {
        0
    } else {
        let rest = active_replicas(nodes, replicas.drop_last());
        if nodes.contains_key(replicas.last()) && nodes[replicas.last()].state is Active {
            rest + 1
        } else {
            rest
        }
    }
}

/// The region has fewer active replicas than it should.
pub open spec fn is_under_replicated(nodes: Map<NodeId, NodeModel>, r: RegionModel) -> bool {
    active_replicas(nodes, r.replica_node_ids) < r.replication_factor
}

/// `count` nodes in a row, starting at `from` and going round.
pub open spec fn round_robin(live: Seq<NodeModel>, from: int, count: nat) -> Seq<NodeId> {
    Seq::new(count, |j: int| live[(from + j) % (live.len() as int)].node_id)
}

/// The regions planned for a measurement: as many as the schema asks for,
/// with ids from the next free one on. Leaders go round the live nodes, and
/// the replicas of a region are its leader and the nodes behind it, as many
/// as the schema asks for and there are nodes.
pub open spec fn planned_regions(m: MetaModel, schema: SchemaModel) -> Seq<RegionModel> {
    let live = live_nodes(m);
    let available = live.len() as u32;
    let copies = if schema.replication_factor < available {
        schema.replication_factor
    } else {
        available
    };
    Seq::new(
        schema.region_count as nat,
        |i: int|
            {
                let from = i % (live.len() as int);
                RegionModel {
                    region_id: (m.next_region_id + i) as u64,
                    measurement: schema.name,
                    leader_node_id: live[from].node_id,
                    replica_node_ids: round_robin(live, from, copies as nat),
                    state: RegionState::Active,
                    replication_factor: if copies > 1 {
                        copies
                    } else {
                        1
                    },
                    key_range: None,
                }
            },
    )
}

/// The metadata after creating the given regions one by one.
pub open spec fn after_creating(m: MetaModel, regions: Seq<RegionModel>) -> MetaModel
    decreases regions.len(),
{
    if regions.len() == 0 {
        m
    } else {
        create_region(after_creating(m, regions.drop_last()), regions.last()).0
    }
}

} // verus!
