//! What a command is answered: what was created, or why it was refused.
use vstd::prelude::*;

#[allow(unused_imports)]
use crate::meta::error::MetaError;
#[allow(unused_imports)]
use crate::meta::model::{step, MetaModel};
#[allow(unused_imports)]
use crate::meta::types::{
    CommandModel, NodeId, NodeModel, NodeState, RegionId, RegionModel, RegionState, Reply,
    SchemaModel,
};
#[allow(unused_imports)]
use crate::text::{decimal, id_list};

verus! {

/// A measurement, a node or a region that was created is named in the reply.
pub proof fn what_was_created_is_named(
    m: MetaModel,
    schema: SchemaModel,
    node: NodeModel,
    region: RegionModel,
)
    ensures
        !m.schemas.contains_key(schema.name) ==> step(m, CommandModel::CreateMeasurement(schema)).1
            == Reply::Created("measurement '"@ + schema.name + "'"@),
        step(m, CommandModel::RegisterNode(node)).1 == Reply::Created(
            "node "@ + decimal(node.node_id as nat) + ""@,
        ),
        !m.regions.contains_key(region.region_id) ==> step(
            m,
            CommandModel::CreateRegion(region),
        ).1 == Reply::Created("region "@ + decimal(region.region_id as nat) + ""@),
{
}

/// What there is already cannot be created: the refusal names it.
pub proof fn what_is_there_is_not_created_again(
    m: MetaModel,
    schema: SchemaModel,
    region: RegionModel,
)
    ensures
        m.schemas.contains_key(schema.name) ==> step(m, CommandModel::CreateMeasurement(schema)).1
            == Reply::Refused("measurement '"@ + schema.name + "' already exists"@),
        m.regions.contains_key(region.region_id) ==> step(m, CommandModel::CreateRegion(region)).1
            == Reply::Refused("region "@ + decimal(region.region_id as nat) + " already exists"@),
{
}

/// What there is not cannot be changed: the refusal names it.
pub proof fn what_is_not_there_is_named(
    m: MetaModel,
    name: Seq<char>,
    node_id: NodeId,
    region_id: RegionId,
    generation: u64,
    timestamp_secs: u64,
    node_state: NodeState,
    region_state: RegionState,
    other: NodeId,
)
    ensures
        !m.schemas.contains_key(name) ==> step(m, CommandModel::DropMeasurement(name)).1
            == Reply::Refused("measurement '"@ + name + "' not found"@),
        !m.nodes.contains_key(node_id) ==> {
            let not_found = Reply::Refused("node "@ + decimal(node_id as nat) + " not found"@);
            &&& step(m, CommandModel::DeregisterNode(node_id)).1 == not_found
            &&& step(m, CommandModel::UpdateNodeState(node_id, node_state)).1 == not_found
            &&& step(m, CommandModel::Heartbeat { node_id, generation, timestamp_secs }).1
                == Reply::Refused("node "@ + decimal(node_id as nat) + " not registered"@)
        },
        !m.regions.contains_key(region_id) ==> {
            let not_found = Reply::Refused("region "@ + decimal(region_id as nat) + " not found"@);
            &&& step(m, CommandModel::UpdateRegionState(region_id, region_state)).1 == not_found
            &&& step(m, CommandModel::UpdateRegionLeader(region_id, node_id)).1 == not_found
            &&& step(m, CommandModel::AddRegionReplica(region_id, node_id)).1 == not_found
            &&& step(m, CommandModel::RemoveRegionReplica(region_id, node_id)).1 == not_found
            &&& step(
                m,
                CommandModel::MigrateRegion { region_id, source: node_id, dest: other },
            ).1 == not_found
            &&& step(
                m,
                CommandModel::BeginMigration { region_id, source: node_id, dest: other },
            ).1 == not_found
            &&& step(m, CommandModel::CancelMigration { region_id, dest: other }).1 == not_found
        },
{
}

/// A leader has to be a replica first, then registered, then not dead: the
/// refusal names what comes first, with the replicas where it is none of them.
pub proof fn an_unfit_leader_is_named(m: MetaModel, region_id: RegionId, leader: NodeId)
    requires
        m.regions.contains_key(region_id),
    ensures
        ({
            let reply = step(m, CommandModel::UpdateRegionLeader(region_id, leader)).1;
            let replicas = m.regions[region_id].replica_node_ids;
            &&& !replicas.contains(leader) ==> reply == Reply::Refused(
                "cannot set leader "@ + decimal(leader as nat) + " for region "@ + decimal(
                    region_id as nat,
                ) + ": node is not in replica set "@ + id_list(replicas),
            )
            &&& replicas.contains(leader) && !m.nodes.contains_key(leader) ==> reply
                == Reply::Refused(
                "cannot set unregistered node "@ + decimal(leader as nat) + " as leader for region "@
                    + decimal(region_id as nat) + ""@,
            )
            &&& replicas.contains(leader) && m.nodes.contains_key(leader)
                && m.nodes[leader].state is Dead ==> reply == Reply::Refused(
                "cannot set dead node "@ + decimal(leader as nat) + " as leader for region "@
                    + decimal(region_id as nat) + ""@,
            )
        }),
{
}

/// A replica is not added on a node that is not registered, and the last one is
/// not removed: the refusal names the node and the region.
pub proof fn an_unfit_replica_is_named(m: MetaModel, region_id: RegionId, node_id: NodeId)
    requires
        m.regions.contains_key(region_id),
    ensures
        !m.nodes.contains_key(node_id) ==> step(
            m,
            CommandModel::AddRegionReplica(region_id, node_id),
        ).1 == Reply::Refused(
            "cannot add unregistered node "@ + decimal(node_id as nat) + " as replica for region "@
                + decimal(region_id as nat) + ""@,
        ),
        m.regions[region_id].replica_node_ids == seq![node_id] ==> step(
            m,
            CommandModel::RemoveRegionReplica(region_id, node_id),
        ).1 == Reply::Refused(
            "cannot remove last replica "@ + decimal(node_id as nat) + " from region "@ + decimal(
                region_id as nat,
            ) + ""@,
        ),
{
    assert(seq![node_id][0] == node_id);
}

/// A migration does not begin where the region is not active, then where the
/// source does not lead it, then where the destination cannot take it, then where
/// both are the same node: the refusal names what comes first.
pub proof fn an_unfit_beginning_is_named(
    m: MetaModel,
    region_id: RegionId,
    source: NodeId,
    dest: NodeId,
)
    requires
        m.regions.contains_key(region_id),
    ensures
        ({
            let reply = step(m, CommandModel::BeginMigration { region_id, source, dest }).1;
            let r = m.regions[region_id];
            let led = r.state is Active && r.leader_node_id == source;
            &&& !(r.state is Active) ==> reply == Reply::Refused(
                "region "@ + decimal(region_id as nat) + " is in state "@ + r.state.variant_name()
                    + ", only Active regions can be migrated"@,
            )
            &&& r.state is Active && r.leader_node_id != source ==> reply == Reply::Refused(
                "source node "@ + decimal(source as nat) + " is not the leader of region "@
                    + decimal(region_id as nat) + " (leader is "@ + decimal(
                    r.leader_node_id as nat,
                ) + ")"@,
            )
            &&& led && !m.nodes.contains_key(dest) ==> reply == Reply::Refused(
                "cannot migrate region "@ + decimal(region_id as nat) + " to unregistered node "@
                    + decimal(dest as nat) + ""@,
            )
            &&& led && m.nodes.contains_key(dest) && m.nodes[dest].state is Dead ==> reply
                == Reply::Refused(
                "cannot migrate region "@ + decimal(region_id as nat) + " to dead node "@ + decimal(
                    dest as nat,
                ) + ""@,
            )
            &&& led && m.nodes.contains_key(dest) && !(m.nodes[dest].state is Dead) && source
                == dest ==> reply == Reply::Refused(
                "source and destination are the same node "@ + decimal(source as nat)
                    + " — nothing to migrate"@,
            )
        }),
{
}

/// A migration does not complete where the region is not migrating, then where
/// the destination is no replica, then where it cannot take the region, then
/// where the source is no replica, then where both are the same node: the refusal
/// names what comes first.
pub proof fn an_unfit_completion_is_named(
    m: MetaModel,
    region_id: RegionId,
    source: NodeId,
    dest: NodeId,
)
    requires
        m.regions.contains_key(region_id),
    ensures
        ({
            let reply = step(m, CommandModel::MigrateRegion { region_id, source, dest }).1;
            let r = m.regions[region_id];
            let prepared = r.state is Migrating && r.replica_node_ids.contains(dest);
            let taken = prepared && m.nodes.contains_key(dest) && !(m.nodes[dest].state is Dead);
            &&& !(r.state is Migrating) ==> reply == Reply::Refused(
                "region "@ + decimal(region_id as nat) + " is in state "@ + r.state.variant_name()
                    + ", expected Migrating (call BeginMigration first)"@,
            )
            &&& r.state is Migrating && !r.replica_node_ids.contains(dest) ==> reply
                == Reply::Refused(
                "destination node "@ + decimal(dest as nat) + " is not a replica of region "@
                    + decimal(region_id as nat) + " (call BeginMigration first)"@,
            )
            &&& prepared && !m.nodes.contains_key(dest) ==> reply == Reply::Refused(
                "cannot migrate region "@ + decimal(region_id as nat) + " to unregistered node "@
                    + decimal(dest as nat) + ""@,
            )
            &&& prepared && m.nodes.contains_key(dest) && m.nodes[dest].state is Dead ==> reply
                == Reply::Refused(
                "cannot migrate region "@ + decimal(region_id as nat) + " to dead node "@ + decimal(
                    dest as nat,
                ) + ""@,
            )
            &&& taken && !r.replica_node_ids.contains(source) ==> reply == Reply::Refused(
                "source node "@ + decimal(source as nat) + " is not a replica of region "@
                    + decimal(region_id as nat) + ""@,
            )
            &&& taken && source == dest ==> reply == Reply::Refused(
                "source and destination are the same node "@ + decimal(source as nat)
                    + " — nothing to migrate"@,
            )
        }),
{
}

/// A migration is not cancelled where the region is not migrating, then where the
/// destination leads it already: the refusal names what comes first.
pub proof fn an_unfit_cancellation_is_named(m: MetaModel, region_id: RegionId, dest: NodeId)
    requires
        m.regions.contains_key(region_id),
    ensures
        ({
            let reply = step(m, CommandModel::CancelMigration { region_id, dest }).1;
            let r = m.regions[region_id];
            &&& !(r.state is Migrating) ==> reply == Reply::Refused(
                "region "@ + decimal(region_id as nat) + " is in state "@ + r.state.variant_name()
                    + ", only Migrating regions can be cancelled"@,
            )
            &&& r.state is Migrating && r.leader_node_id == dest ==> reply == Reply::Refused(
                "destination node "@ + decimal(dest as nat) + " is the leader of region "@
                    + decimal(region_id as nat) + ", its migration cannot be cancelled"@,
            )
        }),
{
}

/// An error that is shown says of what kind it is and then what it is about, or
/// names the leader where there is one.
pub proof fn errors_say_of_what_kind_they_are(e: MetaError)
    ensures
        e matches MetaError::Raft(s) ==> e.message() == "raft error: "@ + s@ + ""@,
        e matches MetaError::Serialization(s) ==> e.message() == "serialization error: "@ + s@
            + ""@,
        e matches MetaError::NotFound(s) ==> e.message() == "not found: "@ + s@ + ""@,
        e matches MetaError::AlreadyExists(s) ==> e.message() == "already exists: "@ + s@ + ""@,
        e matches MetaError::InvalidConfig(s) ==> e.message() == "invalid config: "@ + s@ + ""@,
        e matches MetaError::Internal(s) ==> e.message() == "internal error: "@ + s@ + ""@,
        e matches MetaError::NotLeader { leader_id: Some(id) } ==> e.message()
            == "not leader: leader is node Some("@ + decimal(id as nat) + ")"@,
        e matches MetaError::NotLeader { leader_id: None } ==> e.message()
            == "not leader: leader is node None"@,
{
}

/// States that are shown have names of their own, as error messages spell them.
pub proof fn region_states_have_their_own_names(a: RegionState, b: RegionState)
    ensures
        a.variant_name() == b.variant_name() ==> a == b,
        a.name() == b.name() ==> a == b,
{
    reveal_strlit("Active");
    reveal_strlit("Migrating");
    reveal_strlit("ReadOnly");
    reveal_strlit("Replicating");
    reveal_strlit("Splitting");
    reveal_strlit("active");
    reveal_strlit("migrating");
    reveal_strlit("read-only");
    reveal_strlit("replicating");
    reveal_strlit("splitting");
    if a.variant_name() == b.variant_name() {
        assert(a.variant_name().len() == b.variant_name().len());
        assert(a.variant_name()[0] == b.variant_name()[0]);
    }
    if a.name() == b.name() {
        assert(a.name().len() == b.name().len());
        assert(a.name()[0] == b.name()[0]);
    }
}

} // verus!
