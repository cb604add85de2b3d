//! The checksum that guards the routing-relevant part of a snapshot.
//!
//! Regions and nodes are laid out as rows of plain values, the rows are
//! encoded with `postcard`, and the encoding is hashed with FNV-1a.
use vstd::prelude::*;

use crate::duplicate::Duplicate;
use crate::hash::fnv_hash;
#[allow(unused_imports)]
use crate::hash::fnv1a;
use crate::meta::types::{
    DataNodeInfo, KeyRange, NodeId, NodeMode, NodeState, RegionId, RegionInfo, RegionState,
};
#[allow(unused_imports)]
use crate::meta::types::{NodeModel, RegionModel};
#[allow(unused_imports)]
use crate::meta::model::in_id_order;
#[allow(unused_imports)]
use crate::sorted_map::enumeration;
use crate::sorted_map::SortedMap;

verus! {

/// A region as a row: its id twice, measurement, leader, replicas, state,
/// replication factor and key range.
pub type RegionRow = (u64, (u64, String, u64, Vec<u64>, u32, u32, Option<(u64, u64)>));

/// A node as a row: its id twice, address, mode and state; its capacity; its
/// heartbeat, regions and labels.
pub type NodeRow = (
    u64,
    ((u64, String, u32, u32), (u64, u64, u32), (u64, u64, Vec<u64>, Vec<(String, String)>)),
);

/// The model of a [`RegionRow`].
pub type RegionRowModel = (u64, (u64, Seq<char>, u64, Seq<u64>, u32, u32, Option<(u64, u64)>));

/// The model of a [`NodeRow`].
pub type NodeRowModel = (
    u64,
    (
        (u64, Seq<char>, u32, u32),
        (u64, u64, u32),
        (u64, u64, Seq<u64>, Seq<(Seq<char>, Seq<char>)>),
    ),
);

/// The number of a region state, in declaration order.
pub open spec fn region_state_number(state: RegionState) -> u32 {
    match state {
        RegionState::Active => 0,
        RegionState::Migrating => 1,
        RegionState::ReadOnly => 2,
        RegionState::Replicating => 3,
        RegionState::Splitting => 4,
    }
}

/// The number of a node state, in declaration order.
pub open spec fn node_state_number(state: NodeState) -> u32 {
    match state {
        NodeState::Active => 0,
        NodeState::Suspect => 1,
        NodeState::Dead => 2,
        NodeState::Decommissioning => 3,
    }
}

/// The number of a node mode, in declaration order.
pub open spec fn node_mode_number(mode: NodeMode) -> u32 {
    match mode {
        NodeMode::Meta => 0,
        NodeMode::Data => 1,
        NodeMode::Query => 2,
    }
}

/// The bounds of a key range.
pub open spec fn range_bounds(range: Option<KeyRange>) -> Option<(u64, u64)> {
    match range {
        None => None,
        Some(r) => Some((r.start, r.end)),
    }
}

/// The row of a region.
pub open spec fn region_row(entry: (RegionId, RegionModel)) -> RegionRowModel {
    let r = entry.1;
    (
        entry.0,
        (
            r.region_id,
            r.measurement,
            r.leader_node_id,
            r.replica_node_ids,
            region_state_number(r.state),
            r.replication_factor,
            range_bounds(r.key_range),
        ),
    )
}

/// The row of a node. The labels stand in the order of their names.
pub open spec fn node_row(entry: (NodeId, NodeModel)) -> NodeRowModel {
    let n = entry.1;
    (
        entry.0,
        (
            (n.node_id, n.grpc_addr, node_mode_number(n.mode), node_state_number(n.state)),
            (n.disk_bytes, n.memory_bytes, n.cpu_cores),
            (
                n.heartbeat_generation,
                n.last_heartbeat_secs,
                n.region_ids,
                enumeration::<String, Seq<char>>(n.labels),
            ),
        ),
    )
}

/// The `postcard` encoding of the rows.
pub uninterp spec fn postcard_encoding(
    regions: Seq<(u64, (u64, Seq<char>, u64, Seq<u64>, u32, u32, Option<(u64, u64)>))>,
    nodes: Seq<
        (
            u64,
            (
                (u64, Seq<char>, u32, u32),
                (u64, u64, u32),
                (u64, u64, Seq<u64>, Seq<(Seq<char>, Seq<char>)>),
            ),
        ),
    >,
) -> Seq<u8>;

/// Encode the rows with `postcard::to_stdvec`; nothing where it reports an
/// error. The contract names the result, which depends on the rows alone.
#[verifier::external_body]
fn encode_rows(regions: &Vec<RegionRow>, nodes: &Vec<NodeRow>) -> (r: Vec<u8>)
    ensures
        r@ == postcard_encoding(regions.deep_view(), nodes.deep_view()),
{
    postcard::to_stdvec(&(regions, nodes)).unwrap_or_default()
}

/// The checksum of a cluster's regions and nodes.
pub open spec fn routing_checksum(
    regions: Map<RegionId, RegionModel>,
    nodes: Map<NodeId, NodeModel>,
) -> u64 {
    fnv1a(
        postcard_encoding(
            in_id_order(regions).map_values(|e: (RegionId, RegionModel)| region_row(e)),
            in_id_order(nodes).map_values(|e: (NodeId, NodeModel)| node_row(e)),
        ),
    )
}

fn region_state_code(state: RegionState) -> (r: u32)
    ensures
        r == region_state_number(state),
{
    match state {
        RegionState::Active => 0,
        RegionState::Migrating => 1,
        RegionState::ReadOnly => 2,
        RegionState::Replicating => 3,
        RegionState::Splitting => 4,
    }
}

fn node_state_code(state: NodeState) -> (r: u32)
    ensures
        r == node_state_number(state),
{
    match state {
        NodeState::Active => 0,
        NodeState::Suspect => 1,
        NodeState::Dead => 2,
        NodeState::Decommissioning => 3,
    }
}

fn node_mode_code(mode: NodeMode) -> (r: u32)
    ensures
        r == node_mode_number(mode),
{
    match mode {
        NodeMode::Meta => 0,
        NodeMode::Data => 1,
        NodeMode::Query => 2,
    }
}

/// Lay out the regions as rows.
fn region_rows(regions: &SortedMap<RegionId, RegionInfo>) -> (r: Vec<RegionRow>)
    ensures
        r.deep_view() == in_id_order(regions@).map_values(
            |e: (RegionId, RegionModel)| region_row(e),
        ),
{
    let count: usize = regions.len();
    let mut rows: Vec<RegionRow> = Vec::new();
    let mut i: usize = 0;
    while i < count
        invariant
            i <= count,
            count == regions.pairs().len(),
            rows.len() == i,
            forall|j: int|
                0 <= j < i ==> (#[trigger] rows@[j]).deep_view() == region_row(regions.pairs()[j]),
        decreases count - i,
    {
        let region = regions.value_at(i);
        let key_range: Option<(u64, u64)> = match region.key_range {
            None => None,
            Some(range) => Some((range.start, range.end)),
        };
        let replicas: Vec<u64> = region.replica_node_ids.duplicate();
        proof {
            assert(replicas.deep_view() =~= region.replica_node_ids@) by {
                assert(region.replica_node_ids.deep_view() =~= region.replica_node_ids@);
            }
        }
        let row: RegionRow = (
            *regions.key_at(i),
            (
                region.region_id,
                region.measurement.clone(),
                region.leader_node_id,
                replicas,
                region_state_code(region.state),
                region.replication_factor,
                key_range,
            ),
        );
        assert(row.deep_view() == region_row(regions.pairs()[i as int]));
        rows.push(row);
        i = i + 1;
    }
    assert(rows.deep_view() =~= in_id_order(regions@).map_values(
        |e: (RegionId, RegionModel)| region_row(e),
    ));
    rows
}

/// Lay out the labels as pairs, in the order of their names.
fn label_pairs(labels: &SortedMap<String, String>) -> (r: Vec<(String, String)>)
    ensures
        r.deep_view() == enumeration::<String, Seq<char>>(labels@),
{
    let count: usize = labels.len();
    let mut rows: Vec<(String, String)> = Vec::new();
    let mut i: usize = 0;
    while i < count
        invariant
            i <= count,
            count == labels.pairs().len(),
            rows.len() == i,
            forall|j: int| 0 <= j < i ==> (#[trigger] rows@[j]).deep_view() == labels.pairs()[j],
        decreases count - i,
    {
        rows.push((labels.key_at(i).clone(), labels.value_at(i).clone()));
        i = i + 1;
    }
    assert(rows.deep_view() =~= labels.pairs());
    rows
}

/// Lay out the nodes as rows.
fn node_rows(nodes: &SortedMap<NodeId, DataNodeInfo>) -> (r: Vec<NodeRow>)
    ensures
        r.deep_view() == in_id_order(nodes@).map_values(|e: (NodeId, NodeModel)| node_row(e)),
{
    let count: usize = nodes.len();
    let mut rows: Vec<NodeRow> = Vec::new();
    let mut i: usize = 0;
    while i < count
        invariant
            i <= count,
            count == nodes.pairs().len(),
            rows.len() == i,
            forall|j: int|
                0 <= j < i ==> (#[trigger] rows@[j]).deep_view() == node_row(nodes.pairs()[j]),
        decreases count - i,
    {
        let node = nodes.value_at(i);
        let region_ids: Vec<u64> = node.region_ids.duplicate();
        proof {
            assert(region_ids.deep_view() =~= node.region_ids@) by {
                assert(node.region_ids.deep_view() =~= node.region_ids@);
            }
        }
        let row: NodeRow = (
            *nodes.key_at(i),
            (
                (
                    node.node_id,
                    node.grpc_addr.clone(),
                    node_mode_code(node.mode),
                    node_state_code(node.state),
                ),
                (node.disk_bytes, node.memory_bytes, node.cpu_cores),
                (
                    node.heartbeat_generation,
                    node.last_heartbeat_secs,
                    region_ids,
                    label_pairs(&node.labels),
                ),
            ),
        );
        assert(row.deep_view() == node_row(nodes.pairs()[i as int]));
        rows.push(row);
        i = i + 1;
    }
    assert(rows.deep_view() =~= in_id_order(nodes@).map_values(
        |e: (NodeId, NodeModel)| node_row(e),
    ));
    rows
}

/// Compute the checksum of a cluster's regions and nodes.
pub fn compute_routing_checksum(
    regions: &SortedMap<RegionId, RegionInfo>,
    nodes: &SortedMap<NodeId, DataNodeInfo>,
) -> (r: u64)
    ensures
        r == routing_checksum(regions@, nodes@),
{
    let region_list = region_rows(regions);
    let node_list = node_rows(nodes);
    let bytes = encode_rows(&region_list, &node_list);
    checksum_of_bytes(bytes.as_slice())
}

/// The checksum of encoded rows.
pub fn checksum_of_bytes(bytes: &[u8]) -> (r: u64)
    ensures
        r == fnv1a(bytes@),
{
    fnv_hash(bytes)
}

} // verus!
