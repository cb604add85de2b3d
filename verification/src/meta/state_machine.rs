//! Raft-replicated metadata state machine.
//!
//! Applies [`MetaCommand`]s deterministically so all Raft replicas converge to
//! the same cluster state.
use vstd::prelude::*;
use vstd::string::*;

use crate::duplicate::Duplicate;
use crate::meta::checksum::compute_routing_checksum;
#[allow(unused_imports)]
use crate::meta::checksum::routing_checksum;
use crate::clock::unix_seconds;
use crate::meta::clock::{monotonic_now, HeartbeatInstant};
use crate::meta::error::MetaError;
#[allow(unused_imports)]
use crate::meta::model::{
    empty_cluster, in_id_order, including, is_region_of, lookup, outside, region_ids_of,
    region_not_found, region_without_node, selected, tracked_on, unfit_destination, untracked_on,
    without, MetaModel,
};
#[allow(unused_imports)]
use crate::meta::model;
use crate::meta::routing::RoutingTable;
#[allow(unused_imports)]
use crate::meta::routing::{routes_depend_on_addresses, table_of, RouteModel};
#[allow(unused_imports)]
use crate::meta::types::{CommandModel, NodeModel, RegionModel, Reply};
use crate::meta::types::{
    ClusterConfig, DataNodeInfo, MeasurementSchema, MetaCommand, MetaResponse, NodeId, NodeState,
    RegionId, RegionInfo, RegionState,
};
use crate::sorted_map::SortedMap;
#[allow(unused_imports)]
use crate::sorted_map::{lemma_map_of_ascending, lemma_map_of_step, lemma_map_of_values, map_of};
use crate::text::{joined_text, numbered_text, numbered_twice_text, push_decimal, push_id_list};

verus! {

broadcast use vstd::string::group_string_axioms;

// ---------------------------------------------------------------------------
// Lists of ids
// ---------------------------------------------------------------------------

/// Whether `ids` holds `id`.
fn holds_id(ids: &Vec<u64>, id: u64) -> (r: bool)
    ensures
        r == ids@.contains(id),
{
    let mut i: usize = 0;
    while i < ids.len()
        invariant
            i <= ids.len(),
            forall|j: int| 0 <= j < i ==> ids@[j] != id,
        decreases ids.len() - i,
    {
        if ids[i] == id {
            assert(ids@[i as int] == id);
            return true;
        }
        i = i + 1;
    }
    false
}

/// `ids` without `id`.
fn ids_without(ids: &Vec<u64>, id: u64) -> (r: Vec<u64>)
    ensures
        r@ == without(ids@, id),
{
    let mut out: Vec<u64> = Vec::new();
    let mut i: usize = 0;
    while i < ids.len()
        invariant
            i <= ids.len(),
            out@ == without(ids@.take(i as int), id),
        decreases ids.len() - i,
    {
        assert(ids@.take(i + 1).drop_last() =~= ids@.take(i as int));
        if ids[i] != id {
            out.push(ids[i]);
        }
        i = i + 1;
    }
    assert(ids@.take(ids@.len() as int) =~= ids@);
    out
}

/// `ids` without those that occur in `gone`.
fn ids_outside(ids: &Vec<u64>, gone: &Vec<u64>) -> (r: Vec<u64>)
    ensures
        r@ == outside(ids@, gone@.to_set()),
{
    let mut out: Vec<u64> = Vec::new();
    let mut i: usize = 0;
    while i < ids.len()
        invariant
            i <= ids.len(),
            out@ == outside(ids@.take(i as int), gone@.to_set()),
        decreases ids.len() - i,
    {
        assert(ids@.take(i + 1).drop_last() =~= ids@.take(i as int));
        assert(gone@.to_set().contains(ids@[i as int]) == gone@.contains(ids@[i as int]));
        if !holds_id(gone, ids[i]) {
            out.push(ids[i]);
        }
        i = i + 1;
    }
    assert(ids@.take(ids@.len() as int) =~= ids@);
    out
}

/// Put `id` at the end of `ids`, unless it is there already.
fn include_id(ids: &mut Vec<u64>, id: u64)
    ensures
        final(ids)@ == including(old(ids)@, id),
{
    if !holds_id(ids, id) {
        ids.push(id);
    }
}

// ---------------------------------------------------------------------------
// The replicated state
// ---------------------------------------------------------------------------

/// The replicated part of the state machine.
#[derive(Debug)]
pub struct MetaState {
    schemas: SortedMap<String, MeasurementSchema>,
    nodes: SortedMap<NodeId, DataNodeInfo>,
    regions: SortedMap<RegionId, RegionInfo>,
    cluster_config: ClusterConfig,
    models: SortedMap<String, Vec<u8>>,
    next_region_id: u64,
}

impl View for MetaState {
    type V = MetaModel;

    closed spec fn view(&self) -> MetaModel {
        MetaModel {
            schemas: self.schemas@,
            nodes: self.nodes@,
            regions: self.regions@,
            cluster_config: self.cluster_config.deep_view(),
            models: self.models@,
            next_region_id: self.next_region_id,
        }
    }
}

impl Default for MetaState {
    fn default() -> (r: Self)
        ensures
            r@ == empty_cluster(),
    {
        MetaState {
            schemas: SortedMap::new(),
            nodes: SortedMap::new(),
            regions: SortedMap::new(),
            cluster_config: ClusterConfig::default(),
            models: SortedMap::new(),
            next_region_id: 1,
        }
    }
}

impl MetaState {
    /// Track a region on a node, where the node exists.
    fn track(&mut self, node_id: NodeId, region_id: RegionId)
        ensures
            final(self)@ == (MetaModel {
                nodes: tracked_on(old(self)@.nodes, node_id, region_id),
                ..old(self)@
            }),
    {
        if let Some(mut node) = self.nodes.remove(&node_id) {
            include_id(&mut node.region_ids, region_id);
            self.nodes.insert(node_id, node);
            assert(self.nodes@ =~= tracked_on(old(self)@.nodes, node_id, region_id));
        } else {
            assert(self.nodes@ =~= old(self)@.nodes);
        }
    }

    /// Stop tracking a region on a node.
    fn untrack(&mut self, node_id: NodeId, region_id: RegionId)
        ensures
            final(self)@ == (MetaModel {
                nodes: untracked_on(old(self)@.nodes, node_id, region_id),
                ..old(self)@
            }),
    {
        if let Some(mut node) = self.nodes.remove(&node_id) {
            node.region_ids = ids_without(&node.region_ids, region_id);
            self.nodes.insert(node_id, node);
            assert(self.nodes@ =~= untracked_on(old(self)@.nodes, node_id, region_id));
        } else {
            assert(self.nodes@ =~= old(self)@.nodes);
        }
    }

    /// Why a node cannot take a region, if it cannot.
    fn destination_refusal(&self, region_id: RegionId, dest: NodeId) -> (r: Option<MetaResponse>)
        ensures
            (match r {
                Some(reply) => Some(reply@),
                None => None::<Reply>,
            }) == unfit_destination(self@.nodes, region_id, dest),
    {
        match self.nodes.get(&dest) {
            None => Some(
                MetaResponse::Error {
                    message: numbered_twice_text(
                        "cannot migrate region ",
                        region_id,
                        " to unregistered node ",
                        dest,
                        "",
                    ),
                },
            ),
            Some(node) => if node.state == NodeState::Dead {
                Some(
                    MetaResponse::Error {
                        message: numbered_twice_text(
                            "cannot migrate region ",
                            region_id,
                            " to dead node ",
                            dest,
                            "",
                        ),
                    },
                )
            } else {
                None
            },
        }
    }
}

/// The reply to a command on a region that does not exist.
fn no_such_region(region_id: RegionId) -> (r: MetaResponse)
    ensures
        r@ == region_not_found(region_id),
{
    MetaResponse::Error { message: numbered_text("region ", region_id, " not found") }
}

/// The ids of a measurement's regions.
fn region_ids_for(regions: &SortedMap<RegionId, RegionInfo>, name: &str) -> (r: Vec<RegionId>)
    ensures
        r@.to_set() == region_ids_of(regions@, name@),
{
    let count: usize = regions.len();
    let mut ids: Vec<RegionId> = Vec::new();
    let mut i: usize = 0;
    while i < count
        invariant
            i <= count,
            count == regions.pairs().len(),
            forall|id: RegionId| #[trigger]
                ids@.contains(id) <==> exists|j: int|
                    0 <= j < i && (#[trigger] regions.pairs()[j]).1.measurement == name@
                        && regions.pairs()[j].1.region_id == id,
        decreases count - i,
    {
        let region = regions.value_at(i);
        let ghost before = ids@;
        let wanted: bool = crate::text::same_text(region.measurement.as_str(), name);
        if wanted {
            ids.push(region.region_id);
        }
        proof {
            assert forall|id: RegionId| #[trigger] ids@.contains(id) <==> exists|j: int|
                0 <= j < i + 1 && (#[trigger] regions.pairs()[j]).1.measurement == name@
                    && regions.pairs()[j].1.region_id == id by {
                if ids@.contains(id) {
                    let k = choose|k: int| 0 <= k < ids@.len() && ids@[k] == id;
                    if k < before.len() {
                        assert(before[k] == id);
                        assert(before.contains(id));
                        let j = choose|j: int|
                            0 <= j < i && (#[trigger] regions.pairs()[j]).1.measurement == name@
                                && regions.pairs()[j].1.region_id == id;
                        assert(regions.pairs()[j].1.region_id == id);
                    } else {
                        assert(regions.pairs()[i as int].1.region_id == id);
                    }
                }
                if exists|j: int|
                    0 <= j < i + 1 && (#[trigger] regions.pairs()[j]).1.measurement == name@
                        && regions.pairs()[j].1.region_id == id {
                    let j = choose|j: int|
                        0 <= j < i + 1 && (#[trigger] regions.pairs()[j]).1.measurement == name@
                            && regions.pairs()[j].1.region_id == id;
                    if j < i {
                        assert(before.contains(id));
                        let k = choose|k: int| 0 <= k < before.len() && before[k] == id;
                        assert(ids@[k] == id);
                    } else {
                        assert(wanted);
                        assert(ids@[ids@.len() - 1] == id);
                    }
                }
            }
        }
        i = i + 1;
    }
    proof {
        lemma_map_of_ascending::<u64, RegionModel>(regions.pairs());
        assert forall|id: RegionId| ids@.to_set().contains(id) <==> region_ids_of(
            regions@,
            name@,
        ).contains(id) by {
            assert(ids@.to_set().contains(id) == ids@.contains(id));
            if ids@.contains(id) {
                let j = choose|j: int|
                    0 <= j < count && (#[trigger] regions.pairs()[j]).1.measurement == name@
                        && regions.pairs()[j].1.region_id == id;
                let k = regions.pairs()[j].0;
                assert(regions@.contains_key(k));
                assert(is_region_of(regions@, name@, id));
            }
            if is_region_of(regions@, name@, id) {
                let k = choose|k: RegionId| #[trigger]
                    regions@.contains_key(k) && regions@[k].measurement == name@
                        && regions@[k].region_id == id;
                let j = choose|j: int|
                    0 <= j < regions.pairs().len() && (#[trigger] regions.pairs()[j]).0 == k;
                assert(regions.pairs()[j].1.region_id == id);
            }
        }
        assert(ids@.to_set() =~= region_ids_of(regions@, name@));
    }
    ids
}

/// Take the given regions out of the map.
fn remove_regions(regions: &mut SortedMap<RegionId, RegionInfo>, gone: &Vec<RegionId>)
    ensures
        final(regions)@ == old(regions)@.remove_keys(gone@.to_set()),
{
    let ghost start = regions@;
    let mut i: usize = 0;
    assert(gone@.take(0).to_set() =~= Set::<RegionId>::empty());
    assert(regions@ =~= start.remove_keys(gone@.take(0).to_set()));
    while i < gone.len()
        invariant
            i <= gone.len(),
            regions@ == start.remove_keys(gone@.take(i as int).to_set()),
        decreases gone.len() - i,
    {
        let id: RegionId = gone[i];
        let ghost before = gone@.take(i as int);
        let ghost after = gone@.take(i + 1);
        let _ = regions.remove(&id);
        proof {
            assert(after =~= before.push(id));
            assert forall|k: RegionId| after.to_set().contains(k) <==> (before.to_set().contains(k)
                || k == id) by {
                assert(after.to_set().contains(k) == after.contains(k));
                assert(before.to_set().contains(k) == before.contains(k));
                if before.contains(k) {
                    let j = choose|j: int| 0 <= j < before.len() && before[j] == k;
                    assert(after[j] == k);
                }
                if after.contains(k) && k != id {
                    let j = choose|j: int| 0 <= j < after.len() && after[j] == k;
                    assert(before[j] == k);
                }
                assert(after[i as int] == id);
            }
            assert(regions@ =~= start.remove_keys(after.to_set()));
        }
        i = i + 1;
    }
    assert(gone@.take(gone@.len() as int) =~= gone@);
}

/// Make every node forget the given regions.
fn forget_regions(nodes: &mut SortedMap<NodeId, DataNodeInfo>, gone: &Vec<RegionId>)
    ensures
        final(nodes)@ == old(nodes)@.map_values(
            |n: NodeModel|
                NodeModel { region_ids: outside(n.region_ids, gone@.to_set()), ..n },
        ),
{
    let count: usize = nodes.len();
    let ghost start = nodes.pairs();
    let ghost f = |n: NodeModel|
        NodeModel { region_ids: outside(n.region_ids, gone@.to_set()), ..n };
    let mut i: usize = 0;
    while i < count
        invariant
            i <= count,
            count == start.len(),
            nodes.pairs().len() == count,
            f == (|n: NodeModel|
                NodeModel { region_ids: outside(n.region_ids, gone@.to_set()), ..n }),
            forall|j: int| 0 <= j < i ==> (#[trigger] nodes.pairs()[j]).0 == start[j].0
                && nodes.pairs()[j].1 == f(start[j].1),
            forall|j: int| i <= j < count ==> #[trigger] nodes.pairs()[j] == start[j],
        decreases count - i,
    {
        let mut node = nodes.value_at(i).duplicate();
        node.region_ids = ids_outside(&node.region_ids, gone);
        nodes.set_value_at(i, node);
        i = i + 1;
    }
    proof {
        lemma_map_of_values::<u64, NodeModel>(start, nodes.pairs(), f);
    }
}

/// Take a node out of every region.
fn remove_node_from_regions(regions: &mut SortedMap<RegionId, RegionInfo>, node_id: NodeId)
    ensures
        final(regions)@ == old(regions)@.map_values(
            |r: RegionModel| region_without_node(r, node_id),
        ),
{
    let count: usize = regions.len();
    let ghost start = regions.pairs();
    let ghost f = |r: RegionModel| region_without_node(r, node_id);
    let mut i: usize = 0;
    while i < count
        invariant
            i <= count,
            count == start.len(),
            regions.pairs().len() == count,
            f == (|r: RegionModel| region_without_node(r, node_id)),
            forall|j: int| 0 <= j < i ==> (#[trigger] regions.pairs()[j]).0 == start[j].0
                && regions.pairs()[j].1 == f(start[j].1),
            forall|j: int| i <= j < count ==> #[trigger] regions.pairs()[j] == start[j],
        decreases count - i,
    {
        let mut region = regions.value_at(i).duplicate();
        region.replica_node_ids = ids_without(&region.replica_node_ids, node_id);
        if region.leader_node_id == node_id {
            if region.replica_node_ids.len() > 0 {
                region.leader_node_id = region.replica_node_ids[0];
            } else {
                region.leader_node_id = 0;
                region.state = RegionState::ReadOnly;
            }
        }
        regions.set_value_at(i, region);
        i = i + 1;
    }
    proof {
        lemma_map_of_values::<u64, RegionModel>(start, regions.pairs(), f);
    }
}

// ---------------------------------------------------------------------------
// Snapshots
// ---------------------------------------------------------------------------

/// Snapshot of the full metadata state.
#[derive(Debug)]
pub struct MetaSnapshot {
    /// Last applied Raft log index.
    pub last_applied_log: u64,
    /// Measurement schemas.
    pub schemas: SortedMap<String, MeasurementSchema>,
    /// Registered data nodes.
    pub nodes: SortedMap<NodeId, DataNodeInfo>,
    /// Region assignments.
    pub regions: SortedMap<RegionId, RegionInfo>,
    /// Cluster configuration.
    pub cluster_config: ClusterConfig,
    /// Saved model metadata.
    pub models: SortedMap<String, Vec<u8>>,
    /// Next region ID to allocate.
    pub next_region_id: u64,
    /// Out-of-band heartbeats: `node_id -> (generation, timestamp_secs)`.
    pub heartbeat_store: SortedMap<NodeId, (u64, u64)>,
    /// FNV-1a checksum of regions and nodes; zero when there is none.
    pub routing_checksum: u64,
    /// When the snapshot was taken (Unix epoch seconds); zero when unknown.
    pub snapshot_timestamp_secs: u64,
}

impl MetaSnapshot {
    /// The metadata that the snapshot holds.
    pub open spec fn model(&self) -> MetaModel {
        MetaModel {
            schemas: self.schemas@,
            nodes: self.nodes@,
            regions: self.regions@,
            cluster_config: self.cluster_config.deep_view(),
            models: self.models@,
            next_region_id: self.next_region_id,
        }
    }

    /// The checksum, where there is one, is that of the regions and nodes.
    pub open spec fn intact(&self) -> bool {
        self.routing_checksum == 0 || self.routing_checksum == routing_checksum(
            self.regions@,
            self.nodes@,
        )
    }

    /// Whether the checksum, where there is one, is that of the regions and
    /// nodes.
    pub fn checksum_matches(&self) -> (r: bool)
        ensures
            r == self.intact(),
    {
        if self.routing_checksum == 0 {
            return true;
        }
        self.routing_checksum == compute_routing_checksum(&self.regions, &self.nodes)
    }
}

impl Default for MetaSnapshot {
    fn default() -> (r: Self)
        ensures
            r.last_applied_log == 0,
            r.model() == empty_cluster(),
            r.heartbeat_store@ == Map::<NodeId, (u64, u64)>::empty(),
            r.routing_checksum == 0,
            r.snapshot_timestamp_secs == 0,
    {
        MetaSnapshot {
            last_applied_log: 0,
            schemas: SortedMap::new(),
            nodes: SortedMap::new(),
            regions: SortedMap::new(),
            cluster_config: ClusterConfig::default(),
            models: SortedMap::new(),
            next_region_id: 1,
            heartbeat_store: SortedMap::new(),
            routing_checksum: 0,
            snapshot_timestamp_secs: 0,
        }
    }
}

impl Clone for MetaSnapshot {
    fn clone(&self) -> (r: Self)
        ensures
            r.last_applied_log == self.last_applied_log,
            r.model() == self.model(),
            r.heartbeat_store@ == self.heartbeat_store@,
            r.routing_checksum == self.routing_checksum,
            r.snapshot_timestamp_secs == self.snapshot_timestamp_secs,
    {
        MetaSnapshot {
            last_applied_log: self.last_applied_log,
            schemas: self.schemas.duplicate(),
            nodes: self.nodes.duplicate(),
            regions: self.regions.duplicate(),
            cluster_config: self.cluster_config.duplicate(),
            models: self.models.duplicate(),
            next_region_id: self.next_region_id,
            heartbeat_store: self.heartbeat_store.duplicate(),
            routing_checksum: self.routing_checksum,
            snapshot_timestamp_secs: self.snapshot_timestamp_secs,
        }
    }
}

/// The heartbeats of a snapshot that was taken at `taken_secs`, as they count
/// at `now_secs`: each time is moved back by what has passed since, but not
/// below zero. The generations stay.
pub open spec fn aged_heartbeats(
    store: Map<NodeId, (u64, u64)>,
    taken_secs: u64,
    now_secs: u64,
) -> Map<NodeId, (u64, u64)> {
    if taken_secs > 0 && now_secs > taken_secs {
        store.map_values(
            |entry: (u64, u64)| (entry.0, aged_seconds(entry.1, (now_secs - taken_secs) as u64)),
        )
    } else {
        store
    }
}

/// A time, moved back but not below zero.
pub open spec fn aged_seconds(seconds: u64, elapsed: u64) -> u64 {
    if seconds > elapsed {
        (seconds - elapsed) as u64
    } else {
        0
    }
}

/// Move every heartbeat's time back by `elapsed` seconds.
fn age_heartbeats(store: &mut SortedMap<NodeId, (u64, u64)>, elapsed: u64)
    ensures
        final(store)@ == old(store)@.map_values(
            |entry: (u64, u64)| (entry.0, aged_seconds(entry.1, elapsed)),
        ),
{
    let count: usize = store.len();
    let ghost start = store.pairs();
    let ghost f = |entry: (u64, u64)| (entry.0, aged_seconds(entry.1, elapsed));
    let mut i: usize = 0;
    while i < count
        invariant
            i <= count,
            count == start.len(),
            store.pairs().len() == count,
            f == (|entry: (u64, u64)| (entry.0, aged_seconds(entry.1, elapsed))),
            forall|j: int| 0 <= j < i ==> (#[trigger] store.pairs()[j]).0 == start[j].0
                && store.pairs()[j].1 == f(start[j].1),
            forall|j: int| i <= j < count ==> #[trigger] store.pairs()[j] == start[j],
        decreases count - i,
    {
        let entry = store.value_at(i);
        let generation: u64 = entry.0;
        let seconds: u64 = entry.1;
        store.set_value_at(i, (generation, seconds.saturating_sub(elapsed)));
        i = i + 1;
    }
    proof {
        lemma_map_of_values::<u64, (u64, u64)>(start, store.pairs(), f);
    }
}


// ---------------------------------------------------------------------------
// The state machine
// ---------------------------------------------------------------------------

/// The metadata state machine.
#[derive(Debug)]
pub struct MetaStateMachine {
    /// Last applied Raft log index.
    last_applied: u64,
    /// Replicated state.
    state: MetaState,
    /// Routing table derived from regions and nodes.
    routing_table: RoutingTable,
    /// Out-of-band heartbeats: `node_id -> (generation, timestamp_secs)`.
    heartbeat_store: SortedMap<NodeId, (u64, u64)>,
    /// Monotonic arrival times of out-of-band heartbeats.
    heartbeat_instants: SortedMap<NodeId, HeartbeatInstant>,
}

impl View for MetaStateMachine {
    type V = MetaModel;

    closed spec fn view(&self) -> MetaModel {
        self.state@
    }
}

impl MetaStateMachine {
    /// The index of the last applied log entry.
    pub closed spec fn applied(&self) -> u64 {
        self.last_applied
    }

    /// The out-of-band heartbeats.
    pub closed spec fn heartbeats(&self) -> Map<NodeId, (u64, u64)> {
        self.heartbeat_store@
    }

    /// The monotonic arrival times of the heartbeats.
    pub closed spec fn instants(&self) -> Map<NodeId, HeartbeatInstant> {
        self.heartbeat_instants@
    }

    /// The derived routes.
    pub closed spec fn routes(&self) -> RoutingTable {
        self.routing_table
    }

    /// The routes are those of the regions and nodes.
    pub open spec fn routes_are_current(&self) -> bool {
        self.routes()@ == table_of(in_id_order(self@.regions), self@.nodes)
    }

    /// Create an empty state machine.
    pub fn new() -> (r: Self)
        ensures
            r@ == empty_cluster(),
            r.applied() == 0,
            r.heartbeats() == Map::<NodeId, (u64, u64)>::empty(),
            r.instants() == Map::<NodeId, HeartbeatInstant>::empty(),
            r.routes().version_number() == 0,
            r.routes_are_current(),
    {
        let r = MetaStateMachine {
            last_applied: 0,
            state: MetaState::default(),
            routing_table: RoutingTable::new(),
            heartbeat_store: SortedMap::new(),
            heartbeat_instants: SortedMap::new(),
        };
        let count: usize = r.state.regions.len();
        proof {
            if count > 0 {
                lemma_map_of_ascending::<u64, RegionModel>(r.state.regions.pairs());
                assert(r@.regions.contains_key(r.state.regions.pairs()[0].0));
            }
            assert(table_of(in_id_order(r@.regions), r@.nodes) =~= Map::<
                Seq<char>,
                Seq<RouteModel>,
            >::empty());
        }
        r
    }

    /// Apply a committed command at the given log index.
    ///
    /// An entry that was applied already is skipped: it changes nothing and
    /// is answered as done.
    pub fn apply(&mut self, log_index: u64, cmd: &MetaCommand) -> (r: MetaResponse)
        ensures
            log_index <= old(self).applied() ==> {
                &&& r@ == Reply::Done
                &&& *final(self) == *old(self)
            },
            log_index > old(self).applied() ==> {
                &&& (final(self)@, r@) == model::step(old(self)@, cmd@)
                &&& final(self).applied() == log_index
                &&& final(self).heartbeats() == model::heartbeats_after(
                    old(self).heartbeats(),
                    cmd@,
                )
                &&& final(self).instants() == old(self).instants()
                &&& model::affects_routing(cmd@) ==> final(self).routes_are_current()
                    && final(self).routes().version_number() == next_version(
                    old(self).routes().version_number(),
                )
                &&& !model::affects_routing(cmd@) ==> final(self).routes() == old(self).routes()
            },
            old(self).routes_are_current() ==> final(self).routes_are_current(),
    {
        if log_index <= self.last_applied {
            return MetaResponse::Done;
        }
        self.last_applied = log_index;
        let resp = match cmd {
            MetaCommand::CreateMeasurement(schema) => {
                Self::apply_create_measurement(&mut self.state, schema)
            },
            MetaCommand::DropMeasurement { name } => {
                Self::apply_drop_measurement(&mut self.state, name.as_str())
            },
            MetaCommand::RegisterNode(info) => Self::apply_register_node(&mut self.state, info),
            MetaCommand::DeregisterNode { node_id } => {
                Self::apply_deregister_node(&mut self.state, *node_id)
            },
            MetaCommand::Heartbeat { node_id, generation, timestamp_secs } => {
                self.heartbeat_store.insert(*node_id, (*generation, *timestamp_secs));
                Self::apply_heartbeat(&mut self.state, *node_id, *generation, *timestamp_secs)
            },
            MetaCommand::UpdateNodeState { node_id, state } => {
                Self::apply_update_node_state(&mut self.state, *node_id, *state)
            },
            MetaCommand::CreateRegion(info) => Self::apply_create_region(&mut self.state, info),
            MetaCommand::UpdateRegionState { region_id, state } => {
                Self::apply_update_region_state(&mut self.state, *region_id, *state)
            },
            MetaCommand::UpdateRegionLeader { region_id, leader_node_id } => {
                Self::apply_update_region_leader(&mut self.state, *region_id, *leader_node_id)
            },
            MetaCommand::AddRegionReplica { region_id, node_id } => {
                Self::apply_add_region_replica(&mut self.state, *region_id, *node_id)
            },
            MetaCommand::RemoveRegionReplica { region_id, node_id } => {
                Self::apply_remove_region_replica(&mut self.state, *region_id, *node_id)
            },
            MetaCommand::MigrateRegion { region_id, source_node_id, dest_node_id } => {
                Self::apply_migrate_region(
                    &mut self.state,
                    *region_id,
                    *source_node_id,
                    *dest_node_id,
                )
            },
            MetaCommand::BeginMigration { region_id, source_node_id, dest_node_id } => {
                Self::apply_begin_migration(
                    &mut self.state,
                    *region_id,
                    *source_node_id,
                    *dest_node_id,
                )
            },
            MetaCommand::CancelMigration { region_id, dest_node_id } => {
                Self::apply_cancel_migration(&mut self.state, *region_id, *dest_node_id)
            },
            MetaCommand::UpdateClusterConfig(config) => {
                self.state.cluster_config = config.duplicate();
                MetaResponse::Done
            },
            MetaCommand::SaveModel { measurement, model_id, metadata } => {
                let key = joined_text(measurement.as_str(), ":", model_id.as_str());
                self.state.models.insert(key, metadata.duplicate());
                MetaResponse::Done
            },
            MetaCommand::BatchHeartbeat { entries } => {
                Self::apply_batch_heartbeat(&mut self.state, &mut self.heartbeat_store, entries);
                MetaResponse::Done
            },
        };
        let affects_routing: bool = match cmd {
            MetaCommand::SaveModel { .. } => false,
            MetaCommand::BatchHeartbeat { .. } => false,
            MetaCommand::UpdateClusterConfig(_) => false,
            _ => true,
        };
        if affects_routing {
            self.refresh_routes();
        }
        proof {
            if !affects_routing {
                let a = old(self)@.nodes;
                let b = self@.nodes;
                assert(self@.regions == old(self)@.regions);
                assert(a.dom() =~= b.dom());
                assert forall|n: NodeId| #[trigger] a.contains_key(n) implies a[n].grpc_addr
                    == b[n].grpc_addr by {
                }
                routes_depend_on_addresses(in_id_order(self@.regions), a, b);
            }
        }
        resp
    }

    /// Build the routes anew from the regions and nodes.
    fn refresh_routes(&mut self)
        ensures
            final(self)@ == old(self)@,
            final(self).applied() == old(self).applied(),
            final(self).heartbeats() == old(self).heartbeats(),
            final(self).instants() == old(self).instants(),
            final(self).routes_are_current(),
            final(self).routes().version_number() == next_version(
                old(self).routes().version_number(),
            ),
    {
        let _ = self.state.regions.len();
        self.routing_table.rebuild(&self.state.regions, &self.state.nodes);
    }

    /// Take a snapshot of the state.
    pub fn snapshot(&self) -> (r: MetaSnapshot)
        ensures
            snapshot_of(*self, r),
    {
        self.snapshot_at(unix_seconds())
    }

    /// Take a snapshot of the state at the given time.
    pub fn snapshot_at(&self, now_secs: u64) -> (r: MetaSnapshot)
        ensures
            snapshot_of(*self, r),
            r.snapshot_timestamp_secs == now_secs,
    {
        MetaSnapshot {
            last_applied_log: self.last_applied,
            schemas: self.state.schemas.duplicate(),
            nodes: self.state.nodes.duplicate(),
            regions: self.state.regions.duplicate(),
            cluster_config: self.state.cluster_config.duplicate(),
            models: self.state.models.duplicate(),
            next_region_id: self.state.next_region_id,
            heartbeat_store: self.heartbeat_store.duplicate(),
            routing_checksum: compute_routing_checksum(&self.state.regions, &self.state.nodes),
            snapshot_timestamp_secs: now_secs,
        }
    }

    /// Restore state from a snapshot.
    pub fn restore(&mut self, snapshot: MetaSnapshot)
        ensures
            exists|now_secs: u64| #[trigger]
                restored(*old(self), snapshot, now_secs, *final(self)),
    {
        let now_secs: u64 = unix_seconds();
        self.restore_at(snapshot, now_secs);
        assert(restored(*old(self), snapshot, now_secs, *final(self)));
    }

    /// Restore state from a snapshot at the given time.
    ///
    /// The heartbeats are taken over, so that a new leader starts with a warm
    /// view of node liveness, and aged by what has passed since the snapshot.
    pub fn restore_at(&mut self, snapshot: MetaSnapshot, now_secs: u64)
        ensures
            restored(*old(self), snapshot, now_secs, *final(self)),
    {
        self.last_applied = snapshot.last_applied_log;
        self.state.schemas = snapshot.schemas;
        self.state.nodes = snapshot.nodes;
        self.state.regions = snapshot.regions;
        self.state.cluster_config = snapshot.cluster_config;
        self.state.models = snapshot.models;
        self.state.next_region_id = snapshot.next_region_id;
        let mut heartbeats = snapshot.heartbeat_store;
        if snapshot.snapshot_timestamp_secs > 0 && now_secs > snapshot.snapshot_timestamp_secs {
            age_heartbeats(&mut heartbeats, now_secs - snapshot.snapshot_timestamp_secs);
        }
        self.heartbeat_store = heartbeats;
        self.refresh_routes();
    }

    /// Access the derived routing table.
    pub fn routing_table(&self) -> (r: &RoutingTable)
        ensures
            *r == self.routes(),
    {
        &self.routing_table
    }

    /// Last applied Raft log index.
    pub fn last_applied_log(&self) -> (r: u64)
        ensures
            r == self.applied(),
    {
        self.last_applied
    }

    /// Look up a measurement schema.
    pub fn get_schema(&self, name: &str) -> (r: Option<MeasurementSchema>)
        ensures
            r.deep_view() == lookup(self@.schemas, name@),
    {
        match self.state.schemas.get(&name.to_owned()) {
            Some(schema) => Some(schema.duplicate()),
            None => None,
        }
    }

    /// Get all measurement schemas.
    pub fn schemas(&self) -> (r: SortedMap<String, MeasurementSchema>)
        ensures
            r@ == self@.schemas,
    {
        self.state.schemas.duplicate()
    }

    /// Look up a data node.
    pub fn get_node(&self, node_id: NodeId) -> (r: Option<DataNodeInfo>)
        ensures
            r.deep_view() == lookup(self@.nodes, node_id),
    {
        match self.state.nodes.get(&node_id) {
            Some(node) => Some(node.duplicate()),
            None => None,
        }
    }

    /// Get all registered data nodes.
    pub fn nodes(&self) -> (r: SortedMap<NodeId, DataNodeInfo>)
        ensures
            r@ == self@.nodes,
    {
        self.state.nodes.duplicate()
    }

    /// Record a heartbeat directly (outside Raft consensus).
    ///
    /// Updates only the out-of-band heartbeat store for liveness detection
    /// timestamps. Does **not** change replicated state. Returns whether the
    /// node is registered.
    pub fn record_heartbeat(&mut self, node_id: NodeId, generation: u64) -> (r: bool)
        ensures
            r == old(self)@.nodes.contains_key(node_id),
            exists|now_secs: u64, instant: HeartbeatInstant| #[trigger]
                heartbeat_recorded(
                    *old(self),
                    node_id,
                    generation,
                    now_secs,
                    instant,
                    *final(self),
                ),
    {
        let now_secs: u64 = unix_seconds();
        let instant = monotonic_now();
        let known: bool = self.record_heartbeat_at(node_id, generation, now_secs, instant);
        assert(heartbeat_recorded(
            *old(self),
            node_id,
            generation,
            now_secs,
            instant,
            *final(self),
        ));
        known
    }

    /// Record a heartbeat that arrived at the given time.
    pub fn record_heartbeat_at(
        &mut self,
        node_id: NodeId,
        generation: u64,
        now_secs: u64,
        instant: HeartbeatInstant,
    ) -> (r: bool)
        ensures
            r == old(self)@.nodes.contains_key(node_id),
            heartbeat_recorded(*old(self), node_id, generation, now_secs, instant, *final(self)),
    {
        self.heartbeat_store.insert(node_id, (generation, now_secs));
        self.heartbeat_instants.insert(node_id, instant);
        self.state.nodes.contains_key(&node_id)
    }

    /// The out-of-band heartbeats: `node_id -> (generation, timestamp_secs)`.
    pub fn heartbeat_data(&self) -> (r: SortedMap<NodeId, (u64, u64)>)
        ensures
            r@ == self.heartbeats(),
    {
        self.heartbeat_store.duplicate()
    }

    /// Monotonic arrival times of out-of-band heartbeats.
    pub fn heartbeat_instants(&self) -> (r: SortedMap<NodeId, HeartbeatInstant>)
        ensures
            r@ == self.instants(),
    {
        self.heartbeat_instants.duplicate()
    }

    /// Most recent heartbeat of a node: the out-of-band one where there is
    /// one, otherwise the replicated one, and zero for an unknown node.
    pub fn last_heartbeat_secs(&self, node_id: NodeId) -> (r: u64)
        ensures
            r == if self.heartbeats().contains_key(node_id) {
                self.heartbeats()[node_id].1
            } else if self@.nodes.contains_key(node_id) {
                self@.nodes[node_id].last_heartbeat_secs
            } else {
                0
            },
    {
        match self.heartbeat_store.get(&node_id) {
            Some(entry) => entry.1,
            None => match self.state.nodes.get(&node_id) {
                Some(node) => node.last_heartbeat_secs,
                None => 0,
            },
        }
    }

    /// All nodes that are not dead, in the order of their ids.
    pub fn active_nodes(&self) -> (r: Vec<DataNodeInfo>)
        ensures
            r.deep_view() == model::live_nodes(self@),
            model::have_an_id_order(self@.nodes),
    {
        let count: usize = self.state.nodes.len();
        let ghost pairs = self.state.nodes.pairs();
        let ghost live = |n: NodeModel| !(n.state is Dead);
        let mut out: Vec<DataNodeInfo> = Vec::new();
        let mut i: usize = 0;
        assert(out.deep_view() =~= selected(pairs.take(0), live));
        while i < count
            invariant
                i <= count,
                count == pairs.len(),
                pairs == self.state.nodes.pairs(),
                live == (|n: NodeModel| !(n.state is Dead)),
                out.deep_view() == selected(pairs.take(i as int), live),
            decreases count - i,
        {
            let node = self.state.nodes.value_at(i);
            let ghost before = out.deep_view();
            assert(pairs.take(i + 1).drop_last() =~= pairs.take(i as int));
            if node.state != NodeState::Dead {
                out.push(node.duplicate());
                assert(out.deep_view() =~= before.push(pairs[i as int].1));
            }
            i = i + 1;
        }
        assert(pairs.take(count as int) =~= pairs);
        out
    }

    /// Look up a region.
    pub fn get_region(&self, region_id: RegionId) -> (r: Option<RegionInfo>)
        ensures
            r.deep_view() == lookup(self@.regions, region_id),
    {
        match self.state.regions.get(&region_id) {
            Some(region) => Some(region.duplicate()),
            None => None,
        }
    }

    /// Get all regions.
    pub fn regions(&self) -> (r: SortedMap<RegionId, RegionInfo>)
        ensures
            r@ == self@.regions,
    {
        self.state.regions.duplicate()
    }

    /// The regions of a measurement, in the order of their ids.
    pub fn regions_for_measurement(&self, measurement: &str) -> (r: Vec<RegionInfo>)
        ensures
            r.deep_view() == selected(
                in_id_order(self@.regions),
                |g: RegionModel| g.measurement == measurement@,
            ),
            model::have_an_id_order(self@.regions),
    {
        let count: usize = self.state.regions.len();
        let ghost pairs = self.state.regions.pairs();
        let ghost wanted = |g: RegionModel| g.measurement == measurement@;
        let mut out: Vec<RegionInfo> = Vec::new();
        let mut i: usize = 0;
        assert(out.deep_view() =~= selected(pairs.take(0), wanted));
        while i < count
            invariant
                i <= count,
                count == pairs.len(),
                pairs == self.state.regions.pairs(),
                wanted == (|g: RegionModel| g.measurement == measurement@),
                out.deep_view() == selected(pairs.take(i as int), wanted),
            decreases count - i,
        {
            let region = self.state.regions.value_at(i);
            let ghost before = out.deep_view();
            assert(pairs.take(i + 1).drop_last() =~= pairs.take(i as int));
            if crate::text::same_text(region.measurement.as_str(), measurement) {
                out.push(region.duplicate());
                assert(out.deep_view() =~= before.push(pairs[i as int].1));
            }
            i = i + 1;
        }
        assert(pairs.take(count as int) =~= pairs);
        out
    }

    /// The regions with fewer active replicas than their replication factor,
    /// in the order of their ids.
    pub fn under_replicated_regions(&self) -> (r: Vec<RegionInfo>)
        ensures
            r.deep_view() == selected(
                in_id_order(self@.regions),
                |g: RegionModel| model::is_under_replicated(self@.nodes, g),
            ),
            model::have_an_id_order(self@.regions),
    {
        let count: usize = self.state.regions.len();
        let ghost pairs = self.state.regions.pairs();
        let ghost wanted = |g: RegionModel| model::is_under_replicated(self@.nodes, g);
        let mut out: Vec<RegionInfo> = Vec::new();
        let mut i: usize = 0;
        assert(out.deep_view() =~= selected(pairs.take(0), wanted));
        while i < count
            invariant
                i <= count,
                count == pairs.len(),
                pairs == self.state.regions.pairs(),
                wanted == (|g: RegionModel| model::is_under_replicated(self@.nodes, g)),
                out.deep_view() == selected(pairs.take(i as int), wanted),
            decreases count - i,
        {
            let region = self.state.regions.value_at(i);
            let ghost before = out.deep_view();
            assert(pairs.take(i + 1).drop_last() =~= pairs.take(i as int));
            let active: usize = self.count_active(&region.replica_node_ids);
            if (active as u64) < (region.replication_factor as u64) {
                out.push(region.duplicate());
                assert(out.deep_view() =~= before.push(pairs[i as int].1));
            }
            i = i + 1;
        }
        assert(pairs.take(count as int) =~= pairs);
        out
    }

    /// How many of the given replicas are on active nodes.
    fn count_active(&self, replicas: &Vec<NodeId>) -> (r: usize)
        ensures
            r == model::active_replicas(self@.nodes, replicas@),
    {
        let mut active: usize = 0;
        let mut i: usize = 0;
        while i < replicas.len()
            invariant
                i <= replicas.len(),
                active <= i,
                active == model::active_replicas(self@.nodes, replicas@.take(i as int)),
            decreases replicas.len() - i,
        {
            assert(replicas@.take(i + 1).drop_last() =~= replicas@.take(i as int));
            let is_active: bool = match self.state.nodes.get(&replicas[i]) {
                Some(node) => node.state == NodeState::Active,
                None => false,
            };
            if is_active {
                active = active + 1;
            }
            i = i + 1;
        }
        assert(replicas@.take(replicas@.len() as int) =~= replicas@);
        active
    }

    /// Current cluster configuration.
    pub fn cluster_config(&self) -> (r: ClusterConfig)
        ensures
            r.deep_view() == self@.cluster_config,
    {
        self.state.cluster_config.duplicate()
    }

    /// Look up a saved model.
    pub fn get_model(&self, measurement: &str, model_id: &str) -> (r: Option<Vec<u8>>)
        ensures
            r.deep_view() == lookup(
                self@.models,
                model::model_key(measurement@, model_id@),
            ),
    {
        let key = joined_text(measurement, ":", model_id);
        match self.state.models.get(&key) {
            Some(metadata) => Some(metadata.duplicate()),
            None => None,
        }
    }

    /// Create the regions of a new measurement, as its schema asks for, and
    /// return their ids.
    ///
    /// Fails when there are no nodes to assign regions to.
    pub fn auto_create_regions(&mut self, schema: &MeasurementSchema) -> (r: Result<
        Vec<RegionId>,
        MetaError,
    >)
        requires
            old(self)@.next_region_id + schema.region_count <= u64::MAX,
        ensures
            model::live_nodes(old(self)@).len() == 0 ==> {
                &&& r matches Err(MetaError::InvalidConfig(text))
                &&& text@ == "No active data nodes to assign regions"@
                &&& *final(self) == *old(self)
            },
            model::live_nodes(old(self)@).len() > 0 ==> {
                let regions = model::planned_regions(old(self)@, schema.deep_view());
                &&& r matches Ok(ids)
                &&& ids@ == regions.map_values(|g: RegionModel| g.region_id)
                &&& final(self)@ == model::after_creating(
                    MetaModel {
                        next_region_id: (old(self)@.next_region_id + schema.region_count) as u64,
                        ..old(self)@
                    },
                    regions,
                )
                &&& final(self).applied() == old(self).applied()
                &&& final(self).heartbeats() == old(self).heartbeats()
                &&& final(self).instants() == old(self).instants()
                &&& final(self).routes_are_current()
            },
    {
        let commands = match self.prepare_create_regions(schema) {
            Ok(commands) => commands,
            Err(error) => return Err(error),
        };
        let ghost regions = model::planned_regions(old(self)@, schema.deep_view());
        let ghost start = self.state@;
        let mut ids: Vec<RegionId> = Vec::new();
        let mut i: usize = 0;
        assert(regions.take(0) =~= Seq::empty());
        while i < commands.len()
            invariant
                i <= commands.len(),
                commands.len() == regions.len(),
                forall|j: int|
                    0 <= j < regions.len() ==> (#[trigger] commands@[j])@
                        == CommandModel::CreateRegion(regions[j]),
                self.state@ == model::after_creating(start, regions.take(i as int)),
                ids@ == regions.take(i as int).map_values(|g: RegionModel| g.region_id),
                self.applied() == old(self).applied(),
                self.heartbeats() == old(self).heartbeats(),
                self.instants() == old(self).instants(),
            decreases commands.len() - i,
        {
            assert(regions.take(i + 1).drop_last() =~= regions.take(i as int));
            if let MetaCommand::CreateRegion(info) = &commands[i] {
                assert(commands@[i as int]@ == CommandModel::CreateRegion(regions[i as int]));
                ids.push(info.region_id);
                let _ = Self::apply_create_region(&mut self.state, info);
                assert(ids@ =~= regions.take(i + 1).map_values(|g: RegionModel| g.region_id));
            } else {
                assert(commands@[i as int]@ == CommandModel::CreateRegion(regions[i as int]));
                assert(false);
            }
            i = i + 1;
        }
        assert(regions.take(regions.len() as int) =~= regions);
        self.refresh_routes();
        Ok(ids)
    }

    /// Prepare `MetaCommand::CreateRegion` commands without applying them.
    ///
    /// In a Raft cluster, propose these commands through the Raft log so all
    /// replicas apply them deterministically. The region ids are taken: later
    /// calls go on behind them.
    ///
    /// Fails when there are no nodes to assign regions to.
    pub fn prepare_create_regions(&mut self, schema: &MeasurementSchema) -> (r: Result<
        Vec<MetaCommand>,
        MetaError,
    >)
        requires
            old(self)@.next_region_id + schema.region_count <= u64::MAX,
        ensures
            model::live_nodes(old(self)@).len() == 0 ==> {
                &&& r matches Err(MetaError::InvalidConfig(text))
                &&& text@ == "No active data nodes to assign regions"@
                &&& *final(self) == *old(self)
            },
            model::live_nodes(old(self)@).len() > 0 ==> {
                let regions = model::planned_regions(old(self)@, schema.deep_view());
                &&& r matches Ok(commands)
                &&& commands@.len() == regions.len()
                &&& forall|i: int|
                    0 <= i < regions.len() ==> (#[trigger] commands@[i])@
                        == CommandModel::CreateRegion(regions[i])
                &&& final(self)@ == (MetaModel {
                    next_region_id: (old(self)@.next_region_id + schema.region_count) as u64,
                    ..old(self)@
                })
                &&& final(self).applied() == old(self).applied()
                &&& final(self).heartbeats() == old(self).heartbeats()
                &&& final(self).instants() == old(self).instants()
                &&& final(self).routes() == old(self).routes()
            },
    {
        let active = self.active_nodes();
        assert(active.deep_view().len() == active@.len());
        if active.len() == 0 {
            return Err(
                MetaError::InvalidConfig("No active data nodes to assign regions".to_owned()),
            );
        }
        let ghost live = active.deep_view();
        let ghost planned = model::planned_regions(old(self)@, schema.deep_view());
        let nodes_in_u32: u32 = #[verifier::truncate] (active.len() as u32);
        let replication_factor: u32 = if schema.replication_factor < nodes_in_u32 {
            schema.replication_factor
        } else {
            nodes_in_u32
        };
        let first_id: u64 = self.state.next_region_id;
        let mut commands: Vec<MetaCommand> = Vec::new();
        let mut i: u32 = 0;
        while i < schema.region_count
            invariant
                i <= schema.region_count,
                first_id == old(self)@.next_region_id,
                first_id + schema.region_count <= u64::MAX,
                self.state@ == (MetaModel {
                    next_region_id: (first_id + i) as u64,
                    ..old(self)@
                }),
                self.applied() == old(self).applied(),
                self.heartbeats() == old(self).heartbeats(),
                self.instants() == old(self).instants(),
                self.routes() == old(self).routes(),
                live == active.deep_view(),
                live == model::live_nodes(old(self)@),
                live.len() == active.len(),
                live.len() > 0,
                nodes_in_u32 == (live.len() as u32),
                replication_factor == (if schema.replication_factor < nodes_in_u32 {
                    schema.replication_factor
                } else {
                    nodes_in_u32
                }),
                planned == model::planned_regions(old(self)@, schema.deep_view()),
                commands.len() == i,
                forall|j: int|
                    0 <= j < i ==> (#[trigger] commands@[j])@ == CommandModel::CreateRegion(
                        planned[j],
                    ),
            decreases schema.region_count - i,
        {
            let region_id: u64 = self.state.next_region_id;
            self.state.next_region_id = region_id + 1;
            let leader_at: usize = (i as usize) % active.len();
            let leader_node_id: NodeId = active[leader_at].node_id;
            assert(live[leader_at as int] == active@[leader_at as int].deep_view());
            let replicas = Self::replicas_from(&active, leader_at, replication_factor);
            let region = RegionInfo::new(
                region_id,
                schema.name.as_str(),
                leader_node_id,
                replicas,
            );
            assert(region.deep_view() == planned[i as int]);
            commands.push(MetaCommand::CreateRegion(region));
            i = i + 1;
        }
        Ok(commands)
    }

    /// `count` nodes in a row, starting at `from` and going round.
    fn replicas_from(active: &Vec<DataNodeInfo>, from: usize, count: u32) -> (r: Vec<NodeId>)
        requires
            from < active.len(),
            count <= active.len(),
        ensures
            r@ == model::round_robin(active.deep_view(), from as int, count as nat),
    {
        let mut replicas: Vec<NodeId> = Vec::new();
        let ghost live = active.deep_view();
        let len: usize = active.len();
        let mut j: u32 = 0;
        while j < count
            invariant
                j <= count,
                count <= len,
                len == active.len(),
                from < len,
                live == active.deep_view(),
                replicas.len() == j,
                forall|k: int|
                    0 <= k < j ==> #[trigger] replicas@[k] == live[(from + k) % (
                    len as int)].node_id,
            decreases count - j,
        {
            let ahead: usize = len - from;
            let at: usize = if (j as usize) < ahead {
                from + (j as usize)
            } else {
                (j as usize) - ahead
            };
            proof {
                if (j as usize) < ahead {
                    vstd::arithmetic::div_mod::lemma_small_mod((from + j) as nat, len as nat);
                } else {
                    vstd::arithmetic::div_mod::lemma_small_mod(at as nat, len as nat);
                    vstd::arithmetic::div_mod::lemma_mod_add_multiples_vanish(
                        at as int,
                        len as int,
                    );
                }
                assert(at == (from + j) % (len as int));
                assert(live[at as int] == active@[at as int].deep_view());
            }
            replicas.push(active[at].node_id);
            j = j + 1;
        }
        assert(replicas@ =~= model::round_robin(live, from as int, count as nat));
        replicas
    }
}


/// The version behind `version`; the count starts over when it is exhausted.
pub open spec fn next_version(version: u64) -> u64 {
    if version < u64::MAX {
        (version + 1) as u64
    } else {
        0
    }
}

/// `snapshot` holds what the machine holds, with the checksum of its regions
/// and nodes.
pub open spec fn snapshot_of(machine: MetaStateMachine, snapshot: MetaSnapshot) -> bool {
    &&& snapshot.last_applied_log == machine.applied()
    &&& snapshot.model() == machine@
    &&& snapshot.heartbeat_store@ == machine.heartbeats()
    &&& snapshot.routing_checksum == routing_checksum(machine@.regions, machine@.nodes)
}

/// `after` is `before` with the snapshot put in place at `now_secs`. The
/// monotonic arrival times stay: they belong to this process.
pub open spec fn restored(
    before: MetaStateMachine,
    snapshot: MetaSnapshot,
    now_secs: u64,
    after: MetaStateMachine,
) -> bool {
    &&& after@ == snapshot.model()
    &&& after.applied() == snapshot.last_applied_log
    &&& after.heartbeats() == aged_heartbeats(
        snapshot.heartbeat_store@,
        snapshot.snapshot_timestamp_secs,
        now_secs,
    )
    &&& after.instants() == before.instants()
    &&& after.routes_are_current()
    &&& after.routes().version_number() == next_version(before.routes().version_number())
}

/// `after` is `before` with a heartbeat recorded out of band.
pub open spec fn heartbeat_recorded(
    before: MetaStateMachine,
    node_id: NodeId,
    generation: u64,
    now_secs: u64,
    instant: HeartbeatInstant,
    after: MetaStateMachine,
) -> bool {
    &&& after@ == before@
    &&& after.applied() == before.applied()
    &&& after.heartbeats() == before.heartbeats().insert(node_id, (generation, now_secs))
    &&& after.instants() == before.instants().insert(node_id, instant)
    &&& after.routes() == before.routes()
}

// ---------------------------------------------------------------------------
// The commands
// ---------------------------------------------------------------------------

impl MetaStateMachine {
    fn apply_create_measurement(state: &mut MetaState, schema: &MeasurementSchema) -> (r:
        MetaResponse)
        ensures
            (final(state)@, r@) == model::create_measurement(old(state)@, schema.deep_view()),
    {
        if state.schemas.contains_key(&schema.name) {
            return MetaResponse::Error {
                message: joined_text("measurement '", schema.name.as_str(), "' already exists"),
            };
        }
        state.schemas.insert(schema.name.clone(), schema.duplicate());
        MetaResponse::Created {
            description: joined_text("measurement '", schema.name.as_str(), "'"),
        }
    }

    fn apply_drop_measurement(state: &mut MetaState, name: &str) -> (r: MetaResponse)
        ensures
            (final(state)@, r@) == model::drop_measurement(old(state)@, name@),
    {
        if state.schemas.remove(&name.to_owned()).is_none() {
            assert(state.schemas@ =~= old(state)@.schemas);
            return MetaResponse::Error {
                message: joined_text("measurement '", name, "' not found"),
            };
        }
        let gone = region_ids_for(&state.regions, name);
        remove_regions(&mut state.regions, &gone);
        forget_regions(&mut state.nodes, &gone);
        MetaResponse::Done
    }

    fn apply_register_node(state: &mut MetaState, info: &DataNodeInfo) -> (r: MetaResponse)
        ensures
            (final(state)@, r@) == model::register_node(old(state)@, info.deep_view()),
    {
        state.nodes.insert(info.node_id, info.duplicate());
        MetaResponse::Created { description: numbered_text("node ", info.node_id, "") }
    }

    fn apply_deregister_node(state: &mut MetaState, node_id: NodeId) -> (r: MetaResponse)
        ensures
            (final(state)@, r@) == model::deregister_node(old(state)@, node_id),
    {
        if state.nodes.remove(&node_id).is_none() {
            assert(state.nodes@ =~= old(state)@.nodes);
            return MetaResponse::Error {
                message: numbered_text("node ", node_id, " not found"),
            };
        }
        remove_node_from_regions(&mut state.regions, node_id);
        MetaResponse::Done
    }

    fn apply_heartbeat(
        state: &mut MetaState,
        node_id: NodeId,
        generation: u64,
        timestamp_secs: u64,
    ) -> (r: MetaResponse)
        ensures
            (final(state)@, r@) == model::heartbeat(
                old(state)@,
                node_id,
                generation,
                timestamp_secs,
            ),
    {
        if let Some(mut node) = state.nodes.remove(&node_id) {
            node.heartbeat_generation = generation;
            node.last_heartbeat_secs = timestamp_secs;
            if node.state == NodeState::Suspect || node.state == NodeState::Dead {
                node.state = NodeState::Active;
            }
            state.nodes.insert(node_id, node);
            assert(state.nodes@ =~= model::heartbeat(
                old(state)@,
                node_id,
                generation,
                timestamp_secs,
            ).0.nodes);
            MetaResponse::Done
        } else {
            assert(state.nodes@ =~= old(state)@.nodes);
            MetaResponse::Error { message: numbered_text("node ", node_id, " not registered") }
        }
    }

    fn apply_update_node_state(state: &mut MetaState, node_id: NodeId, new_state: NodeState) -> (r:
        MetaResponse)
        ensures
            (final(state)@, r@) == model::update_node_state(old(state)@, node_id, new_state),
    {
        if let Some(mut node) = state.nodes.remove(&node_id) {
            node.state = new_state;
            state.nodes.insert(node_id, node);
            assert(state.nodes@ =~= model::update_node_state(
                old(state)@,
                node_id,
                new_state,
            ).0.nodes);
            MetaResponse::Done
        } else {
            assert(state.nodes@ =~= old(state)@.nodes);
            MetaResponse::Error { message: numbered_text("node ", node_id, " not found") }
        }
    }

    fn apply_create_region(state: &mut MetaState, info: &RegionInfo) -> (r: MetaResponse)
        ensures
            (final(state)@, r@) == model::create_region(old(state)@, info.deep_view()),
    {
        if state.regions.contains_key(&info.region_id) {
            return MetaResponse::Error {
                message: numbered_text("region ", info.region_id, " already exists"),
            };
        }
        state.regions.insert(info.region_id, info.duplicate());
        state.track(info.leader_node_id, info.region_id);
        MetaResponse::Created { description: numbered_text("region ", info.region_id, "") }
    }

    fn apply_update_region_state(
        state: &mut MetaState,
        region_id: RegionId,
        new_state: RegionState,
    ) -> (r: MetaResponse)
        ensures
            (final(state)@, r@) == model::update_region_state(old(state)@, region_id, new_state),
    {
        if let Some(mut region) = state.regions.remove(&region_id) {
            region.state = new_state;
            state.regions.insert(region_id, region);
            assert(state.regions@ =~= model::update_region_state(
                old(state)@,
                region_id,
                new_state,
            ).0.regions);
            MetaResponse::Done
        } else {
            assert(state.regions@ =~= old(state)@.regions);
            no_such_region(region_id)
        }
    }

    fn apply_update_region_leader(
        state: &mut MetaState,
        region_id: RegionId,
        leader_node_id: NodeId,
    ) -> (r: MetaResponse)
        ensures
            (final(state)@, r@) == model::update_region_leader(
                old(state)@,
                region_id,
                leader_node_id,
            ),
    {
        let mut region = match state.regions.get(&region_id) {
            Some(found) => found.duplicate(),
            None => return no_such_region(region_id),
        };
        // The leader must be in the replica set.
        if !holds_id(&region.replica_node_ids, leader_node_id) {
            let mut message = numbered_twice_text(
                "cannot set leader ",
                leader_node_id,
                " for region ",
                region_id,
                ": node is not in replica set ",
            );
            push_id_list(&mut message, &region.replica_node_ids);
            return MetaResponse::Error { message };
        }
        // The leader must exist and not be dead.

        match state.nodes.get(&leader_node_id) {
            None => {
                return MetaResponse::Error {
                    message: numbered_twice_text(
                        "cannot set unregistered node ",
                        leader_node_id,
                        " as leader for region ",
                        region_id,
                        "",
                    ),
                };
            },
            Some(node) => {
                if node.state == NodeState::Dead {
                    return MetaResponse::Error {
                        message: numbered_twice_text(
                            "cannot set dead node ",
                            leader_node_id,
                            " as leader for region ",
                            region_id,
                            "",
                        ),
                    };
                }
            },
        }
        region.leader_node_id = leader_node_id;
        state.regions.insert(region_id, region);
        MetaResponse::Done
    }

    fn apply_add_region_replica(state: &mut MetaState, region_id: RegionId, node_id: NodeId) -> (r:
        MetaResponse)
        ensures
            (final(state)@, r@) == model::add_region_replica(old(state)@, region_id, node_id),
    {
        let mut region = match state.regions.get(&region_id) {
            Some(found) => found.duplicate(),
            None => return no_such_region(region_id),
        };
        if !state.nodes.contains_key(&node_id) {
            return MetaResponse::Error {
                message: numbered_twice_text(
                    "cannot add unregistered node ",
                    node_id,
                    " as replica for region ",
                    region_id,
                    "",
                ),
            };
        }
        include_id(&mut region.replica_node_ids, node_id);
        state.regions.insert(region_id, region);
        state.track(node_id, region_id);
        MetaResponse::Done
    }

    fn apply_remove_region_replica(
        state: &mut MetaState,
        region_id: RegionId,
        node_id: NodeId,
    ) -> (r: MetaResponse)
        ensures
            (final(state)@, r@) == model::remove_region_replica(old(state)@, region_id, node_id),
    {
        let mut region = match state.regions.get(&region_id) {
            Some(found) => found.duplicate(),
            None => return no_such_region(region_id),
        };
        // The last replica stays.
        if region.replica_node_ids.len() <= 1 && holds_id(&region.replica_node_ids, node_id) {
            return MetaResponse::Error {
                message: numbered_twice_text(
                    "cannot remove last replica ",
                    node_id,
                    " from region ",
                    region_id,
                    "",
                ),
            };
        }
        let rest = ids_without(&region.replica_node_ids, node_id);
        if region.leader_node_id == node_id && rest.len() > 0 {
            region.leader_node_id = rest[0];
        }
        region.replica_node_ids = rest;
        state.regions.insert(region_id, region);
        state.untrack(node_id, region_id);
        MetaResponse::Done
    }

    /// Completion phase of the two-step migration protocol.
    fn apply_migrate_region(
        state: &mut MetaState,
        region_id: RegionId,
        source_node_id: NodeId,
        dest_node_id: NodeId,
    ) -> (r: MetaResponse)
        ensures
            (final(state)@, r@) == model::migrate_region(
                old(state)@,
                region_id,
                source_node_id,
                dest_node_id,
            ),
    {
        let mut region = match state.regions.get(&region_id) {
            Some(found) => found.duplicate(),
            None => return no_such_region(region_id),
        };
        // The region must be migrating.
        if region.state != RegionState::Migrating {
            let mut message = numbered_text("region ", region_id, " is in state ");
            message.append(region.state.variant_text());
            message.append(", expected Migrating (call BeginMigration first)");
            return MetaResponse::Error { message };
        }
        // The destination must already be a replica.

        if !holds_id(&region.replica_node_ids, dest_node_id) {
            return MetaResponse::Error {
                message: numbered_twice_text(
                    "destination node ",
                    dest_node_id,
                    " is not a replica of region ",
                    region_id,
                    " (call BeginMigration first)",
                ),
            };
        }
        // The destination must be registered and not dead.

        if let Some(refusal) = state.destination_refusal(region_id, dest_node_id) {
            return refusal;
        }
        // The source must be a replica.

        if !holds_id(&region.replica_node_ids, source_node_id) {
            return MetaResponse::Error {
                message: numbered_twice_text(
                    "source node ",
                    source_node_id,
                    " is not a replica of region ",
                    region_id,
                    "",
                ),
            };
        }
        // The source must not be the destination.

        if source_node_id == dest_node_id {
            return MetaResponse::Error {
                message: numbered_text(
                    "source and destination are the same node ",
                    source_node_id,
                    " — nothing to migrate",
                ),
            };
        }
        // Another replica must remain.

        let rest = ids_without(&region.replica_node_ids, source_node_id);
        if rest.len() < 1 {
            return MetaResponse::Error {
                message: numbered_twice_text(
                    "cannot remove source ",
                    source_node_id,
                    ": would leave region ",
                    region_id,
                    " with 0 replicas",
                ),
            };
        }
        region.leader_node_id = dest_node_id;
        region.replica_node_ids = rest;
        region.state = RegionState::Active;
        state.regions.insert(region_id, region);
        state.untrack(source_node_id, region_id);
        MetaResponse::Done
    }

    /// Begin a region migration: phase 1 of the two-step protocol.
    fn apply_begin_migration(
        state: &mut MetaState,
        region_id: RegionId,
        source_node_id: NodeId,
        dest_node_id: NodeId,
    ) -> (r: MetaResponse)
        ensures
            (final(state)@, r@) == model::begin_migration(
                old(state)@,
                region_id,
                source_node_id,
                dest_node_id,
            ),
    {
        let mut region = match state.regions.get(&region_id) {
            Some(found) => found.duplicate(),
            None => return no_such_region(region_id),
        };
        // Only active regions can begin migration.
        if region.state != RegionState::Active {
            let mut message = numbered_text("region ", region_id, " is in state ");
            message.append(region.state.variant_text());
            message.append(", only Active regions can be migrated");
            return MetaResponse::Error { message };
        }
        // The source must be the current leader.

        if region.leader_node_id != source_node_id {
            let mut message = numbered_twice_text(
                "source node ",
                source_node_id,
                " is not the leader of region ",
                region_id,
                " (leader is ",
            );
            push_decimal(&mut message, region.leader_node_id as u128);
            message.append(")");
            return MetaResponse::Error { message };
        }
        // The destination must be registered and not dead.

        if let Some(refusal) = state.destination_refusal(region_id, dest_node_id) {
            return refusal;
        }
        // Source and destination must be different.

        if source_node_id == dest_node_id {
            return MetaResponse::Error {
                message: numbered_text(
                    "source and destination are the same node ",
                    source_node_id,
                    " — nothing to migrate",
                ),
            };
        }
        include_id(&mut region.replica_node_ids, dest_node_id);
        region.state = RegionState::Migrating;
        state.regions.insert(region_id, region);
        state.track(dest_node_id, region_id);
        MetaResponse::Done
    }

    /// Cancel a migration that was begun with [`MetaCommand::BeginMigration`].
    fn apply_cancel_migration(state: &mut MetaState, region_id: RegionId, dest_node_id: NodeId) -> (
    r: MetaResponse)
        ensures
            (final(state)@, r@) == model::cancel_migration(old(state)@, region_id, dest_node_id),
    {
        let mut region = match state.regions.get(&region_id) {
            Some(found) => found.duplicate(),
            None => return no_such_region(region_id),
        };
        if region.state != RegionState::Migrating {
            let mut message = numbered_text("region ", region_id, " is in state ");
            message.append(region.state.variant_text());
            message.append(", only Migrating regions can be cancelled");
            return MetaResponse::Error { message };
        }
        // The leader stays a replica.

        if region.leader_node_id == dest_node_id {
            return MetaResponse::Error {
                message: numbered_twice_text(
                    "destination node ",
                    dest_node_id,
                    " is the leader of region ",
                    region_id,
                    ", its migration cannot be cancelled",
                ),
            };
        }
        region.replica_node_ids = ids_without(&region.replica_node_ids, dest_node_id);
        region.state = RegionState::Active;
        state.regions.insert(region_id, region);
        state.untrack(dest_node_id, region_id);
        MetaResponse::Done
    }

    /// Record a batch of heartbeats, in the state and out of band.
    fn apply_batch_heartbeat(
        state: &mut MetaState,
        store: &mut SortedMap<NodeId, (u64, u64)>,
        entries: &SortedMap<NodeId, (u64, u64)>,
    )
        ensures
            final(state)@ == (MetaModel {
                nodes: model::nodes_after_batch(old(state)@.nodes, entries@),
                ..old(state)@
            }),
            final(store)@ == old(store)@.union_prefer_right(entries@),
    {
        let count: usize = entries.len();
        let ghost batch = entries.pairs();
        let mut i: usize = 0;
        proof {
            assert(batch.take(0) =~= Seq::empty());
            assert(map_of(batch.take(0)) =~= Map::<u64, (u64, u64)>::empty());
            assert(state.nodes@ =~= model::nodes_after_batch(
                old(state)@.nodes,
                map_of(batch.take(0)),
            ));
            assert(store@ =~= old(store)@.union_prefer_right(map_of(batch.take(0))));
        }
        while i < count
            invariant
                i <= count,
                count == batch.len(),
                batch == entries.pairs(),
                crate::sorted_map::ascending::<u64, (u64, u64)>(batch),
                state@ == (MetaModel { nodes: state@.nodes, ..old(state)@ }),
                state@.nodes == model::nodes_after_batch(
                    old(state)@.nodes,
                    map_of(batch.take(i as int)),
                ),
                store@ == old(store)@.union_prefer_right(map_of(batch.take(i as int))),
            decreases count - i,
        {
            let node_id: NodeId = *entries.key_at(i);
            let entry = entries.value_at(i);
            let generation: u64 = entry.0;
            let timestamp_secs: u64 = entry.1;
            let ghost before = map_of(batch.take(i as int));
            let ghost after = map_of(batch.take(i + 1));
            proof {
                lemma_map_of_step::<u64, (u64, u64)>(batch, i as int);
                assert(after == before.insert(node_id, (generation, timestamp_secs)));
            }
            if let Some(mut node) = state.nodes.remove(&node_id) {
                node.last_heartbeat_secs = timestamp_secs;
                node.heartbeat_generation = generation;
                state.nodes.insert(node_id, node);
            }
            store.insert(node_id, (generation, timestamp_secs));
            proof {
                assert(state@.nodes =~= model::nodes_after_batch(old(state)@.nodes, after));
                assert(store@ =~= old(store)@.union_prefer_right(after));
            }
            i = i + 1;
        }
        assert(batch.take(count as int) =~= batch);
    }
}

impl Default for MetaStateMachine {
    fn default() -> (r: Self)
        ensures
            r@ == empty_cluster(),
            r.applied() == 0,
            r.heartbeats() == Map::<NodeId, (u64, u64)>::empty(),
            r.instants() == Map::<NodeId, HeartbeatInstant>::empty(),
            r.routes().version_number() == 0,
            r.routes_are_current(),
    {
        MetaStateMachine::new()
    }
}

} // verus!
