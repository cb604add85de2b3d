//! Core types for the metadata store.
use vstd::prelude::*;
use vstd::string::*;

use crate::duplicate::Duplicate;
use crate::clock::unix_seconds;
use crate::sorted_map::SortedMap;
use crate::text::push_decimal;
#[allow(unused_imports)]
use crate::text::decimal;

verus! {

broadcast use vstd::string::group_string_axioms;

/// Unique identifier for a cluster node.
pub type NodeId = u64;

/// Unique identifier for a data region (partition of a measurement).
pub type RegionId = u64;

// ---------------------------------------------------------------------------
// Node info
// ---------------------------------------------------------------------------

/// Runtime state of a cluster node.
#[derive(Debug, Clone, Copy, PartialEq, Eq, Structural)]
pub enum NodeState {
    /// Node is healthy and sending heartbeats.
    Active,
    /// Heartbeat missed; might be transient.
    Suspect,
    /// Multiple heartbeats missed; considered dead.
    Dead,
    /// Node is shutting down gracefully.
    Decommissioning,
}

impl NodeState {
    /// The name under which the state is shown.
    pub open spec fn name(self) -> Seq<char> {
        match self {
            NodeState::Active => "active"@,
            NodeState::Suspect => "suspect"@,
            NodeState::Dead => "dead"@,
            NodeState::Decommissioning => "decommissioning"@,
        }
    }

    /// The state in words.
    pub fn to_text(&self) -> (r: String)
        ensures
            r@ == self.name(),
    {
        match self {
            NodeState::Active => "active".to_owned(),
            NodeState::Suspect => "suspect".to_owned(),
            NodeState::Dead => "dead".to_owned(),
            NodeState::Decommissioning => "decommissioning".to_owned(),
        }
    }
}

/// Mode a node can run in.
#[derive(Debug, Clone, Copy, PartialEq, Eq, Structural)]
pub enum NodeMode {
    /// Hosts metadata Raft group.
    Meta,
    /// Hosts data regions.
    Data,
    /// Routes queries to data nodes.
    Query,
}

impl NodeMode {
    /// The name under which the mode is shown.
    pub open spec fn name(self) -> Seq<char> {
        match self {
            NodeMode::Meta => "meta"@,
            NodeMode::Data => "data"@,
            NodeMode::Query => "query"@,
        }
    }

    /// The mode in words.
    pub fn to_text(&self) -> (r: String)
        ensures
            r@ == self.name(),
    {
        match self {
            NodeMode::Meta => "meta".to_owned(),
            NodeMode::Data => "data".to_owned(),
            NodeMode::Query => "query".to_owned(),
        }
    }
}

/// What a [`DataNodeInfo`] says, in mathematical terms.
#[verifier::ext_equal]
pub struct NodeModel {
    pub node_id: NodeId,
    pub grpc_addr: Seq<char>,
    pub mode: NodeMode,
    pub state: NodeState,
    pub disk_bytes: u64,
    pub memory_bytes: u64,
    pub cpu_cores: u32,
    pub heartbeat_generation: u64,
    pub last_heartbeat_secs: u64,
    pub region_ids: Seq<RegionId>,
    pub labels: Map<Seq<char>, Seq<char>>,
}

/// Information about a registered data node.
#[derive(Debug)]
pub struct DataNodeInfo {
    /// The node's unique ID.
    pub node_id: NodeId,
    /// gRPC address for inter-node communication.
    pub grpc_addr: String,
    /// Node mode (always `Data` for data nodes).
    pub mode: NodeMode,
    /// Current lifecycle state.
    pub state: NodeState,
    /// Capacity: available disk bytes.
    pub disk_bytes: u64,
    /// Capacity: available memory bytes.
    pub memory_bytes: u64,
    /// Capacity: number of CPU cores.
    pub cpu_cores: u32,
    /// Monotonic heartbeat generation.
    pub heartbeat_generation: u64,
    /// Last heartbeat timestamp (Unix epoch seconds).
    pub last_heartbeat_secs: u64,
    /// Regions hosted by this node.
    pub region_ids: Vec<RegionId>,
    /// Topology labels for geo-aware replica placement.
    ///
    /// Typical keys: `"rack"`, `"zone"`, `"datacenter"`, `"region"`.
    /// A placement policy uses these labels to spread replicas across
    /// failure domains (e.g. never place two replicas in the same rack).
    pub labels: SortedMap<String, String>,
}

impl DeepView for DataNodeInfo {
    type V = NodeModel;

    open spec fn deep_view(&self) -> NodeModel {
        NodeModel {
            node_id: self.node_id,
            grpc_addr: self.grpc_addr@,
            mode: self.mode,
            state: self.state,
            disk_bytes: self.disk_bytes,
            memory_bytes: self.memory_bytes,
            cpu_cores: self.cpu_cores,
            heartbeat_generation: self.heartbeat_generation,
            last_heartbeat_secs: self.last_heartbeat_secs,
            region_ids: self.region_ids@,
            labels: self.labels@,
        }
    }
}

/// A node as it is first announced: in data mode, active, without capacity,
/// regions or labels.
pub open spec fn fresh_node(node_id: NodeId, grpc_addr: Seq<char>, now_secs: u64) -> NodeModel {
    NodeModel {
        node_id,
        grpc_addr,
        mode: NodeMode::Data,
        state: NodeState::Active,
        disk_bytes: 0,
        memory_bytes: 0,
        cpu_cores: 0,
        heartbeat_generation: 0,
        last_heartbeat_secs: now_secs,
        region_ids: Seq::<RegionId>::empty(),
        labels: Map::<Seq<char>, Seq<char>>::empty(),
    }
}

impl DataNodeInfo {
    /// Create a new `DataNodeInfo` whose first heartbeat is now.
    pub fn new(node_id: NodeId, grpc_addr: &str) -> (r: Self)
        ensures
            r.deep_view() == fresh_node(node_id, grpc_addr@, r.last_heartbeat_secs),
    {
        DataNodeInfo::seen_at(node_id, grpc_addr, unix_seconds())
    }

    /// Create a new `DataNodeInfo` whose first heartbeat is at `now_secs`.
    pub fn seen_at(node_id: NodeId, grpc_addr: &str, now_secs: u64) -> (r: Self)
        ensures
            r.deep_view() == fresh_node(node_id, grpc_addr@, now_secs),
    {
        DataNodeInfo {
            node_id,
            grpc_addr: grpc_addr.to_owned(),
            mode: NodeMode::Data,
            state: NodeState::Active,
            disk_bytes: 0,
            memory_bytes: 0,
            cpu_cores: 0,
            heartbeat_generation: 0,
            last_heartbeat_secs: now_secs,
            region_ids: Vec::new(),
            labels: SortedMap::new(),
        }
    }

    /// Set the node mode.
    pub fn with_mode(self, mode: NodeMode) -> (r: Self)
        ensures
            r.deep_view() == (NodeModel { mode, ..self.deep_view() }),
    {
        let mut r = self;
        r.mode = mode;
        r
    }

    /// Set capacity fields. A core count beyond what the field holds is
    /// recorded as the greatest count that it holds.
    pub fn with_capacity(self, disk_bytes: u64, memory_bytes: u64, cpu_cores: u64) -> (r: Self)
        ensures
            r.cpu_cores == if cpu_cores <= u32::MAX {
                cpu_cores as int
            } else {
                u32::MAX as int
            },
            r.deep_view() == (NodeModel {
                disk_bytes,
                memory_bytes,
                cpu_cores: r.cpu_cores,
                ..self.deep_view()
            }),
    {
        let mut r = self;
        r.disk_bytes = disk_bytes;
        r.memory_bytes = memory_bytes;
        r.cpu_cores = if cpu_cores <= u32::MAX as u64 {
            cpu_cores as u32
        } else {
            u32::MAX
        };
        r
    }

    /// Set topology labels for geo-aware placement.
    pub fn with_labels(self, labels: SortedMap<String, String>) -> (r: Self)
        ensures
            r.deep_view() == (NodeModel { labels: labels@, ..self.deep_view() }),
    {
        let mut r = self;
        r.labels = labels;
        r
    }
}

impl Duplicate for DataNodeInfo {
    fn duplicate(&self) -> (r: Self) {
        let r = DataNodeInfo {
            node_id: self.node_id,
            grpc_addr: self.grpc_addr.clone(),
            mode: self.mode,
            state: self.state,
            disk_bytes: self.disk_bytes,
            memory_bytes: self.memory_bytes,
            cpu_cores: self.cpu_cores,
            heartbeat_generation: self.heartbeat_generation,
            last_heartbeat_secs: self.last_heartbeat_secs,
            region_ids: self.region_ids.clone(),
            labels: self.labels.duplicate(),
        };
        assert(r.region_ids@ =~= self.region_ids@);
        r
    }
}

impl Clone for DataNodeInfo {
    fn clone(&self) -> (r: Self)
        ensures
            r.deep_view() == self.deep_view(),
    {
        self.duplicate()
    }
}

// ---------------------------------------------------------------------------
// Region info
// ---------------------------------------------------------------------------

/// Lifecycle state of a region.
#[derive(Debug, Clone, Copy, PartialEq, Eq, Structural)]
pub enum RegionState {
    /// Region is accepting reads and writes.
    Active,
    /// Region is being migrated to another node.
    Migrating,
    /// Region is read-only (source of a migration).
    ReadOnly,
    /// Region is being re-replicated after a node failure.
    Replicating,
    /// Region is being split; still serves reads and writes while the two
    /// child regions are being prepared.
    Splitting,
}

impl RegionState {
    /// The name under which the state is shown.
    pub open spec fn name(self) -> Seq<char> {
        match self {
            RegionState::Active => "active"@,
            RegionState::Migrating => "migrating"@,
            RegionState::ReadOnly => "read-only"@,
            RegionState::Replicating => "replicating"@,
            RegionState::Splitting => "splitting"@,
        }
    }

    /// The name of the variant, as error messages spell it.
    pub open spec fn variant_name(self) -> Seq<char> {
        match self {
            RegionState::Active => "Active"@,
            RegionState::Migrating => "Migrating"@,
            RegionState::ReadOnly => "ReadOnly"@,
            RegionState::Replicating => "Replicating"@,
            RegionState::Splitting => "Splitting"@,
        }
    }

    /// Whether the region should accept read requests in this state: always.
    pub fn accepts_reads(&self) -> (r: bool)
        ensures
            r,
    {
        match self {
            RegionState::Active => true,
            RegionState::Splitting => true,
            RegionState::Migrating => true,
            RegionState::Replicating => true,
            RegionState::ReadOnly => true,
        }
    }

    /// Whether the region should accept write requests in this state.
    pub fn accepts_writes(&self) -> (r: bool)
        ensures
            r == (*self is Active || *self is Splitting),
    {
        match self {
            RegionState::Active => true,
            RegionState::Splitting => true,
            _ => false,
        }
    }

    /// The state in words.
    pub fn to_text(&self) -> (r: String)
        ensures
            r@ == self.name(),
    {
        match self {
            RegionState::Active => "active".to_owned(),
            RegionState::Migrating => "migrating".to_owned(),
            RegionState::ReadOnly => "read-only".to_owned(),
            RegionState::Replicating => "replicating".to_owned(),
            RegionState::Splitting => "splitting".to_owned(),
        }
    }

    /// The variant's name.
    pub fn variant_text(&self) -> (r: &'static str)
        ensures
            r@ == self.variant_name(),
    {
        match self {
            RegionState::Active => "Active",
            RegionState::Migrating => "Migrating",
            RegionState::ReadOnly => "ReadOnly",
            RegionState::Replicating => "Replicating",
            RegionState::Splitting => "Splitting",
        }
    }
}

/// Contiguous hash-key range owned by a region.
///
/// The range is **start-inclusive, end-exclusive**: `[start, end)`.
/// When a region is split, the midpoint becomes the boundary of the two
/// child ranges.
#[derive(Debug, Clone, Copy, PartialEq, Eq, Structural)]
pub struct KeyRange {
    /// Inclusive lower bound of the hash range.
    pub start: u64,
    /// Exclusive upper bound of the hash range.
    pub end: u64,
}

impl KeyRange {
    /// `hash` lies in the range.
    pub open spec fn holds(self, hash: u64) -> bool {
        self.start <= hash < self.end
    }

    /// The range has room for two non-empty parts.
    pub open spec fn divisible(self) -> bool {
        self.end - self.start >= 2
    }

    /// The value half way between the bounds, rounded down.
    pub open spec fn middle(self) -> u64 {
        ((self.start + self.end) / 2) as u64
    }

    /// Create a new key range.
    pub fn new(start: u64, end: u64) -> (r: Self)
        ensures
            r.start == start,
            r.end == end,
    {
        KeyRange { start, end }
    }

    /// Full key space: `[0, u64::MAX)`.
    pub fn full() -> (r: Self)
        ensures
            r.start == 0,
            r.end == u64::MAX,
    {
        KeyRange { start: 0, end: u64::MAX }
    }

    /// Whether `hash` falls within this range (`start <= hash < end`).
    pub fn contains(&self, hash: u64) -> (r: bool)
        ensures
            r == self.holds(hash),
    {
        hash >= self.start && hash < self.end
    }

    /// Midpoint for splitting. Returns `None` when the range contains fewer
    /// than two values, because such a range cannot be split into two
    /// non-empty children.
    pub fn midpoint(&self) -> (r: Option<u64>)
        ensures
            r == if self.divisible() {
                Some(self.middle())
            } else {
                None::<u64>
            },
    {
        if self.end <= self.start.saturating_add(1) {
            return None;
        }
        Some(self.start / 2 + self.end / 2 + (self.start % 2 + self.end % 2) / 2)
    }

    /// Split into two non-empty child ranges at the midpoint.
    ///
    /// Returns `None` when the range is too small to split (fewer than two
    /// values).
    pub fn split(&self) -> (r: Option<(Self, Self)>)
        ensures
            r == if self.divisible() {
                Some(
                    (
                        KeyRange { start: self.start, end: self.middle() },
                        KeyRange { start: self.middle(), end: self.end },
                    ),
                )
            } else {
                None::<(KeyRange, KeyRange)>
            },
    {
        match self.midpoint() {
            None => None,
            Some(mid) => Some(
                (KeyRange { start: self.start, end: mid }, KeyRange { start: mid, end: self.end }),
            ),
        }
    }

    /// The range in interval notation: `[start, end)`.
    pub fn to_text(&self) -> (r: String)
        ensures
            r@ == "["@ + decimal(self.start as nat) + ", "@ + decimal(self.end as nat) + ")"@,
    {
        let mut out = "[".to_owned();
        push_decimal(&mut out, self.start as u128);
        out.append(", ");
        push_decimal(&mut out, self.end as u128);
        out.append(")");
        out
    }
}

/// Splitting a range loses no hash and shares none: each hash of the range is
/// in exactly one of the two parts, the parts hold nothing else, and neither
/// is empty.
pub proof fn split_partitions_the_range(range: KeyRange, hash: u64)
    requires
        range.divisible(),
    ensures
        ({
            let left = KeyRange { start: range.start, end: range.middle() };
            let right = KeyRange { start: range.middle(), end: range.end };
            &&& range.holds(hash) <==> (left.holds(hash) || right.holds(hash))
            &&& !(left.holds(hash) && right.holds(hash))
            &&& left.start < left.end
            &&& right.start < right.end
        }),
{
}

/// What a [`RegionInfo`] says, in mathematical terms.
#[verifier::ext_equal]
pub struct RegionModel {
    pub region_id: RegionId,
    pub measurement: Seq<char>,
    pub leader_node_id: NodeId,
    pub replica_node_ids: Seq<NodeId>,
    pub state: RegionState,
    pub replication_factor: u32,
    pub key_range: Option<KeyRange>,
}

/// Information about a data region.
#[derive(Debug)]
pub struct RegionInfo {
    /// The region's unique ID.
    pub region_id: RegionId,
    /// Measurement this region belongs to.
    pub measurement: String,
    /// The leader node for this region's Raft group.
    pub leader_node_id: NodeId,
    /// All replica node IDs (includes leader).
    pub replica_node_ids: Vec<NodeId>,
    /// Current lifecycle state.
    pub state: RegionState,
    /// Replication factor for this region.
    pub replication_factor: u32,
    /// Hash-key range this region owns. `None` for regions that have not yet
    /// been assigned a range (modulo fallback).
    pub key_range: Option<KeyRange>,
}

impl DeepView for RegionInfo {
    type V = RegionModel;

    open spec fn deep_view(&self) -> RegionModel {
        RegionModel {
            region_id: self.region_id,
            measurement: self.measurement@,
            leader_node_id: self.leader_node_id,
            replica_node_ids: self.replica_node_ids@,
            state: self.state,
            replication_factor: self.replication_factor,
            key_range: self.key_range,
        }
    }
}

impl RegionInfo {
    /// Create a new `RegionInfo`: active, without a key range, and to be
    /// replicated as often as it is now, but at least once.
    pub fn new(
        region_id: RegionId,
        measurement: &str,
        leader_node_id: NodeId,
        replica_node_ids: Vec<NodeId>,
    ) -> (r: Self)
        ensures
            r.replication_factor == (if replica_node_ids@.len() > 1 {
                replica_node_ids@.len()
            } else {
                1
            }) as u32,
            r.deep_view() == (RegionModel {
                region_id,
                measurement: measurement@,
                leader_node_id,
                replica_node_ids: replica_node_ids@,
                state: RegionState::Active,
                replication_factor: r.replication_factor,
                key_range: None,
            }),
    {
        let count: usize = if replica_node_ids.len() > 1 {
            replica_node_ids.len()
        } else {
            1
        };
        RegionInfo {
            region_id,
            measurement: measurement.to_owned(),
            leader_node_id,
            replica_node_ids,
            state: RegionState::Active,
            replication_factor: #[verifier::truncate] (count as u32),
            key_range: None,
        }
    }

    /// Set the key range for this region.
    pub fn with_key_range(self, range: KeyRange) -> (r: Self)
        ensures
            r.deep_view() == (RegionModel { key_range: Some(range), ..self.deep_view() }),
    {
        let mut r = self;
        r.key_range = Some(range);
        r
    }
}

impl Duplicate for RegionInfo {
    fn duplicate(&self) -> (r: Self) {
        let r = RegionInfo {
            region_id: self.region_id,
            measurement: self.measurement.clone(),
            leader_node_id: self.leader_node_id,
            replica_node_ids: self.replica_node_ids.clone(),
            state: self.state,
            replication_factor: self.replication_factor,
            key_range: self.key_range,
        };
        assert(r.replica_node_ids@ =~= self.replica_node_ids@);
        r
    }
}

impl Clone for RegionInfo {
    fn clone(&self) -> (r: Self)
        ensures
            r.deep_view() == self.deep_view(),
    {
        self.duplicate()
    }
}

// ---------------------------------------------------------------------------
// Measurement schema
// ---------------------------------------------------------------------------

/// Field type in a measurement schema.
#[derive(Debug, Clone, Copy, PartialEq, Eq, Structural)]
pub enum FieldType {
    /// 64-bit float.
    F64,
    /// 64-bit signed integer.
    I64,
    /// 64-bit unsigned integer.
    U64,
    /// Boolean.
    Bool,
    /// UTF-8 string.
    String,
}

impl DeepView for FieldType {
    type V = FieldType;

    open spec fn deep_view(&self) -> FieldType {
        *self
    }
}

impl Duplicate for FieldType {
    fn duplicate(&self) -> (r: Self) {
        *self
    }
}

/// What a [`MeasurementSchema`] says, in mathematical terms.
#[verifier::ext_equal]
pub struct SchemaModel {
    pub name: Seq<char>,
    pub tag_keys: Seq<Seq<char>>,
    pub field_schemas: Map<Seq<char>, FieldType>,
    pub region_count: u32,
    pub replication_factor: u32,
}

/// Schema definition for a measurement.
#[derive(Debug)]
pub struct MeasurementSchema {
    /// Measurement name.
    pub name: String,
    /// Expected tag key names (informational).
    pub tag_keys: Vec<String>,
    /// Expected field names and types.
    pub field_schemas: SortedMap<String, FieldType>,
    /// Number of regions this measurement is partitioned into.
    pub region_count: u32,
    /// Replication factor for each region.
    pub replication_factor: u32,
}

impl DeepView for MeasurementSchema {
    type V = SchemaModel;

    open spec fn deep_view(&self) -> SchemaModel {
        SchemaModel {
            name: self.name@,
            tag_keys: self.tag_keys.deep_view(),
            field_schemas: self.field_schemas@,
            region_count: self.region_count,
            replication_factor: self.replication_factor,
        }
    }
}

impl MeasurementSchema {
    /// Create a new schema with defaults: no tags, no fields, three regions,
    /// three replicas.
    pub fn new(name: &str) -> (r: Self)
        ensures
            r.deep_view() == (SchemaModel {
                name: name@,
                tag_keys: Seq::<Seq<char>>::empty(),
                field_schemas: Map::<Seq<char>, FieldType>::empty(),
                region_count: 3,
                replication_factor: 3,
            }),
    {
        let r = MeasurementSchema {
            name: name.to_owned(),
            tag_keys: Vec::new(),
            field_schemas: SortedMap::new(),
            region_count: 3,
            replication_factor: 3,
        };
        assert(r.tag_keys.deep_view() =~= Seq::<Seq<char>>::empty());
        r
    }

    /// Set the region count.
    pub fn with_region_count(self, count: u32) -> (r: Self)
        ensures
            r.deep_view() == (SchemaModel { region_count: count, ..self.deep_view() }),
    {
        let mut r = self;
        r.region_count = count;
        r
    }

    /// Set the replication factor.
    pub fn with_replication_factor(self, factor: u32) -> (r: Self)
        ensures
            r.deep_view() == (SchemaModel { replication_factor: factor, ..self.deep_view() }),
    {
        let mut r = self;
        r.replication_factor = factor;
        r
    }
}

impl Duplicate for MeasurementSchema {
    fn duplicate(&self) -> (r: Self) {
        MeasurementSchema {
            name: self.name.clone(),
            tag_keys: self.tag_keys.duplicate(),
            field_schemas: self.field_schemas.duplicate(),
            region_count: self.region_count,
            replication_factor: self.replication_factor,
        }
    }
}

impl Clone for MeasurementSchema {
    fn clone(&self) -> (r: Self)
        ensures
            r.deep_view() == self.deep_view(),
    {
        self.duplicate()
    }
}

// ---------------------------------------------------------------------------
// Cluster config
// ---------------------------------------------------------------------------

/// What a [`ClusterConfig`] says, in mathematical terms.
#[verifier::ext_equal]
pub struct ConfigModel {
    pub cluster_name: Seq<char>,
    pub default_replication_factor: u32,
    pub default_region_count: u32,
    pub heartbeat_interval_secs: u64,
    pub heartbeat_suspect_threshold: u32,
    pub heartbeat_dead_threshold: u32,
    pub max_concurrent_rereplications: u32,
}

/// Cluster-wide configuration stored in the metadata state machine.
#[derive(Debug)]
pub struct ClusterConfig {
    /// Cluster name.
    pub cluster_name: String,
    /// Default replication factor for new measurements.
    pub default_replication_factor: u32,
    /// Default number of regions for new measurements.
    pub default_region_count: u32,
    /// Heartbeat interval in seconds.
    pub heartbeat_interval_secs: u64,
    /// Number of missed heartbeats before suspect.
    pub heartbeat_suspect_threshold: u32,
    /// Number of missed heartbeats before dead.
    pub heartbeat_dead_threshold: u32,
    /// Maximum concurrent re-replications.
    pub max_concurrent_rereplications: u32,
}

impl DeepView for ClusterConfig {
    type V = ConfigModel;

    open spec fn deep_view(&self) -> ConfigModel {
        ConfigModel {
            cluster_name: self.cluster_name@,
            default_replication_factor: self.default_replication_factor,
            default_region_count: self.default_region_count,
            heartbeat_interval_secs: self.heartbeat_interval_secs,
            heartbeat_suspect_threshold: self.heartbeat_suspect_threshold,
            heartbeat_dead_threshold: self.heartbeat_dead_threshold,
            max_concurrent_rereplications: self.max_concurrent_rereplications,
        }
    }
}

/// The configuration that a cluster starts with.
pub open spec fn default_config() -> ConfigModel {
    ConfigModel {
        cluster_name: "chronix"@,
        default_replication_factor: 3,
        default_region_count: 3,
        heartbeat_interval_secs: 5,
        heartbeat_suspect_threshold: 2,
        heartbeat_dead_threshold: 6,
        max_concurrent_rereplications: 2,
    }
}

impl Default for ClusterConfig {
    fn default() -> (r: Self)
        ensures
            r.deep_view() == default_config(),
    {
        ClusterConfig {
            cluster_name: "chronix".to_owned(),
            default_replication_factor: 3,
            default_region_count: 3,
            heartbeat_interval_secs: 5,
            heartbeat_suspect_threshold: 2,
            heartbeat_dead_threshold: 6,
            max_concurrent_rereplications: 2,
        }
    }
}

impl Duplicate for ClusterConfig {
    fn duplicate(&self) -> (r: Self) {
        ClusterConfig {
            cluster_name: self.cluster_name.clone(),
            default_replication_factor: self.default_replication_factor,
            default_region_count: self.default_region_count,
            heartbeat_interval_secs: self.heartbeat_interval_secs,
            heartbeat_suspect_threshold: self.heartbeat_suspect_threshold,
            heartbeat_dead_threshold: self.heartbeat_dead_threshold,
            max_concurrent_rereplications: self.max_concurrent_rereplications,
        }
    }
}

impl Clone for ClusterConfig {
    fn clone(&self) -> (r: Self)
        ensures
            r.deep_view() == self.deep_view(),
    {
        self.duplicate()
    }
}

// ---------------------------------------------------------------------------
// Commands and responses
// ---------------------------------------------------------------------------

/// Commands applied to the metadata state machine via Raft.
#[derive(Debug)]
pub enum MetaCommand {
    /// Create a new measurement schema.
    CreateMeasurement(MeasurementSchema),
    /// Drop a measurement and all its regions.
    DropMeasurement {
        /// Measurement name.
        name: String,
    },
    /// Register a data node in the cluster.
    RegisterNode(DataNodeInfo),
    /// Deregister (remove) a data node.
    DeregisterNode {
        /// Node ID to remove.
        node_id: NodeId,
    },
    /// Record a heartbeat from a data node.
    Heartbeat {
        /// Node ID.
        node_id: NodeId,
        /// Heartbeat generation counter.
        generation: u64,
        /// Epoch seconds.
        timestamp_secs: u64,
    },
    /// Mark a node as suspect or dead.
    UpdateNodeState {
        /// Node ID.
        node_id: NodeId,
        /// New state.
        state: NodeState,
    },
    /// Create a new region and assign it to nodes.
    CreateRegion(RegionInfo),
    /// Update region state (migration, etc.).
    UpdateRegionState {
        /// Region ID.
        region_id: RegionId,
        /// New state.
        state: RegionState,
    },
    /// Update the region leader after Raft election.
    UpdateRegionLeader {
        /// Region ID.
        region_id: RegionId,
        /// New leader node ID.
        leader_node_id: NodeId,
    },
    /// Add a replica to an existing region.
    AddRegionReplica {
        /// Region ID.
        region_id: RegionId,
        /// Node ID to add as a replica.
        node_id: NodeId,
    },
    /// Remove a replica from a region.
    RemoveRegionReplica {
        /// Region ID.
        region_id: RegionId,
        /// Node ID to remove.
        node_id: NodeId,
    },
    /// Atomically complete a region migration: switch the leader to the
    /// destination replica and remove the source replica, all in a single
    /// Raft log entry.
    MigrateRegion {
        /// Region ID to migrate.
        region_id: RegionId,
        /// Node currently hosting the leader.
        source_node_id: NodeId,
        /// Node that will become the new leader.
        dest_node_id: NodeId,
    },
    /// Begin a region migration: sets the region state to `Migrating` and
    /// adds the destination node as a replica (learner).
    ///
    /// Must be proposed **before** `MigrateRegion` so the data transfer
    /// happens while the region is in a tracked migration lifecycle.
    BeginMigration {
        /// Region ID to migrate.
        region_id: RegionId,
        /// Source node (must be the current leader).
        source_node_id: NodeId,
        /// Destination node to add as learner replica.
        dest_node_id: NodeId,
    },
    /// Cancel a migration that was begun but not completed.
    ///
    /// Restores the region to `Active`, removes the destination node from the
    /// replica set and the region from the destination node's region list.
    /// This is the rollback path for `BeginMigration`.
    CancelMigration {
        /// Region ID whose migration should be cancelled.
        region_id: RegionId,
        /// Destination node that was added as learner (to remove).
        dest_node_id: NodeId,
    },
    /// Update cluster-wide configuration.
    UpdateClusterConfig(ClusterConfig),
    /// Save analytics model metadata.
    SaveModel {
        /// Measurement the model belongs to.
        measurement: String,
        /// Model identifier.
        model_id: String,
        /// Serialized model metadata (opaque bytes).
        metadata: Vec<u8>,
    },
    /// Batch heartbeat replication.
    ///
    /// Periodically proposed by the leader to replicate out-of-band heartbeat
    /// timestamps through Raft. This ensures that after a leader failover the
    /// new leader's `last_heartbeat_secs` is at most one heartbeat interval
    /// stale, preventing false suspect/dead cascades.
    BatchHeartbeat {
        /// `node_id -> (generation, timestamp_secs)`.
        entries: SortedMap<NodeId, (u64, u64)>,
    },
}

/// What a [`MetaCommand`] says, in mathematical terms.
#[verifier::ext_equal]
pub enum CommandModel {
    CreateMeasurement(SchemaModel),
    DropMeasurement(Seq<char>),
    RegisterNode(NodeModel),
    DeregisterNode(NodeId),
    Heartbeat { node_id: NodeId, generation: u64, timestamp_secs: u64 },
    UpdateNodeState(NodeId, NodeState),
    CreateRegion(RegionModel),
    UpdateRegionState(RegionId, RegionState),
    UpdateRegionLeader(RegionId, NodeId),
    AddRegionReplica(RegionId, NodeId),
    RemoveRegionReplica(RegionId, NodeId),
    MigrateRegion { region_id: RegionId, source: NodeId, dest: NodeId },
    BeginMigration { region_id: RegionId, source: NodeId, dest: NodeId },
    CancelMigration { region_id: RegionId, dest: NodeId },
    UpdateClusterConfig(ConfigModel),
    SaveModel { measurement: Seq<char>, model_id: Seq<char>, metadata: Seq<u8> },
    BatchHeartbeat(Map<NodeId, (u64, u64)>),
}

impl View for MetaCommand {
    type V = CommandModel;

    open spec fn view(&self) -> CommandModel {
        match self {
            MetaCommand::CreateMeasurement(schema) => CommandModel::CreateMeasurement(
                schema.deep_view(),
            ),
            MetaCommand::DropMeasurement { name } => CommandModel::DropMeasurement(name@),
            MetaCommand::RegisterNode(info) => CommandModel::RegisterNode(info.deep_view()),
            MetaCommand::DeregisterNode { node_id } => CommandModel::DeregisterNode(*node_id),
            MetaCommand::Heartbeat { node_id, generation, timestamp_secs } => {
                CommandModel::Heartbeat {
                    node_id: *node_id,
                    generation: *generation,
                    timestamp_secs: *timestamp_secs,
                }
            },
            MetaCommand::UpdateNodeState { node_id, state } => CommandModel::UpdateNodeState(
                *node_id,
                *state,
            ),
            MetaCommand::CreateRegion(info) => CommandModel::CreateRegion(info.deep_view()),
            MetaCommand::UpdateRegionState { region_id, state } => {
                CommandModel::UpdateRegionState(*region_id, *state)
            },
            MetaCommand::UpdateRegionLeader { region_id, leader_node_id } => {
                CommandModel::UpdateRegionLeader(*region_id, *leader_node_id)
            },
            MetaCommand::AddRegionReplica { region_id, node_id } => {
                CommandModel::AddRegionReplica(*region_id, *node_id)
            },
            MetaCommand::RemoveRegionReplica { region_id, node_id } => {
                CommandModel::RemoveRegionReplica(*region_id, *node_id)
            },
            MetaCommand::MigrateRegion { region_id, source_node_id, dest_node_id } => {
                CommandModel::MigrateRegion {
                    region_id: *region_id,
                    source: *source_node_id,
                    dest: *dest_node_id,
                }
            },
            MetaCommand::BeginMigration { region_id, source_node_id, dest_node_id } => {
                CommandModel::BeginMigration {
                    region_id: *region_id,
                    source: *source_node_id,
                    dest: *dest_node_id,
                }
            },
            MetaCommand::CancelMigration { region_id, dest_node_id } => {
                CommandModel::CancelMigration { region_id: *region_id, dest: *dest_node_id }
            },
            MetaCommand::UpdateClusterConfig(config) => CommandModel::UpdateClusterConfig(
                config.deep_view(),
            ),
            MetaCommand::SaveModel { measurement, model_id, metadata } => CommandModel::SaveModel {
                measurement: measurement@,
                model_id: model_id@,
                metadata: metadata.deep_view(),
            },
            MetaCommand::BatchHeartbeat { entries } => CommandModel::BatchHeartbeat(entries@),
        }
    }
}

impl Clone for MetaCommand {
    fn clone(&self) -> (r: Self)
        ensures
            r@ == self@,
    {
        match self {
            MetaCommand::CreateMeasurement(schema) => MetaCommand::CreateMeasurement(
                schema.duplicate(),
            ),
            MetaCommand::DropMeasurement { name } => MetaCommand::DropMeasurement {
                name: name.clone(),
            },
            MetaCommand::RegisterNode(info) => MetaCommand::RegisterNode(info.duplicate()),
            MetaCommand::DeregisterNode { node_id } => MetaCommand::DeregisterNode {
                node_id: *node_id,
            },
            MetaCommand::Heartbeat { node_id, generation, timestamp_secs } => {
                MetaCommand::Heartbeat {
                    node_id: *node_id,
                    generation: *generation,
                    timestamp_secs: *timestamp_secs,
                }
            },
            MetaCommand::UpdateNodeState { node_id, state } => MetaCommand::UpdateNodeState {
                node_id: *node_id,
                state: *state,
            },
            MetaCommand::CreateRegion(info) => MetaCommand::CreateRegion(info.duplicate()),
            MetaCommand::UpdateRegionState { region_id, state } => {
                MetaCommand::UpdateRegionState { region_id: *region_id, state: *state }
            },
            MetaCommand::UpdateRegionLeader { region_id, leader_node_id } => {
                MetaCommand::UpdateRegionLeader {
                    region_id: *region_id,
                    leader_node_id: *leader_node_id,
                }
            },
            MetaCommand::AddRegionReplica { region_id, node_id } => {
                MetaCommand::AddRegionReplica { region_id: *region_id, node_id: *node_id }
            },
            MetaCommand::RemoveRegionReplica { region_id, node_id } => {
                MetaCommand::RemoveRegionReplica { region_id: *region_id, node_id: *node_id }
            },
            MetaCommand::MigrateRegion { region_id, source_node_id, dest_node_id } => {
                MetaCommand::MigrateRegion {
                    region_id: *region_id,
                    source_node_id: *source_node_id,
                    dest_node_id: *dest_node_id,
                }
            },
            MetaCommand::BeginMigration { region_id, source_node_id, dest_node_id } => {
                MetaCommand::BeginMigration {
                    region_id: *region_id,
                    source_node_id: *source_node_id,
                    dest_node_id: *dest_node_id,
                }
            },
            MetaCommand::CancelMigration { region_id, dest_node_id } => {
                MetaCommand::CancelMigration { region_id: *region_id, dest_node_id: *dest_node_id }
            },
            MetaCommand::UpdateClusterConfig(config) => MetaCommand::UpdateClusterConfig(
                config.duplicate(),
            ),
            MetaCommand::SaveModel { measurement, model_id, metadata } => MetaCommand::SaveModel {
                measurement: measurement.clone(),
                model_id: model_id.clone(),
                metadata: metadata.duplicate(),
            },
            MetaCommand::BatchHeartbeat { entries } => MetaCommand::BatchHeartbeat {
                entries: entries.duplicate(),
            },
        }
    }
}

/// Response from applying a command to the state machine.
#[derive(Debug, Clone, PartialEq, Eq)]
pub enum MetaResponse {
    /// Command applied successfully.
    Done,
    /// A resource was created (returns its ID).
    Created {
        /// Description of what was created.
        description: String,
    },
    /// An error occurred.
    Error {
        /// Error message.
        message: String,
    },
}

/// What a [`MetaResponse`] says, in mathematical terms.
#[verifier::ext_equal]
pub enum Reply {
    Done,
    Created(Seq<char>),
    Refused(Seq<char>),
}

impl View for MetaResponse {
    type V = Reply;

    open spec fn view(&self) -> Reply {
        match self {
            MetaResponse::Done => Reply::Done,
            MetaResponse::Created { description } => Reply::Created(description@),
            MetaResponse::Error { message } => Reply::Refused(message@),
        }
    }
}

} // verus!
