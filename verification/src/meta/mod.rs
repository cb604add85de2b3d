//! Cluster metadata: schemas, nodes, regions and the routes between them.

pub mod admin;
pub mod checksum;
pub mod clock;
pub mod command_laws;
pub mod error;
pub mod laws;
pub mod log_laws;
pub mod log_store;
pub mod model;
pub mod planning_laws;
pub mod replica_laws;
pub mod reply_laws;
pub mod routing;
pub mod routing_laws;
pub mod state_machine;
pub mod store;
pub mod transport;
pub mod types;

pub use admin::GrpcMetaClient;
pub use error::MetaError;
pub use routing::{RouteEntry, RoutingSnapshot, RoutingTable};
pub use state_machine::{MetaSnapshot, MetaStateMachine};
pub use store::{MetaSmStore, MetaStore};
pub use transport::{
    assemble_snapshot_chunks, chunk_snapshot, NodeAddressMap, SNAPSHOT_CHUNK_SIZE,
};
pub use types::{
    ClusterConfig, DataNodeInfo, FieldType, KeyRange, MeasurementSchema, MetaCommand, MetaResponse,
    NodeId, NodeMode, NodeState, RegionId, RegionInfo, RegionState,
};
