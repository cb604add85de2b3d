//! Error types for the metadata store.
use vstd::prelude::*;
use vstd::string::*;

use crate::meta::types::NodeId;
#[allow(unused_imports)]
use crate::text::numbered;
use crate::text::{joined_text, numbered_text};

verus! {

/// Errors from the metadata store.
#[derive(Debug, Clone, PartialEq, Eq)]
pub enum MetaError {
    /// A Raft operation failed.
    Raft(String),
    /// Serialization / deserialization failure.
    Serialization(String),
    /// The requested resource was not found.
    NotFound(String),
    /// The resource already exists.
    AlreadyExists(String),
    /// Invalid configuration or request.
    InvalidConfig(String),
    /// An internal error occurred.
    Internal(String),
    /// Node is not the current leader.
    NotLeader {
        /// Current leader node ID, if known.
        leader_id: Option<NodeId>,
    },
}

impl MetaError {
    /// The message under which the error is shown.
    pub open spec fn message(self) -> Seq<char> {
        match self {
            MetaError::Raft(s) => "raft error: "@ + s@ + ""@,
            MetaError::Serialization(s) => "serialization error: "@ + s@ + ""@,
            MetaError::NotFound(s) => "not found: "@ + s@ + ""@,
            MetaError::AlreadyExists(s) => "already exists: "@ + s@ + ""@,
            MetaError::InvalidConfig(s) => "invalid config: "@ + s@ + ""@,
            MetaError::Internal(s) => "internal error: "@ + s@ + ""@,
            MetaError::NotLeader { leader_id } => match leader_id {
                Some(id) => numbered("not leader: leader is node Some(", id, ")"),
                None => "not leader: leader is node None"@,
            },
        }
    }

    /// The error in words.
    pub fn to_text(&self) -> (r: String)
        ensures
            r@ == self.message(),
    {
        match self {
            MetaError::Raft(s) => joined_text("raft error: ", s.as_str(), ""),
            MetaError::Serialization(s) => joined_text("serialization error: ", s.as_str(), ""),
            MetaError::NotFound(s) => joined_text("not found: ", s.as_str(), ""),
            MetaError::AlreadyExists(s) => joined_text("already exists: ", s.as_str(), ""),
            MetaError::InvalidConfig(s) => joined_text("invalid config: ", s.as_str(), ""),
            MetaError::Internal(s) => joined_text("internal error: ", s.as_str(), ""),
            MetaError::NotLeader { leader_id } => match leader_id {
                Some(id) => numbered_text("not leader: leader is node Some(", *id, ")"),
                None => "not leader: leader is node None".to_owned(),
            },
        }
    }
}

} // verus!
