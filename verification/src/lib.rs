//! Verified core of the Chronix time-series database: the replicated cluster
//! metadata (`meta`) and the query operators (`query`).

pub mod clock;
pub mod duplicate;
pub mod hash;
pub mod meta;
pub mod query;
pub mod sorted_map;
pub mod text;
pub mod text_laws;
