//! The query operators: planning, pruning, filtering, deduplication,
//! aggregation, downsampling and window functions.

pub mod accumulator;
pub mod agg_fn;
pub mod aggregate;
pub mod aggregate_laws;
pub mod batch;
pub mod buckets;
pub mod budget_laws;
pub mod cells;
pub mod convert;
pub mod convert_laws;
pub mod decimal;
pub mod dedup;
pub mod downsample;
pub mod downsample_laws;
pub mod downsample_stream;
pub mod encoded_pushdown;
pub mod error;
pub mod filter;
pub mod filter_laws;
pub mod float;
pub mod float_laws;
pub mod frame;
pub mod frame_laws;
pub mod group_laws;
pub mod grouped;
pub mod grouping;
pub mod groups;
pub mod mask;
pub mod memory;
pub mod merge;
pub mod merge_keys;
pub mod merge_laws;
pub mod name_laws;
pub mod order;
pub mod order_laws;
pub mod output;
pub mod plan;
pub mod plan_laws;
pub mod pruning;
pub mod pruning_laws;
pub mod refusal_laws;
pub mod result;
pub mod row_encoding;
pub mod run_order;
pub mod series;
pub mod series_laws;
pub mod sorted;
pub mod streaming;
pub mod table_laws;
pub mod tags;
pub mod totals;
pub mod track;
pub mod union;
pub mod window;
pub mod window_fn;
pub mod window_laws;
pub mod window_values;

pub use accumulator::{IncrementalAccumulator, Num};
pub use agg_fn::AggFn;
pub use cells::{arrow_cell_to_field_value, column_type_to_arrow};
pub use convert::points_to_record_batch;
pub use encoded_pushdown::{ColumnPredicate, EncodedDomainEvaluator, RowGroupVerdict, ZoneMapOp};
pub use error::QueryError;
pub use frame::extract_f64;
pub use memory::MemoryTracker;
pub use plan::{FieldPredicate, QueryBuilder, QueryPlan};
pub use track::{AggResult, DecimalTrack};
pub use window_fn::WindowFn;
