//! Query planning and fluent builder API.
//!
//! The [`QueryBuilder`] collects the parts of a query; `build` validates them
//! and compiles a [`QueryPlan`].
use vstd::prelude::*;
use vstd::string::*;

use crate::clock::unix_nanos;
use crate::query::agg_fn::AggFn;
use crate::query::encoded_pushdown::ZoneMapOp;
use crate::query::error::{invalid, QueryError};
#[allow(unused_imports)]
use crate::query::series::namespace_tag;
use crate::query::window_fn::WindowFn;
#[allow(unused_imports)]
use crate::text::texts;

verus! {

broadcast use vstd::string::group_string_axioms;

/// A time range for query filtering.
#[derive(Debug, Clone, Copy, PartialEq, Eq, Structural)]
pub struct TimeRange {
    /// Start timestamp (inclusive).
    pub start: i64,
    /// End timestamp (inclusive).
    pub end: i64,
}

/// A tag filter predicate.
#[derive(Debug, Clone, PartialEq, Eq)]
pub struct TagFilter {
    /// Tag key to filter on.
    pub key: String,
    /// Tag value to match (equality).
    pub value: String,
}

impl DeepView for TagFilter {
    type V = (Seq<char>, Seq<char>);

    open spec fn deep_view(&self) -> (Seq<char>, Seq<char>) {
        (self.key@, self.value@)
    }
}

/// A zone-map predicate: compares a numeric column with a value; row groups
/// whose statistics rule out any match are skipped.
#[derive(Debug, Clone, PartialEq, Eq)]
pub struct FieldPredicate {
    /// Column to compare.
    pub column: String,
    /// Comparison operator.
    pub op: ZoneMapOp,
    /// Bits of the value to compare with.
    pub value: u64,
}

/// A logical query plan.
///
/// Describes what data to read and how to process it, without specifying the
/// physical execution strategy.
#[derive(Debug)]
pub enum QueryPlan {
    /// Scan a measurement with optional filters and projection.
    Scan {
        /// Measurement name to query.
        measurement: String,
        /// Tag equality filters.
        tag_filters: Vec<TagFilter>,
        /// Columns to return (empty = all fields).
        projection: Vec<String>,
        /// Time range filter.
        time_range: TimeRange,
        /// Zone-map field predicates for row-group pruning.
        field_predicates: Vec<FieldPredicate>,
        /// Structural namespace scope.
        namespace_id: Option<String>,
    },
    /// Aggregate results from a scan.
    Aggregate {
        /// The underlying scan plan.
        source: Box<QueryPlan>,
        /// Aggregation functions to apply.
        functions: Vec<AggFn>,
        /// Columns to group by.
        group_by: Vec<String>,
        /// Estimated group-key cardinality. `None` means unknown.
        estimated_cardinality: Option<usize>,
    },
    /// Downsample results into fixed-width time buckets, aligned to the Unix
    /// epoch in UTC.
    Downsample {
        /// The underlying scan plan.
        source: Box<QueryPlan>,
        /// Bucket interval in nanoseconds.
        interval_nanos: u128,
        /// Aggregation function per bucket.
        function: AggFn,
    },
    /// Limit the number of returned rows, optionally skipping some.
    Limit {
        /// The underlying plan.
        source: Box<QueryPlan>,
        /// Maximum number of rows to return.
        limit: usize,
        /// Number of rows to skip before returning.
        offset: usize,
    },
    /// Apply window functions that produce one output row per input row.
    Window {
        /// The underlying plan.
        source: Box<QueryPlan>,
        /// Window functions to compute.
        functions: Vec<WindowFn>,
        /// Columns to partition by (each partition is independent).
        partition_by: Vec<String>,
        /// The value column to apply window functions to.
        value_column: String,
    },
}

/// What a query plan stands for.
#[verifier::ext_equal]
pub enum PlanModel {
    /// Scan a measurement.
    Scan {
        /// Measurement name.
        measurement: Seq<char>,
        /// Tag keys and values.
        tag_filters: Seq<(Seq<char>, Seq<char>)>,
        /// Columns to return.
        projection: Seq<Seq<char>>,
        /// Time range.
        time_range: TimeRange,
        /// Zone-map predicates.
        field_predicates: Seq<FieldPredicate>,
        /// Namespace scope.
        namespace_id: Option<Seq<char>>,
    },
    /// Aggregate.
    Aggregate {
        /// What is aggregated.
        source: Box<PlanModel>,
        /// Functions.
        functions: Seq<AggFn>,
        /// Columns to group by.
        group_by: Seq<Seq<char>>,
        /// Estimated number of groups.
        estimated_cardinality: Option<usize>,
    },
    /// Downsample.
    Downsample {
        /// What is downsampled.
        source: Box<PlanModel>,
        /// Bucket interval in nanoseconds.
        interval_nanos: u128,
        /// Function per bucket.
        function: AggFn,
    },
    /// Limit.
    Limit {
        /// What is limited.
        source: Box<PlanModel>,
        /// Maximum number of rows.
        limit: usize,
        /// Rows to skip.
        offset: usize,
    },
    /// Window functions.
    Window {
        /// What they are applied to.
        source: Box<PlanModel>,
        /// Functions.
        functions: Seq<WindowFn>,
        /// Columns to partition by.
        partition_by: Seq<Seq<char>>,
        /// Value column.
        value_column: Seq<char>,
    },
}

/// The contents of an optional text.
pub open spec fn optional_text(text: Option<String>) -> Option<Seq<char>> {
    match text {
        None => None,
        Some(t) => Some(t@),
    }
}

impl QueryPlan {
    /// What the plan stands for.
    pub open spec fn model(self) -> PlanModel
        decreases self,
    {
        match self {
            QueryPlan::Scan {
                measurement,
                tag_filters,
                projection,
                time_range,
                field_predicates,
                namespace_id,
            } => PlanModel::Scan {
                measurement: measurement@,
                tag_filters: tag_filters.deep_view(),
                projection: projection.deep_view(),
                time_range,
                field_predicates: field_predicates@,
                namespace_id: optional_text(namespace_id),
            },
            QueryPlan::Aggregate { source, functions, group_by, estimated_cardinality } => {
                PlanModel::Aggregate {
                    source: Box::new(source.model()),
                    functions: functions@,
                    group_by: group_by.deep_view(),
                    estimated_cardinality,
                }
            },
            QueryPlan::Downsample { source, interval_nanos, function } => PlanModel::Downsample {
                source: Box::new(source.model()),
                interval_nanos,
                function,
            },
            QueryPlan::Limit { source, limit, offset } => PlanModel::Limit {
                source: Box::new(source.model()),
                limit,
                offset,
            },
            QueryPlan::Window { source, functions, partition_by, value_column } => {
                PlanModel::Window {
                    source: Box::new(source.model()),
                    functions: functions@,
                    partition_by: partition_by.deep_view(),
                    value_column: value_column@,
                }
            },
        }
    }
}

impl PlanModel {
    /// The scan at the bottom of a plan.
    pub open spec fn scan(self) -> PlanModel
        decreases self,
    {
        match self {
            PlanModel::Scan { .. } => self,
            PlanModel::Aggregate { source, .. } => source.scan(),
            PlanModel::Downsample { source, .. } => source.scan(),
            PlanModel::Limit { source, .. } => source.scan(),
            PlanModel::Window { source, .. } => source.scan(),
        }
    }

    /// The plan with other zone-map predicates on its scan.
    pub open spec fn with_predicates(self, preds: Seq<FieldPredicate>) -> PlanModel
        decreases self,
    {
        match self {
            PlanModel::Scan {
                measurement,
                tag_filters,
                projection,
                time_range,
                field_predicates,
                namespace_id,
            } => PlanModel::Scan {
                measurement,
                tag_filters,
                projection,
                time_range,
                field_predicates: preds,
                namespace_id,
            },
            PlanModel::Aggregate { source, functions, group_by, estimated_cardinality } => {
                PlanModel::Aggregate {
                    source: Box::new(source.with_predicates(preds)),
                    functions,
                    group_by,
                    estimated_cardinality,
                }
            },
            PlanModel::Downsample { source, interval_nanos, function } => PlanModel::Downsample {
                source: Box::new(source.with_predicates(preds)),
                interval_nanos,
                function,
            },
            PlanModel::Limit { source, limit, offset } => PlanModel::Limit {
                source: Box::new(source.with_predicates(preds)),
                limit,
                offset,
            },
            PlanModel::Window { source, functions, partition_by, value_column } => {
                PlanModel::Window {
                    source: Box::new(source.with_predicates(preds)),
                    functions,
                    partition_by,
                    value_column,
                }
            },
        }
    }
}

/// Fluent query builder.
#[derive(Debug, Clone)]
pub struct QueryBuilder {
    measurement: Option<String>,
    tag_filters: Vec<TagFilter>,
    fields: Vec<String>,
    time_range: Option<TimeRange>,
    aggregate_fns: Vec<AggFn>,
    group_by: Vec<String>,
    downsample: Option<(u128, AggFn)>,
    limit: Option<usize>,
    offset: Option<usize>,
    window_fns: Vec<WindowFn>,
    window_partition_by: Vec<String>,
    window_value_column: Option<String>,
    namespace_id: Option<String>,
    estimated_cardinality: Option<usize>,
}

/// What a builder has been told so far.
#[verifier::ext_equal]
pub struct BuilderModel {
    /// Measurement to query.
    pub measurement: Option<Seq<char>>,
    /// Tag keys and values.
    pub tag_filters: Seq<(Seq<char>, Seq<char>)>,
    /// Columns to return.
    pub fields: Seq<Seq<char>>,
    /// Time range.
    pub time_range: Option<TimeRange>,
    /// Aggregation functions.
    pub aggregate_fns: Seq<AggFn>,
    /// Columns to group by.
    pub group_by: Seq<Seq<char>>,
    /// Bucket interval in nanoseconds, and function.
    pub downsample: Option<(u128, AggFn)>,
    /// Maximum number of rows.
    pub limit: Option<usize>,
    /// Rows to skip.
    pub offset: Option<usize>,
    /// Window functions.
    pub window_fns: Seq<WindowFn>,
    /// Columns to partition by.
    pub window_partition_by: Seq<Seq<char>>,
    /// Value column of the window functions.
    pub window_value_column: Option<Seq<char>>,
    /// Namespace scope.
    pub namespace_id: Option<Seq<char>>,
    /// Estimated number of groups.
    pub estimated_cardinality: Option<usize>,
}

impl View for QueryBuilder {
    type V = BuilderModel;

    closed spec fn view(&self) -> BuilderModel {
        BuilderModel {
            measurement: optional_text(self.measurement),
            tag_filters: self.tag_filters.deep_view(),
            fields: self.fields.deep_view(),
            time_range: self.time_range,
            aggregate_fns: self.aggregate_fns@,
            group_by: self.group_by.deep_view(),
            downsample: self.downsample,
            limit: self.limit,
            offset: self.offset,
            window_fns: self.window_fns@,
            window_partition_by: self.window_partition_by.deep_view(),
            window_value_column: optional_text(self.window_value_column),
            namespace_id: optional_text(self.namespace_id),
            estimated_cardinality: self.estimated_cardinality,
        }
    }
}

/// A builder that has been told nothing.
pub open spec fn empty_query() -> BuilderModel {
    BuilderModel {
        measurement: None,
        tag_filters: Seq::empty(),
        fields: Seq::empty(),
        time_range: None,
        aggregate_fns: Seq::empty(),
        group_by: Seq::empty(),
        downsample: None,
        limit: None,
        offset: None,
        window_fns: Seq::empty(),
        window_partition_by: Seq::empty(),
        window_value_column: None,
        namespace_id: None,
        estimated_cardinality: None,
    }
}

/// Why a query is refused.
pub enum Refusal {
    /// No measurement was named.
    NoMeasurement,
    /// The time range ends before it starts.
    BackwardRange {
        /// Start of the range.
        start: i64,
        /// End of the range.
        end: i64,
    },
    /// Rows are to be skipped, but no limit is set.
    OffsetWithoutLimit,
    /// Both downsampling and aggregation are asked for.
    DownsampleAndAggregate,
}

impl Refusal {
    /// The error under which the refusal is reported.
    pub open spec fn reported_as(self, e: QueryError) -> bool {
        match self {
            Refusal::NoMeasurement => e.is_validation("measurement is required"@),
            Refusal::BackwardRange { start, end } => e == (QueryError::InvalidTimeRange {
                start,
                end,
            }),
            Refusal::OffsetWithoutLimit => e.is_validation(
                "offset requires a limit; set limit() before offset()"@,
            ),
            Refusal::DownsampleAndAggregate => e.is_validation(
                "cannot combine downsample with aggregate functions; use one or the other"@,
            ),
        }
    }
}

impl BuilderModel {
    /// The time range of the query: all of time unless one was set.
    pub open spec fn range_or_all(self) -> TimeRange {
        match self.time_range {
            Some(range) => range,
            None => TimeRange { start: i64::MIN, end: i64::MAX },
        }
    }

    /// Why the query is refused, if it is.
    pub open spec fn refusal(self) -> Option<Refusal> {
        let range = self.range_or_all();
        if self.measurement is None {
            Some(Refusal::NoMeasurement)
        } else if range.start > range.end {
            Some(Refusal::BackwardRange { start: range.start, end: range.end })
        } else if self.offset is Some && self.limit is None {
            Some(Refusal::OffsetWithoutLimit)
        } else if self.downsample is Some && self.aggregate_fns.len() > 0 {
            Some(Refusal::DownsampleAndAggregate)
        } else {
            None
        }
    }

    /// The scan of the query.
    pub open spec fn scan(self) -> PlanModel {
        PlanModel::Scan {
            measurement: self.measurement.unwrap(),
            tag_filters: self.tag_filters,
            projection: self.fields,
            time_range: self.range_or_all(),
            field_predicates: Seq::empty(),
            namespace_id: self.namespace_id,
        }
    }

    /// The scan, downsampled or aggregated if that is asked for.
    pub open spec fn reduced(self) -> PlanModel {
        match self.downsample {
            Some((interval_nanos, function)) => PlanModel::Downsample {
                source: Box::new(self.scan()),
                interval_nanos,
                function,
            },
            None => if self.aggregate_fns.len() > 0 {
                PlanModel::Aggregate {
                    source: Box::new(self.scan()),
                    functions: self.aggregate_fns,
                    group_by: self.group_by,
                    estimated_cardinality: self.estimated_cardinality,
                }
            } else {
                self.scan()
            },
        }
    }

    /// The column that window functions read: the one that was set, or else the
    /// first field of the projection. A plan that projects no field by name
    /// reads `value`.
    pub open spec fn value_column(self) -> Seq<char> {
        match self.window_value_column {
            Some(column) => column,
            None => if self.fields.len() > 0 {
                self.fields[0]
            } else {
                "value"@
            },
        }
    }

    /// The window functions on top of that, if there are any.
    pub open spec fn windowed(self) -> PlanModel {
        if self.window_fns.len() > 0 {
            PlanModel::Window {
                source: Box::new(self.reduced()),
                functions: self.window_fns,
                partition_by: self.window_partition_by,
                value_column: self.value_column(),
            }
        } else {
            self.reduced()
        }
    }

    /// The whole plan: the limit goes on top.
    pub open spec fn plan(self) -> PlanModel {
        match self.limit {
            Some(limit) => PlanModel::Limit {
                source: Box::new(self.windowed()),
                limit,
                offset: match self.offset {
                    Some(offset) => offset,
                    None => 0,
                },
            },
            None => self.windowed(),
        }
    }
}

/// Copies of a list of texts.
pub fn owned_texts(list: &[&str]) -> (r: Vec<String>)
    ensures
        r.deep_view() == texts(list@),
{
    let mut out: Vec<String> = Vec::new();
    let mut i: usize = 0;
    while i < list.len()
        invariant
            i <= list.len(),
            out.len() == i,
            forall|j: int| 0 <= j < i ==> (#[trigger] out@[j])@ == list@[j]@,
        decreases list.len() - i,
    {
        out.push(list[i].to_owned());
        i = i + 1;
    }
    assert(out.deep_view() =~= texts(list@));
    out
}

/// A nanosecond count, or the largest timestamp if it does not fit one.
pub open spec fn clamped_nanos(nanos: u128) -> i64 {
    if nanos <= i64::MAX {
        nanos as i64
    } else {
        i64::MAX
    }
}

/// `end - span`, or the smallest timestamp if that does not fit one.
pub open spec fn start_of_last(end: i64, nanos: u128) -> i64 {
    if end - clamped_nanos(nanos) >= i64::MIN {
        (end - clamped_nanos(nanos)) as i64
    } else {
        i64::MIN
    }
}

fn clamp_nanos(nanos: u128) -> (r: i64)
    ensures
        r == clamped_nanos(nanos),
{
    if nanos <= i64::MAX as u128 {
        nanos as i64
    } else {
        i64::MAX
    }
}

impl QueryBuilder {
    /// Create a new empty query builder.
    pub fn new() -> (r: Self)
        ensures
            r@ == empty_query(),
    {
        let r = QueryBuilder {
            measurement: None,
            tag_filters: Vec::new(),
            fields: Vec::new(),
            time_range: None,
            aggregate_fns: Vec::new(),
            group_by: Vec::new(),
            downsample: None,
            limit: None,
            offset: None,
            window_fns: Vec::new(),
            window_partition_by: Vec::new(),
            window_value_column: None,
            namespace_id: None,
            estimated_cardinality: None,
        };
        assert(r@ =~= empty_query());
        r
    }

    /// Set the measurement to query.
    pub fn measurement(self, name: &str) -> (r: Self)
        ensures
            r@ == (BuilderModel { measurement: Some(name@), ..self@ }),
    {
        QueryBuilder { measurement: Some(name.to_owned()), ..self }
    }

    /// Add a tag equality filter.
    pub fn tag(self, key: &str, value: &str) -> (r: Self)
        ensures
            r@ == (BuilderModel { tag_filters: self@.tag_filters.push((key@, value@)), ..self@ }),
    {
        let ghost before = self@;
        let mut r = self;
        r.tag_filters.push(TagFilter { key: key.to_owned(), value: value.to_owned() });
        assert(r.tag_filters.deep_view() =~= before.tag_filters.push((key@, value@)));
        r
    }

    /// Add multiple tag equality filters.
    pub fn tags(self, tags: &[(&str, &str)]) -> (r: Self)
        ensures
            r@ == (BuilderModel {
                tag_filters: self@.tag_filters + tags@.map_values(
                    |t: (&str, &str)| (t.0@, t.1@),
                ),
                ..self@
            }),
    {
        let ghost before = self@;
        let ghost pairs = tags@.map_values(|t: (&str, &str)| (t.0@, t.1@));
        let mut r = self;
        let mut i: usize = 0;
        while i < tags.len()
            invariant
                i <= tags.len(),
                pairs == tags@.map_values(|t: (&str, &str)| (t.0@, t.1@)),
                r@ == (BuilderModel { tag_filters: before.tag_filters + pairs.take(i as int), ..before
                }),
            decreases tags.len() - i,
        {
            r = r.tag(tags[i].0, tags[i].1);
            proof {
                assert((before.tag_filters + pairs.take(i as int)).push(pairs[i as int])
                    =~= before.tag_filters + pairs.take(i + 1));
            }
            i = i + 1;
        }
        assert(pairs.take(tags.len() as int) =~= pairs);
        r
    }

    /// Add a field to the projection (select only these columns).
    pub fn field(self, name: &str) -> (r: Self)
        ensures
            r@ == (BuilderModel { fields: self@.fields.push(name@), ..self@ }),
    {
        let ghost before = self@;
        let mut r = self;
        r.fields.push(name.to_owned());
        assert(r.fields.deep_view() =~= before.fields.push(name@));
        r
    }

    /// Add multiple fields to the projection.
    pub fn fields(self, names: &[&str]) -> (r: Self)
        ensures
            r@ == (BuilderModel { fields: self@.fields + texts(names@), ..self@ }),
    {
        let ghost before = self@;
        let ghost list = texts(names@);
        let mut r = self;
        let mut i: usize = 0;
        while i < names.len()
            invariant
                i <= names.len(),
                list == texts(names@),
                r@ == (BuilderModel { fields: before.fields + list.take(i as int), ..before }),
            decreases names.len() - i,
        {
            r = r.field(names[i]);
            proof {
                assert((before.fields + list.take(i as int)).push(list[i as int]) =~= before.fields
                    + list.take(i + 1));
            }
            i = i + 1;
        }
        assert(list.take(names.len() as int) =~= list);
        r
    }

    /// Set the time range filter.
    pub fn range(self, start: i64, end: i64) -> (r: Self)
        ensures
            r@ == (BuilderModel { time_range: Some(TimeRange { start, end }), ..self@ }),
    {
        QueryBuilder { time_range: Some(TimeRange { start, end }), ..self }
    }

    /// Set the time range to the last `nanos` nanoseconds from now.
    ///
    /// Uses the current system time as the end point.
    pub fn last(self, nanos: u128) -> (r: Self)
        ensures
            exists|now: i64|
                r@ == (BuilderModel {
                    time_range: Some(#[trigger] last_range(nanos, now)),
                    ..self@
                }),
    {
        let now: i64 = clamp_nanos(unix_nanos());
        let r = self.last_until(nanos, now);
        assert(r@.time_range == Some(last_range(nanos, now)));
        r
    }

    /// Set the time range to the `nanos` nanoseconds before `now`.
    pub fn last_until(self, nanos: u128, now: i64) -> (r: Self)
        ensures
            r@ == (BuilderModel { time_range: Some(last_range(nanos, now)), ..self@ }),
    {
        let span: i64 = clamp_nanos(nanos);
        let start: i64 = match now.checked_sub(span) {
            Some(start) => start,
            None => i64::MIN,
        };
        self.range(start, now)
    }

    /// Add an aggregation function.
    pub fn aggregate(self, function: AggFn) -> (r: Self)
        ensures
            r@ == (BuilderModel { aggregate_fns: self@.aggregate_fns.push(function), ..self@ }),
    {
        let mut r = self;
        r.aggregate_fns.push(function);
        r
    }

    /// Set the group-by columns for aggregation.
    pub fn group_by(self, columns: &[&str]) -> (r: Self)
        ensures
            r@ == (BuilderModel { group_by: texts(columns@), ..self@ }),
    {
        QueryBuilder { group_by: owned_texts(columns), ..self }
    }

    /// Set the estimated group-key cardinality.
    pub fn estimated_cardinality(self, cardinality: usize) -> (r: Self)
        ensures
            r@ == (BuilderModel { estimated_cardinality: Some(cardinality), ..self@ }),
    {
        QueryBuilder { estimated_cardinality: Some(cardinality), ..self }
    }

    /// Bucket results into fixed spans of `interval_nanos`, aligned to the
    /// Unix epoch in UTC.
    pub fn downsample(self, interval_nanos: u128, function: AggFn) -> (r: Self)
        ensures
            r@ == (BuilderModel { downsample: Some((interval_nanos, function)), ..self@ }),
    {
        QueryBuilder { downsample: Some((interval_nanos, function)), ..self }
    }

    /// Limit the number of returned rows.
    pub fn limit(self, n: usize) -> (r: Self)
        ensures
            r@ == (BuilderModel { limit: Some(n), ..self@ }),
    {
        QueryBuilder { limit: Some(n), ..self }
    }

    /// Skip the first `n` rows before returning results.
    ///
    /// Must be used together with `limit`.
    pub fn offset(self, n: usize) -> (r: Self)
        ensures
            r@ == (BuilderModel { offset: Some(n), ..self@ }),
    {
        QueryBuilder { offset: Some(n), ..self }
    }

    /// Add a window function.
    pub fn window(self, func: WindowFn) -> (r: Self)
        ensures
            r@ == (BuilderModel { window_fns: self@.window_fns.push(func), ..self@ }),
    {
        let mut r = self;
        r.window_fns.push(func);
        r
    }

    /// Set the partition-by columns for window functions.
    pub fn window_partition_by(self, columns: &[&str]) -> (r: Self)
        ensures
            r@ == (BuilderModel { window_partition_by: texts(columns@), ..self@ }),
    {
        QueryBuilder { window_partition_by: owned_texts(columns), ..self }
    }

    /// Set the value column for window functions.
    ///
    /// If not set, the first field of the projection is used, or the column
    /// `value` where no field is projected by name.
    pub fn window_value_column(self, column: &str) -> (r: Self)
        ensures
            r@ == (BuilderModel { window_value_column: Some(column@), ..self@ }),
    {
        QueryBuilder { window_value_column: Some(column.to_owned()), ..self }
    }

    /// Set the namespace scope for tenant isolation.
    ///
    /// This embeds the namespace structurally in the query plan and injects
    /// the namespace tag filter.
    pub fn namespace(self, ns: &str) -> (r: Self)
        ensures
            r@ == (BuilderModel {
                tag_filters: self@.tag_filters.push((namespace_tag(), ns@)),
                namespace_id: Some(ns@),
                ..self@
            }),
    {
        let r = self.tag("__namespace__", ns);
        QueryBuilder { namespace_id: Some(ns.to_owned()), ..r }
    }

    /// Apply an optional namespace scope.
    ///
    /// `None` means no tenancy: points carry no namespace tag, and a filter on
    /// one would match nothing.
    pub fn namespace_scope(self, ns: Option<&str>) -> (r: Self)
        ensures
            match ns {
                Some(ns) => r@ == (BuilderModel {
                    tag_filters: self@.tag_filters.push((namespace_tag(), ns@)),
                    namespace_id: Some(ns@),
                    ..self@
                }),
                None => r@ == self@,
            },
    {
        match ns {
            Some(ns) => self.namespace(ns),
            None => self,
        }
    }

    /// Build and validate the query plan.
    pub fn build(self) -> (r: Result<QueryPlan, QueryError>)
        ensures
            match self@.refusal() {
                None => r matches Ok(plan) && plan.model() == self@.plan(),
                Some(refusal) => r matches Err(e) && refusal.reported_as(e),
            },
    {
        let ghost told = self@;
        let measurement = match self.measurement {
            Some(name) => name,
            None => {
                return Err(invalid("measurement is required"));
            },
        };
        let time_range = match self.time_range {
            Some(range) => range,
            None => TimeRange { start: i64::MIN, end: i64::MAX },
        };
        if time_range.start > time_range.end {
            return Err(
                QueryError::InvalidTimeRange { start: time_range.start, end: time_range.end },
            );
        }
        if self.offset.is_some() && self.limit.is_none() {
            return Err(invalid("offset requires a limit; set limit() before offset()"));
        }
        let value_column = match self.window_value_column {
            Some(column) => column,
            None => if self.fields.len() > 0 {
                self.fields[0].as_str().to_owned()
            } else {
                "value".to_owned()
            },
        };
        assert(value_column@ == told.value_column());
        let scan = QueryPlan::Scan {
            measurement,
            tag_filters: self.tag_filters,
            projection: self.fields,
            time_range,
            field_predicates: Vec::new(),
            namespace_id: self.namespace_id,
        };
        assert(scan.model() =~= told.scan());
        if self.downsample.is_some() && self.aggregate_fns.len() > 0 {
            return Err(
                invalid(
                    "cannot combine downsample with aggregate functions; use one or the other",
                ),
            );
        }
        let reduced = match self.downsample {
            Some((interval_nanos, function)) => QueryPlan::Downsample {
                source: Box::new(scan),
                interval_nanos,
                function,
            },
            None => if self.aggregate_fns.len() > 0 {
                QueryPlan::Aggregate {
                    source: Box::new(scan),
                    functions: self.aggregate_fns,
                    group_by: self.group_by,
                    estimated_cardinality: self.estimated_cardinality,
                }
            } else {
                scan
            },
        };
        assert(reduced.model() == told.reduced());
        let windowed = if self.window_fns.len() > 0 {
            QueryPlan::Window {
                source: Box::new(reduced),
                functions: self.window_fns,
                partition_by: self.window_partition_by,
                value_column,
            }
        } else {
            reduced
        };
        assert(windowed.model() == told.windowed());
        let plan = match self.limit {
            Some(limit) => QueryPlan::Limit {
                source: Box::new(windowed),
                limit,
                offset: match self.offset {
                    Some(offset) => offset,
                    None => 0,
                },
            },
            None => windowed,
        };
        assert(plan.model() == told.plan());
        Ok(plan)
    }
}

/// The range of the `nanos` nanoseconds before `now`.
pub open spec fn last_range(nanos: u128, now: i64) -> TimeRange {
    TimeRange { start: start_of_last(now, nanos), end: now }
}

impl Default for QueryBuilder {
    fn default() -> (r: Self)
        ensures
            r@ == empty_query(),
    {
        Self::new()
    }
}

/// Extract the scan parameters from a query plan.
///
/// Works through the plans on top to find the underlying scan.
pub fn extract_scan(plan: &QueryPlan) -> (r: Option<
    (&str, &[TagFilter], &[String], &TimeRange),
>)
    ensures
        r matches Some((name, tags, columns, range)) && plan.model().scan() matches PlanModel::Scan {
            measurement,
            tag_filters,
            projection,
            time_range,
            ..
        } && name@ == measurement && tags.deep_view() == tag_filters && columns.deep_view()
            == projection && *range == time_range,
    decreases plan,
{
    match plan {
        QueryPlan::Scan { measurement, tag_filters, projection, time_range, .. } => {
            assert(tag_filters.deep_view() =~= tag_filters@.map_values(|t: TagFilter| t.deep_view()));
            Some(
                (measurement.as_str(), tag_filters.as_slice(), projection.as_slice(), time_range),
            )
        },
        QueryPlan::Aggregate { source, .. } => extract_scan(source),
        QueryPlan::Downsample { source, .. } => extract_scan(source),
        QueryPlan::Limit { source, .. } => extract_scan(source),
        QueryPlan::Window { source, .. } => extract_scan(source),
    }
}

/// Extract the namespace scope from the underlying scan.
///
/// `None` unless the query was built with a namespace.
pub fn extract_namespace(plan: &QueryPlan) -> (r: Option<&str>)
    ensures
        plan.model().scan() matches PlanModel::Scan { namespace_id, .. } && match r {
            Some(ns) => namespace_id == Some(ns@),
            None => namespace_id is None,
        },
    decreases plan,
{
    match plan {
        QueryPlan::Scan { namespace_id, .. } => match namespace_id {
            Some(ns) => Some(ns.as_str()),
            None => None,
        },
        QueryPlan::Aggregate { source, .. } => extract_namespace(source),
        QueryPlan::Downsample { source, .. } => extract_namespace(source),
        QueryPlan::Limit { source, .. } => extract_namespace(source),
        QueryPlan::Window { source, .. } => extract_namespace(source),
    }
}

/// Extract zone-map field predicates from the underlying scan.
pub fn extract_field_predicates(plan: &QueryPlan) -> (r: &[FieldPredicate])
    ensures
        plan.model().scan() matches PlanModel::Scan { field_predicates, .. } && r@
            == field_predicates,
    decreases plan,
{
    match plan {
        QueryPlan::Scan { field_predicates, .. } => field_predicates.as_slice(),
        QueryPlan::Aggregate { source, .. } => extract_field_predicates(source),
        QueryPlan::Downsample { source, .. } => extract_field_predicates(source),
        QueryPlan::Limit { source, .. } => extract_field_predicates(source),
        QueryPlan::Window { source, .. } => extract_field_predicates(source),
    }
}

/// Set zone-map field predicates on the underlying scan.
pub fn set_field_predicates(plan: &mut QueryPlan, preds: Vec<FieldPredicate>)
    ensures
        final(plan).model() == old(plan).model().with_predicates(preds@),
    decreases *old(plan),
{
    match plan {
        QueryPlan::Scan { field_predicates, .. } => {
            *field_predicates = preds;
        },
        QueryPlan::Aggregate { source, .. } => {
            set_field_predicates(source, preds);
        },
        QueryPlan::Downsample { source, .. } => {
            set_field_predicates(source, preds);
        },
        QueryPlan::Limit { source, .. } => {
            set_field_predicates(source, preds);
        },
        QueryPlan::Window { source, .. } => {
            set_field_predicates(source, preds);
        },
    }
}

/// Predicates that were set are the ones extracted, and setting them changes
/// nothing else about the scan.
pub proof fn set_predicates_are_extracted(plan: PlanModel, preds: Seq<FieldPredicate>)
    ensures
        plan.with_predicates(preds).scan() == plan.scan().with_predicates(preds),
        plan.with_predicates(preds).scan() matches PlanModel::Scan { field_predicates, .. }
            && field_predicates == preds,
    decreases plan,
{
    match plan {
        PlanModel::Scan { .. } => {},
        PlanModel::Aggregate { source, .. } => set_predicates_are_extracted(*source, preds),
        PlanModel::Downsample { source, .. } => set_predicates_are_extracted(*source, preds),
        PlanModel::Limit { source, .. } => set_predicates_are_extracted(*source, preds),
        PlanModel::Window { source, .. } => set_predicates_are_extracted(*source, preds),
    }
}

/// Whatever is put on top of it, the scan of a plan that was built is the one
/// that the builder was told of.
pub proof fn a_built_plan_scans_what_was_asked(told: BuilderModel)
    ensures
        told.plan().scan() == told.scan(),
{
    reveal_with_fuel(PlanModel::scan, 4);
}

/// A query in a namespace scans only rows that carry the namespace's tag.
pub proof fn a_namespace_is_also_a_tag_filter(told: BuilderModel, ns: Seq<char>)
    ensures
        ({
            let scoped = BuilderModel {
                tag_filters: told.tag_filters.push((namespace_tag(), ns)),
                namespace_id: Some(ns),
                ..told
            };
            scoped.plan().scan() matches PlanModel::Scan { tag_filters, namespace_id, .. }
                && namespace_id == Some(ns) && tag_filters.contains((namespace_tag(), ns))
        }),
{
    let scoped = BuilderModel {
        tag_filters: told.tag_filters.push((namespace_tag(), ns)),
        namespace_id: Some(ns),
        ..told
    };
    a_built_plan_scans_what_was_asked(scoped);
    let n = told.tag_filters.len() as int;
    assert(scoped.tag_filters[n] == (namespace_tag(), ns));
}

} // verus!
