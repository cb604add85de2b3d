//! What a query builder's plan holds of what the builder was told.
use vstd::prelude::*;

#[allow(unused_imports)]
use crate::query::plan::{
    empty_query, last_range, BuilderModel, FieldPredicate, PlanModel, QueryPlan, Refusal,
};

verus! {

/// The plan below a limit, where there is one on top.
pub open spec fn below_limit(plan: QueryPlan) -> QueryPlan {
    match plan {
        QueryPlan::Limit { source, .. } => *source,
        _ => plan,
    }
}

/// The plan below the window functions, where there are any on top.
pub open spec fn below_window(plan: QueryPlan) -> QueryPlan {
    match plan {
        QueryPlan::Window { source, .. } => *source,
        _ => plan,
    }
}

/// The plan below a reduction, where there is one on top.
pub open spec fn below_reduction(plan: QueryPlan) -> QueryPlan {
    match plan {
        QueryPlan::Aggregate { source, .. } => *source,
        QueryPlan::Downsample { source, .. } => *source,
        _ => plan,
    }
}

proof fn lemma_levels(told: BuilderModel, plan: QueryPlan)
    requires
        plan.model() == told.plan(),
    ensures
        below_limit(plan).model() == told.windowed(),
        below_window(below_limit(plan)).model() == told.reduced(),
        below_reduction(below_window(below_limit(plan))).model() == told.scan(),
{
    reveal_with_fuel(QueryPlan::model, 4);
    let first = below_limit(plan);
    assert(first.model() == told.windowed());
    let second = below_window(first);
    assert(second.model() == told.reduced());
    let third = below_reduction(second);
    assert(third.model() == told.scan());
}

/// A limit stands on top of the plan just if one was told, and skips as many
/// rows as were told, or none.
pub proof fn a_limit_goes_on_top(told: BuilderModel, plan: QueryPlan)
    requires
        plan.model() == told.plan(),
    ensures
        plan is Limit <==> told.limit is Some,
        plan matches QueryPlan::Limit { limit, offset, .. } ==> told.limit == Some(limit) && (
        told.offset is None ==> offset == 0) && (told.offset matches Some(n) ==> offset == n),
        !(below_limit(plan) is Limit),
{
    lemma_levels(told, plan);
}

/// Window functions stand below the limit just if some were told: these, over
/// the partitions that were told. They read the column that was told, or else
/// the first field told.
pub proof fn windows_are_those_told(told: BuilderModel, plan: QueryPlan)
    requires
        plan.model() == told.plan(),
    ensures
        below_limit(plan) is Window <==> told.window_fns.len() > 0,
        below_limit(plan) matches QueryPlan::Window {
            functions,
            partition_by,
            value_column,
            ..
        } ==> {
            &&& functions@ == told.window_fns
            &&& partition_by.deep_view() == told.window_partition_by
            &&& told.window_value_column matches Some(name) ==> value_column@ == name
            &&& told.window_value_column is None && told.fields.len() > 0 ==> value_column@
                == told.fields[0]
            &&& told.window_value_column is None && told.fields.len() == 0 ==> value_column@
                == "value"@
        },
        !(below_window(below_limit(plan)) is Window),
{
    lemma_levels(told, plan);
}

/// Whatever is put on top of it, an aggregation stands in the plan just if
/// functions were told and no downsampling: with these functions, by the
/// columns told, and with the cardinality told.
pub proof fn an_aggregation_is_the_one_told(told: BuilderModel, plan: QueryPlan)
    requires
        plan.model() == told.plan(),
    ensures
        ({
            let reduced = below_window(below_limit(plan));
            &&& reduced is Aggregate <==> told.downsample is None && told.aggregate_fns.len() > 0
            &&& reduced matches QueryPlan::Aggregate {
                functions,
                group_by,
                estimated_cardinality,
                ..
            } ==> {
                &&& functions@ == told.aggregate_fns
                &&& group_by.deep_view() == told.group_by
                &&& estimated_cardinality == told.estimated_cardinality
            }
        }),
{
    lemma_levels(told, plan);
}

/// Whatever is put on top of it, a downsampling stands in the plan just if one
/// was told, with its interval and its function.
pub proof fn a_downsampling_is_the_one_told(told: BuilderModel, plan: QueryPlan)
    requires
        plan.model() == told.plan(),
    ensures
        ({
            let reduced = below_window(below_limit(plan));
            &&& reduced is Downsample <==> told.downsample is Some
            &&& reduced matches QueryPlan::Downsample { interval_nanos, function, .. }
                ==> told.downsample == Some((interval_nanos, function))
        }),
{
    lemma_levels(told, plan);
}

/// At the bottom stands a scan of the measurement told, with the tag filters,
/// fields, range and namespace told. All of time is scanned where no range was
/// told, and no predicate is set yet.
pub proof fn a_scan_is_of_what_was_told(told: BuilderModel, plan: QueryPlan)
    requires
        plan.model() == told.plan(),
        told.refusal() is None,
    ensures
        below_reduction(below_window(below_limit(plan))) matches QueryPlan::Scan {
            measurement,
            tag_filters,
            projection,
            time_range,
            field_predicates,
            namespace_id,
        } && {
            &&& told.measurement == Some(measurement@)
            &&& tag_filters.deep_view() == told.tag_filters
            &&& projection.deep_view() == told.fields
            &&& told.time_range matches Some(range) ==> time_range == range
            &&& told.time_range is None ==> time_range.start == i64::MIN && time_range.end
                == i64::MAX
            &&& field_predicates@.len() == 0
            &&& told.namespace_id is None <==> namespace_id is None
            &&& namespace_id matches Some(ns) ==> told.namespace_id == Some(ns@)
        },
{
    lemma_levels(told, plan);
}

/// A query is refused just if it names no measurement, its range ends before it
/// starts, it skips rows without a limit, or it asks for both downsampling and
/// aggregation; the first of these that holds is the one reported.
pub proof fn just_these_queries_are_refused(told: BuilderModel)
    ensures
        ({
            let backward = told.time_range matches Some(range) && range.start > range.end;
            let skips = told.offset is Some && told.limit is None;
            let both = told.downsample is Some && told.aggregate_fns.len() > 0;
            &&& told.refusal() is None <==> told.measurement is Some && !backward && !skips && !both
            &&& told.refusal() == Some(Refusal::NoMeasurement) <==> told.measurement is None
            &&& told.measurement is Some && backward ==> told.refusal() == Some(
                Refusal::BackwardRange {
                    start: told.time_range.unwrap().start,
                    end: told.time_range.unwrap().end,
                },
            )
            &&& told.measurement is Some && !backward && skips ==> told.refusal()
                == Some(Refusal::OffsetWithoutLimit)
            &&& told.measurement is Some && !backward && !skips && both ==> told.refusal()
                == Some(Refusal::DownsampleAndAggregate)
        }),
{
}

/// The last so many nanoseconds end now and are so many, unless that many do not
/// fit before now.
pub proof fn the_last_span_ends_now(nanos: u128, now: i64)
    ensures
        last_range(nanos, now).end == now,
        last_range(nanos, now).start <= now,
        now - nanos >= i64::MIN && nanos <= i64::MAX ==> now - last_range(nanos, now).start
            == nanos,
        nanos <= i64::MAX && now - nanos < i64::MIN ==> last_range(nanos, now).start == i64::MIN,
        nanos > i64::MAX ==> now - last_range(nanos, now).start == i64::MAX || last_range(
            nanos,
            now,
        ).start == i64::MIN,
{
}

/// Predicates that are set are those of the scan; nothing else of the plan
/// changes, and setting others replaces them.
pub proof fn setting_predicates_keeps_the_rest(
    plan: PlanModel,
    preds: Seq<FieldPredicate>,
    others: Seq<FieldPredicate>,
)
    ensures
        plan.with_predicates(preds).scan() matches PlanModel::Scan { field_predicates, .. }
            && field_predicates == preds,
        plan.with_predicates(preds).with_predicates(others) == plan.with_predicates(others),
        plan.scan() matches PlanModel::Scan { field_predicates, .. } && plan.with_predicates(
            field_predicates,
        ) == plan,
    decreases plan,
{
    match plan {
        PlanModel::Scan { .. } => {},
        PlanModel::Aggregate { source, .. } => setting_predicates_keeps_the_rest(
            *source,
            preds,
            others,
        ),
        PlanModel::Downsample { source, .. } => setting_predicates_keeps_the_rest(
            *source,
            preds,
            others,
        ),
        PlanModel::Limit { source, .. } => setting_predicates_keeps_the_rest(
            *source,
            preds,
            others,
        ),
        PlanModel::Window { source, .. } => setting_predicates_keeps_the_rest(
            *source,
            preds,
            others,
        ),
    }
}

/// The scan of a plan is what its lowest node reads, whatever stands above it.
pub proof fn the_scan_is_at_the_bottom(plan: QueryPlan)
    ensures
        plan matches QueryPlan::Scan {
            measurement,
            tag_filters,
            projection,
            time_range,
            field_predicates,
            namespace_id,
        } ==> (plan.model().scan() matches PlanModel::Scan {
            measurement: name,
            tag_filters: tags,
            projection: columns,
            time_range: range,
            field_predicates: preds,
            namespace_id: ns,
        } && name == measurement@ && tags == tag_filters.deep_view() && columns
            == projection.deep_view() && range == time_range && preds == field_predicates@ && (
        namespace_id matches Some(id) ==> ns == Some(id@)) && (namespace_id is None
            ==> ns is None)),
        plan matches QueryPlan::Aggregate { source, .. } ==> plan.model().scan()
            == source.model().scan(),
        plan matches QueryPlan::Downsample { source, .. } ==> plan.model().scan()
            == source.model().scan(),
        plan matches QueryPlan::Limit { source, .. } ==> plan.model().scan()
            == source.model().scan(),
        plan matches QueryPlan::Window { source, .. } ==> plan.model().scan()
            == source.model().scan(),
{
}

/// A query that was told no more than a measurement reads all of it: every
/// series, every column and all of time.
pub proof fn a_bare_query_reads_everything(name: Seq<char>)
    ensures
        ({
            let told = BuilderModel { measurement: Some(name), ..empty_query() };
            &&& told.refusal() is None
            &&& told.plan() matches PlanModel::Scan {
                measurement,
                tag_filters,
                projection,
                time_range,
                field_predicates,
                namespace_id,
            } && measurement == name && tag_filters.len() == 0 && projection.len() == 0
                && time_range.start == i64::MIN && time_range.end == i64::MAX
                && field_predicates.len() == 0 && namespace_id is None
        }),
{
}

} // verus!
