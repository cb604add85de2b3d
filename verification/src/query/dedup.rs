//! K-way merge deduplication for overlapping segments.
//!
//! When segments overlap in time, their rows must be merged and deduplicated.
//! The last write wins: of rows with the same series and timestamp, only that
//! of the latest batch is kept, and within a batch the last.
//!
//! Every batch is sorted by timestamp, hash of the series and number of the
//! series, and the sorted batches are merged. The hash only orders the rows: the
//! canonical form of the series decides whether two rows are duplicates, so a
//! collision of hashes loses nothing.
use vstd::prelude::*;
use vstd::string::*;

use crate::duplicate::Duplicate;
#[allow(unused_imports)]
use crate::query::batch::{BatchModel, CellModel, FieldModel};
use crate::query::batch::{Batch, ColumnField, ColumnKind};
use crate::query::error::{invalid, QueryError};
use crate::query::filter::read_integers;
#[allow(unused_imports)]
use crate::query::filter::{integers, time_at};
#[allow(unused_imports)]
use crate::query::frame::all_rows;
#[allow(unused_imports)]
use crate::query::grouping::{account, charged};
use crate::query::memory::MemoryTracker;
use crate::query::merge::{merge_runs, MergeKey};
#[allow(unused_imports)]
use crate::query::merge::{
    has_key, is_merge, is_newer, is_newest, is_place, is_run, key_at, key_before, merging_is_unique,
    one_ascending_list, places_of, runs_of, time_before,
};
use crate::query::merge_keys::number_batches;
#[allow(unused_imports)]
use crate::query::merge_keys::{duplicates_share_time_and_series, merge_keys, total_rows};
use crate::query::output::charge_result;
#[allow(unused_imports)]
use crate::query::output::{all_fit, exceeds, settles, settles_parts, spent};
use crate::query::order::{sort_rows, RowOrder};
#[allow(unused_imports)]
use crate::query::order::{holds_row, stably_before};
use crate::query::run_order::sort_keys;
#[allow(unused_imports)]
use crate::query::run_order::{
    is_key_order, lemma_is_run, reordered, rows_of, sorting_does_not_change_the_merge, MAX_ROWS,
};
#[allow(unused_imports)]
use crate::query::series::time_column;
use crate::query::series::time_column_name;
#[allow(unused_imports)]
use crate::query::tags::{numbers_of, row_series};
use crate::query::union::{align_batch, build_union_schema, materialize_chunk, resolve_tag_columns};
#[allow(unused_imports)]
use crate::query::union::{
    aligned, fits_schema, gathered, is_row, models_of, share_schema, tag_fields,
    the_union_holds_every_column, union_fields,
};

verus! {

broadcast use vstd::string::group_string_axioms;

/// The list in parts of `size` elements; the last part holds what is left.
pub open spec fn chunks<A>(list: Seq<A>, size: nat) -> Seq<Seq<A>>
    decreases list.len(),
{
    if list.len() == 0 {
        Seq::empty()
    } else if size == 0 || list.len() <= size {
        seq![list]
    } else {
        seq![list.take(size as int)] + chunks(list.skip(size as int), size)
    }
}

/// Chunks hold everything, in order; none is empty; all but the last are full,
/// and the last is no larger.
pub proof fn chunks_hold_everything<A>(list: Seq<A>, size: nat)
    requires
        size > 0,
    ensures
        chunks(list, size).flatten() == list,
        forall|i: int|
            0 <= i < chunks(list, size).len() ==> 0 < (#[trigger] chunks(list, size)[i]).len()
                <= size,
        forall|i: int|
            0 <= i < chunks(list, size).len() - 1 ==> (#[trigger] chunks(list, size)[i]).len()
                == size,
    decreases list.len(),
{
    let parts = chunks(list, size);
    if list.len() == 0 {
        assert(parts.flatten() =~= list);
    } else if list.len() <= size {
        assert(parts.drop_first() =~= Seq::empty());
        assert(parts.drop_first().flatten() =~= Seq::empty());
        assert(parts.flatten() =~= list);
    } else {
        let rest = list.skip(size as int);
        chunks_hold_everything(rest, size);
        assert(parts.drop_first() =~= chunks(rest, size));
        assert(parts.first() == list.take(size as int));
        assert(parts.flatten() =~= list.take(size as int) + rest);
        assert(list.take(size as int) + rest =~= list);
        assert forall|i: int| 1 <= i < parts.len() implies #[trigger] parts[i] == chunks(
            rest,
            size,
        )[i - 1] by {}
    }
}

/// The batches brought to their common schema.
pub open spec fn aligned_all(batches: Seq<BatchModel>) -> Seq<BatchModel> {
    batches.map_values(|batch: BatchModel| aligned(batch, union_fields(batches)))
}

/// The merge keys of the rows of all batches.
pub open spec fn keys_for(batches: Seq<BatchModel>, measurement: Seq<char>) -> Seq<Seq<MergeKey>> {
    merge_keys(aligned_all(batches), measurement, tag_fields(union_fields(batches)))
}

/// What a merge keeps.
pub open spec fn merged(runs: Seq<Seq<MergeKey>>) -> Seq<(int, int)> {
    choose|places: Seq<(int, int)>| is_merge(runs, places)
}

/// The rows that are kept, each given by its batch and its number.
pub open spec fn merged_rows(batches: Seq<BatchModel>, measurement: Seq<char>) -> Seq<(int, int)> {
    merged(keys_for(batches, measurement))
}

/// The rows that are kept, as a batch.
pub open spec fn merged_batch(batches: Seq<BatchModel>, measurement: Seq<char>) -> BatchModel {
    gathered(
        aligned_all(batches),
        union_fields(batches),
        merged_rows(batches, measurement),
    )
}

/// The bytes that a merge is expected to take.
pub open spec fn estimate(batches: Seq<BatchModel>) -> nat {
    total_rows(batches) * (union_fields(batches).len() * 8 + 16)
}

/// Why batches cannot be merged.
pub enum MergeFailure {
    /// There are none.
    NoBatches,
    /// The memory budget does not allow for it.
    OverBudget,
    /// A column has different types in different batches.
    TypesDiffer,
    /// There is no time column.
    NoTime,
    /// The time column does not hold integers.
    TimeIsNotInteger,
}

/// Why several batches cannot be merged, if they cannot.
pub open spec fn merge_failure(
    batches: Seq<BatchModel>,
    account: Option<(int, int)>,
) -> Option<MergeFailure> {
    let fields = union_fields(batches);
    if account matches Some((used, limit)) && used + estimate(batches) > limit {
        Some(MergeFailure::OverBudget)
    } else if exists|b: int|
        0 <= b < batches.len() && !fits_schema(#[trigger] batches[b], fields) {
        Some(MergeFailure::TypesDiffer)
    } else if total_rows(batches) == 0 {
        None
    } else {
        match aligned(batches[0], fields).index_of(time_column()) {
            None => Some(MergeFailure::NoTime),
            Some(c) => if fields[c].kind == ColumnKind::Int64 {
                None
            } else {
                Some(MergeFailure::TimeIsNotInteger)
            },
        }
    }
}

impl MergeFailure {
    /// The error under which the failure is reported.
    pub open spec fn reported_as(
        self,
        e: QueryError,
        batches: Seq<BatchModel>,
        account: Option<(int, int)>,
    ) -> bool {
        match self {
            MergeFailure::NoBatches => e.is_validation("no batches to deduplicate"@),
            MergeFailure::OverBudget => {
                &&& e matches QueryError::QueryMemoryExceeded { requested, allocated, budget }
                &&& requested == estimate(batches)
                &&& Some((allocated as int, budget as int)) == account
            },
            MergeFailure::TypesDiffer => e is Arrow,
            MergeFailure::NoTime => e.is_validation("'timestamp' column not found"@),
            MergeFailure::TimeIsNotInteger => e.is_validation("timestamp column must be Int64"@),
        }
    }
}

/// What the account shows after the merge was charged, or refused.
pub open spec fn account_after(batches: Seq<BatchModel>, account: Option<(int, int)>) -> Option<
    (int, int),
> {
    if merge_failure(batches, account) == Some(MergeFailure::OverBudget) {
        account
    } else {
        charged(account, estimate(batches) as int)
    }
}

/// The batches are within what the machine can count: the rows of each can be
/// numbered for a sort, and the estimate, where it is needed, fits.
pub open spec fn can_be_merged(batches: Seq<BatchModel>, has_budget: bool) -> bool {
    &&& forall|b: int| 0 <= b < batches.len() ==> (#[trigger] batches[b]).rows <= MAX_ROWS
    &&& has_budget ==> estimate(batches) <= usize::MAX
}

/// Everything the merge needs: the common schema, the batches brought to it,
/// and for each its rows in the order of their keys, and those keys.
struct MergePlan {
    fields: Vec<ColumnField>,
    batches: Vec<Batch>,
    orders: Vec<Vec<usize>>,
    runs: Vec<Vec<MergeKey>>,
}

/// Orders, as integers.
spec fn orders_of(orders: Seq<Vec<usize>>) -> Seq<Seq<int>> {
    orders.map_values(|order: Vec<usize>| numbers_of(order@))
}

impl MergePlan {
    spec fn is_plan(&self, batches: Seq<BatchModel>, measurement: Seq<char>) -> bool {
        let keys = keys_for(batches, measurement);
        let orders = orders_of(self.orders@);
        let runs = runs_of(self.runs@);
        &&& self.fields.deep_view() == union_fields(batches)
        &&& models_of(self.batches@) == aligned_all(batches)
        &&& share_schema(aligned_all(batches), union_fields(batches))
        &&& orders.len() == keys.len()
        &&& runs.len() == keys.len()
        &&& forall|b: int|
            0 <= b < keys.len() ==> is_key_order(orders[b], #[trigger] keys[b]) && runs[b]
                == reordered(keys[b], orders[b])
    }
}

/// Number of rows of all batches.
fn count_rows(batches: &Vec<Batch>) -> (r: usize)
    requires
        total_rows(models_of(batches@)) <= usize::MAX,
    ensures
        r == total_rows(models_of(batches@)),
{
    let ghost models = models_of(batches@);
    let mut total: usize = 0;
    let mut b: usize = 0;
    while b < batches.len()
        invariant
            b <= batches.len(),
            models == models_of(batches@),
            total_rows(models) <= usize::MAX,
            total == total_rows(models.take(b as int)),
        decreases batches.len() - b,
    {
        proof {
            lemma_rows_of_some(models, b + 1);
            assert(models.take(b + 1).drop_last() =~= models.take(b as int));
            assert(models.take(b + 1).last() == batches@[b as int]@);
        }
        total = total + batches[b].num_rows();
        b = b + 1;
    }
    assert(models.take(b as int) =~= models);
    total
}

proof fn lemma_rows_of_some(batches: Seq<BatchModel>, n: int)
    requires
        0 <= n <= batches.len(),
    ensures
        total_rows(batches.take(n)) <= total_rows(batches),
    decreases batches.len() - n,
{
    if n < batches.len() {
        lemma_rows_of_some(batches, n + 1);
        assert(batches.take(n + 1).drop_last() =~= batches.take(n));
    } else {
        assert(batches.take(n) =~= batches);
    }
}

proof fn lemma_rows_of_each(batches: Seq<BatchModel>, b: int)
    requires
        0 <= b < batches.len(),
    ensures
        batches[b].rows <= total_rows(batches),
    decreases batches.len(),
{
    if b < batches.len() - 1 {
        lemma_rows_of_each(batches.drop_last(), b);
    }
}

proof fn lemma_estimate(rows: nat, width: nat)
    ensures
        rows <= rows * (width * 8 + 16),
        width * 8 + 16 <= rows * (width * 8 + 16) || rows == 0,
{
    assert(rows <= rows * (width * 8 + 16)) by (nonlinear_arith);
    if rows > 0 {
        assert(width * 8 + 16 <= rows * (width * 8 + 16)) by (nonlinear_arith)
            requires
                rows > 0,
        ;
    }
}

/// Bring batches to their common schema.
fn align_all(batches: &Vec<Batch>, fields: &Vec<ColumnField>) -> (r: Result<Vec<Batch>, QueryError>)
    requires
        batches@.len() > 1,
        fields.deep_view() == union_fields(models_of(batches@)),
    ensures
        match r {
            Ok(out) => {
                &&& models_of(out@) == aligned_all(models_of(batches@))
                &&& forall|b: int|
                    0 <= b < batches@.len() ==> fits_schema(
                        #[trigger] models_of(batches@)[b],
                        fields.deep_view(),
                    )
            },
            Err(e) => e is Arrow && exists|b: int|
                0 <= b < batches@.len() && !fits_schema(
                    #[trigger] models_of(batches@)[b],
                    fields.deep_view(),
                ),
        },
{
    let ghost models = models_of(batches@);
    let ghost model = fields.deep_view();
    proof {
        the_union_holds_every_column(models, true);
        assert forall|f: int| 0 <= f < fields@.len() implies (#[trigger] fields@[f]).nullable by {
            assert(model[f] == fields@[f].deep_view());
            assert(model[f].nullable);
        }
    }
    let mut out: Vec<Batch> = Vec::new();
    let mut b: usize = 0;
    while b < batches.len()
        invariant
            b <= batches.len(),
            models == models_of(batches@),
            model == fields.deep_view(),
            model == union_fields(models),
            forall|f: int| 0 <= f < fields@.len() ==> (#[trigger] fields@[f]).nullable,
            out@.len() == b,
            forall|d: int| 0 <= d < b ==> fits_schema(#[trigger] models[d], model),
            forall|d: int| 0 <= d < b ==> (#[trigger] out@[d])@ == aligned(models[d], model),
        decreases batches.len() - b,
    {
        assert(models[b as int] == batches@[b as int]@);
        match align_batch(&batches[b], fields) {
            Ok(batch) => {
                out.push(batch);
            },
            Err(e) => {
                assert(!fits_schema(models[b as int], model));
                return Err(e);
            },
        }
        b = b + 1;
    }
    assert(models_of(out@) =~= aligned_all(models));
    Ok(out)
}

/// For each batch its rows in the order of their keys, and those keys.
fn sort_batches(keys: &Vec<Vec<MergeKey>>) -> (r: Result<
    (Vec<Vec<usize>>, Vec<Vec<MergeKey>>),
    QueryError,
>)
    requires
        forall|b: int| 0 <= b < keys@.len() ==> (#[trigger] keys@[b])@.len() <= MAX_ROWS,
    ensures
        r is Ok,
        ({
            let orders = orders_of(r->Ok_0.0@);
            let runs = runs_of(r->Ok_0.1@);
            let all = runs_of(keys@);
            &&& orders.len() == all.len()
            &&& runs.len() == all.len()
            &&& forall|b: int|
                0 <= b < all.len() ==> is_key_order(orders[b], #[trigger] all[b]) && runs[b]
                    == reordered(all[b], orders[b])
        }),
{
    let ghost all = runs_of(keys@);
    let mut orders: Vec<Vec<usize>> = Vec::new();
    let mut runs: Vec<Vec<MergeKey>> = Vec::new();
    let mut b: usize = 0;
    while b < keys.len()
        invariant
            b <= keys.len(),
            all == runs_of(keys@),
            forall|b: int| 0 <= b < keys@.len() ==> (#[trigger] keys@[b])@.len() <= MAX_ROWS,
            orders@.len() == b,
            runs@.len() == b,
            forall|d: int|
                0 <= d < b ==> is_key_order(numbers_of(orders@[d]@), #[trigger] all[d])
                    && runs@[d]@ == reordered(all[d], numbers_of(orders@[d]@)),
        decreases keys.len() - b,
    {
        assert(all[b as int] == keys@[b as int]@);
        let order = match sort_keys(&keys[b]) {
            Ok(order) => order,
            Err(e) => {
                return Err(e);
            },
        };
        let ghost numbers = numbers_of(order@);
        let ghost want = reordered(all[b as int], numbers);
        let mut run: Vec<MergeKey> = Vec::new();
        let mut p: usize = 0;
        while p < order.len()
            invariant
                p <= order.len() == want.len(),
                b < keys@.len(),
                all[b as int] == keys@[b as int]@,
                numbers == numbers_of(order@),
                want == reordered(all[b as int], numbers),
                is_key_order(numbers, all[b as int]),
                run@ == want.take(p as int),
            decreases order.len() - p,
        {
            assert(numbers[p as int] == order@[p as int]);
            run.push(keys[b][order[p]]);
            assert(want.take(p + 1) =~= want.take(p as int).push(want[p as int]));
            p = p + 1;
        }
        assert(want.take(p as int) =~= want);
        orders.push(order);
        runs.push(run);
        b = b + 1;
    }
    Ok((orders, runs))
}

proof fn lemma_aligned_share_schema(batches: Seq<BatchModel>)
    requires
        batches.len() > 1,
    ensures
        share_schema(aligned_all(batches), union_fields(batches)),
{
    let fields = union_fields(batches);
    the_union_holds_every_column(batches, true);
    assert forall|b: int| 0 <= b < batches.len() implies (
    #[trigger] aligned_all(batches)[b]).fields() == fields by {
        assert(aligned_all(batches)[b].fields() =~= fields);
    }
}

/// Bring the batches to their common schema and sort each one into merge order.
///
/// There is no plan where no batch has rows.
fn plan_merge(batches: &Vec<Batch>, measurement: &str, tracker: &mut Option<MemoryTracker>) -> (r:
    Result<(Vec<ColumnField>, Option<MergePlan>), QueryError>)
    requires
        batches@.len() > 1,
        can_be_merged(models_of(batches@), *old(tracker) is Some),
    ensures
        match (r, merge_failure(models_of(batches@), account(*old(tracker)))) {
            (Ok((fields, plan)), None) => {
                &&& fields.deep_view() == union_fields(models_of(batches@))
                &&& plan matches Some(p) ==> p.is_plan(models_of(batches@), measurement@)
                &&& plan is None <==> total_rows(models_of(batches@)) == 0
            },
            (Err(e), Some(failure)) => failure.reported_as(
                e,
                models_of(batches@),
                account(*old(tracker)),
            ),
            _ => false,
        },
        account(*final(tracker)) == account_after(models_of(batches@), account(*old(tracker))),
{
    let ghost models = models_of(batches@);
    let ghost all = aligned_all(models);
    let fields = build_union_schema(batches);
    let ghost model = fields.deep_view();
    match tracker {
        Some(t) => {
            proof {
                lemma_estimate(total_rows(models), model.len());
            }
            let rows: usize = count_rows(batches);
            let bytes: usize = if rows == 0 {
                0
            } else {
                let width: usize = fields.len() * 8 + 16;
                rows * width
            };
            match t.try_allocate(bytes) {
                Ok(_) => {},
                Err(e) => {
                    return Err(e);
                },
            }
        },
        None => {},
    }
    let ready = match align_all(batches, &fields) {
        Ok(ready) => ready,
        Err(e) => {
            return Err(e);
        },
    };
    proof {
        lemma_aligned_share_schema(models);
        assert(forall|b: int| 0 <= b < models.len() ==> fits_schema(#[trigger] models[b], model));
    }
    let mut empty = true;
    let mut b: usize = 0;
    assert(models_of(ready@).len() == ready@.len());
    while b < ready.len()
        invariant
            b <= ready.len() == models.len(),
            models_of(ready@) == aligned_all(models),
            empty == forall|d: int| 0 <= d < b ==> (#[trigger] models[d]).rows == 0,
        decreases ready.len() - b,
    {
        assert(models_of(ready@)[b as int] == ready@[b as int]@);
        assert(ready@[b as int]@ == aligned(models[b as int], union_fields(models)));
        if ready[b].num_rows() > 0 {
            empty = false;
        }
        b = b + 1;
    }
    proof {
        lemma_no_rows(models);
    }
    if empty {
        return Ok((fields, None));
    }
    assert(ready@[0]@ == models_of(ready@)[0]);
    match ready[0].index_of(time_column_name()) {
        None => {
            return Err(invalid("'timestamp' column not found"));
        },
        Some(c) => {
            proof {
                assert(all[0].fields() == model);
                assert(all[0].fields()[c as int] == all[0].columns[c as int].field);
            }
            if ready[0].column(c).field.kind != ColumnKind::Int64 {
                return Err(invalid("timestamp column must be Int64"));
            }
        },
    }
    let tags = resolve_tag_columns(&fields);
    proof {
        assert forall|b: int, i: int|
            #![trigger ready@[b], tags@[i]]
            0 <= b < ready@.len() && 0 <= i < tags@.len() implies tags@[i]
            < ready@[b]@.columns.len() by {
            assert(models_of(ready@)[b] == ready@[b]@);
            assert(all[b].fields() == model);
            assert(all[b].fields().len() == all[b].columns.len());
        }
    }
    let keys = match number_batches(&ready, measurement, &tags) {
        Ok(keys) => keys,
        Err(e) => {
            return Err(e);
        },
    };
    proof {
        assert(runs_of(keys@) == keys_for(models, measurement@));
        assert forall|b: int| 0 <= b < keys@.len() implies (#[trigger] keys@[b])@.len()
            <= MAX_ROWS by {
            assert(runs_of(keys@)[b] == keys@[b]@);
            assert(all[b].rows == models[b].rows);
        }
    }
    let (orders, runs) = match sort_batches(&keys) {
        Ok(sorted) => sorted,
        Err(e) => {
            return Err(e);
        },
    };
    let plan = MergePlan { fields: fields.duplicate(), batches: ready, orders, runs };
    assert(plan.is_plan(models, measurement@));
    Ok((fields, Some(plan)))
}

proof fn lemma_no_rows(batches: Seq<BatchModel>)
    ensures
        (total_rows(batches) == 0) == forall|b: int|
            0 <= b < batches.len() ==> (#[trigger] batches[b]).rows == 0,
    decreases batches.len(),
{
    if batches.len() > 0 {
        let rest = batches.drop_last();
        lemma_no_rows(rest);
        if forall|b: int| 0 <= b < batches.len() ==> (#[trigger] batches[b]).rows == 0 {
            assert forall|b: int| 0 <= b < rest.len() implies (#[trigger] rest[b]).rows == 0 by {
                assert(batches[b].rows == 0);
            }
            assert(batches[batches.len() - 1].rows == 0);
        }
        if total_rows(batches) == 0 {
            assert forall|b: int| 0 <= b < batches.len() implies (#[trigger] batches[b]).rows
                == 0 by {
                if b < rest.len() {
                    assert(rest[b].rows == 0);
                }
            }
        }
    }
}

proof fn lemma_nothing_to_merge(batches: Seq<BatchModel>, measurement: Seq<char>)
    requires
        total_rows(batches) == 0,
    ensures
        merged_rows(batches, measurement) == Seq::<(int, int)>::empty(),
        is_merge(keys_for(batches, measurement), merged_rows(batches, measurement)),
{
    let keys = keys_for(batches, measurement);
    lemma_no_rows(batches);
    assert forall|at: (int, int)| !#[trigger] is_place(keys, at) by {
        if is_place(keys, at) {
            assert(keys[at.0].len() == batches[at.0].rows);
        }
    }
    assert(is_merge(keys, Seq::empty()));
    merging_is_unique(keys, Seq::empty(), merged(keys));
}

/// The rows that are kept, as batches of `size` rows.
pub open spec fn merged_chunks(
    batches: Seq<BatchModel>,
    measurement: Seq<char>,
    size: nat,
) -> Seq<BatchModel> {
    chunks(merged_rows(batches, measurement), size).map_values(
        |rows: Seq<(int, int)>| gathered(aligned_all(batches), union_fields(batches), rows),
    )
}

/// The rows that are kept.
fn kept_rows(plan: &MergePlan, Ghost(batches): Ghost<Seq<BatchModel>>, Ghost(measurement): Ghost<
    Seq<char>,
>) -> (r: Vec<(usize, usize)>)
    requires
        plan.is_plan(batches, measurement),
    ensures
        places_of(r@) == merged_rows(batches, measurement),
        is_merge(keys_for(batches, measurement), places_of(r@)),
        forall|i: int|
            0 <= i < r@.len() ==> is_row(
                aligned_all(batches),
                ((#[trigger] r@[i]).0 as int, r@[i].1 as int),
            ),
{
    let ghost keys = keys_for(batches, measurement);
    let ghost orders = orders_of(plan.orders@);
    let ghost runs = runs_of(plan.runs@);
    proof {
        assert forall|b: int| 0 <= b < runs.len() implies is_run(
            #[trigger] runs[b],
        ) by {
            assert(is_key_order(orders[b], keys[b]));
            lemma_is_run(keys[b], orders[b]);
        }
    }
    let places = merge_runs(&plan.runs);
    let ghost at = places_of(places@);
    let ghost want = rows_of(orders, at);
    proof {
        sorting_does_not_change_the_merge(keys, orders, runs, at);
        assert(is_merge(keys, want));
        merging_is_unique(keys, want, merged(keys));
    }
    let mut rows: Vec<(usize, usize)> = Vec::new();
    let mut i: usize = 0;
    while i < places.len()
        invariant
            i <= places.len(),
            at == places_of(places@),
            keys == keys_for(batches, measurement),
            orders == orders_of(plan.orders@),
            runs == runs_of(plan.runs@),
            orders.len() == keys.len(),
            runs.len() == keys.len(),
            forall|b: int|
                0 <= b < keys.len() ==> is_key_order(orders[b], #[trigger] keys[b]) && runs[b]
                    == reordered(keys[b], orders[b]),
            is_merge(runs, at),
            is_merge(keys, want),
            want == rows_of(orders, at),
            rows@.len() == i,
            forall|j: int|
                0 <= j < i ==> (#[trigger] rows@[j]).0 == want[j].0 && rows@[j].1 == want[j].1,
        decreases places.len() - i,
    {
        let (b, p) = places[i];
        proof {
            assert(at[i as int] == (b as int, p as int));
            assert(is_place(runs, at[i as int]));
            assert(is_key_order(orders[b as int], keys[b as int]));
            assert(orders[b as int] == numbers_of(plan.orders@[b as int]@));
        }
        let row: usize = plan.orders[b][p];
        rows.push((b, row));
        i = i + 1;
    }
    proof {
        assert(places_of(rows@) =~= want);
        assert forall|i: int| 0 <= i < rows@.len() implies is_row(
            aligned_all(batches),
            ((#[trigger] rows@[i]).0 as int, rows@[i].1 as int),
        ) by {
            assert(is_place(keys, want[i]));
            assert(places_of(rows@)[i] == want[i]);
        }
    }
    rows
}

/// The size of the chunks that are asked for; zero counts as one.
pub open spec fn chunk_rows(chunk_size: usize) -> nat {
    if chunk_size == 0 {
        1
    } else {
        chunk_size as nat
    }
}

/// `size` is what measuring a batch gives.
pub open spec fn is_measured<M: Fn(&Batch) -> usize>(
    measure: M,
    model: BatchModel,
    size: usize,
) -> bool {
    exists|batch: Batch| batch@ == model && #[trigger] call_ensures(measure, (&batch,), size)
}

/// Batches with these columns can be measured.
pub open spec fn can_measure<M: Fn(&Batch) -> usize>(measure: M, fields: Seq<FieldModel>) -> bool {
    forall|batch: &Batch| batch@.fields() == fields ==> #[trigger] call_requires(measure, (batch,))
}

/// The outcome of handing out the rows that are kept in chunks, each of which
/// is measured and charged, with the size of each chunk that was charged.
/// Without a budget nothing is measured.
pub open spec fn chunks_outcome<M: Fn(&Batch) -> usize>(
    r: Result<Vec<Batch>, QueryError>,
    made: Seq<BatchModel>,
    measure: M,
    start: Option<(int, int)>,
    end: Option<(int, int)>,
    sizes: Seq<usize>,
) -> bool {
    &&& r matches Ok(out) ==> models_of(out@) == made
    &&& start is Some ==> forall|k: int|
        0 <= k < sizes.len() ==> is_measured(measure, made[k], #[trigger] sizes[k])
    &&& settles_parts(made.len(), start, r, end, sizes)
}

/// Run the merge, and give what it keeps in batches of `chunk_size` rows; a size
/// of zero counts as one. Each batch is measured and charged as it is made.
fn merge_chunks<M: Fn(&Batch) -> usize>(
    plan: &MergePlan,
    chunk_size: usize,
    tracker: &mut Option<MemoryTracker>,
    measure: M,
    Ghost(batches): Ghost<Seq<BatchModel>>,
    Ghost(measurement): Ghost<Seq<char>>,
) -> (r: Result<Vec<Batch>, QueryError>)
    requires
        plan.is_plan(batches, measurement),
        *old(tracker) is Some ==> can_measure(measure, union_fields(batches)),
    ensures
        exists|sizes: Seq<usize>| #[trigger]
            chunks_outcome(
                r,
                merged_chunks(batches, measurement, chunk_rows(chunk_size)),
                measure,
                account(*old(tracker)),
                account(*final(tracker)),
                sizes,
            ),
        is_merge(keys_for(batches, measurement), merged_rows(batches, measurement)),
{
    let ghost begin = account(*tracker);
    let ghost mut sizes = Seq::<usize>::empty();
    let size: usize = if chunk_size == 0 {
        1
    } else {
        chunk_size
    };
    let kept = kept_rows(plan, Ghost(batches), Ghost(measurement));
    let ghost all = merged_rows(batches, measurement);
    let ghost make = |rows: Seq<(int, int)>|
        gathered(aligned_all(batches), union_fields(batches), rows);
    let ghost made = merged_chunks(batches, measurement, chunk_rows(chunk_size));
    let mut out: Vec<Batch> = Vec::new();
    let mut start: usize = 0;
    proof {
        assert(all.skip(0) =~= all);
        assert(models_of(out@) + chunks(all, size as nat).map_values(make) =~= chunks(
            all,
            size as nat,
        ).map_values(make));
    }
    while start < kept.len()
        invariant
            start <= kept.len(),
            size > 0,
            begin == account(*old(tracker)),
            *tracker is Some ==> begin is Some,
            begin is Some ==> *tracker is Some && can_measure(measure, union_fields(batches)),
            begin is Some ==> forall|k: int|
                0 <= k < sizes.len() ==> is_measured(measure, made[k], #[trigger] sizes[k]),
            made == merged_chunks(batches, measurement, chunk_rows(chunk_size)),
            made == chunks(all, size as nat).map_values(make),
            is_merge(keys_for(batches, measurement), merged_rows(batches, measurement)),
            sizes.len() == out@.len(),
            all_fit(sizes, begin),
            account(*tracker) == charged(begin, spent(sizes)),
            plan.is_plan(batches, measurement),
            all == places_of(kept@),
            make == (|rows: Seq<(int, int)>|
                gathered(aligned_all(batches), union_fields(batches), rows)),
            forall|i: int|
                0 <= i < kept@.len() ==> is_row(
                    aligned_all(batches),
                    ((#[trigger] kept@[i]).0 as int, kept@[i].1 as int),
                ),
            models_of(out@) + chunks(all.skip(start as int), size as nat).map_values(make)
                == chunks(all, size as nat).map_values(make),
        decreases kept.len() - start,
    {
        let end: usize = if kept.len() - start <= size {
            kept.len()
        } else {
            start + size
        };
        let mut part: Vec<(usize, usize)> = Vec::new();
        let mut i: usize = start;
        while i < end
            invariant
                start <= i <= end <= kept.len(),
                part@ == kept@.subrange(start as int, i as int),
            decreases end - i,
        {
            part.push(kept[i]);
            assert(kept@.subrange(start as int, i + 1) =~= kept@.subrange(
                start as int,
                i as int,
            ).push(kept@[i as int]));
            i = i + 1;
        }
        let ghost rest = all.skip(start as int);
        let ghost taken = places_of(part@);
        let ghost before = models_of(out@);
        let batch = match materialize_chunk(&plan.batches, &plan.fields, &part) {
            Ok(batch) => batch,
            Err(e) => {
                return Err(e);
            },
        };
        let ghost model = batch@;
        proof {
            let left = chunks(rest, size as nat);
            assert(left.len() > 0);
            assert(made.len() == before.len() + left.len());
            assert(taken =~= left[0]) by {
                if end == kept.len() {
                    assert(taken =~= rest);
                } else {
                    assert(taken =~= rest.take(size as int));
                }
            }
            let parts = chunks(rest, size as nat).map_values(make);
            assert(made[before.len() as int] == (before + parts)[before.len() as int]);
            assert(parts[0] == make(taken));
            assert(model == made[before.len() as int]);
            assert(model.fields() =~= union_fields(batches));
        }
        let bytes: usize = if tracker.is_some() {
            measure(&batch)
        } else {
            0
        };
        let ghost charges = sizes.push(bytes);
        proof {
            assert(charges.drop_last() =~= sizes);
            if begin is Some {
                assert(is_measured(measure, made[before.len() as int], bytes));
                assert forall|k: int| 0 <= k < charges.len() implies is_measured(
                    measure,
                    made[k],
                    #[trigger] charges[k],
                ) by {
                    if k < sizes.len() {
                        assert(charges[k] == sizes[k]);
                    }
                }
            }
        }
        let charged_batch = charge_result(batch, bytes, tracker);
        let batch = match charged_batch {
            Ok(batch) => batch,
            Err(e) => {
                proof {
                    assert(chunks_outcome(Err(e), made, measure, begin, account(*tracker), charges));
                }
                return Err(e);
            },
        };
        out.push(batch);
        proof {
            assert forall|k: int| 0 <= k < charges.len() implies !exceeds(
                charged(begin, spent(charges.take(k))),
                #[trigger] charges[k],
            ) by {
                if k < sizes.len() {
                    assert(charges.take(k) =~= sizes.take(k));
                    assert(charges[k] == sizes[k]);
                } else {
                    assert(charges.take(k) =~= sizes);
                }
            }
            sizes = charges;
            let next = all.skip(end as int);
            assert(models_of(out@) =~= before.push(model));
            assert(model == make(taken));
            if end == kept.len() {
                assert(taken =~= rest);
                assert(next =~= Seq::empty());
                assert(chunks(rest, size as nat) =~= seq![taken]);
            } else {
                assert(taken =~= rest.take(size as int));
                assert(rest.skip(size as int) =~= next);
                assert(chunks(rest, size as nat) == seq![taken] + chunks(next, size as nat));
            }
            assert(chunks(rest, size as nat) =~= seq![taken] + chunks(next, size as nat));
            assert(models_of(out@) + chunks(next, size as nat).map_values(make) =~= before + chunks(
                rest,
                size as nat,
            ).map_values(make));
        }
        start = end;
    }
    proof {
        assert(all.skip(start as int) =~= Seq::empty());
        assert(models_of(out@) =~= models_of(out@) + chunks(
            all.skip(start as int),
            size as nat,
        ).map_values(make));
        assert(chunks_outcome(Ok(out), made, measure, begin, account(*tracker), sizes));
    }
    Ok(out)
}

/// Row `i` comes before row `j`: by timestamp, and where those are equal as it
/// was.
pub open spec fn time_row_before(times: Seq<i64>, i: int, j: int) -> bool {
    times[i] < times[j] || (times[i] == times[j] && i < j)
}

/// The order lists every row once, by ascending timestamp, and rows with equal
/// timestamps as they were.
pub open spec fn is_time_order(times: Seq<i64>, order: Seq<int>) -> bool {
    &&& order.len() == times.len()
    &&& forall|p: int| 0 <= p < order.len() ==> 0 <= (#[trigger] order[p]) < times.len()
    &&& forall|row: int| 0 <= row < times.len() ==> #[trigger] order.contains(row)
    &&& forall|p: int, q: int|
        0 <= p < q < order.len() ==> time_row_before(
            times,
            #[trigger] order[p],
            #[trigger] order[q],
        )
}

/// There is one order by timestamp.
pub proof fn the_time_order_is_unique(times: Seq<i64>, a: Seq<int>, b: Seq<int>)
    requires
        is_time_order(times, a),
        is_time_order(times, b),
    ensures
        a == b,
{
    let before = |i: int, j: int| time_row_before(times, i, j);
    assert forall|i: int, j: int| 0 <= i < j < a.len() implies before(
        #[trigger] a[i],
        #[trigger] a[j],
    ) by {}
    assert forall|i: int, j: int| 0 <= i < j < b.len() implies before(
        #[trigger] b[i],
        #[trigger] b[j],
    ) by {}
    one_ascending_list(before, a, b);
}

/// Rows that are in order already stay as they are.
pub proof fn an_ordered_batch_is_not_reshuffled(times: Seq<i64>)
    requires
        forall|i: int, j: int| 0 <= i < j < times.len() ==> #[trigger] times[i] <= #[trigger] times[j],
    ensures
        is_time_order(times, all_rows(times.len())),
        time_order(times) == all_rows(times.len()),
{
    let rows = all_rows(times.len());
    assert forall|row: int| 0 <= row < times.len() implies #[trigger] rows.contains(row) by {
        assert(rows[row] == row);
    }
    assert(is_time_order(times, rows));
    the_time_order_is_unique(times, rows, time_order(times));
}

/// The rows by ascending timestamp.
pub open spec fn time_order(times: Seq<i64>) -> Seq<int> {
    choose|order: Seq<int>| is_time_order(times, order)
}

/// Timestamps, with zero for a missing one.
pub open spec fn times_or_zero(times: Seq<Option<i64>>) -> Seq<i64> {
    times.map_values(
        |time: Option<i64>|
            match time {
                Some(t) => t,
                None => 0,
            },
    )
}

/// The rows of a batch by ascending timestamp, or as they are where there is no
/// time column to order by.
pub open spec fn row_order(batch: BatchModel) -> Seq<int> {
    match batch.index_of(time_column()) {
        Some(c) => if batch.columns[c].field.kind == ColumnKind::Int64 {
            time_order(times_or_zero(integers(batch.columns[c])))
        } else {
            all_rows(batch.rows)
        },
        None => all_rows(batch.rows),
    }
}

/// Rows to be sorted by timestamp.
struct TimeOrder {
    times: Vec<i64>,
}

impl RowOrder for TimeOrder {
    closed spec fn count(&self) -> nat {
        self.times@.len()
    }

    closed spec fn not_after(&self, i: int, j: int) -> bool {
        self.times@[i] <= self.times@[j]
    }

    proof fn lemma_ordered(&self, i: int, j: int, k: int) {
    }

    fn is_not_after(&self, i: usize, j: usize) -> (r: bool) {
        self.times[i] <= self.times[j]
    }
}

/// All row numbers below `n`.
fn count_up(n: usize) -> (r: Vec<usize>)
    ensures
        numbers_of(r@) == all_rows(n as nat),
{
    let mut rows: Vec<usize> = Vec::new();
    let mut i: usize = 0;
    while i < n
        invariant
            i <= n,
            rows@.len() == i,
            forall|j: int| 0 <= j < i ==> (#[trigger] rows@[j]) == j,
        decreases n - i,
    {
        rows.push(i);
        i = i + 1;
    }
    assert(numbers_of(rows@) =~= all_rows(n as nat));
    rows
}

/// Whether timestamps never go back.
fn is_ascending(times: &Vec<i64>) -> (r: bool)
    ensures
        r == forall|i: int, j: int|
            0 <= i < j < times@.len() ==> #[trigger] times@[i] <= #[trigger] times@[j],
{
    let mut k: usize = 1;
    while k < times.len()
        invariant
            1 <= k,
            k <= times.len() || k == 1,
            forall|i: int, j: int|
                0 <= i < j < k && j < times@.len() ==> #[trigger] times@[i] <= #[trigger] times@[j],
        decreases times.len() - k,
    {
        if times[k - 1] > times[k] {
            assert(times@[k - 1] > times@[k as int]);
            return false;
        }
        proof {
            assert forall|i: int, j: int| 0 <= i < j < k + 1 && j < times@.len() implies
                #[trigger] times@[i] <= #[trigger] times@[j] by {
                if j == k && i < k - 1 {
                    assert(times@[i] <= times@[k - 1]);
                }
            }
        }
        k = k + 1;
    }
    true
}

/// The rows by ascending timestamp.
fn order_by_time(times: Vec<i64>) -> (r: Vec<usize>)
    ensures
        is_time_order(times@, numbers_of(r@)),
        numbers_of(r@) == time_order(times@),
{
    let count: usize = times.len();
    let ghost list = times@;
    if is_ascending(&times) {
        proof {
            an_ordered_batch_is_not_reshuffled(list);
        }
        return count_up(count);
    }
    let order = TimeOrder { times };
    let rows = sort_rows(&order, count);
    proof {
        let numbers = numbers_of(rows@);
        assert forall|row: int| 0 <= row < list.len() implies #[trigger] numbers.contains(row) by {
            assert(holds_row(rows@, row));
            let p = choose|p: int| 0 <= p < rows@.len() && (#[trigger] rows@[p]) == row;
            assert(numbers[p] == row);
        }
        assert forall|p: int, q: int| 0 <= p < q < numbers.len() implies time_row_before(
            list,
            #[trigger] numbers[p],
            #[trigger] numbers[q],
        ) by {
            assert(stably_before(&order, rows@[p] as int, rows@[q] as int));
        }
        assert(is_time_order(list, numbers));
        the_time_order_is_unique(list, numbers, time_order(list));
    }
    rows
}

/// The rows of a batch by ascending timestamp. Rows with equal timestamps stay
/// in their order, which is that in which they were written.
fn sort_batch_by_timestamp(batch: &Batch) -> (r: Vec<usize>)
    ensures
        numbers_of(r@) == row_order(batch@),
        forall|i: int| 0 <= i < r@.len() ==> (#[trigger] r@[i]) < batch@.rows,
{
    let count: usize = batch.num_rows();
    let found = match batch.index_of(time_column_name()) {
        Some(c) => {
            if batch.column(c).field.kind == ColumnKind::Int64 {
                Some(c)
            } else {
                None
            }
        },
        None => None,
    };
    match found {
        None => {
            let rows = count_up(count);
            proof {
                assert(numbers_of(rows@).len() == count);
                assert forall|i: int| 0 <= i < rows@.len() implies (#[trigger] rows@[i])
                    < batch@.rows by {
                    assert(numbers_of(rows@)[i] == rows@[i]);
                    assert(all_rows(count as nat)[i] == i);
                }
            }
            rows
        },
        Some(c) => {
            let column = batch.column(c);
            let cells = read_integers(column);
            let ghost want = times_or_zero(cells@);
            let mut times: Vec<i64> = Vec::new();
            let mut i: usize = 0;
            while i < cells.len()
                invariant
                    i <= cells.len() == want.len(),
                    want == times_or_zero(cells@),
                    times@ == want.take(i as int),
                decreases cells.len() - i,
            {
                let time: i64 = match cells[i] {
                    Some(t) => t,
                    None => 0,
                };
                times.push(time);
                assert(want.take(i + 1) =~= want.take(i as int).push(want[i as int]));
                i = i + 1;
            }
            assert(want.take(i as int) =~= want);
            let rows = order_by_time(times);
            proof {
                assert(want.len() == column.deep_view().cells.len());
                assert(want.len() == batch@.rows);
                assert forall|i: int| 0 <= i < rows@.len() implies (#[trigger] rows@[i])
                    < batch@.rows by {
                    assert(numbers_of(rows@)[i] == rows@[i]);
                }
            }
            rows
        },
    }
}

/// Some rows of a batch, as batches of `size` rows.
pub open spec fn batch_chunks(batch: BatchModel, rows: Seq<int>, size: nat) -> Seq<BatchModel> {
    chunks(rows, size).map_values(|part: Seq<int>| batch.rows_at(part))
}

/// Split rows of a batch into batches of at most `size` rows.
fn chunk_batch(batch: &Batch, rows: &Vec<usize>, size: usize) -> (r: Vec<Batch>)
    requires
        size > 0 || rows@.len() == 0,
        forall|i: int| 0 <= i < rows@.len() ==> (#[trigger] rows@[i]) < batch@.rows,
    ensures
        models_of(r@) == batch_chunks(batch@, numbers_of(rows@), size as nat),
{
    let ghost all = numbers_of(rows@);
    let ghost make = |part: Seq<int>| batch@.rows_at(part);
    let mut out: Vec<Batch> = Vec::new();
    let mut start: usize = 0;
    proof {
        assert(all.skip(0) =~= all);
        assert(models_of(out@) + chunks(all, size as nat).map_values(make) =~= chunks(
            all,
            size as nat,
        ).map_values(make));
    }
    while start < rows.len()
        invariant
            start <= rows.len(),
            size > 0 || rows@.len() == 0,
            all == numbers_of(rows@),
            make == (|part: Seq<int>| batch@.rows_at(part)),
            forall|i: int| 0 <= i < rows@.len() ==> (#[trigger] rows@[i]) < batch@.rows,
            models_of(out@) + chunks(all.skip(start as int), size as nat).map_values(make)
                == chunks(all, size as nat).map_values(make),
        decreases rows.len() - start,
    {
        let end: usize = if rows.len() - start <= size {
            rows.len()
        } else {
            start + size
        };
        let mut part: Vec<usize> = Vec::new();
        let mut i: usize = start;
        while i < end
            invariant
                start <= i <= end <= rows.len(),
                part@ == rows@.subrange(start as int, i as int),
            decreases end - i,
        {
            part.push(rows[i]);
            assert(rows@.subrange(start as int, i + 1) =~= rows@.subrange(
                start as int,
                i as int,
            ).push(rows@[i as int]));
            i = i + 1;
        }
        let ghost rest = all.skip(start as int);
        let ghost taken = numbers_of(part@);
        let ghost before = models_of(out@);
        let selected = batch.select(&part);
        let ghost model = selected@;
        out.push(selected);
        proof {
            let next = all.skip(end as int);
            assert(models_of(out@) =~= before.push(model));
            assert(part@.map_values(|row: usize| row as int) =~= taken);
            assert(model == make(taken));
            if end == rows.len() {
                assert(taken =~= rest);
                assert(next =~= Seq::empty());
                assert(chunks(rest, size as nat) =~= seq![taken]);
            } else {
                assert(taken =~= rest.take(size as int));
                assert(rest.skip(size as int) =~= next);
                assert(chunks(rest, size as nat) == seq![taken] + chunks(next, size as nat));
            }
            assert(chunks(rest, size as nat) =~= seq![taken] + chunks(next, size as nat));
            assert(models_of(out@) + chunks(next, size as nat).map_values(make) =~= before + chunks(
                rest,
                size as nat,
            ).map_values(make));
        }
        start = end;
    }
    proof {
        assert(all.skip(start as int) =~= Seq::empty());
        assert(models_of(out@) =~= models_of(out@) + chunks(
            all.skip(start as int),
            size as nat,
        ).map_values(make));
    }
    out
}

/// Why batches cannot be deduplicated, if they cannot.
pub open spec fn dedup_failure(
    batches: Seq<BatchModel>,
    account: Option<(int, int)>,
) -> Option<MergeFailure> {
    if batches.len() == 0 {
        Some(MergeFailure::NoBatches)
    } else if batches.len() == 1 {
        None
    } else {
        merge_failure(batches, account)
    }
}

/// What the account shows before the result is charged: only a merge is.
pub open spec fn dedup_account(batches: Seq<BatchModel>, account: Option<(int, int)>) -> Option<
    (int, int),
> {
    if batches.len() <= 1 {
        account
    } else {
        account_after(batches, account)
    }
}

/// The outcome of merging batches into one: the rows that are kept, measured
/// and charged where there are rows to merge.
pub open spec fn dedup_outcome<M: Fn(&Batch) -> usize>(
    r: Result<Batch, QueryError>,
    batches: Seq<BatchModel>,
    measurement: Seq<char>,
    measure: M,
    start: Option<(int, int)>,
    end: Option<(int, int)>,
) -> bool {
    let held = dedup_account(batches, start);
    if let Some(failure) = dedup_failure(batches, start) {
        r matches Err(e) && failure.reported_as(e, batches, start) && end == held
    } else if batches.len() == 1 {
        r matches Ok(out) && out@ == batches[0] && end == held
    } else {
        &&& is_merge(keys_for(batches, measurement), merged_rows(batches, measurement))
        &&& if total_rows(batches) == 0 {
            r matches Ok(out) && out@ == merged_batch(batches, measurement) && end == held
        } else {
            exists|made: Result<Batch, QueryError>, size: usize|
                (made matches Ok(out) && out@ == merged_batch(batches, measurement)) && (
                held is Some ==> is_measured(measure, merged_batch(batches, measurement), size))
                    && #[trigger] settles(made, held, r, end, size)
        }
    }
}

/// The outcome of merging batches into chunks, each of which is measured and
/// charged. The rows of a single batch are not charged.
pub open spec fn chunked_outcome<M: Fn(&Batch) -> usize>(
    r: Result<Vec<Batch>, QueryError>,
    batches: Seq<BatchModel>,
    measurement: Seq<char>,
    chunk_size: usize,
    measure: M,
    start: Option<(int, int)>,
    end: Option<(int, int)>,
) -> bool {
    let held = dedup_account(batches, start);
    if let Some(failure) = dedup_failure(batches, start) {
        r matches Err(e) && failure.reported_as(e, batches, start) && end == held
    } else if batches.len() == 1 {
        &&& r matches Ok(out)
        &&& models_of(out@) == batch_chunks(
            batches[0],
            row_order(batches[0]),
            chunk_size as nat,
        )
        &&& end == held
    } else {
        &&& is_merge(keys_for(batches, measurement), merged_rows(batches, measurement))
        &&& exists|sizes: Seq<usize>| #[trigger]
            chunks_outcome(
                r,
                merged_chunks(batches, measurement, chunk_rows(chunk_size)),
                measure,
                held,
                end,
                sizes,
            )
    }
}

/// Merge and deduplicate batches.
///
/// Rows are duplicates of each other if they have the same timestamp and belong
/// to the same series. Tag columns are those marked as tags, or, where none are,
/// all columns of plain texts but the time column. Of duplicates the last is
/// kept. Rows come out by timestamp; a single batch is returned as it is.
///
/// Merged rows are charged by what `measure` says that their arrays take:
/// [`batch_bytes`](crate::query::output::batch_bytes) where these hold just the
/// values, or the caller's own measure of the arrays that it makes of the rows.
pub fn sort_merge_dedup<M: Fn(&Batch) -> usize>(
    batches: &Vec<Batch>,
    measurement: &str,
    memory_tracker: &mut Option<MemoryTracker>,
    measure: M,
) -> (r: Result<Batch, QueryError>)
    requires
        batches@.len() > 1 ==> can_be_merged(models_of(batches@), *old(memory_tracker) is Some),
        *old(memory_tracker) is Some ==> can_measure(measure, union_fields(models_of(batches@))),
    ensures
        dedup_outcome(
            r,
            models_of(batches@),
            measurement@,
            measure,
            account(*old(memory_tracker)),
            account(*final(memory_tracker)),
        ),
{
    let ghost models = models_of(batches@);
    if batches.len() == 0 {
        return Err(invalid("no batches to deduplicate"));
    }
    if batches.len() == 1 {
        return Ok(batches[0].duplicate());
    }
    let (fields, plan) = match plan_merge(batches, measurement, memory_tracker) {
        Ok(planned) => planned,
        Err(e) => {
            return Err(e);
        },
    };
    proof {
        lemma_aligned_share_schema(models);
    }
    match plan {
        None => {
            proof {
                lemma_nothing_to_merge(models, measurement@);
            }
            let ready: Vec<Batch> = Vec::new();
            let none: Vec<(usize, usize)> = Vec::new();
            let out = materialize_chunk(&ready, &fields, &none);
            proof {
                let want = merged_batch(models, measurement@);
                assert(places_of(none@) =~= Seq::empty());
                let given = out->Ok_0@;
                assert forall|c: int| 0 <= c < want.columns.len() implies given.columns[c]
                    == want.columns[c] by {
                    assert(given.columns[c].cells =~= want.columns[c].cells);
                }
                assert(given.columns =~= want.columns);
            }
            out
        },
        Some(plan) => {
            let rows = kept_rows(&plan, Ghost(models), Ghost(measurement@));
            let ghost held = account(*memory_tracker);
            match materialize_chunk(&plan.batches, &plan.fields, &rows) {
                Ok(batch) => {
                    let ghost want = merged_batch(models, measurement@);
                    assert(batch@ == want);
                    assert(want.fields() =~= union_fields(models));
                    let size: usize = if memory_tracker.is_some() {
                        measure(&batch)
                    } else {
                        0
                    };
                    assert(held is Some ==> is_measured(measure, want, size));
                    let ghost made: Result<Batch, QueryError> = Ok(batch);
                    let r = charge_result(batch, size, memory_tracker);
                    assert(made->Ok_0@ == merged_batch(models, measurement@) && settles(
                        made,
                        held,
                        r,
                        account(*memory_tracker),
                        size,
                    ));
                    r
                },
                Err(e) => Err(e),
            }
        },
    }
}

/// Merge and deduplicate batches, and give the rows in batches of `chunk_size`.
///
/// Duplicates are told and resolved as [`sort_merge_dedup`] does. A single batch
/// holds nothing that could be a duplicate of another batch's row, but its rows
/// too come out by timestamp. Each batch of merged rows is measured and charged
/// as it is made.
pub fn sort_merge_dedup_chunked<M: Fn(&Batch) -> usize>(
    batches: &Vec<Batch>,
    measurement: &str,
    chunk_size: usize,
    memory_tracker: &mut Option<MemoryTracker>,
    measure: M,
) -> (r: Result<Vec<Batch>, QueryError>)
    requires
        batches@.len() > 1 ==> can_be_merged(models_of(batches@), *old(memory_tracker) is Some),
        *old(memory_tracker) is Some ==> can_measure(measure, union_fields(models_of(batches@))),
        batches@.len() == 1 && batches@[0]@.rows > 0 ==> chunk_size > 0,
    ensures
        chunked_outcome(
            r,
            models_of(batches@),
            measurement@,
            chunk_size,
            measure,
            account(*old(memory_tracker)),
            account(*final(memory_tracker)),
        ),
{
    let ghost models = models_of(batches@);
    if batches.len() == 0 {
        return Err(invalid("no batches to deduplicate"));
    }
    if batches.len() == 1 {
        let batch = &batches[0];
        let rows = sort_batch_by_timestamp(batch);
        assert(batch@.rows == 0 ==> rows@.len() == 0) by {
            if rows@.len() > 0 {
                assert(rows@[0] < batch@.rows);
            }
        }
        return Ok(chunk_batch(batch, &rows, chunk_size));
    }
    let (_fields, plan) = match plan_merge(batches, measurement, memory_tracker) {
        Ok(planned) => planned,
        Err(e) => {
            return Err(e);
        },
    };
    match plan {
        None => {
            let out: Vec<Batch> = Vec::new();
            proof {
                lemma_nothing_to_merge(models, measurement@);
                let made = merged_chunks(models, measurement@, chunk_rows(chunk_size));
                assert(models_of(out@) =~= made);
                let held = account(*memory_tracker);
                let sizes = Seq::<usize>::empty();
                assert(all_fit(sizes, held));
                assert(chunks_outcome(Ok(out), made, measure, held, held, sizes));
            }
            Ok(out)
        },
        Some(plan) => merge_chunks(
            &plan,
            chunk_size,
            memory_tracker,
            measure,
            Ghost(models),
            Ghost(measurement@),
        ),
    }
}

/// The last write wins: a row is kept just if no row of a later batch, and no
/// later row of its own batch, has the same timestamp and series.
pub proof fn the_last_write_wins(batches: Seq<BatchModel>, measurement: Seq<char>, at: (int, int))
    requires
        is_merge(keys_for(batches, measurement), merged_rows(batches, measurement)),
        is_row(batches, at),
        total_rows(batches) <= usize::MAX,
    ensures
        merged_rows(batches, measurement).contains(at) == forall|other: (int, int)|
            is_row(batches, other) && #[trigger] is_duplicate(batches, measurement, at, other)
                ==> !is_newer(other, at),
{
    let keys = keys_for(batches, measurement);
    let rows = merged_rows(batches, measurement);
    let all = aligned_all(batches);
    assert(is_place(keys, at));
    assert forall|other: (int, int)| is_row(batches, other) implies (#[trigger] is_duplicate(
        batches,
        measurement,
        at,
        other,
    ) == (key_at(keys, at) == key_at(keys, other))) && is_place(keys, other) by {
        lemma_same_total(batches);
        assert(all[at.0].rows == batches[at.0].rows);
        assert(all[other.0].rows == batches[other.0].rows);
        duplicates_share_time_and_series(
            all,
            measurement,
            tag_fields(union_fields(batches)),
            at,
            other,
        );
    }
    if rows.contains(at) {
        let k = choose|k: int| 0 <= k < rows.len() && rows[k] == at;
        assert(is_newest(keys, rows[k]));
    }
    if forall|other: (int, int)|
        is_row(batches, other) && #[trigger] is_duplicate(batches, measurement, at, other)
            ==> !is_newer(other, at) {
        assert(has_key(keys, rows, key_at(keys, at)));
        let k = choose|k: int|
            0 <= k < rows.len() && key_at(keys, #[trigger] rows[k]) == key_at(keys, at);
        assert(is_place(keys, rows[k]));
        assert(is_newest(keys, rows[k]));
        assert(is_row(batches, rows[k]));
        assert(is_duplicate(batches, measurement, at, rows[k]));
        assert(!is_newer(at, rows[k]));
        assert(rows[k] == at);
    }
}

/// No two rows that are kept have the same timestamp and series, and
/// timestamps never go back.
pub proof fn one_row_per_series_and_time(
    batches: Seq<BatchModel>,
    measurement: Seq<char>,
    i: int,
    j: int,
)
    requires
        is_merge(keys_for(batches, measurement), merged_rows(batches, measurement)),
        0 <= i < j < merged_rows(batches, measurement).len(),
        total_rows(batches) <= usize::MAX,
    ensures
        !is_duplicate(
            batches,
            measurement,
            merged_rows(batches, measurement)[i],
            merged_rows(batches, measurement)[j],
        ),
        !time_before(
            row_time(batches, merged_rows(batches, measurement)[j]),
            row_time(batches, merged_rows(batches, measurement)[i]),
        ),
{
    let keys = keys_for(batches, measurement);
    let rows = merged_rows(batches, measurement);
    let all = aligned_all(batches);
    assert(is_place(keys, rows[i]));
    assert(is_place(keys, rows[j]));
    assert(key_before(key_at(keys, rows[i]), key_at(keys, rows[j])));
    lemma_same_total(batches);
    duplicates_share_time_and_series(
        all,
        measurement,
        tag_fields(union_fields(batches)),
        rows[i],
        rows[j],
    );
}

/// The timestamp of a row once the batches have their common schema.
pub open spec fn row_time(batches: Seq<BatchModel>, at: (int, int)) -> Option<i64> {
    time_at(aligned_all(batches)[at.0], at.1)
}

/// The rows have the same timestamp and belong to the same series.
pub open spec fn is_duplicate(
    batches: Seq<BatchModel>,
    measurement: Seq<char>,
    a: (int, int),
    b: (int, int),
) -> bool {
    let tags = tag_fields(union_fields(batches));
    row_time(batches, a) == row_time(batches, b) && row_series(
        aligned_all(batches)[a.0],
        measurement,
        tags,
        a.1,
    ) == row_series(aligned_all(batches)[b.0], measurement, tags, b.1)
}

proof fn lemma_same_total(batches: Seq<BatchModel>)
    ensures
        total_rows(aligned_all(batches)) == total_rows(batches),
{
    lemma_same_rows_total(batches, aligned_all(batches));
}

proof fn lemma_same_rows_total(a: Seq<BatchModel>, b: Seq<BatchModel>)
    requires
        a.len() == b.len(),
        forall|i: int| 0 <= i < a.len() ==> (#[trigger] a[i]).rows == b[i].rows,
    ensures
        total_rows(a) == total_rows(b),
    decreases a.len(),
{
    if a.len() > 0 {
        assert forall|i: int| 0 <= i < a.drop_last().len() implies (
        #[trigger] a.drop_last()[i]).rows == b.drop_last()[i].rows by {
            assert(a[i].rows == b[i].rows);
        }
        lemma_same_rows_total(a.drop_last(), b.drop_last());
        assert(a[a.len() - 1].rows == b[a.len() - 1].rows);
    }
}

/// Chunking does not change what comes out: the chunks hold the rows that a
/// merge into one batch gives, in the same order.
pub proof fn chunking_does_not_change_the_rows(
    batches: Seq<BatchModel>,
    measurement: Seq<char>,
    size: nat,
)
    requires
        size > 0,
    ensures
        chunks(merged_rows(batches, measurement), size).flatten() == merged_rows(
            batches,
            measurement,
        ),
        merged_chunks(batches, measurement, size).len() == chunks(
            merged_rows(batches, measurement),
            size,
        ).len(),
        forall|i: int|
            0 <= i < merged_chunks(batches, measurement, size).len() ==> (
            #[trigger] merged_chunks(batches, measurement, size)[i]) == gathered(
                aligned_all(batches),
                union_fields(batches),
                chunks(merged_rows(batches, measurement), size)[i],
            ),
{
    chunks_hold_everything(merged_rows(batches, measurement), size);
}

/// The cells of a column in some batches, one after the other.
pub open spec fn joined_cells(batches: Seq<BatchModel>, c: int) -> Seq<CellModel> {
    batches.map_values(|batch: BatchModel| batch.columns[c].cells).flatten()
}

/// A merge into chunks gives what a merge into one batch gives, cut into
/// batches of `size` rows: put together, the chunks hold the same cells in
/// every column, all chunks but the last have `size` rows, the last has at least
/// one and no more than that, and there are none just if no row is kept.
pub proof fn chunks_make_up_the_merged_batch(
    batches: Seq<BatchModel>,
    measurement: Seq<char>,
    size: nat,
)
    requires
        size > 0,
    ensures
        ({
            let parts = merged_chunks(batches, measurement, size);
            let whole = merged_batch(batches, measurement);
            &&& parts.len() == 0 <==> whole.rows == 0
            &&& forall|i: int| 0 <= i < parts.len() ==> 0 < (#[trigger] parts[i]).rows <= size
            &&& forall|i: int| 0 <= i < parts.len() - 1 ==> (#[trigger] parts[i]).rows == size
            &&& forall|i: int|
                0 <= i < parts.len() ==> (#[trigger] parts[i]).fields() == whole.fields()
            &&& forall|c: int|
                0 <= c < whole.columns.len() ==> joined_cells(parts, c) == (
                #[trigger] whole.columns[c]).cells
        }),
{
    let rows = merged_rows(batches, measurement);
    let pieces = chunks(rows, size);
    let parts = merged_chunks(batches, measurement, size);
    let whole = merged_batch(batches, measurement);
    let all = aligned_all(batches);
    let fields = union_fields(batches);
    chunks_hold_everything(rows, size);
    assert forall|i: int| 0 <= i < parts.len() implies (#[trigger] parts[i]) == gathered(
        all,
        fields,
        pieces[i],
    ) && parts[i].fields() == whole.fields() by {
        assert(parts[i].fields() =~= whole.fields());
    }
    assert forall|i: int| 0 <= i < parts.len() implies 0 < (#[trigger] parts[i]).rows <= size by {
        assert(0 < pieces[i].len() <= size);
    }
    assert forall|i: int| 0 <= i < parts.len() - 1 implies (#[trigger] parts[i]).rows == size by {
        assert(pieces[i].len() == size);
    }
    assert forall|c: int| 0 <= c < whole.columns.len() implies joined_cells(parts, c) == (
    #[trigger] whole.columns[c]).cells by {
        let cell = |at: (int, int)| all[at.0].columns[c].cells[at.1];
        let lists = parts.map_values(|batch: BatchModel| batch.columns[c].cells);
        let mapped = pieces.map_values(|piece: Seq<(int, int)>| piece.map_values(cell));
        assert forall|i: int| 0 <= i < lists.len() implies lists[i] == mapped[i] by {
            assert(parts[i] == gathered(all, fields, pieces[i]));
            assert(lists[i] =~= mapped[i]);
        }
        assert(lists =~= mapped);
        lemma_flatten_mapped(pieces, cell);
        assert(rows.map_values(cell) =~= whole.columns[c].cells);
    }
}

/// Without a memory budget, batches that can be merged into one can be merged
/// into chunks, which make up that one: put together, they hold its cells, all
/// but the last have `chunk_size` rows, the last has at least one and no more
/// than that, and there are none just if it has no rows.
pub proof fn merging_into_chunks_agrees_with_merging_into_one<
    M: Fn(&Batch) -> usize,
    N: Fn(&Batch) -> usize,
>(
    whole: Batch,
    r: Result<Vec<Batch>, QueryError>,
    batches: Seq<BatchModel>,
    measurement: Seq<char>,
    chunk_size: usize,
    measure_whole: M,
    measure_chunks: N,
    whole_end: Option<(int, int)>,
    end: Option<(int, int)>,
)
    requires
        batches.len() > 1,
        chunk_size > 0,
        dedup_outcome(Ok(whole), batches, measurement, measure_whole, None, whole_end),
        chunked_outcome(r, batches, measurement, chunk_size, measure_chunks, None, end),
    ensures
        r is Ok,
        ({
            let parts = models_of(r->Ok_0@);
            &&& parts.len() == 0 <==> whole@.rows == 0
            &&& forall|i: int|
                0 <= i < parts.len() ==> 0 < (#[trigger] parts[i]).rows <= chunk_size
            &&& forall|i: int| 0 <= i < parts.len() - 1 ==> (#[trigger] parts[i]).rows == chunk_size
            &&& forall|i: int|
                0 <= i < parts.len() ==> (#[trigger] parts[i]).fields() == whole@.fields()
            &&& forall|c: int|
                0 <= c < whole@.columns.len() ==> joined_cells(parts, c) == (
                #[trigger] whole@.columns[c]).cells
        }),
{
    let made = merged_chunks(batches, measurement, chunk_rows(chunk_size));
    let held = dedup_account(batches, None);
    assert(held is None);
    let sizes = choose|sizes: Seq<usize>| #[trigger]
        chunks_outcome(r, made, measure_chunks, held, end, sizes);
    assert(chunks_outcome(r, made, measure_chunks, held, end, sizes));
    chunks_make_up_the_merged_batch(batches, measurement, chunk_size as nat);
}

/// To map the elements of lists and put the lists together is to put them
/// together and map the elements.
proof fn lemma_flatten_mapped<A, B>(parts: Seq<Seq<A>>, f: spec_fn(A) -> B)
    ensures
        parts.map_values(|part: Seq<A>| part.map_values(f)).flatten()
            == parts.flatten().map_values(f),
    decreases parts.len(),
{
    let mapped = parts.map_values(|part: Seq<A>| part.map_values(f));
    if parts.len() > 0 {
        lemma_flatten_mapped(parts.drop_first(), f);
        assert(mapped.drop_first() =~= parts.drop_first().map_values(
            |part: Seq<A>| part.map_values(f),
        ));
        assert(mapped.flatten() =~= parts.flatten().map_values(f));
    } else {
        assert(mapped.flatten() =~= parts.flatten().map_values(f));
    }
}

} // verus!
