//! What queries are charged for, and when they run out of room.
use vstd::prelude::*;

#[allow(unused_imports)]
use crate::query::agg_fn::AggFn;
#[allow(unused_imports)]
use crate::query::error::QueryError;
#[allow(unused_imports)]
use crate::query::frame::{optional_texts, FrameModel};
#[allow(unused_imports)]
use crate::query::grouped::{
    frame_groups, frame_keys, grouped_as, hash_outcome, hashed_group_bytes, key_parts,
    shows_groups, takes_table, GroupedTable,
};
#[allow(unused_imports)]
use crate::query::grouping::{
    chain_of, charged, group_failure, groups_after, groups_are_distinct, key_hash, GroupKey,
};
#[allow(unused_imports)]
use crate::query::groups::{account_at, failure_at, lemma_with_rows, no_groups, stops_at};
#[allow(unused_imports)]
use crate::query::memory::MemoryTracker;
#[allow(unused_imports)]
use crate::query::output::{
    at_least, keys_least, results_least, settles, settles_parts, spent, table_least, total_text,
};
#[allow(unused_imports)]
use crate::query::result::{KeyColumn, ResultColumn, ResultTable, ResultValues};
#[allow(unused_imports)]
use crate::query::sorted::{
    is_key_order, is_partial_key_order, sort_outcome, sorted_as, sorted_group_bytes, sorted_groups,
};
#[allow(unused_imports)]
use crate::query::streaming::{
    lemma_stream_groups, stream_groups, stream_outcome, stream_stops_at, streamed_as,
    streamed_group_bytes,
};
#[allow(unused_imports)]
use crate::query::window::{window_outcome, windowed, WindowOutcome};
#[allow(unused_imports)]
use crate::query::window_fn::WindowFn;

verus! {

/// A result that is handed out is charged in full, and stays within the budget.
/// One that there is no room for is charged nothing, and the error tells what
/// was asked for. Without a budget every result is handed out.
pub proof fn results_stay_within_the_budget<T>(
    made: Result<T, QueryError>,
    used: int,
    limit: int,
    r: Result<T, QueryError>,
    end: Option<(int, int)>,
    bytes: usize,
)
    requires
        settles(made, Some((used, limit)), r, end, bytes),
    ensures
        made is Ok ==> (r is Ok <==> used + bytes <= limit),
        r is Ok ==> made == r && end == Some((used + bytes, limit)),
        r is Err ==> end == Some((used, limit)),
        made is Ok && r is Err ==> (r->Err_0 matches QueryError::QueryMemoryExceeded {
            requested,
            allocated,
            budget,
        } && requested == bytes && allocated == used && budget == limit),
        made is Err ==> r == made,
{
}

/// Without a budget a result is handed out as it was made.
pub proof fn without_a_budget_nothing_is_refused<T>(
    made: Result<T, QueryError>,
    r: Result<T, QueryError>,
    end: Option<(int, int)>,
    bytes: usize,
)
    requires
        settles(made, None, r, end, bytes),
    ensures
        r == made,
        end is None,
{
}

/// Parts that are charged one after the other stay within the budget together,
/// and the first that there is no room for ends it.
pub proof fn parts_stay_within_the_budget<T>(
    count: nat,
    used: int,
    limit: int,
    r: Result<T, QueryError>,
    end: Option<(int, int)>,
    sizes: Seq<usize>,
)
    requires
        settles_parts(count, Some((used, limit)), r, end, sizes),
        used <= limit,
    ensures
        r is Ok ==> sizes.len() == count && end == Some(
            (used + sizes.fold_left(0int, |sum: int, size: usize| sum + size), limit),
        ) && end.unwrap().0 <= limit,
        r is Err ==> sizes.len() > 0 && end == Some(
            (
                used + sizes.drop_last().fold_left(0int, |sum: int, size: usize| sum + size),
                limit,
            ),
        ) && end.unwrap().0 <= limit < end.unwrap().0 + sizes.last(),
{
    lemma_spent(sizes);
    if r is Ok {
        lemma_room(sizes, used, limit);
    } else {
        lemma_spent(sizes.drop_last());
        lemma_room(sizes.drop_last(), used, limit);
    }
}

proof fn lemma_spent(sizes: Seq<usize>)
    ensures
        spent(sizes) == sizes.fold_left(0int, |sum: int, size: usize| sum + size),
    decreases sizes.len(),
{
    if sizes.len() > 0 {
        lemma_spent(sizes.drop_last());
    }
}

proof fn lemma_room(sizes: Seq<usize>, used: int, limit: int)
    requires
        crate::query::output::all_fit(sizes, Some((used, limit))),
        used <= limit,
    ensures
        used + spent(sizes) <= limit,
{
    if sizes.len() > 0 {
        let last = sizes.len() - 1;
        assert(sizes[last] == sizes.last());
        assert(sizes.take(last) =~= sizes.drop_last());
    }
}

/// A row fails for want of room only if its key is new, and then just if a
/// group takes more than what is left. A row fails for its hash just if as many
/// groups as are allowed share it.
pub proof fn only_new_groups_need_room(
    gs: Seq<GroupKey>,
    key: GroupKey,
    used: int,
    limit: int,
    bytes: usize,
)
    ensures
        group_failure(gs, key, false, Some((used, limit)), bytes) is Some <==> (!gs.contains(key)
            && used + bytes > limit),
        group_failure(gs, key, false, None, bytes) is None,
        group_failure(gs, key, true, None, bytes) is Some <==> sharing(gs, key_hash(key)).len()
            >= 1024,
        gs.len() < 1024 ==> group_failure(gs, key, true, None, bytes) is None,
{
    lemma_sharing(gs, key_hash(key));
}

/// The groups whose keys have this hash.
pub open spec fn sharing(gs: Seq<GroupKey>, hash: u64) -> Seq<GroupKey> {
    gs.filter(|k: GroupKey| key_hash(k) == hash)
}

proof fn lemma_sharing(gs: Seq<GroupKey>, hash: u64)
    ensures
        sharing(gs, hash).len() == chain_of(gs, hash).len(),
        chain_of(gs, hash).len() <= gs.len(),
    decreases gs.len(),
{
    reveal(Seq::filter);
    if gs.len() > 0 {
        lemma_sharing(gs.drop_last(), hash);
    }
}

/// Grouping rows takes 88 bytes for each group, 16 more for each group-by
/// column and 80 for each field, and then what the table takes; all of it is
/// within the budget.
pub proof fn each_group_is_charged(
    grouped: GroupedTable,
    frame: FrameModel,
    functions: Seq<AggFn>,
    fields: Seq<Seq<char>>,
    by: Seq<Seq<char>>,
    used: int,
    limit: int,
    end: Option<(int, int)>,
)
    requires
        grouped_as(Ok(grouped), frame, functions, fields, by, Some((used, limit)), end),
        by.len() > 0,
        88 + by.len() * 16 + fields.len() * 80 <= usize::MAX,
    ensures
        ({
            let groups = grouped.table.keys@[0].values@.len();
            let (after, after_limit) = end.unwrap();
            &&& end is Some
            &&& after_limit == limit
            &&& after <= limit
            &&& after - used - groups * (88 + by.len() * 16 + fields.len() * 80) >= table_least(
                &grouped.table,
            ) || after - used - groups * (88 + by.len() * 16 + fields.len() * 80) == usize::MAX
        }),
{
    let model = frame_groups(frame, fields, by);
    let bytes = hashed_group_bytes(by.len(), fields.len()) as usize;
    let ks = frame_keys(frame, by);
    let none = Seq::<GroupKey>::empty();
    lemma_with_rows(
        no_groups(),
        frame,
        crate::query::aggregate::named_columns(frame, fields),
        crate::query::aggregate::named_texts(frame, by),
        frame.rows as int,
    );
    assert(model.keys == groups_after(none, ks));
    let (made, held, size) = choose|
        made: Result<GroupedTable, QueryError>,
        held: Option<(int, int)>,
        size: usize,
    |
        hash_outcome(made, frame, functions, fields, by, Some((used, limit)), held, bytes)
            && takes_table(made, size) && #[trigger] settles(made, held, Ok(grouped), end, size);
    assert(settles(made, held, Ok(grouped), end, size));
    assert(made == Ok::<GroupedTable, QueryError>(grouped));
    assert(grouped.table.keys@[0].name@ == by[0]);
    assert(optional_texts(grouped.table.keys@[0].values@) == key_parts(model, 0));
    assert(optional_texts(grouped.table.keys@[0].values@).len() == model.keys.len());
    assert(bytes == 88 + by.len() * 16 + fields.len() * 80);
    let groups = model.keys.len();
    assert(bytes * groups == groups * bytes) by (nonlinear_arith);
}

/// Grouping rows by sorting takes 88 bytes for each group, 48 more for each
/// group-by column and 80 for each field, and then what the table takes; all of
/// it is within the budget.
pub proof fn each_sorted_group_is_charged(
    grouped: GroupedTable,
    frame: FrameModel,
    functions: Seq<AggFn>,
    fields: Seq<Seq<char>>,
    by: Seq<Seq<char>>,
    used: int,
    limit: int,
    end: Option<(int, int)>,
)
    requires
        sorted_as(Ok(grouped), frame, functions, fields, by, Some((used, limit)), end),
        by.len() > 0,
        88 + by.len() * 48 + fields.len() * 80 <= usize::MAX,
    ensures
        ({
            let groups = grouped.table.keys@[0].values@.len();
            let (after, after_limit) = end.unwrap();
            let spent = after - used - groups * (88 + by.len() * 48 + fields.len() * 80);
            &&& end is Some
            &&& after_limit == limit
            &&& after <= limit
            &&& spent >= table_least(&grouped.table) || spent == usize::MAX
        }),
{
    let bytes = sorted_group_bytes(by.len(), fields.len()) as usize;
    let ks = frame_keys(frame, by);
    let start = Some((used, limit));
    let (made, held, size) = choose|
        made: Result<GroupedTable, QueryError>,
        held: Option<(int, int)>,
        size: usize,
    |
        sort_outcome(made, frame, functions, fields, by, start, held, bytes) && takes_table(
            made,
            size,
        ) && #[trigger] settles(made, held, Ok(grouped), end, size);
    assert(settles(made, held, Ok(grouped), end, size));
    assert(made == Ok::<GroupedTable, QueryError>(grouped));
    let groups = choose|groups: Seq<GroupKey>|
        {
            let model = sorted_groups(frame, fields, by, groups);
            &&& #[trigger] is_key_order(groups, ks)
            &&& held == charged(start, bytes * groups.len())
            &&& groups.len() > 0 ==> (held matches Some((u, l)) ==> u <= l)
            &&& shows_groups(&grouped.table, model, by, fields, functions)
            &&& crate::query::grouped::are_row_groups(grouped.row_groups@, groups, ks)
        };
    let model = sorted_groups(frame, fields, by, groups);
    assert(is_key_order(groups, ks));
    assert(shows_groups(&grouped.table, model, by, fields, functions));
    assert(grouped.table.keys@[0].name@ == by[0]);
    assert(optional_texts(grouped.table.keys@[0].values@) == key_parts(model, 0));
    assert(optional_texts(grouped.table.keys@[0].values@).len() == groups.len());
    assert(bytes == 88 + by.len() * 48 + fields.len() * 80);
    let n = groups.len();
    assert(bytes * n == n * bytes) by (nonlinear_arith);
}

/// Grouping batches as they come takes 48 bytes for each group, 48 more for each
/// group-by column and 80 for each field, and then what the table takes; all of
/// it is within the budget.
pub proof fn each_streamed_group_is_charged(
    table: ResultTable,
    frames: Seq<FrameModel>,
    functions: Seq<AggFn>,
    fields: Seq<Seq<char>>,
    by: Seq<Seq<char>>,
    used: int,
    limit: int,
    end: Option<(int, int)>,
)
    requires
        streamed_as(Ok(table), frames, functions, fields, by, Some((used, limit)), end),
        by.len() > 0,
        48 + by.len() * 48 + fields.len() * 80 <= usize::MAX,
    ensures
        ({
            let groups = table.keys@[0].values@.len();
            let (after, after_limit) = end.unwrap();
            let spent = after - used - groups * (48 + by.len() * 48 + fields.len() * 80);
            &&& end is Some
            &&& after_limit == limit
            &&& after <= limit
            &&& spent >= table_least(&table) || spent == usize::MAX
        }),
{
    let bytes = streamed_group_bytes(by.len(), fields.len());
    let start = Some((used, limit));
    let (made, held, size) = choose|
        made: Result<ResultTable, QueryError>,
        held: Option<(int, int)>,
        size: usize,
    |
        stream_outcome(made, frames, functions, fields, by, start, held) && (
        made matches Ok(t) ==> at_least(size, table_least(&t))) && #[trigger] settles(
            made,
            held,
            Ok(table),
            end,
            size,
        );
    assert(settles(made, held, Ok(table), end, size));
    assert(made == Ok::<ResultTable, QueryError>(table));
    let model = stream_groups(frames, fields, by);
    assert(shows_groups(&table, model, by, fields, functions));
    assert(table.keys@[0].name@ == by[0]);
    assert(optional_texts(table.keys@[0].values@) == key_parts(model, 0));
    assert(optional_texts(table.keys@[0].values@).len() == model.keys.len());
    assert(bytes == 48 + by.len() * 48 + fields.len() * 80);
    let n = model.keys.len();
    assert(bytes * n == n * bytes) by (nonlinear_arith);
}

/// The error says that there is no room: what was requested is more than what is
/// left of the budget, of which nothing was given back.
pub open spec fn tells_no_room(e: QueryError, used: int, limit: int) -> bool {
    e matches QueryError::QueryMemoryExceeded { requested, allocated, budget } ==> {
        &&& budget == limit
        &&& used <= allocated
        &&& allocated + requested > budget
    }
}

/// Grouping by hashing runs out of memory only where there is no room.
pub proof fn hashing_runs_out_only_without_room(
    e: QueryError,
    frame: FrameModel,
    functions: Seq<AggFn>,
    fields: Seq<Seq<char>>,
    by: Seq<Seq<char>>,
    used: int,
    limit: int,
    end: Option<(int, int)>,
)
    requires
        grouped_as(Err(e), frame, functions, fields, by, Some((used, limit)), end),
        by.len() > 0,
    ensures
        tells_no_room(e, used, limit),
{
    let start = Some((used, limit));
    let r = Err::<GroupedTable, QueryError>(e);
    if e is QueryMemoryExceeded {
        let bytes = hashed_group_bytes(by.len(), fields.len()) as usize;
        let ks = frame_keys(frame, by);
        let none = Seq::<GroupKey>::empty();
        let (made, held, size) = choose|
            made: Result<GroupedTable, QueryError>,
            held: Option<(int, int)>,
            size: usize,
        |
            hash_outcome(made, frame, functions, fields, by, start, held, bytes) && takes_table(
                made,
                size,
            ) && #[trigger] settles(made, held, r, end, size);
        assert(settles(made, held, r, end, size));
        if made is Ok {
            let n = groups_after(none, ks).len();
            assert(bytes * n >= 0) by (nonlinear_arith);
        } else {
            let row = choose|row: int|
                {
                    &&& #[trigger] stops_at(none, ks, row, true, start, bytes)
                    &&& failure_at(none, ks, row, true, start, bytes).unwrap().reported_as(
                        e,
                        account_at(none, ks, row, start, bytes),
                        bytes,
                    )
                    &&& held == account_at(none, ks, row, start, bytes)
                };
            assert(stops_at(none, ks, row, true, start, bytes));
            let n = groups_after(none, ks.take(row)).len();
            assert(bytes * n >= 0) by (nonlinear_arith);
        }
    }
}

/// Grouping by sorting runs out of memory only where there is no room.
pub proof fn sorting_runs_out_only_without_room(
    e: QueryError,
    frame: FrameModel,
    functions: Seq<AggFn>,
    fields: Seq<Seq<char>>,
    by: Seq<Seq<char>>,
    used: int,
    limit: int,
    end: Option<(int, int)>,
)
    requires
        sorted_as(Err(e), frame, functions, fields, by, Some((used, limit)), end),
        by.len() > 0,
    ensures
        tells_no_room(e, used, limit),
{
    let start = Some((used, limit));
    let r = Err::<GroupedTable, QueryError>(e);
    if e is QueryMemoryExceeded {
        let bytes = sorted_group_bytes(by.len(), fields.len()) as usize;
        let ks = frame_keys(frame, by);
        let (made, held, size) = choose|
            made: Result<GroupedTable, QueryError>,
            held: Option<(int, int)>,
            size: usize,
        |
            sort_outcome(made, frame, functions, fields, by, start, held, bytes) && takes_table(
                made,
                size,
            ) && #[trigger] settles(made, held, r, end, size);
        assert(settles(made, held, r, end, size));
        if made is Ok {
            let groups = choose|groups: Seq<GroupKey>|
                #[trigger] is_key_order(groups, ks) && held == charged(start, bytes * groups.len());
            let n = groups.len();
            assert(bytes * n >= 0) by (nonlinear_arith);
        } else {
            let (groups, taken) = choose|groups: Seq<GroupKey>, taken: int|
                {
                    &&& #[trigger] is_partial_key_order(groups, ks, taken)
                    &&& held == charged(start, bytes * taken)
                    &&& e matches QueryError::QueryMemoryExceeded { requested, allocated, budget }
                    &&& requested == bytes
                    &&& Some((allocated as int, budget as int)) == held
                    &&& allocated + bytes > budget
                };
            assert(is_partial_key_order(groups, ks, taken));
            assert(bytes * taken >= 0) by (nonlinear_arith)
                requires
                    taken >= 0,
            ;
        }
    }
}

/// Grouping batches as they come runs out of memory only where there is no room.
pub proof fn streaming_runs_out_only_without_room(
    e: QueryError,
    frames: Seq<FrameModel>,
    functions: Seq<AggFn>,
    fields: Seq<Seq<char>>,
    by: Seq<Seq<char>>,
    used: int,
    limit: int,
    end: Option<(int, int)>,
)
    requires
        streamed_as(Err(e), frames, functions, fields, by, Some((used, limit)), end),
    ensures
        tells_no_room(e, used, limit),
{
    let start = Some((used, limit));
    let r = Err::<ResultTable, QueryError>(e);
    if e is QueryMemoryExceeded {
        let bytes = streamed_group_bytes(by.len(), fields.len());
        let (made, held, size) = choose|
            made: Result<ResultTable, QueryError>,
            held: Option<(int, int)>,
            size: usize,
        |
            stream_outcome(made, frames, functions, fields, by, start, held) && (
            made matches Ok(t) ==> at_least(size, table_least(&t))) && #[trigger] settles(
                made,
                held,
                r,
                end,
                size,
            );
        assert(settles(made, held, r, end, size));
        if by.len() > 0 {
            if made is Ok {
                let n = stream_groups(frames, fields, by).keys.len();
                assert(bytes * n >= 0) by (nonlinear_arith)
                    requires
                        bytes >= 0,
                ;
            } else {
                let (i, row) = choose|i: int, row: int| #[trigger]
                    stream_stops_at(frames, fields, by, start, held, e, i, row);
                assert(stream_stops_at(frames, fields, by, start, held, e, i, row));
                let gs = stream_groups(frames.take(i), fields, by).keys;
                let ks = frame_keys(frames[i], by);
                let whole = bytes as usize;
                let n = gs.len();
                let m = groups_after(gs, ks.take(row)).len() - gs.len();
                lemma_stream_groups(frames.take(i), fields, by);
                groups_are_distinct(gs, ks.take(row));
                assert(whole * n >= 0) by (nonlinear_arith);
                assert(whole * m >= 0) by (nonlinear_arith)
                    requires
                        m >= 0,
                ;
            }
        }
    }
}

/// Window functions take eight bytes for each row and function and sixteen more
/// for each row before anything is computed; where there is no room for that,
/// nothing is charged.
pub proof fn windows_are_charged_first(
    r: Result<WindowOutcome, QueryError>,
    frame: FrameModel,
    functions: Seq<WindowFn>,
    by: Seq<Seq<char>>,
    value_name: Seq<char>,
    used: int,
    limit: int,
    end: Option<(int, int)>,
)
    requires
        window_outcome(r, frame, functions, by, value_name, Some((used, limit)), end),
        frame.rows * functions.len() * 8 + frame.rows * 16 <= usize::MAX,
    ensures
        ({
            let bytes = frame.rows * functions.len() * 8 + frame.rows * 16;
            &&& used + bytes <= limit ==> end == Some((used + bytes, limit)) && windowed(
                r,
                frame,
                functions,
                by,
                value_name,
            )
            &&& used + bytes > limit ==> end == Some((used, limit)) && (r matches Err(
                QueryError::QueryMemoryExceeded { requested, allocated, budget },
            ) && requested == bytes && allocated == used && budget == limit)
        }),
{
}

/// What fits into a budget is just what is left of it.
pub proof fn what_is_left_fits(tracker: &MemoryTracker, bytes: int)
    ensures
        tracker.fits(bytes) <==> bytes <= tracker.limit() - tracker.used(),
        tracker.fits(tracker.limit() - tracker.used()),
        !tracker.fits(tracker.limit() - tracker.used() + 1),
{
}

/// What a table takes is at least what its cells take: eight bytes for each
/// result that is a double, sixteen for each decimal, and for each key its text
/// in UTF-8 and four bytes more; and something for each column.
pub proof fn a_table_takes_at_least_its_cells(
    keys: Seq<KeyColumn>,
    results: Seq<ResultColumn>,
    key: KeyColumn,
    result: ResultColumn,
    texts: Seq<Option<String>>,
    text: String,
)
    ensures
        results_least(Seq::empty()) == 0,
        results_least(results.push(result)) == results_least(results) + 1 + match result.values {
            ResultValues::Floats(values) => 8 * values@.len(),
            ResultValues::Decimals { mantissas, .. } => 16 * mantissas@.len(),
        },
        keys_least(Seq::empty()) == 0,
        keys_least(keys.push(key)) == keys_least(keys) + 1 + 4 * key.values@.len() + total_text(
            key.values@,
        ),
        total_text(Seq::empty()) == 0,
        total_text(texts.push(None)) == total_text(texts),
        total_text(texts.push(Some(text))) == total_text(texts) + vstd::utf8::encode_utf8(
            text@,
        ).len(),
{
    assert(results.push(result).drop_last() =~= results);
    assert(keys.push(key).drop_last() =~= keys);
    assert(texts.push(None).drop_last() =~= texts);
    assert(texts.push(Some(text)).drop_last() =~= texts);
}

} // verus!
