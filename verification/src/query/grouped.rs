//! Group-by aggregation by hashing the keys.
use vstd::prelude::*;
use vstd::string::*;

use crate::query::accumulator::IncrementalAccumulator;
#[allow(unused_imports)]
use crate::query::accumulator::aggregate_of;
use crate::query::agg_fn::{result_column_name, AggFn};
#[allow(unused_imports)]
use crate::query::agg_fn::result_name;
use crate::query::aggregate::{
    batch_table, check_columns, check_texts, find_columns, find_texts, group_bytes,
};
#[allow(unused_imports)]
use crate::query::aggregate::{
    batch_outcome, first_missing, first_untexted, named_columns, named_texts, ACCUMULATOR_BYTES,
};
use crate::query::error::QueryError;
use crate::query::frame::{ColumnData, Frame};
#[allow(unused_imports)]
use crate::query::frame::{optional_texts, FrameModel};
#[allow(unused_imports)]
use crate::query::grouping::{account, charged, groups_after, GroupKey};
use crate::query::groups::Groups;
#[allow(unused_imports)]
use crate::query::groups::{
    account_at, are_columns, are_text_columns, columns_of, failure_at, lemma_with_rows, lists_fit_columns, lists_summarize,
    no_groups, row_key, row_keys, stops_at, text_columns_of, GroupsModel,
};
#[allow(unused_imports)]
use crate::query::memory::countable;
use crate::query::memory::MemoryTracker;
use crate::query::output::{charge_result, table_bytes};
#[allow(unused_imports)]
use crate::query::output::{at_least, settles, table_least};
use crate::query::result::{agg_result_column, KeyColumn, ResultColumn, ResultTable};
#[allow(unused_imports)]
use crate::query::result::{lemma_possible_scale, lemma_result_pairs, result_pairs};
use crate::query::track::AggResult;
#[allow(unused_imports)]
use crate::text::texts;

verus! {

broadcast use vstd::string::group_string_axioms;

/// Bytes that a group is taken to need: its key by reference, its
/// accumulators, and its entry in the index, 24 and 64 bytes beside these.
pub open spec fn hashed_group_bytes(keys: nat, fields: nat) -> int {
    countable(88 + keys * 16 + fields * ACCUMULATOR_BYTES)
}

/// The aggregates of a field in each group.
pub open spec fn group_results(m: GroupsModel, field: int, func: AggFn) -> Seq<AggResult> {
    Seq::new(m.keys.len(), |g: int| aggregate_of(m.readings[g][field], func))
}

/// One part of the key of each group.
pub open spec fn key_parts(m: GroupsModel, part: int) -> Seq<Option<Seq<char>>> {
    Seq::new(m.keys.len(), |g: int| m.keys[g][part])
}

/// The table shows the keys of the groups and the aggregates of their fields.
pub open spec fn shows_groups(
    table: &ResultTable,
    m: GroupsModel,
    by: Seq<Seq<char>>,
    fields: Seq<Seq<char>>,
    functions: Seq<AggFn>,
) -> bool {
    let pairs = result_pairs(fields, functions);
    &&& table.keys@.len() == by.len()
    &&& forall|c: int|
        0 <= c < by.len() ==> (#[trigger] table.keys@[c]).name@ == by[c] && optional_texts(
            table.keys@[c].values@,
        ) == key_parts(m, c)
    &&& table.results@.len() == pairs.len()
    &&& forall|p: int|
        0 <= p < pairs.len() ==> (#[trigger] table.results@[p]).shows(
            result_name(fields[pairs[p].0], pairs[p].1),
            group_results(m, pairs[p].0, pairs[p].1),
        )
}

/// Every key has one part per group-by column.
pub open spec fn keys_have_parts(keys: Seq<Vec<Option<String>>>, parts: nat) -> bool {
    forall|g: int| 0 <= g < keys.len() ==> (#[trigger] keys[g])@.len() == parts
}

/// The columns of the group keys.
fn key_columns(keys: &Vec<Vec<Option<String>>>, by: &[&str]) -> (r: Vec<KeyColumn>)
    requires
        keys_have_parts(keys@, by@.len()),
    ensures
        r@.len() == by@.len(),
        forall|c: int|
            0 <= c < by@.len() ==> (#[trigger] r@[c]).name@ == by@[c]@ && r@[c].values@.len()
                == keys@.len() && forall|g: int|
                0 <= g < keys@.len() ==> #[trigger] optional_texts(r@[c].values@)[g]
                    == optional_texts(keys@[g]@)[c],
{
    let mut out: Vec<KeyColumn> = Vec::new();
    let mut c: usize = 0;
    while c < by.len()
        invariant
            c <= by.len(),
            keys_have_parts(keys@, by@.len()),
            out@.len() == c,
            forall|d: int|
                0 <= d < c ==> (#[trigger] out@[d]).name@ == by@[d]@ && out@[d].values@.len()
                    == keys@.len() && forall|g: int|
                    0 <= g < keys@.len() ==> #[trigger] optional_texts(out@[d].values@)[g]
                        == optional_texts(keys@[g]@)[d],
        decreases by.len() - c,
    {
        let mut values: Vec<Option<String>> = Vec::new();
        let mut g: usize = 0;
        while g < keys.len()
            invariant
                g <= keys.len(),
                c < by.len(),
                keys_have_parts(keys@, by@.len()),
                values@.len() == g,
                forall|h: int|
                    0 <= h < g ==> #[trigger] optional_texts(values@)[h] == optional_texts(
                        keys@[h]@,
                    )[c as int],
            decreases keys.len() - g,
        {
            let ghost before = values@;
            let key = &keys[g];
            assert(key@.len() == by@.len());
            let part: Option<String> = match &key[c] {
                Some(text) => Some(text.clone()),
                None => None,
            };
            values.push(part);
            proof {
                assert forall|h: int| 0 <= h < g + 1 implies #[trigger] optional_texts(values@)[h]
                    == optional_texts(keys@[h]@)[c as int] by {
                    if h < g {
                        assert(values@[h] == before[h]);
                        assert(optional_texts(before)[h] == optional_texts(keys@[h]@)[c as int]);
                    }
                }
            }
            g = g + 1;
        }
        out.push(KeyColumn { name: by[c].to_owned(), values });
        c = c + 1;
    }
    out
}

/// Build the result table from the accumulators of the groups.
pub fn group_table(
    keys: &Vec<Vec<Option<String>>>,
    accumulators: &Vec<Vec<IncrementalAccumulator>>,
    functions: &[AggFn],
    field_columns: &[&str],
    group_by: &[&str],
) -> (r: Result<ResultTable, QueryError>)
    requires
        keys_have_parts(keys@, group_by@.len()),
        accumulators@.len() == keys@.len(),
        forall|g: int|
            0 <= g < accumulators@.len() ==> (#[trigger] accumulators@[g])@.len()
                == field_columns@.len(),
        lists_fit_columns(accumulators@),
    ensures
        r is Ok,
        forall|m: GroupsModel|
            lists_summarize(keys@, accumulators@, field_columns@.len(), m)
                ==> #[trigger] shows_groups(
                &r.unwrap(),
                m,
                texts(group_by@),
                texts(field_columns@),
                functions@,
            ),
{
    let ghost fields = texts(field_columns@);
    let ghost by = texts(group_by@);
    let ghost nf = field_columns@.len();
    let key_list = key_columns(keys, group_by);
    let mut results: Vec<ResultColumn> = Vec::new();
    let mut i: usize = 0;
    assert(fields.take(0) =~= Seq::empty());
    while i < field_columns.len()
        invariant
            i <= field_columns.len(),
            fields == texts(field_columns@),
            nf == field_columns@.len(),
            accumulators@.len() == keys@.len(),
            forall|g: int| 0 <= g < accumulators@.len() ==> (#[trigger] accumulators@[g])@.len() == nf,
            lists_fit_columns(accumulators@),
            results@.len() == result_pairs(fields.take(i as int), functions@).len(),
            forall|m: GroupsModel, p: int|
                #![trigger lists_summarize(keys@, accumulators@, nf, m), results@[p]]
                lists_summarize(keys@, accumulators@, nf, m) && 0 <= p < results@.len() ==> {
                    let pair = result_pairs(fields.take(i as int), functions@)[p];
                    results@[p].shows(
                        result_name(fields[pair.0], pair.1),
                        group_results(m, pair.0, pair.1),
                    )
                },
        decreases field_columns.len() - i,
    {
        let ghost done = result_pairs(fields.take(i as int), functions@);
        let ghost next = done + functions@.map_values(|f: AggFn| (i as int, f));
        proof {
            lemma_result_pairs(fields.take(i as int), functions@);
            assert(fields.take(i + 1).drop_last() =~= fields.take(i as int));
        }
        let mut k: usize = 0;
        while k < functions.len()
            invariant
                k <= functions.len(),
                i < field_columns.len(),
                fields == texts(field_columns@),
                nf == field_columns@.len(),
                accumulators@.len() == keys@.len(),
                forall|g: int|
                    0 <= g < accumulators@.len() ==> (#[trigger] accumulators@[g])@.len() == nf,
                lists_fit_columns(accumulators@),
                next == done + functions@.map_values(|f: AggFn| (i as int, f)),
                results@.len() == done.len() + k,
                forall|m: GroupsModel, p: int|
                    #![trigger lists_summarize(keys@, accumulators@, nf, m), results@[p]]
                    lists_summarize(keys@, accumulators@, nf, m) && 0 <= p < results@.len() ==> {
                        results@[p].shows(
                            result_name(fields[next[p].0], next[p].1),
                            group_results(m, next[p].0, next[p].1),
                        )
                    },
            decreases functions.len() - k,
        {
            let func = functions[k];
            let mut values: Vec<AggResult> = Vec::new();
            let mut g: usize = 0;
            while g < accumulators.len()
                invariant
                    g <= accumulators.len(),
                    i < nf,
                    accumulators@.len() == keys@.len(),
                    forall|h: int|
                        0 <= h < accumulators@.len() ==> (#[trigger] accumulators@[h])@.len() == nf,
                    lists_fit_columns(accumulators@),
                    values@.len() == g,
                    forall|h: int|
                        0 <= h < g ==> ((#[trigger] values@[h]) matches AggResult::Decimal {
                            scale,
                            ..
                        } ==> scale <= crate::query::accumulator::MAX_COLUMN_SCALE),
                    forall|m: GroupsModel, h: int|
                        #![trigger lists_summarize(keys@, accumulators@, nf, m), values@[h]]
                        lists_summarize(keys@, accumulators@, nf, m) && 0 <= h < g ==> values@[h]
                            == aggregate_of(m.readings[h][i as int], func),
                decreases accumulators.len() - g,
            {
                let ghost before = values@;
                let list = &accumulators[g];
                assert(list@.len() == nf);
                assert(accumulators@[g as int]@[i as int].fits_a_column());
                let value = list[i].finalize(func);
                values.push(value);
                proof {
                    assert forall|m: GroupsModel, h: int|
                        #![trigger lists_summarize(keys@, accumulators@, nf, m), values@[h]]
                        lists_summarize(keys@, accumulators@, nf, m) && 0 <= h < g
                            + 1 implies values@[h] == aggregate_of(m.readings[h][i as int], func) by {
                        if h < g {
                            assert(values@[h] == before[h]);
                        } else {
                            assert(accumulators@[h]@[i as int].summarizes(
                                m.readings[h][i as int],
                            ));
                        }
                    }
                }
                g = g + 1;
            }
            let name = result_column_name(field_columns[i], func);
            proof {
                lemma_possible_scale(values@);
                assert(next[done.len() + k] == (i as int, func));
            }
            match agg_result_column(name.as_str(), values.as_slice()) {
                Ok(column) => {
                    let ghost before = results@;
                    results.push(column);
                    proof {
                        assert forall|m: GroupsModel, p: int|
                            #![trigger lists_summarize(keys@, accumulators@, nf, m), results@[p]]
                            lists_summarize(keys@, accumulators@, nf, m) && 0 <= p
                                < results@.len() implies results@[p].shows(
                            result_name(fields[next[p].0], next[p].1),
                            group_results(m, next[p].0, next[p].1),
                        ) by {
                            if p < before.len() {
                                assert(results@[p] == before[p]);
                            } else {
                                assert(values@ =~= group_results(m, i as int, func));
                            }
                        }
                    }
                },
                Err(e) => {
                    return Err(e);
                },
            }
            k = k + 1;
        }
        assert(next == result_pairs(fields.take(i + 1), functions@));
        i = i + 1;
    }
    assert(fields.take(i as int) =~= fields);
    let table = ResultTable { keys: key_list, results };
    proof {
        assert forall|m: GroupsModel|
            lists_summarize(keys@, accumulators@, nf, m) implies #[trigger] shows_groups(
            &table,
            m,
            by,
            fields,
            functions@,
        ) by {
            assert forall|c: int| 0 <= c < by.len() implies (#[trigger] table.keys@[c]).name@
                == by[c] && optional_texts(table.keys@[c].values@) == key_parts(m, c) by {
                let shown = optional_texts(table.keys@[c].values@);
                assert forall|g: int| 0 <= g < keys@.len() implies #[trigger] shown[g]
                    == key_parts(m, c)[g] by {
                    assert(optional_texts(keys@[g]@) == m.keys[g]);
                }
                assert(shown =~= key_parts(m, c));
            }
        }
    }
    Ok(table)
}

/// A table of groups, and the group of each row.
#[derive(Debug)]
pub struct GroupedTable {
    /// Keys and results.
    pub table: ResultTable,
    /// The number of each row's group.
    pub row_groups: Vec<usize>,
}

/// The keys of the rows of a frame.
pub open spec fn frame_keys(frame: FrameModel, by: Seq<Seq<char>>) -> Seq<GroupKey> {
    row_keys(named_texts(frame, by), frame.rows as int)
}

/// The groups of a frame.
pub open spec fn frame_groups(
    frame: FrameModel,
    fields: Seq<Seq<char>>,
    by: Seq<Seq<char>>,
) -> GroupsModel {
    no_groups().with_rows(
        frame,
        named_columns(frame, fields),
        named_texts(frame, by),
        frame.rows as int,
    )
}

/// Each row's group is the one with its key.
pub open spec fn are_row_groups(
    row_groups: Seq<usize>,
    groups: Seq<GroupKey>,
    keys: Seq<GroupKey>,
) -> bool {
    &&& row_groups.len() == keys.len()
    &&& forall|row: int|
        0 <= row < keys.len() ==> (#[trigger] row_groups[row]) < groups.len()
            && groups[row_groups[row] as int] == keys[row]
}

/// The outcome of grouping the rows of a frame by hashing, with `bytes` bytes
/// taken per group: a table of the groups in the order in which they are first
/// seen, or an error at the first row that cannot be taken.
pub open spec fn hash_outcome(
    r: Result<GroupedTable, QueryError>,
    frame: FrameModel,
    functions: Seq<AggFn>,
    fields: Seq<Seq<char>>,
    by: Seq<Seq<char>>,
    start: Option<(int, int)>,
    end: Option<(int, int)>,
    bytes: usize,
) -> bool {
    let ks = frame_keys(frame, by);
    let none = Seq::<GroupKey>::empty();
    match r {
        Ok(grouped) => {
            let model = frame_groups(frame, fields, by);
            &&& forall|row: int|
                0 <= row < ks.len() ==> #[trigger] failure_at(
                    none,
                    ks,
                    row,
                    true,
                    start,
                    bytes,
                ) is None
            &&& end == charged(start, bytes * groups_after(none, ks).len())
            &&& shows_groups(&grouped.table, model, by, fields, functions)
            &&& are_row_groups(grouped.row_groups@, model.keys, ks)
        },
        Err(e) => exists|row: int|
            {
                &&& #[trigger] stops_at(none, ks, row, true, start, bytes)
                &&& failure_at(none, ks, row, true, start, bytes).unwrap().reported_as(
                    e,
                    account_at(none, ks, row, start, bytes),
                    bytes,
                )
                &&& end == account_at(none, ks, row, start, bytes)
            },
    }
}

fn group_by_hash(
    frame: &Frame,
    functions: &[AggFn],
    field_columns: &[&str],
    group_by: &[&str],
    columns: &Vec<Option<&ColumnData>>,
    key_texts: &Vec<Option<&Vec<Option<String>>>>,
    tracker: &mut Option<MemoryTracker>,
    bytes: usize,
) -> (r: Result<GroupedTable, QueryError>)
    requires
        columns@.len() == field_columns@.len(),
        columns_of(columns@) == named_columns(frame@, texts(field_columns@)),
        are_columns(columns_of(columns@), frame@.rows),
        text_columns_of(key_texts@) == named_texts(frame@, texts(group_by@)),
        are_text_columns(text_columns_of(key_texts@), frame@.rows),
    ensures
        hash_outcome(
            r,
            frame@,
            functions@,
            texts(field_columns@),
            texts(group_by@),
            account(*old(tracker)),
            account(*final(tracker)),
            bytes,
        ),
{
    let ghost fields = texts(field_columns@);
    let ghost by = texts(group_by@);
    let _ = frame.rows();
    let mut groups = Groups::new(field_columns.len());
    let ghost empty = groups;
    let row_groups = match groups.take_frame(frame, columns, key_texts, true, tracker, bytes) {
        Ok(rows) => rows,
        Err(e) => {
            return Err(e);
        },
    };
    let (keys, accumulators) = groups.lists();
    let ghost model = frame_groups(frame@, fields, by);
    proof {
        assert(empty.summarizes(no_groups()));
        assert(groups.summarizes(model));
        lemma_with_rows(
            no_groups(),
            frame@,
            columns_of(columns@),
            text_columns_of(key_texts@),
            frame@.rows as int,
        );
        lemma_keys_have_parts(named_texts(frame@, by), frame@.rows as int);
        assert(lists_summarize(keys@, accumulators@, field_columns@.len(), model));
        assert forall|g: int| 0 <= g < keys@.len() implies (#[trigger] keys@[g])@.len()
            == group_by@.len() by {
            assert(optional_texts(keys@[g]@) == model.keys[g]);
            assert(model.keys[g].len() == by.len());
        }
    }
    match group_table(keys, accumulators, functions, field_columns, group_by) {
        Ok(table) => {
            assert(shows_groups(&table, model, by, fields, functions@));
            Ok(GroupedTable { table, row_groups })
        },
        Err(e) => Err(e),
    }
}

/// What aggregating by group comes to, groups in the order in which they are
/// first seen.
pub open spec fn grouped_as(
    r: Result<GroupedTable, QueryError>,
    frame: FrameModel,
    functions: Seq<AggFn>,
    fields: Seq<Seq<char>>,
    by: Seq<Seq<char>>,
    start: Option<(int, int)>,
    end: Option<(int, int)>,
) -> bool {
    if by.len() == 0 {
        exists|made: Result<GroupedTable, QueryError>, size: usize|
            whole_outcome(made, frame, functions, fields) && takes_table(made, size)
                && #[trigger] settles(made, start, r, end, size)
    } else if let Some(i) = first_untexted(frame, by, 0) {
        &&& end == start
        &&& r matches Err(e)
        &&& e.is_validation("group-by column '"@ + by[i] + "' not found or not string"@)
    } else if let Some(i) = first_missing(frame, fields, 0) {
        &&& end == start
        &&& r matches Err(e)
        &&& e.is_validation("column '"@ + fields[i] + "' not found"@)
    } else {
        exists|made: Result<GroupedTable, QueryError>, held: Option<(int, int)>, size: usize|
            hash_outcome(
                made,
                frame,
                functions,
                fields,
                by,
                start,
                held,
                hashed_group_bytes(by.len(), fields.len()) as usize,
            ) && takes_table(made, size) && #[trigger] settles(made, held, r, end, size)
    }
}

/// Apply aggregation with group-by support.
///
/// Groups rows by the specified text columns, then applies each aggregation
/// function to each field column within each group. Groups come out in the
/// order in which they are first seen. Without group-by columns there is one
/// group, of all rows. The memory that the result takes is charged.
pub fn aggregate_grouped(
    frame: &Frame,
    functions: &[AggFn],
    field_columns: &[&str],
    group_by: &[&str],
    tracker: &mut Option<MemoryTracker>,
) -> (r: Result<GroupedTable, QueryError>)
    ensures
        grouped_as(
            r,
            frame@,
            functions@,
            texts(field_columns@),
            texts(group_by@),
            account(*old(tracker)),
            account(*final(tracker)),
        ),
{
    let ghost fields = texts(field_columns@);
    let ghost by = texts(group_by@);
    if group_by.len() == 0 {
        let made = aggregate_whole(frame, functions, field_columns);
        return charge_grouped(made, tracker);
    }
    let key_texts = find_texts(frame, group_by);
    match check_texts(frame, group_by, &key_texts) {
        Ok(_) => {},
        Err(e) => {
            return Err(e);
        },
    }
    let columns = find_columns(frame, field_columns);
    match check_columns(frame, field_columns, &columns) {
        Ok(_) => {},
        Err(e) => {
            return Err(e);
        },
    }
    let bytes: usize = group_bytes(88, 16, group_by.len(), field_columns.len());
    let made = group_by_hash(
        frame,
        functions,
        field_columns,
        group_by,
        &columns,
        &key_texts,
        tracker,
        bytes,
    );
    charge_grouped(made, tracker)
}

/// The size is one that the table can have, where there is a table.
pub open spec fn takes_table(made: Result<GroupedTable, QueryError>, size: usize) -> bool {
    made matches Ok(grouped) ==> at_least(size, table_least(&grouped.table))
}

/// Charge the memory that a table of results takes.
pub fn charge_grouped(
    made: Result<GroupedTable, QueryError>,
    tracker: &mut Option<MemoryTracker>,
) -> (r: Result<GroupedTable, QueryError>)
    ensures
        exists|size: usize|
            takes_table(made, size) && #[trigger] settles(
                made,
                account(*old(tracker)),
                r,
                account(*final(tracker)),
                size,
            ),
{
    let ghost start = account(*tracker);
    let ghost outcome = made;
    match made {
        Ok(grouped) => {
            let size: usize = if tracker.is_some() {
                table_bytes(&grouped.table)
            } else {
                usize::MAX
            };
            let r = charge_result(grouped, size, tracker);
            assert(settles(outcome, start, r, account(*tracker), size));
            r
        },
        Err(e) => {
            assert(settles(outcome, start, Err(e), account(*tracker), 0));
            Err(e)
        },
    }
}

/// The outcome of aggregating all rows as one group.
pub open spec fn whole_outcome(
    r: Result<GroupedTable, QueryError>,
    frame: FrameModel,
    functions: Seq<AggFn>,
    fields: Seq<Seq<char>>,
) -> bool {
    match r {
        Ok(grouped) => {
            &&& batch_outcome(Ok(grouped.table), frame, functions, fields)
            &&& grouped.row_groups@ == Seq::new(frame.rows, |row: int| 0usize)
        },
        Err(e) => batch_outcome(Err(e), frame, functions, fields),
    }
}

/// Aggregate all rows as one group.
pub fn aggregate_whole(frame: &Frame, functions: &[AggFn], field_columns: &[&str]) -> (r: Result<
    GroupedTable,
    QueryError,
>)
    ensures
        whole_outcome(r, frame@, functions@, texts(field_columns@)),
{
    match batch_table(frame, functions, field_columns) {
        Ok(table) => Ok(GroupedTable { table, row_groups: zeros(frame.rows()) }),
        Err(e) => Err(e),
    }
}

/// Every key of a frame's groups has one part per column.
pub proof fn lemma_keys_have_parts(by: Seq<Option<Seq<Option<Seq<char>>>>>, n: int)
    requires
        0 <= n,
    ensures
        forall|g: int|
            0 <= g < groups_after(Seq::empty(), row_keys(by, n)).len() ==> (
            #[trigger] groups_after(Seq::empty(), row_keys(by, n))[g]).len() == by.len(),
{
    let none = Seq::<GroupKey>::empty();
    let ks = row_keys(by, n);
    assert forall|g: int| 0 <= g < groups_after(none, ks).len() implies (
    #[trigger] groups_after(none, ks)[g]).len() == by.len() by {
        crate::query::grouping::new_groups_come_from_keys(none, ks, g);
        let k = choose|k: int| 0 <= k < ks.len() && ks[k] == groups_after(none, ks)[g];
        assert(ks[k] == row_key(by, k));
    }
}

fn zeros(n: usize) -> (r: Vec<usize>)
    ensures
        r@ == Seq::new(n as nat, |row: int| 0usize),
{
    let mut out: Vec<usize> = Vec::new();
    let mut i: usize = 0;
    while i < n
        invariant
            i <= n,
            out@ == Seq::new(i as nat, |row: int| 0usize),
        decreases n - i,
    {
        out.push(0);
        assert(out@ =~= Seq::new((i + 1) as nat, |row: int| 0usize));
        i = i + 1;
    }
    out
}

} // verus!
