//! Group-by aggregation by sorting the keys.
use vstd::prelude::*;
use vstd::string::*;

use crate::query::accumulator::IncrementalAccumulator;
use crate::query::agg_fn::AggFn;
use crate::query::aggregate::{
    check_columns, check_texts, find_columns, find_texts, group_bytes,
};
#[allow(unused_imports)]
use crate::query::aggregate::{
    first_missing, first_untexted, named_columns, named_texts, ACCUMULATOR_BYTES,
};
use crate::query::error::{invalid, QueryError};
use crate::query::frame::{ColumnData, Frame};
#[allow(unused_imports)]
use crate::query::frame::{optional_texts, FrameModel};
use crate::query::grouped::{aggregate_whole, charge_grouped, group_table, GroupedTable};
#[allow(unused_imports)]
use crate::query::grouped::{
    are_row_groups, frame_keys, shows_groups, takes_table, whole_outcome,
};
#[allow(unused_imports)]
use crate::query::grouping::{account, charged, GroupKey};
use crate::query::groups::{fresh_accumulators, key_of_row, take_readings};
#[allow(unused_imports)]
use crate::query::groups::{
    are_columns, are_text_columns, columns_of, lists_summarize, row_key, row_keys, rows_with_key,
    text_columns_of, with_reading, GroupsModel,
};
#[allow(unused_imports)]
use crate::query::memory::countable;
use crate::query::memory::MemoryTracker;
use crate::query::order::sort_rows;
#[allow(unused_imports)]
use crate::query::order::{holds_row, is_sorted, stably_before, RowOrder};
#[allow(unused_imports)]
use crate::query::output::settles;
use crate::query::row_encoding::EncodedRows;
#[allow(unused_imports)]
use crate::query::row_encoding::{bytes_before, key_before, lemma_bytes_before};
use crate::text::joined_text;
#[allow(unused_imports)]
use crate::text::texts;

verus! {

broadcast use vstd::string::group_string_axioms;

/// Bytes that a group is taken to need: its key, its accumulators, and what
/// holds them.
pub open spec fn sorted_group_bytes(keys: nat, fields: nat) -> int {
    countable(88 + keys * 48 + fields * ACCUMULATOR_BYTES)
}

/// The distinct keys of some rows, in ascending order.
pub open spec fn is_key_order(groups: Seq<GroupKey>, ks: Seq<GroupKey>) -> bool {
    &&& forall|g: int, h: int|
        0 <= g < h < groups.len() ==> key_before(#[trigger] groups[g], #[trigger] groups[h])
    &&& forall|row: int| 0 <= row < ks.len() ==> groups.contains(#[trigger] ks[row])
    &&& forall|g: int| 0 <= g < groups.len() ==> ks.contains(#[trigger] groups[g])
}

/// The groups of a frame in the order of their keys. A group is made of the
/// rows with its key, in their order.
pub open spec fn sorted_groups(
    frame: FrameModel,
    fields: Seq<Seq<char>>,
    by: Seq<Seq<char>>,
    groups: Seq<GroupKey>,
) -> GroupsModel {
    GroupsModel {
        keys: groups,
        readings: Seq::new(
            groups.len(),
            |g: int|
                Seq::new(
                    fields.len(),
                    |f: int|
                        frame.readings(
                            frame.column(fields[f]).unwrap(),
                            rows_with_key(named_texts(frame, by), groups[g], frame.rows as int),
                        ),
                ),
        ),
    }
}

/// The outcome of grouping the rows of a frame by sorting, with `bytes` bytes
/// taken per group: a table of the groups in the order of their keys, or an
/// error at the first group that exceeds the memory budget.
pub open spec fn sort_outcome(
    r: Result<GroupedTable, QueryError>,
    frame: FrameModel,
    functions: Seq<AggFn>,
    fields: Seq<Seq<char>>,
    by: Seq<Seq<char>>,
    start: Option<(int, int)>,
    end: Option<(int, int)>,
    bytes: usize,
) -> bool {
    let ks = frame_keys(frame, by);
    match r {
        Ok(grouped) => exists|groups: Seq<GroupKey>|
            {
                let model = sorted_groups(frame, fields, by, groups);
                &&& #[trigger] is_key_order(groups, ks)
                &&& end == charged(start, bytes * groups.len())
                &&& groups.len() > 0 ==> (end matches Some((used, limit)) ==> used <= limit)
                &&& shows_groups(&grouped.table, model, by, fields, functions)
                &&& are_row_groups(grouped.row_groups@, groups, ks)
            },
        Err(e) => exists|groups: Seq<GroupKey>, taken: int|
            {
                &&& #[trigger] is_partial_key_order(groups, ks, taken)
                &&& end == charged(start, bytes * taken)
                &&& e matches QueryError::QueryMemoryExceeded { requested, allocated, budget }
                &&& requested == bytes
                &&& Some((allocated as int, budget as int)) == end
                &&& allocated + bytes > budget
            },
    }
}

/// Ascending keys of some rows, of which the first `taken` and one more are
/// given.
pub open spec fn is_partial_key_order(
    groups: Seq<GroupKey>,
    ks: Seq<GroupKey>,
    taken: int,
) -> bool {
    &&& groups.len() == taken + 1
    &&& 0 <= taken
    &&& forall|g: int, h: int|
        0 <= g < h < groups.len() ==> key_before(#[trigger] groups[g], #[trigger] groups[h])
    &&& forall|g: int| 0 <= g < groups.len() ==> ks.contains(#[trigger] groups[g])
    &&& forall|row: int|
        0 <= row < ks.len() ==> groups.contains(#[trigger] ks[row]) || key_before(
            groups.last(),
            ks[row],
        )
}

/// The rows with this key among the first `p` of some rows.
spec fn picked(order: Seq<usize>, ks: Seq<GroupKey>, key: GroupKey, p: int) -> Seq<int>
    decreases p,
{
    if p <= 0 {
        Seq::empty()
    } else if ks[order[p - 1] as int] == key {
        picked(order, ks, key, p - 1).push(order[p - 1] as int)
    } else {
        picked(order, ks, key, p - 1)
    }
}

/// The rows ascend.
spec fn ascends(rows: Seq<int>) -> bool {
    forall|i: int, j: int| 0 <= i < j < rows.len() ==> #[trigger] rows[i] < #[trigger] rows[j]
}

proof fn lemma_picked(
    encoded: &EncodedRows,
    order: Seq<usize>,
    ks: Seq<GroupKey>,
    key: GroupKey,
    p: int,
)
    requires
        encoded.stands_for(ks),
        is_sorted(encoded, order, 0, ks.len() as int),
        0 <= p <= ks.len(),
    ensures
        ascends(picked(order, ks, key, p)),
        forall|i: int|
            0 <= i < picked(order, ks, key, p).len() ==> {
                let row = #[trigger] picked(order, ks, key, p)[i];
                0 <= row < ks.len() && ks[row] == key && exists|q: int|
                    0 <= q < p && (#[trigger] order[q]) == row
            },
        forall|q: int|
            0 <= q < p && ks[(#[trigger] order[q]) as int] == key ==> picked(
                order,
                ks,
                key,
                p,
            ).contains(order[q] as int),
    decreases p,
{
    if p > 0 {
        lemma_picked(encoded, order, ks, key, p - 1);
        let before = picked(order, ks, key, p - 1);
        let all = picked(order, ks, key, p);
        let row = order[p - 1] as int;
        if ks[row] == key {
            assert forall|i: int, j: int| 0 <= i < j < all.len() implies #[trigger] all[i]
                < #[trigger] all[j] by {
                if j == before.len() {
                    let earlier = before[i];
                    assert(all[i] == earlier);
                    let q = choose|q: int| 0 <= q < p - 1 && (#[trigger] order[q]) == earlier;
                    assert(stably_before(encoded, order[q] as int, order[p - 1] as int));
                    assert(ks[earlier] == ks[row]);
                    assert(encoded@[earlier] == encoded@[row]);
                    lemma_bytes_before(encoded@[row], encoded@[row], encoded@[row]);
                } else {
                    assert(before[i] < before[j]);
                }
            }
        }
        assert forall|i: int| 0 <= i < all.len() implies {
            let row = #[trigger] all[i];
            0 <= row < ks.len() && ks[row] == key && exists|q: int|
                0 <= q < p && (#[trigger] order[q]) == row
        } by {
            if i < before.len() {
                assert(all[i] == before[i]);
                let q = choose|q: int| 0 <= q < p - 1 && (#[trigger] order[q]) == before[i];
                assert(order[q] == all[i]);
            } else {
                assert(order[p - 1] == all[i]);
            }
        }
        assert forall|q: int| 0 <= q < p && ks[(#[trigger] order[q]) as int] == key implies all
            .contains(order[q] as int) by {
            if q < p - 1 {
                assert(before.contains(order[q] as int));
                let i = choose|i: int| 0 <= i < before.len() && before[i] == order[q] as int;
                assert(all[i] == order[q] as int);
            } else {
                assert(all[all.len() - 1] == row);
            }
        }
    }
}

proof fn lemma_rows_with_key(
    by: Seq<Option<Seq<Option<Seq<char>>>>>,
    key: GroupKey,
    n: int,
)
    requires
        0 <= n,
    ensures
        ascends(rows_with_key(by, key, n)),
        forall|i: int|
            0 <= i < rows_with_key(by, key, n).len() ==> {
                let row = #[trigger] rows_with_key(by, key, n)[i];
                0 <= row < n && row_key(by, row) == key
            },
        forall|row: int|
            0 <= row < n && #[trigger] row_key(by, row) == key ==> rows_with_key(
                by,
                key,
                n,
            ).contains(row),
    decreases n,
{
    if n > 0 {
        lemma_rows_with_key(by, key, n - 1);
        let before = rows_with_key(by, key, n - 1);
        let all = rows_with_key(by, key, n);
        assert forall|row: int| 0 <= row < n && #[trigger] row_key(by, row) == key implies all
            .contains(row) by {
            if row < n - 1 {
                assert(before.contains(row));
                let i = choose|i: int| 0 <= i < before.len() && before[i] == row;
                assert(all[i] == row);
            } else {
                assert(all[all.len() - 1] == row);
            }
        }
        assert forall|i: int, j: int| 0 <= i < j < all.len() implies #[trigger] all[i]
            < #[trigger] all[j] by {
            if j == before.len() {
                assert(all[i] == before[i]);
            } else {
                assert(before[i] < before[j]);
            }
        }
        assert forall|i: int| 0 <= i < all.len() implies {
            let row = #[trigger] all[i];
            0 <= row < n && row_key(by, row) == key
        } by {
            if i < before.len() {
                assert(all[i] == before[i]);
            }
        }
    }
}

/// Ascending rows with the same members are the same.
proof fn lemma_same_rows(a: Seq<int>, b: Seq<int>)
    requires
        ascends(a),
        ascends(b),
        forall|i: int| 0 <= i < a.len() ==> b.contains(#[trigger] a[i]),
        forall|i: int| 0 <= i < b.len() ==> a.contains(#[trigger] b[i]),
    ensures
        a == b,
    decreases a.len(),
{
    if a.len() == 0 {
        if b.len() > 0 {
            assert(a.contains(b[0]));
        }
        assert(a =~= b);
    } else {
        assert(b.contains(a[a.len() - 1]));
        let n = a.len() - 1;
        let m = b.len() - 1;
        assert(a.contains(b[m]));
        let i = choose|i: int| 0 <= i < a.len() && a[i] == b[m];
        let j = choose|j: int| 0 <= j < b.len() && b[j] == a[n];
        assert(a[n] == b[m]) by {
            if i < n && j < m {
                assert(a[i] < a[n]);
                assert(b[j] < b[m]);
            }
        }
        let x = a.drop_last();
        let y = b.drop_last();
        assert forall|k: int| 0 <= k < x.len() implies y.contains(#[trigger] x[k]) by {
            assert(a[k] < a[n]);
            assert(b.contains(a[k]));
            let q = choose|q: int| 0 <= q < b.len() && b[q] == a[k];
            assert(q < m);
            assert(y[q] == x[k]);
        }
        assert forall|k: int| 0 <= k < y.len() implies x.contains(#[trigger] y[k]) by {
            assert(b[k] < b[m]);
            assert(a.contains(b[k]));
            let q = choose|q: int| 0 <= q < a.len() && a[q] == b[k];
            assert(q < n);
            assert(x[q] == y[k]);
        }
        lemma_same_rows(x, y);
        assert(a =~= x.push(a[n]));
        assert(b =~= y.push(b[m]));
    }
}

proof fn lemma_picked_all(
    encoded: &EncodedRows,
    order: Seq<usize>,
    by: Seq<Option<Seq<Option<Seq<char>>>>>,
    key: GroupKey,
    n: int,
)
    requires
        0 <= n,
        encoded.stands_for(row_keys(by, n)),
        is_sorted(encoded, order, 0, n),
    ensures
        picked(order, row_keys(by, n), key, n) == rows_with_key(by, key, n),
{
    let ks = row_keys(by, n);
    lemma_picked(encoded, order, ks, key, n);
    lemma_rows_with_key(by, key, n);
    let a = picked(order, ks, key, n);
    let b = rows_with_key(by, key, n);
    assert forall|i: int| 0 <= i < a.len() implies b.contains(#[trigger] a[i]) by {
        assert(ks[a[i]] == row_key(by, a[i]));
    }
    assert forall|i: int| 0 <= i < b.len() implies a.contains(#[trigger] b[i]) by {
        assert(holds_row(order, b[i]));
        let q = choose|q: int| 0 <= q < order.len() && (#[trigger] order[q]) == b[i];
        assert(ks[order[q] as int] == row_key(by, b[i]));
    }
    lemma_same_rows(a, b);
}

/// The groups of the sorted rows, as far as they have been scanned.
struct Runs {
    keys: Vec<Vec<Option<String>>>,
    accumulators: Vec<Vec<IncrementalAccumulator>>,
    row_groups: Vec<usize>,
}

impl Runs {
    spec fn groups(&self) -> Seq<GroupKey> {
        self.keys@.map_values(|key: Vec<Option<String>>| optional_texts(key@))
    }

    /// The first `p` of the sorted rows have been scanned.
    spec fn covers(
        &self,
        frame: FrameModel,
        columns: Seq<Option<crate::query::frame::DataModel>>,
        order: Seq<usize>,
        ks: Seq<GroupKey>,
        p: int,
    ) -> bool {
        let groups = self.groups();
        &&& self.accumulators@.len() == groups.len()
        &&& self.row_groups@.len() == ks.len()
        &&& groups.len() <= p
        &&& p > 0 ==> groups.len() > 0 && groups.last() == ks[order[p - 1] as int]
        &&& forall|g: int, h: int|
            0 <= g < h < groups.len() ==> key_before(#[trigger] groups[g], #[trigger] groups[h])
        &&& forall|g: int|
            0 <= g < groups.len() ==> (#[trigger] groups[g]).len() == ks[0].len() && ks.contains(
                groups[g],
            )
        &&& forall|q: int|
            0 <= q < p ==> {
                let row = (#[trigger] order[q]) as int;
                self.row_groups@[row] < groups.len() && groups[self.row_groups@[row] as int]
                    == ks[row]
            }
        &&& forall|g: int|
            0 <= g < groups.len() ==> (#[trigger] self.accumulators@[g])@.len() == columns.len()
        &&& forall|g: int, f: int|
            0 <= g < groups.len() && 0 <= f < columns.len() ==> {
                let acc = #[trigger] self.accumulators@[g]@[f];
                &&& acc.taken() <= p
                &&& acc.fits_a_column()
                &&& acc.summarizes(
                    frame.readings(columns[f].unwrap(), picked(order, ks, groups[g], p)),
                )
            }
    }
}

/// In a sorted order, a row whose key differs from that of the row before it
/// comes after all keys seen so far.
proof fn lemma_next_key(
    encoded: &EncodedRows,
    order: Seq<usize>,
    ks: Seq<GroupKey>,
    groups: Seq<GroupKey>,
    p: int,
)
    requires
        encoded.stands_for(ks),
        is_sorted(encoded, order, 0, ks.len() as int),
        0 < p < ks.len(),
        groups.len() > 0,
        groups.last() == ks[order[p - 1] as int],
        ks[order[p] as int] != ks[order[p - 1] as int],
        forall|g: int, h: int|
            0 <= g < h < groups.len() ==> key_before(#[trigger] groups[g], #[trigger] groups[h]),
        forall|g: int| 0 <= g < groups.len() ==> ks.contains(#[trigger] groups[g]),
    ensures
        forall|g: int|
            0 <= g < groups.len() ==> key_before(#[trigger] groups[g], ks[order[p] as int]),
{
    let here = order[p] as int;
    let prev = order[p - 1] as int;
    assert(stably_before(encoded, prev, here));
    assert(!bytes_before(encoded@[here], encoded@[prev]));
    assert(encoded@[here] != encoded@[prev]) by {
        assert(ks[here] != ks[prev]);
    }
    lemma_bytes_before(encoded@[prev], encoded@[here], encoded@[here]);
    assert(key_before(ks[prev], ks[here]));
    assert forall|g: int| 0 <= g < groups.len() implies key_before(
        #[trigger] groups[g],
        ks[here],
    ) by {
        if g < groups.len() - 1 {
            let last = groups.len() - 1;
            assert(key_before(groups[g], groups[last]));
            assert(ks.contains(groups[g]));
            let i = choose|i: int| 0 <= i < ks.len() && ks[i] == groups[g];
            assert(key_before(ks[i], ks[prev]));
            lemma_bytes_before(encoded@[i], encoded@[prev], encoded@[here]);
            assert(key_before(ks[i], ks[here]));
        }
    }
}

/// Rows that come later in a sorted order do not have smaller keys.
proof fn lemma_later_keys(
    encoded: &EncodedRows,
    order: Seq<usize>,
    ks: Seq<GroupKey>,
    p: int,
    row: int,
)
    requires
        encoded.stands_for(ks),
        is_sorted(encoded, order, 0, ks.len() as int),
        0 <= p < ks.len(),
        0 <= row < ks.len(),
        forall|q: int| 0 <= q < p ==> (#[trigger] order[q]) != row,
    ensures
        ks[row] == ks[order[p] as int] || key_before(ks[order[p] as int], ks[row]),
{
    assert(holds_row(order, row));
    let q = choose|q: int| 0 <= q < order.len() && (#[trigger] order[q]) == row;
    let here = order[p] as int;
    if q > p {
        assert(stably_before(encoded, here, row));
        lemma_bytes_before(encoded@[here], encoded@[row], encoded@[row]);
        assert(ks[here] == ks[row] || key_before(ks[here], ks[row]));
    }
}

fn group_by_sort(
    frame: &Frame,
    functions: &[AggFn],
    field_columns: &[&str],
    group_by: &[&str],
    columns: &Vec<Option<&ColumnData>>,
    key_texts: &Vec<Option<&Vec<Option<String>>>>,
    encoded: &EncodedRows,
    tracker: &mut Option<MemoryTracker>,
    bytes: usize,
) -> (r: Result<GroupedTable, QueryError>)
    requires
        columns@.len() == field_columns@.len(),
        columns_of(columns@) == named_columns(frame@, texts(field_columns@)),
        are_columns(columns_of(columns@), frame@.rows),
        forall|f: int| 0 <= f < columns@.len() ==> (#[trigger] columns@[f]) is Some,
        text_columns_of(key_texts@) == named_texts(frame@, texts(group_by@)),
        are_text_columns(text_columns_of(key_texts@), frame@.rows),
        encoded.stands_for(frame_keys(frame@, texts(group_by@))),
    ensures
        sort_outcome(
            r,
            frame@,
            functions@,
            texts(field_columns@),
            texts(group_by@),
            account(*old(tracker)),
            account(*final(tracker)),
            bytes,
        ),
{
    let ghost fields = texts(field_columns@);
    let ghost by = texts(group_by@);
    let ghost key_model = named_texts(frame@, by);
    let ghost cols = columns_of(columns@);
    let ghost start = account(*tracker);
    let n: usize = frame.rows();
    let ghost ks = frame_keys(frame@, by);
    let order = sort_rows(encoded, n);
    let mut row_groups: Vec<usize> = Vec::new();
    while row_groups.len() < n
        invariant
            row_groups@.len() <= n,
        decreases n - row_groups.len(),
    {
        row_groups.push(0);
    }
    let mut runs = Runs { keys: Vec::new(), accumulators: Vec::new(), row_groups };
    let mut p: usize = 0;
    assert(bytes * 0 == 0);
    assert(runs.groups() =~= Seq::empty());
    while p < n
        invariant
            p <= n,
            n == frame@.rows,
            cols == columns_of(columns@),
            columns@.len() == cols.len(),
            are_columns(cols, frame@.rows),
            forall|f: int| 0 <= f < columns@.len() ==> (#[trigger] columns@[f]) is Some,
            key_model == named_texts(frame@, by),
            by == texts(group_by@),
            text_columns_of(key_texts@) == key_model,
            are_text_columns(key_model, frame@.rows),
            ks == frame_keys(frame@, by),
            ks.len() == n,
            encoded.stands_for(ks),
            is_sorted(encoded, order@, 0, n as int),
            runs.covers(frame@, cols, order@, ks, p as int),
            start == account(*old(tracker)),
            account(*tracker) == charged(start, bytes * runs.groups().len()),
            runs.groups().len() > 0 ==> (account(*tracker) matches Some((used, limit)) ==> used
                <= limit),
        decreases n - p,
    {
        let row: usize = order[p];
        let ghost before = runs;
        let ghost key = ks[row as int];
        assert(key == row_key(key_model, row as int));
        assert(ks[0] == row_key(key_model, 0));
        let fresh: bool = p == 0 || !encoded.same(order[p - 1], row);
        proof {
            if p > 0 {
                let prev = order@[p - 1] as int;
                assert((encoded@[prev] == encoded@[row as int]) == (ks[prev] == ks[row as int]));
                if fresh {
                    lemma_next_key(encoded, order@, ks, runs.groups(), p as int);
                }
            }
        }
        if fresh {
            let failed: Option<QueryError> = match tracker {
                Some(t) => match t.try_allocate(bytes) {
                    Ok(_) => None,
                    Err(e) => Some(e),
                },
                None => None,
            };
            match failed {
                Some(e) => {
                    proof {
                        let all = before.groups().push(key);
                        let taken = before.groups().len() as int;
                        assert forall|g: int, h: int|
                            0 <= g < h < all.len() implies key_before(
                            #[trigger] all[g],
                            #[trigger] all[h],
                        ) by {
                            if h < taken {
                                assert(key_before(before.groups()[g], before.groups()[h]));
                            } else {
                                assert(all[g] == before.groups()[g]);
                            }
                        }
                        assert forall|g: int| 0 <= g < all.len() implies ks.contains(
                            #[trigger] all[g],
                        ) by {
                            if g < taken {
                                assert(all[g] == before.groups()[g]);
                            } else {
                                assert(ks[row as int] == key);
                            }
                        }
                        assert forall|other: int| 0 <= other < ks.len() implies all.contains(
                            #[trigger] ks[other],
                        ) || key_before(all.last(), ks[other]) by {
                            if exists|q: int| 0 <= q < p && (#[trigger] order@[q]) == other {
                                let q = choose|q: int|
                                    0 <= q < p && (#[trigger] order@[q]) == other;
                                let g = before.row_groups@[order@[q] as int] as int;
                                assert(before.groups()[g] == ks[other]);
                                assert(all[g] == ks[other]);
                            } else {
                                lemma_later_keys(encoded, order@, ks, p as int, other);
                                if ks[other] == key {
                                    assert(all[taken] == ks[other]);
                                }
                            }
                        }
                        assert(is_partial_key_order(all, ks, taken));
                    }
                    return Err(e);
                },
                None => {},
            }
            let new_key = key_of_row(key_texts, row, Ghost(frame@.rows));
            runs.keys.push(new_key);
            runs.accumulators.push(fresh_accumulators(columns.len()));
            proof {
                let count = before.groups().len() as int;
                assert(runs.groups() =~= before.groups().push(key));
                assert(bytes * (count + 1) == bytes * count + bytes) by (nonlinear_arith);
            }
        }
        let ghost middle = runs;
        let ghost groups = middle.groups();
        let g: usize = runs.keys.len() - 1;
        assert(groups[g as int] == key) by {
            if !fresh {
                assert(groups.last() == ks[order@[p - 1] as int]);
            }
        }
        let mut accs: Vec<IncrementalAccumulator> = Vec::new();
        std::mem::swap(&mut accs, &mut runs.accumulators[g]);
        let ghost old_accs = accs@;
        assert(old_accs == middle.accumulators@[g as int]@);
        proof {
            assert forall|f: int| 0 <= f < old_accs.len() implies (#[trigger] old_accs[f]).taken()
                <= p && old_accs[f].fits_a_column() by {
                if g < before.groups().len() {
                    assert(middle.accumulators@[g as int] == before.accumulators@[g as int]);
                    assert(before.accumulators@[g as int]@[f].taken() <= p);
                }
            }
        }
        take_readings(&mut accs, frame, row, columns);
        let ghost new_accs = accs@;
        std::mem::swap(&mut accs, &mut runs.accumulators[g]);
        runs.row_groups.set(row, g);
        proof {
            assert(runs.groups() == groups);
            assert forall|h: int|
                0 <= h < groups.len() implies (#[trigger] runs.accumulators@[h])@.len()
                == cols.len() by {
                if h != g {
                    assert(runs.accumulators@[h] == before.accumulators@[h]);
                }
            }
            assert forall|h: int| 0 <= h < groups.len() implies (#[trigger] groups[h]).len()
                == ks[0].len() && ks.contains(groups[h]) by {
                if h < before.groups().len() {
                    assert(groups[h] == before.groups()[h]);
                } else {
                    assert(ks[row as int] == key);
                }
            }
            assert forall|h: int, i: int| 0 <= h < i < groups.len() implies key_before(
                #[trigger] groups[h],
                #[trigger] groups[i],
            ) by {
                assert(groups[h] == before.groups()[h]);
                if i < before.groups().len() {
                    assert(groups[i] == before.groups()[i]);
                }
            }
            assert forall|q: int| 0 <= q < p + 1 implies {
                let other = (#[trigger] order@[q]) as int;
                runs.row_groups@[other] < groups.len() && groups[runs.row_groups@[other] as int]
                    == ks[other]
            } by {
                let other = order@[q] as int;
                if q < p {
                    assert(stably_before(encoded, order@[q] as int, order@[p as int] as int));
                    if other == row {
                        lemma_bytes_before(
                            encoded@[row as int],
                            encoded@[row as int],
                            encoded@[row as int],
                        );
                    }
                    assert(runs.row_groups@[other] == before.row_groups@[other]);
                    let h = before.row_groups@[other] as int;
                    assert(before.groups()[h] == ks[other]);
                    assert(groups[h] == before.groups()[h]);
                }
            }
            assert forall|h: int, f: int|
                0 <= h < groups.len() && 0 <= f < cols.len() implies {
                let acc = #[trigger] runs.accumulators@[h]@[f];
                &&& acc.taken() <= p + 1
                &&& acc.fits_a_column()
                &&& acc.summarizes(
                    frame@.readings(cols[f].unwrap(), picked(order@, ks, groups[h], p + 1)),
                )
            } by {
                let data = cols[f].unwrap();
                assert(cols[f] is Some) by {
                    assert(columns@[f] is Some);
                }
                let rows = picked(order@, ks, groups[h], p as int);
                if h == g {
                    assert(runs.accumulators@[h]@[f] == new_accs[f]);
                    assert(old_accs[f].summarizes(frame@.readings(data, rows))) by {
                        if g < before.groups().len() {
                            assert(middle.accumulators@[h] == before.accumulators@[h]);
                            assert(before.accumulators@[h]@[f].summarizes(
                                frame@.readings(data, rows),
                            ));
                        } else {
                            lemma_unpicked(order@, ks, before.groups(), key, p as int, before.row_groups@);
                            assert(rows =~= Seq::empty());
                        }
                    }
                    assert(new_accs[f].summarizes(
                        with_reading(frame@.readings(data, rows), frame@, cols[f], row as int),
                    ));
                    assert(rows.push(row as int).drop_last() =~= rows);
                    assert(rows.push(row as int).last() == row);
                } else {
                    assert(groups[h] == before.groups()[h]);
                    assert(groups[h] != key) by {
                        lemma_distinct_keys(encoded, ks, groups, h, g as int);
                    }
                    assert(runs.accumulators@[h] == before.accumulators@[h]);
                    assert(before.accumulators@[h]@[f].taken() <= p);
                }
            }
        }
        p = p + 1;
    }
    let ghost groups = runs.groups();
    let ghost model = sorted_groups(frame@, fields, by, groups);
    proof {
        assert forall|row: int| 0 <= row < ks.len() implies groups.contains(#[trigger] ks[row]) by {
            assert(holds_row(order@, row));
            let q = choose|q: int| 0 <= q < order@.len() && (#[trigger] order@[q]) == row;
            let g = runs.row_groups@[order@[q] as int] as int;
            assert(groups[g] == ks[row]);
        }
        assert(is_key_order(groups, ks));
        assert(are_row_groups(runs.row_groups@, groups, ks)) by {
            assert forall|row: int| 0 <= row < ks.len() implies (#[trigger] runs.row_groups@[row])
                < groups.len() && groups[runs.row_groups@[row] as int] == ks[row] by {
                assert(holds_row(order@, row));
                let q = choose|q: int| 0 <= q < order@.len() && (#[trigger] order@[q]) == row;
                assert(runs.row_groups@[order@[q] as int] < groups.len());
            }
        }
        assert forall|g: int, h: int| 0 <= g < h < groups.len() implies #[trigger] groups[g]
            != #[trigger] groups[h] by {
            lemma_distinct_keys(encoded, ks, groups, g, h);
        }
        assert(model.is_groups(fields.len()));
        assert forall|g: int, f: int|
            0 <= g < groups.len() && 0 <= f < cols.len() implies (
        #[trigger] runs.accumulators@[g]@[f]).summarizes(model.readings[g][f])
            && runs.accumulators@[g]@[f].fits_a_column() by {
            lemma_picked_all(encoded, order@, key_model, groups[g], n as int);
            assert(cols[f] == frame@.column(fields[f]));
            assert(runs.accumulators@[g]@[f].taken() <= n);
        }
        assert forall|g: int| 0 <= g < runs.keys@.len() implies optional_texts(
            (#[trigger] runs.keys@[g])@,
        ) == model.keys[g] && runs.keys@[g]@.len() == group_by@.len() by {
            assert(groups[g] == optional_texts(runs.keys@[g]@));
            assert(ks[0] == row_key(key_model, 0));
        }
        assert(lists_summarize(runs.keys@, runs.accumulators@, fields.len(), model));
    }
    match group_table(&runs.keys, &runs.accumulators, functions, field_columns, group_by) {
        Ok(table) => {
            assert(shows_groups(&table, model, by, fields, functions@));
            Ok(GroupedTable { table, row_groups: runs.row_groups })
        },
        Err(e) => Err(e),
    }
}

/// Keys that ascend are distinct.
proof fn lemma_distinct_keys(
    encoded: &EncodedRows,
    ks: Seq<GroupKey>,
    groups: Seq<GroupKey>,
    g: int,
    h: int,
)
    requires
        encoded.stands_for(ks),
        0 <= g < groups.len(),
        0 <= h < groups.len(),
        g != h,
        forall|i: int, j: int|
            0 <= i < j < groups.len() ==> key_before(#[trigger] groups[i], #[trigger] groups[j]),
        forall|i: int| 0 <= i < groups.len() ==> ks.contains(#[trigger] groups[i]),
    ensures
        groups[g] != groups[h],
{
    if groups[g] == groups[h] {
        assert(ks.contains(groups[g]));
        let i = choose|i: int| 0 <= i < ks.len() && ks[i] == groups[g];
        if g < h {
            assert(key_before(groups[g], groups[h]));
        } else {
            assert(key_before(groups[h], groups[g]));
        }
        assert(key_before(ks[i], ks[i]));
        lemma_bytes_before(encoded@[i], encoded@[i], encoded@[i]);
    }
}

/// A key that is not among the groups so far has not been scanned.
proof fn lemma_unpicked(
    order: Seq<usize>,
    ks: Seq<GroupKey>,
    groups: Seq<GroupKey>,
    key: GroupKey,
    p: int,
    row_groups: Seq<usize>,
)
    requires
        0 <= p <= order.len(),
        forall|g: int| 0 <= g < groups.len() ==> (#[trigger] groups[g]) != key,
        forall|q: int|
            0 <= q < p ==> {
                let row = (#[trigger] order[q]) as int;
                row_groups[row] < groups.len() && groups[row_groups[row] as int] == ks[row]
            },
    ensures
        picked(order, ks, key, p).len() == 0,
    decreases p,
{
    if p > 0 {
        let row = order[p - 1] as int;
        assert(groups[row_groups[row] as int] == ks[row]);
        lemma_unpicked(order, ks, groups, key, p - 1, row_groups);
    }
}

/// What aggregating by group comes to, groups in the order of their keys.
pub open spec fn sorted_as(
    r: Result<GroupedTable, QueryError>,
    frame: FrameModel,
    functions: Seq<AggFn>,
    fields: Seq<Seq<char>>,
    by: Seq<Seq<char>>,
    start: Option<(int, int)>,
    end: Option<(int, int)>,
) -> bool {
    if by.len() == 0 {
        exists|made: Result<GroupedTable, QueryError>, size: usize|
            whole_outcome(made, frame, functions, fields) && takes_table(made, size)
                && #[trigger] settles(made, start, r, end, size)
    } else if let Some(i) = first_missing(frame, by, 0) {
        &&& end == start
        &&& r matches Err(e)
        &&& e.is_validation("group-by column '"@ + by[i] + "' not found"@)
    } else if let Some(i) = first_missing(frame, fields, 0) {
        &&& end == start
        &&& r matches Err(e)
        &&& e.is_validation("column '"@ + fields[i] + "' not found"@)
    } else if let Some(i) = first_untexted(frame, by, 0) {
        &&& end == start
        &&& r matches Err(e)
        &&& e.is_validation("group-by column '"@ + by[i] + "' not found or not string"@)
    } else {
        exists|made: Result<GroupedTable, QueryError>, held: Option<(int, int)>, size: usize|
            sort_outcome(
                made,
                frame,
                functions,
                fields,
                by,
                start,
                held,
                sorted_group_bytes(by.len(), fields.len()) as usize,
            ) && takes_table(made, size) && #[trigger] settles(made, held, r, end, size)
    }
}

/// Sort-based group-by aggregation.
///
/// Sorts the rows by the group-by columns, then scans runs of equal keys.
/// Produces output in sorted group-key order, nulls first. Without group-by
/// columns there is one group, of all rows. The memory that the result takes
/// is charged.
pub fn aggregate_sorted(
    frame: &Frame,
    functions: &[AggFn],
    field_columns: &[&str],
    group_by: &[&str],
    tracker: &mut Option<MemoryTracker>,
) -> (r: Result<GroupedTable, QueryError>)
    ensures
        sorted_as(
            r,
            frame@,
            functions@,
            texts(field_columns@),
            texts(group_by@),
            account(*old(tracker)),
            account(*final(tracker)),
        ),
{
    let ghost fields = texts(field_columns@);
    let ghost by = texts(group_by@);
    if group_by.len() == 0 {
        let made = aggregate_whole(frame, functions, field_columns);
        return charge_grouped(made, tracker);
    }
    let mut i: usize = 0;
    while i < group_by.len()
        invariant
            i <= group_by.len(),
            by == texts(group_by@),
            by.len() > 0,
            *tracker == *old(tracker),
            first_missing(frame@, by, 0) == first_missing(frame@, by, i as int),
        decreases group_by.len() - i,
    {
        if frame.column(group_by[i]).is_none() {
            return Err(
                invalid(joined_text("group-by column '", group_by[i], "' not found").as_str()),
            );
        }
        i = i + 1;
    }
    let columns = find_columns(frame, field_columns);
    match check_columns(frame, field_columns, &columns) {
        Ok(_) => {},
        Err(e) => {
            return Err(e);
        },
    }
    let key_texts = find_texts(frame, group_by);
    match check_texts(frame, group_by, &key_texts) {
        Ok(_) => {},
        Err(e) => {
            return Err(e);
        },
    }
    proof {
        assert forall|f: int| 0 <= f < columns@.len() implies (#[trigger] columns@[f]) is Some by {
            crate::query::aggregate::lemma_none_missing(frame@, fields, 0, f);
            assert(columns_of(columns@)[f] == frame@.column(fields[f]));
        }
        assert forall|c: int| 0 <= c < key_texts@.len() implies ((
        #[trigger] key_texts@[c]) matches Some(cells) && cells@.len() == frame@.rows) by {
            assert(key_texts@[c] is Some);
            assert(text_columns_of(key_texts@)[c].unwrap().len() == frame@.rows);
        }
    }
    let bytes: usize = group_bytes(88, 48, group_by.len(), field_columns.len());
    let encoded = match EncodedRows::new(&key_texts, frame.rows()) {
        Ok(encoded) => encoded,
        Err(message) => {
            return Err(QueryError::Arrow(message));
        },
    };
    let made = group_by_sort(
        frame,
        functions,
        field_columns,
        group_by,
        &columns,
        &key_texts,
        &encoded,
        tracker,
        bytes,
    );
    charge_grouped(made, tracker)
}

} // verus!
