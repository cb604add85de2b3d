//! Filtering rows by time range, tags and tombstones, and projecting columns.
use vstd::prelude::*;
use vstd::string::*;

#[allow(unused_imports)]
use crate::query::batch::{holds_texts, BatchModel, CellModel, ColumnModel};
use crate::query::batch::{is_string_like, Batch, Cell, Column, ColumnKind};
use crate::query::error::{invalid, QueryError};
#[allow(unused_imports)]
use crate::query::frame::optional_texts;
use crate::query::mask::filter;
#[allow(unused_imports)]
use crate::query::mask::{all_of, even, masks_of, selected, Mask};
pub use crate::query::mask::{
    combine_masks, dict_equality_mask, tag_equality_mask, time_range_mask,
};
use crate::duplicate::Duplicate;
#[allow(unused_imports)]
use crate::query::series::time_column;
use crate::query::series::time_column_name;
#[allow(unused_imports)]
use crate::query::tags::{by_name, numbers_of, row_series};
use crate::query::tags::{compute_series_canonical, sort_by_name};
use crate::text::same_text;
#[allow(unused_imports)]
use crate::text::texts;

verus! {

broadcast use vstd::string::group_string_axioms;

/// The numbers below `n` that meet the condition, in ascending order.
pub open spec fn rows_where(meets: spec_fn(int) -> bool, n: nat) -> Seq<int>
    decreases n,
{
    if n == 0 {
        Seq::empty()
    } else {
        let rest = rows_where(meets, (n - 1) as nat);
        if meets(n - 1) {
            rest.push(n - 1)
        } else {
            rest
        }
    }
}

/// The rows found meet the condition, are below the bound and ascend, and every
/// row that meets it is found.
pub proof fn rows_are_found(meets: spec_fn(int) -> bool, n: nat)
    ensures
        rows_where(meets, n).len() <= n,
        forall|p: int|
            0 <= p < rows_where(meets, n).len() ==> 0 <= (#[trigger] rows_where(meets, n)[p]) < n
                && meets(rows_where(meets, n)[p]),
        forall|p: int, q: int|
            0 <= p < q < rows_where(meets, n).len() ==> (#[trigger] rows_where(meets, n)[p])
                < #[trigger] rows_where(meets, n)[q],
        forall|row: int| 0 <= row < n && meets(row) ==> #[trigger] rows_where(meets, n).contains(row),
    decreases n,
{
    if n > 0 {
        let rest = rows_where(meets, (n - 1) as nat);
        let all = rows_where(meets, n);
        rows_are_found(meets, (n - 1) as nat);
        assert forall|row: int| 0 <= row < n && meets(row) implies #[trigger] all.contains(row) by {
            if row < n - 1 {
                assert(rest.contains(row));
                let p = choose|p: int| 0 <= p < rest.len() && rest[p] == row;
                assert(all[p] == row);
            } else {
                assert(all[all.len() - 1] == row);
            }
        }
    }
}

/// Conditions that agree on all rows find the same rows.
pub proof fn lemma_same_rows(a: spec_fn(int) -> bool, b: spec_fn(int) -> bool, n: nat)
    requires
        forall|row: int| 0 <= row < n ==> (#[trigger] a(row)) == b(row),
    ensures
        rows_where(a, n) == rows_where(b, n),
    decreases n,
{
    if n > 0 {
        lemma_same_rows(a, b, (n - 1) as nat);
        assert(a(n - 1) == b(n - 1));
    }
}

/// A condition that always holds finds every row.
pub proof fn lemma_every_row(meets: spec_fn(int) -> bool, n: nat)
    requires
        forall|row: int| 0 <= row < n ==> #[trigger] meets(row),
    ensures
        rows_where(meets, n) == Seq::new(n, |i: int| i),
    decreases n,
{
    if n > 0 {
        lemma_every_row(meets, (n - 1) as nat);
        assert(meets(n - 1));
        assert(rows_where(meets, n) =~= Seq::new(n, |i: int| i));
    } else {
        assert(rows_where(meets, n) =~= Seq::new(n, |i: int| i));
    }
}

/// All rows of a batch, in order, are the batch.
pub proof fn lemma_all_rows(batch: BatchModel)
    requires
        batch.is_batch(),
    ensures
        batch.rows_at(Seq::new(batch.rows, |i: int| i)) == batch,
{
    let rows = Seq::new(batch.rows, |i: int| i);
    let out = batch.rows_at(rows);
    assert forall|c: int| 0 <= c < batch.columns.len() implies out.columns[c] == batch.columns[c] by {
        assert(batch.columns[c].is_column(batch.rows));
        assert(out.columns[c].cells =~= batch.columns[c].cells);
    }
    assert(out.columns =~= batch.columns);
}

/// The rows on which a mask is true.
pub open spec fn kept(mask: Mask) -> Seq<int> {
    rows_where(|i: int| mask[i] == Some(true), mask.len())
}

proof fn lemma_selected(values: Seq<u64>, mask: Mask, n: nat)
    requires
        n <= mask.len() <= values.len(),
        forall|i: int| 0 <= i < values.len() ==> (#[trigger] values[i]) == i,
    ensures
        selected(values, mask.take(n as int)).map_values(|v: u64| v as int) == rows_where(
            |i: int| mask[i] == Some(true),
            n,
        ),
        forall|p: int|
            0 <= p < selected(values, mask.take(n as int)).len() ==> (#[trigger] selected(
                values,
                mask.take(n as int),
            )[p]) < n,
    decreases n,
{
    let now = selected(values, mask.take(n as int));
    let meets = |i: int| mask[i] == Some(true);
    if n > 0 {
        let m = (n - 1) as nat;
        lemma_selected(values, mask, m);
        assert(mask.take(n as int).drop_last() =~= mask.take(m as int));
        let before = selected(values, mask.take(m as int));
        assert(mask.take(n as int).last() == mask[m as int]);
        if mask[m as int] == Some(true) {
            assert(now == before.push(values[m as int]));
            assert(now.map_values(|v: u64| v as int) =~= before.map_values(|v: u64| v as int).push(
                m as int,
            ));
        } else {
            assert(now == before);
        }
        assert(meets(n - 1) == (mask[m as int] == Some(true)));
    } else {
        assert(now.map_values(|v: u64| v as int) =~= rows_where(meets, n));
    }
}

/// Keep the rows on which the mask is true.
///
/// Fails where the mask is longer than the batch, and for a batch without
/// columns.
pub fn apply_filter(batch: &Batch, mask: &Vec<Option<bool>>) -> (r: Result<Batch, QueryError>)
    ensures
        match r {
            Ok(out) => {
                &&& batch@.columns.len() > 0
                &&& mask@.len() <= batch@.rows
                &&& out@ == batch@.rows_at(kept(mask@))
            },
            Err(e) => {
                &&& batch@.columns.len() == 0 || mask@.len() > batch@.rows
                &&& e is Arrow
            },
        },
{
    if batch.num_columns() == 0 {
        return Err(
            QueryError::Arrow(
                "must either specify a row count or at least one column".to_owned(),
            ),
        );
    }
    let count: usize = batch.num_rows();
    let mut numbers: Vec<u64> = Vec::new();
    let mut i: usize = 0;
    while i < count
        invariant
            i <= count,
            numbers@.len() == i,
            forall|j: int| 0 <= j < i ==> (#[trigger] numbers@[j]) == j,
        decreases count - i,
    {
        numbers.push(i as u64);
        i = i + 1;
    }
    let chosen = match filter(&numbers, mask) {
        Ok(chosen) => chosen,
        Err(message) => {
            return Err(QueryError::Arrow(message));
        },
    };
    proof {
        lemma_selected(numbers@, mask@, mask@.len());
        assert(mask@.take(mask@.len() as int) =~= mask@);
    }
    let mut rows: Vec<usize> = Vec::new();
    let mut k: usize = 0;
    while k < chosen.len()
        invariant
            k <= chosen.len(),
            rows@.len() == k,
            count == batch@.rows,
            forall|j: int| 0 <= j < chosen@.len() ==> (#[trigger] chosen@[j]) < count,
            forall|j: int| 0 <= j < k ==> (#[trigger] rows@[j]) == chosen@[j],
        decreases chosen.len() - k,
    {
        rows.push(chosen[k] as usize);
        k = k + 1;
    }
    proof {
        let at = rows@.map_values(|row: usize| row as int);
        assert(at =~= chosen@.map_values(|v: u64| v as int));
        assert forall|j: int| 0 <= j < rows@.len() implies (#[trigger] rows@[j]) < batch@.rows by {
            assert(rows@[j] == chosen@[j]);
        }
    }
    Ok(batch.select(&rows))
}

/// The integers of a column; null where the cell holds none.
pub open spec fn integers(column: ColumnModel) -> Seq<Option<i64>> {
    column.cells.map_values(
        |cell: CellModel|
            match cell {
                CellModel::Int(v) => Some(v),
                _ => None,
            },
    )
}

/// The texts of a column; null where the cell holds none.
pub open spec fn column_texts(column: ColumnModel) -> Seq<Option<Seq<char>>> {
    column.cells.map_values(
        |cell: CellModel|
            match cell {
                CellModel::Text(v) => Some(v),
                _ => None,
            },
    )
}

/// Tag names and the values asked for.
pub open spec fn pairs_of(filters: Seq<(&str, &str)>) -> Seq<(Seq<char>, Seq<char>)> {
    filters.map_values(|f: (&str, &str)| (f.0@, f.1@))
}

/// The timestamp of a row.
pub open spec fn time_at(batch: BatchModel, row: int) -> Option<i64> {
    match batch.index_of(time_column()) {
        Some(c) => integers(batch.columns[c])[row],
        None => None,
    }
}

/// The row's timestamp lies in `start..=end`. A range over all of time holds
/// every row, also one without a timestamp.
pub open spec fn in_time(batch: BatchModel, row: int, start: i64, end: i64) -> bool {
    (start == i64::MIN && end == i64::MAX) || (time_at(batch, row) matches Some(t) && start <= t
        <= end)
}

/// The row has this tag: the column is there, holds texts, and holds this one.
pub open spec fn has_tag(batch: BatchModel, row: int, tag: (Seq<char>, Seq<char>)) -> bool {
    batch.index_of(tag.0) matches Some(c) && holds_texts(batch.columns[c].field.kind)
        && batch.columns[c].cells[row] == CellModel::Text(tag.1)
}

/// The row has all the tags.
pub open spec fn has_tags(
    batch: BatchModel,
    row: int,
    tags: Seq<(Seq<char>, Seq<char>)>,
) -> bool {
    forall|f: int| 0 <= f < tags.len() ==> has_tag(batch, row, #[trigger] tags[f])
}

/// The row lies in the time range and has all the tags.
pub open spec fn row_matches(
    batch: BatchModel,
    row: int,
    start: i64,
    end: i64,
    tags: Seq<(Seq<char>, Seq<char>)>,
) -> bool {
    in_time(batch, row, start, end) && has_tags(batch, row, tags)
}

/// Why a batch cannot be filtered, if it cannot.
pub open spec fn filter_refusal(batch: BatchModel) -> Option<Seq<char>> {
    if batch.rows == 0 {
        None
    } else {
        match batch.index_of(time_column()) {
            None => Some("'timestamp' column not found"@),
            Some(c) => if batch.columns[c].field.kind != ColumnKind::Int64 {
                Some("'timestamp' column is not Int64"@)
            } else {
                None
            },
        }
    }
}

/// The integers of a column.
pub fn read_integers(column: &Column) -> (r: Vec<Option<i64>>)
    ensures
        r@ == integers(column.deep_view()),
{
    let ghost want = integers(column.deep_view());
    let mut out: Vec<Option<i64>> = Vec::new();
    let mut i: usize = 0;
    while i < column.cells.len()
        invariant
            i <= column.cells.len() == want.len(),
            want == integers(column.deep_view()),
            out@ == want.take(i as int),
        decreases column.cells.len() - i,
    {
        assert(column.deep_view().cells[i as int] == column.cells@[i as int].deep_view());
        let value: Option<i64> = match &column.cells[i] {
            Cell::Int(v) => Some(*v),
            _ => None,
        };
        out.push(value);
        assert(want.take(i + 1) =~= want.take(i as int).push(want[i as int]));
        i = i + 1;
    }
    assert(want.take(i as int) =~= want);
    out
}

/// The texts of a column.
pub fn read_texts(column: &Column) -> (r: Vec<Option<String>>)
    ensures
        optional_texts(r@) == column_texts(column.deep_view()),
{
    let ghost want = column_texts(column.deep_view());
    let mut out: Vec<Option<String>> = Vec::new();
    let mut i: usize = 0;
    assert(optional_texts(out@) =~= want.take(0));
    while i < column.cells.len()
        invariant
            i <= column.cells.len() == want.len(),
            want == column_texts(column.deep_view()),
            optional_texts(out@) == want.take(i as int),
        decreases column.cells.len() - i,
    {
        assert(column.deep_view().cells[i as int] == column.cells@[i as int].deep_view());
        let value: Option<String> = match &column.cells[i] {
            Cell::Text(v) => Some(v.clone()),
            _ => None,
        };
        let ghost before = out@;
        out.push(value);
        proof {
            assert(optional_texts(out@) =~= optional_texts(before).push(want[i as int]));
            assert(want.take(i + 1) =~= want.take(i as int).push(want[i as int]));
        }
        i = i + 1;
    }
    assert(want.take(i as int) =~= want);
    out
}

/// All masks are true on the row.
spec fn all_true(masks: Seq<Mask>, row: int) -> bool {
    forall|m: int| 0 <= m < masks.len() ==> (#[trigger] masks[m])[row] == Some(true)
}

proof fn lemma_all_true(masks: Seq<Mask>, row: int)
    requires
        masks.len() > 0,
        even(masks),
        0 <= row < masks[0].len(),
    ensures
        all_of(masks).len() == masks[0].len(),
        (all_of(masks)[row] == Some(true)) == all_true(masks, row),
    decreases masks.len(),
{
    if masks.len() > 1 {
        let rest = masks.drop_last();
        assert(even(rest)) by {
            assert forall|i: int| 0 <= i < rest.len() implies (#[trigger] rest[i]).len()
                == rest[0].len() by {
                assert(masks[i].len() == masks[0].len());
            }
        }
        lemma_all_true(rest, row);
        assert(masks.last() == masks[masks.len() - 1]);
        assert(all_true(masks, row) == (all_true(rest, row) && masks.last()[row] == Some(true))) by {
            if all_true(masks, row) {
                assert forall|m: int| 0 <= m < rest.len() implies (#[trigger] rest[m])[row] == Some(
                    true,
                ) by {
                    assert(masks[m][row] == Some(true));
                }
            }
            if all_true(rest, row) && masks.last()[row] == Some(true) {
                assert forall|m: int| 0 <= m < masks.len() implies (#[trigger] masks[m])[row]
                    == Some(true) by {
                    if m < rest.len() {
                        assert(rest[m][row] == Some(true));
                    }
                }
            }
        }
    } else {
        assert(all_true(masks, row) == (masks[0][row] == Some(true)));
    }
}

proof fn lemma_one_more(masks: Seq<Mask>, mask: Mask, row: int)
    ensures
        all_true(masks.push(mask), row) == (all_true(masks, row) && mask[row] == Some(true)),
{
    let all = masks.push(mask);
    if all_true(all, row) {
        assert forall|m: int| 0 <= m < masks.len() implies (#[trigger] masks[m])[row] == Some(
            true,
        ) by {
            assert(all[m][row] == Some(true));
        }
        assert(all[masks.len() as int][row] == Some(true));
    }
    if all_true(masks, row) && mask[row] == Some(true) {
        assert forall|m: int| 0 <= m < all.len() implies (#[trigger] all[m])[row] == Some(true) by {
            if m < masks.len() {
                assert(masks[m][row] == Some(true));
            }
        }
    }
}

proof fn lemma_one_tag_more(
    batch: BatchModel,
    row: int,
    tags: Seq<(Seq<char>, Seq<char>)>,
    f: int,
)
    requires
        0 <= f < tags.len(),
    ensures
        has_tags(batch, row, tags.take(f + 1)) == (has_tags(batch, row, tags.take(f)) && has_tag(
            batch,
            row,
            tags[f],
        )),
{
    let more = tags.take(f + 1);
    let fewer = tags.take(f);
    if has_tags(batch, row, more) {
        assert(has_tag(batch, row, more[f]));
        assert forall|g: int| 0 <= g < fewer.len() implies has_tag(
            batch,
            row,
            #[trigger] fewer[g],
        ) by {
            assert(has_tag(batch, row, more[g]));
        }
    }
    if has_tags(batch, row, fewer) && has_tag(batch, row, tags[f]) {
        assert forall|g: int| 0 <= g < more.len() implies has_tag(
            batch,
            row,
            #[trigger] more[g],
        ) by {
            if g < f {
                assert(has_tag(batch, row, fewer[g]));
            }
        }
    }
}

/// An empty selection of the batch.
fn no_rows(batch: &Batch) -> (r: Result<Batch, QueryError>)
    requires
        batch@.columns.len() > 0,
    ensures
        r matches Ok(out) && out@ == batch@.rows_at(Seq::empty()),
{
    let count: usize = batch.num_rows();
    let mut mask: Vec<Option<bool>> = Vec::new();
    let mut i: usize = 0;
    while i < count
        invariant
            i <= count,
            mask@.len() == i,
            forall|j: int| 0 <= j < i ==> (#[trigger] mask@[j]) == Some(false),
        decreases count - i,
    {
        mask.push(Some(false));
        i = i + 1;
    }
    proof {
        rows_are_found(|i: int| mask@[i] == Some(true), mask@.len());
        if kept(mask@).len() > 0 {
            let row = kept(mask@)[0];
            assert(mask@[row] == Some(false));
        }
        assert(kept(mask@) =~= Seq::empty());
    }
    apply_filter(batch, &mask)
}

/// The rows of the batch that lie in the time range and have all the tags.
pub open spec fn filtered(
    batch: BatchModel,
    start: i64,
    end: i64,
    tags: Seq<(Seq<char>, Seq<char>)>,
) -> BatchModel {
    batch.rows_at(rows_where(|row: int| row_matches(batch, row, start, end, tags), batch.rows))
}

/// The masks of the tag filters, after those that are given; none where a
/// filter can match no row.
fn tag_masks(
    batch: &Batch,
    tag_filters: &[(&str, &str)],
    masks: Vec<Vec<Option<bool>>>,
) -> (r: Result<Option<Vec<Vec<Option<bool>>>>, QueryError>)
    requires
        forall|m: int|
            0 <= m < masks@.len() ==> (#[trigger] masks_of(masks@)[m]).len() == batch@.rows,
    ensures
        r matches Ok(given),
        r->Ok_0 matches Some(given) ==> {
            &&& forall|m: int|
                0 <= m < given@.len() ==> (#[trigger] masks_of(given@)[m]).len() == batch@.rows
            &&& given@.len() == 0 ==> masks@.len() == 0 && tag_filters@.len() == 0
            &&& forall|row: int|
                0 <= row < batch@.rows ==> #[trigger] all_true(masks_of(given@), row) == (all_true(
                    masks_of(masks@),
                    row,
                ) && has_tags(batch@, row, pairs_of(tag_filters@)))
        },
        r->Ok_0 is None ==> forall|row: int|
            0 <= row < batch@.rows ==> !(#[trigger] has_tags(
                batch@,
                row,
                pairs_of(tag_filters@),
            )),
{
    let ghost tags = pairs_of(tag_filters@);
    let ghost given = masks_of(masks@);
    let mut all: Vec<Vec<Option<bool>>> = masks;
    let count: usize = batch.num_rows();
    let mut f: usize = 0;
    while f < tag_filters.len()
        invariant
            f <= tag_filters.len(),
            count == batch@.rows,
            batch@.is_batch(),
            tags == pairs_of(tag_filters@),
            all@.len() == given.len() + f,
            forall|m: int| 0 <= m < all@.len() ==> (#[trigger] masks_of(all@)[m]).len() == count,
            forall|row: int|
                0 <= row < count ==> #[trigger] all_true(masks_of(all@), row) == (all_true(
                    given,
                    row,
                ) && has_tags(batch@, row, tags.take(f as int))),
        decreases tag_filters.len() - f,
    {
        let (name, value) = tag_filters[f];
        assert(tags[f as int] == (name@, value@));
        let found = batch.index_of(name);
        let usable = match found {
            Some(c) => is_string_like(batch.column(c).field.kind),
            None => false,
        };
        if !usable {
            proof {
                assert forall|row: int| 0 <= row < count implies !(#[trigger] has_tags(
                    batch@,
                    row,
                    tags,
                )) by {
                    assert(!has_tag(batch@, row, tags[f as int]));
                }
            }
            return Ok(None);
        }
        let c: usize = found.unwrap();
        let column = batch.column(c);
        let texts = read_texts(column);
        let mask = match tag_equality_mask(&texts, value) {
            Ok(mask) => mask,
            Err(e) => {
                return Err(e);
            },
        };
        let ghost before = masks_of(all@);
        let ghost now = mask@;
        all.push(mask);
        proof {
            assert(masks_of(all@) =~= before.push(now));
            assert forall|m: int| 0 <= m < all@.len() implies (#[trigger] masks_of(all@)[m]).len()
                == count by {
                if m < before.len() {
                    assert(before[m].len() == count);
                }
            }
            assert forall|row: int| 0 <= row < count implies #[trigger] all_true(
                masks_of(all@),
                row,
            ) == (all_true(given, row) && has_tags(batch@, row, tags.take(f + 1))) by {
                lemma_one_more(before, now, row);
                lemma_one_tag_more(batch@, row, tags, f as int);
                assert(all_true(before, row) == (all_true(given, row) && has_tags(
                    batch@,
                    row,
                    tags.take(f as int),
                )));
                assert(batch@.columns[c as int].is_column(batch@.rows));
                assert((now[row] == Some(true)) == has_tag(batch@, row, tags[f as int]));
            }
        }
        f = f + 1;
    }
    assert(tags.take(f as int) =~= tags);
    Ok(Some(all))
}

/// Keep the rows that lie in the time range and have all the tags.
///
/// A batch without rows is returned as it is.
pub fn filter_batch(
    batch: &Batch,
    time_start: i64,
    time_end: i64,
    tag_filters: &[(&str, &str)],
) -> (r: Result<Batch, QueryError>)
    ensures
        match (r, filter_refusal(batch@)) {
            (Ok(out), None) => out@ == filtered(
                batch@,
                time_start,
                time_end,
                pairs_of(tag_filters@),
            ),
            (Err(e), Some(text)) => e.is_validation(text),
            _ => false,
        },
{
    let ghost tags = pairs_of(tag_filters@);
    let ghost wanted = |row: int| row_matches(batch@, row, time_start, time_end, tags);
    let count: usize = batch.num_rows();
    if count == 0 {
        proof {
            lemma_all_rows(batch@);
            assert(rows_where(wanted, 0) =~= Seq::new(0, |i: int| i));
        }
        return Ok(batch.duplicate());
    }
    let c: usize = match batch.index_of(time_column_name()) {
        Some(c) => c,
        None => {
            return Err(invalid("'timestamp' column not found"));
        },
    };
    let column = batch.column(c);
    if column.field.kind != ColumnKind::Int64 {
        return Err(invalid("'timestamp' column is not Int64"));
    }
    let mut masks: Vec<Vec<Option<bool>>> = Vec::new();
    if time_start != i64::MIN || time_end != i64::MAX {
        let times = read_integers(column);
        match time_range_mask(&times, time_start, time_end) {
            Ok(mask) => {
                masks.push(mask);
            },
            Err(e) => {
                return Err(e);
            },
        }
    }
    let ghost first = masks_of(masks@);
    proof {
        assert forall|row: int| 0 <= row < count implies #[trigger] all_true(first, row) == in_time(
            batch@,
            row,
            time_start,
            time_end,
        ) by {
            if time_start != i64::MIN || time_end != i64::MAX {
                assert(first.len() == 1);
                assert(all_true(first, row) == (first[0][row] == Some(true)));
            }
        }
    }
    let masks = match tag_masks(batch, tag_filters, masks) {
        Ok(Some(masks)) => masks,
        Ok(None) => {
            proof {
                rows_are_found(wanted, count as nat);
                let found = rows_where(wanted, count as nat);
                if found.len() > 0 {
                    let row = found[0];
                    assert(wanted(row));
                    assert(has_tags(batch@, row, tags));
                }
                assert(found =~= Seq::empty());
            }
            return no_rows(batch);
        },
        Err(e) => {
            return Err(e);
        },
    };
    let ghost all = masks_of(masks@);
    if masks.len() == 0 {
        proof {
            assert forall|row: int| 0 <= row < count implies #[trigger] wanted(row) by {
                assert(all_true(all, row));
                assert(all_true(first, row));
            }
            lemma_every_row(wanted, count as nat);
            lemma_all_rows(batch@);
        }
        return Ok(batch.duplicate());
    }
    assert(all[0].len() == count);
    match combine_masks(&masks) {
        Ok(mask) => {
            proof {
                lemma_all_true(all, 0);
                let truth = |i: int| mask@[i] == Some(true);
                assert forall|row: int| 0 <= row < count implies (#[trigger] truth(row)) == wanted(
                    row,
                ) by {
                    lemma_all_true(all, row);
                    assert(all_true(all, row) == (all_true(first, row) && has_tags(
                        batch@,
                        row,
                        tags,
                    )));
                }
                lemma_same_rows(truth, wanted, count as nat);
            }
            apply_filter(batch, &mask)
        },
        Err(e) => Err(e),
    }
}

/// The columns with these names, in the order of the names; a name without a
/// column is passed over.
pub open spec fn found_columns(batch: BatchModel, names: Seq<Seq<char>>) -> Seq<int>
    decreases names.len(),
{
    if names.len() == 0 {
        Seq::empty()
    } else {
        let rest = found_columns(batch, names.drop_last());
        match batch.index_of(names.last()) {
            Some(c) => rest.push(c),
            None => rest,
        }
    }
}

/// The numbers of the columns with these names.
fn find_columns(batch: &Batch, names: &Vec<&str>) -> (r: Vec<usize>)
    ensures
        numbers_of(r@) == found_columns(batch@, texts(names@)),
        forall|i: int| 0 <= i < r@.len() ==> (#[trigger] r@[i]) < batch@.columns.len(),
{
    let ghost want = texts(names@);
    let mut out: Vec<usize> = Vec::new();
    let mut i: usize = 0;
    assert(numbers_of(out@) =~= found_columns(batch@, want.take(0)));
    while i < names.len()
        invariant
            i <= names.len(),
            want == texts(names@),
            numbers_of(out@) == found_columns(batch@, want.take(i as int)),
            forall|j: int| 0 <= j < out@.len() ==> (#[trigger] out@[j]) < batch@.columns.len(),
        decreases names.len() - i,
    {
        proof {
            assert(want.take(i + 1).drop_last() =~= want.take(i as int));
            assert(want.take(i + 1).last() == names@[i as int]@);
        }
        match batch.index_of(names[i]) {
            Some(c) => {
                let ghost before = out@;
                out.push(c);
                assert(numbers_of(out@) =~= numbers_of(before).push(c as int));
            },
            None => {},
        }
        i = i + 1;
    }
    assert(want.take(i as int) =~= want);
    out
}

/// The names that are not the time column's.
pub open spec fn without_time(names: Seq<Seq<char>>) -> Seq<Seq<char>>
    decreases names.len(),
{
    if names.len() == 0 {
        Seq::empty()
    } else {
        let rest = without_time(names.drop_last());
        if names.last() == time_column() {
            rest
        } else {
            rest.push(names.last())
        }
    }
}

/// The batch with some of its columns.
pub open spec fn columns_at(batch: BatchModel, columns: Seq<int>) -> BatchModel {
    BatchModel { rows: batch.rows, columns: columns.map_values(|c: int| batch.columns[c]) }
}

/// The batch with the time column and the columns asked for, in the order asked
/// for; all of it where nothing is asked for or nothing of it is there.
pub open spec fn projected(batch: BatchModel, names: Seq<Seq<char>>) -> BatchModel {
    let found = found_columns(batch, seq![time_column()] + without_time(names));
    if names.len() == 0 || found.len() == 0 {
        batch
    } else {
        columns_at(batch, found)
    }
}

/// Select the named columns of a batch. Always includes `"timestamp"`.
pub fn project_batch(batch: &Batch, projection: &Vec<String>) -> (r: Result<Batch, QueryError>)
    ensures
        r matches Ok(out) && out@ == projected(batch@, projection.deep_view()),
{
    if projection.len() == 0 {
        return Ok(batch.duplicate());
    }
    let ghost asked = projection.deep_view();
    let mut names: Vec<&str> = Vec::new();
    names.push(time_column_name());
    let mut i: usize = 0;
    assert(texts(names@) =~= seq![time_column()] + without_time(asked.take(0)));
    while i < projection.len()
        invariant
            i <= projection.len(),
            asked == projection.deep_view(),
            texts(names@) == seq![time_column()] + without_time(asked.take(i as int)),
        decreases projection.len() - i,
    {
        let name = projection[i].as_str();
        proof {
            assert(asked.take(i + 1).drop_last() =~= asked.take(i as int));
            assert(asked.take(i + 1).last() == name@);
        }
        if !same_text(name, time_column_name()) {
            let ghost before = names@;
            names.push(name);
            proof {
                assert(texts(names@) =~= texts(before).push(name@));
                assert(texts(names@) =~= seq![time_column()] + without_time(asked.take(i + 1)));
            }
        }
        i = i + 1;
    }
    assert(asked.take(i as int) =~= asked);
    let found = find_columns(batch, &names);
    if found.len() == 0 {
        return Ok(batch.duplicate());
    }
    let ghost at = numbers_of(found@);
    let ghost want = columns_at(batch@, at);
    let mut columns: Vec<Column> = Vec::new();
    let rows: usize = batch.num_rows();
    let mut k: usize = 0;
    while k < found.len()
        invariant
            k <= found.len(),
            rows == batch@.rows,
            at == numbers_of(found@),
            want == columns_at(batch@, at),
            forall|j: int| 0 <= j < found@.len() ==> (#[trigger] found@[j]) < batch@.columns.len(),
            columns@.len() == k,
            forall|j: int| 0 <= j < k ==> (#[trigger] columns@[j]).deep_view() == want.columns[j],
            forall|j: int| 0 <= j < k ==> (#[trigger] want.columns[j]).is_column(rows as nat),
        decreases found.len() - k,
    {
        let column = batch.column(found[k]);
        assert(want.columns[k as int] == batch@.columns[at[k as int]]);
        columns.push(column.duplicate());
        k = k + 1;
    }
    assert(columns.deep_view() =~= want.columns);
    assert(want.is_batch());
    Batch::try_new(rows, columns)
}

/// A deletion of a series over a range of time.
#[derive(Debug)]
pub struct Tombstone {
    /// Canonical form of the series.
    pub series: String,
    /// First deleted timestamp.
    pub start: i64,
    /// Last deleted timestamp.
    pub end: i64,
}

/// What a tombstone stands for.
#[verifier::ext_equal]
pub struct TombstoneModel {
    /// Canonical form of the series.
    pub series: Seq<char>,
    /// First deleted timestamp.
    pub start: i64,
    /// Last deleted timestamp.
    pub end: i64,
}

impl TombstoneModel {
    /// The tombstone deletes this series at this time.
    pub open spec fn covers(self, series: Seq<char>, time: i64) -> bool {
        self.series == series && self.start <= time <= self.end
    }
}

impl DeepView for Tombstone {
    type V = TombstoneModel;

    open spec fn deep_view(&self) -> TombstoneModel {
        TombstoneModel { series: self.series@, start: self.start, end: self.end }
    }
}

impl Tombstone {
    /// A deletion of a series over all of time.
    pub fn all_time(series: &str) -> (r: Self)
        ensures
            r.deep_view() == (TombstoneModel {
                series: series@,
                start: i64::MIN,
                end: i64::MAX,
            }),
    {
        Tombstone { series: series.to_owned(), start: i64::MIN, end: i64::MAX }
    }
}

/// A set of deletions.
#[derive(Debug)]
pub struct TombstoneSet {
    tombstones: Vec<Tombstone>,
}

impl View for TombstoneSet {
    type V = Seq<TombstoneModel>;

    closed spec fn view(&self) -> Seq<TombstoneModel> {
        self.tombstones.deep_view()
    }
}

/// The series is deleted at this time.
pub open spec fn is_deleted(
    tombstones: Seq<TombstoneModel>,
    series: Seq<char>,
    time: i64,
) -> bool {
    exists|i: int| 0 <= i < tombstones.len() && (#[trigger] tombstones[i]).covers(series, time)
}

impl TombstoneSet {
    /// No deletions.
    pub fn new() -> (r: Self)
        ensures
            r@ == Seq::<TombstoneModel>::empty(),
    {
        let r = TombstoneSet { tombstones: Vec::new() };
        assert(r@ =~= Seq::<TombstoneModel>::empty());
        r
    }

    /// Add a deletion.
    pub fn insert(&mut self, tombstone: Tombstone)
        ensures
            final(self)@ == old(self)@.push(tombstone.deep_view()),
    {
        let ghost before = self.tombstones@;
        self.tombstones.push(tombstone);
        assert(self@ =~= old(self)@.push(tombstone.deep_view()));
    }

    /// Whether there are no deletions.
    pub fn is_empty(&self) -> (r: bool)
        ensures
            r == (self@.len() == 0),
    {
        self.tombstones.len() == 0
    }

    /// Whether the series is deleted at this time.
    pub fn is_tombstoned(&self, series: &str, time: i64) -> (r: bool)
        ensures
            r == is_deleted(self@, series@, time),
    {
        let mut i: usize = 0;
        while i < self.tombstones.len()
            invariant
                i <= self.tombstones.len() == self@.len(),
                forall|j: int| 0 <= j < i ==> !(#[trigger] self@[j]).covers(series@, time),
            decreases self.tombstones.len() - i,
        {
            let tombstone = &self.tombstones[i];
            assert(self@[i as int] == tombstone.deep_view());
            if tombstone.start <= time && time <= tombstone.end && same_text(
                tombstone.series.as_str(),
                series,
            ) {
                assert(self@[i as int].covers(series@, time));
                return true;
            }
            i = i + 1;
        }
        false
    }
}

/// The tag columns: those named, or every column of texts but the time column.
pub open spec fn tag_columns(batch: BatchModel, names: Option<Seq<Seq<char>>>) -> Seq<int> {
    match names {
        Some(names) => found_columns(batch, names),
        None => rows_where(
            |c: int|
                holds_texts(batch.columns[c].field.kind) && batch.columns[c].field.name
                    != time_column(),
            batch.columns.len(),
        ),
    }
}

/// The row is deleted: its series is, at its timestamp, or at zero where it has
/// none.
pub open spec fn row_is_deleted(
    batch: BatchModel,
    measurement: Seq<char>,
    tombstones: Seq<TombstoneModel>,
    names: Option<Seq<Seq<char>>>,
    row: int,
) -> bool {
    is_deleted(
        tombstones,
        row_series(batch, measurement, tag_columns(batch, names), row),
        match time_at(batch, row) {
            Some(t) => t,
            None => 0,
        },
    )
}

/// The rows that are not deleted.
pub open spec fn surviving(
    batch: BatchModel,
    measurement: Seq<char>,
    tombstones: Seq<TombstoneModel>,
    names: Option<Seq<Seq<char>>>,
) -> Seq<int> {
    rows_where(
        |row: int| !row_is_deleted(batch, measurement, tombstones, names, row),
        batch.rows,
    )
}

/// The names given, if any.
pub open spec fn names_of(names: Option<&[&str]>) -> Option<Seq<Seq<char>>> {
    match names {
        Some(names) => Some(texts(names@)),
        None => None,
    }
}

/// The columns of texts but the time column.
fn text_columns(batch: &Batch) -> (r: Vec<usize>)
    ensures
        numbers_of(r@) == tag_columns(batch@, None),
        forall|i: int| 0 <= i < r@.len() ==> (#[trigger] r@[i]) < batch@.columns.len(),
{
    let ghost meets = |c: int|
        holds_texts(batch@.columns[c].field.kind) && batch@.columns[c].field.name != time_column();
    let mut out: Vec<usize> = Vec::new();
    let mut c: usize = 0;
    assert(numbers_of(out@) =~= rows_where(meets, 0));
    while c < batch.num_columns()
        invariant
            c <= batch@.columns.len(),
            meets == (|c: int|
                holds_texts(batch@.columns[c].field.kind) && batch@.columns[c].field.name
                    != time_column()),
            numbers_of(out@) == rows_where(meets, c as nat),
            forall|i: int| 0 <= i < out@.len() ==> (#[trigger] out@[i]) < batch@.columns.len(),
        decreases batch@.columns.len() - c,
    {
        let field = &batch.column(c).field;
        let wanted = is_string_like(field.kind) && !same_text(
            field.name.as_str(),
            time_column_name(),
        );
        assert(wanted == meets(c as int));
        let ghost before = out@;
        if wanted {
            out.push(c);
            assert(numbers_of(out@) =~= numbers_of(before).push(c as int));
        }
        assert(rows_where(meets, (c + 1) as nat) == if meets(c as int) {
            rows_where(meets, c as nat).push(c as int)
        } else {
            rows_where(meets, c as nat)
        });
        c = c + 1;
    }
    out
}

/// Remove the rows of deleted series.
///
/// The series of a row is told from its tags: the columns named, or, where none
/// are named, every column of texts but the time column. Names matter where
/// there are fields of texts, which would else be taken for tags. A row without
/// a timestamp counts as one at zero. A batch that has rows but no columns
/// cannot be filtered.
pub fn filter_tombstoned(
    batch: &Batch,
    measurement: &str,
    tombstones: &TombstoneSet,
    tag_col_names: Option<&[&str]>,
) -> (r: Result<Batch, QueryError>)
    ensures
        ({
            let rows = surviving(batch@, measurement@, tombstones@, names_of(tag_col_names));
            match r {
                Ok(out) => out@ == batch@.rows_at(rows),
                Err(e) => e is Arrow && batch@.columns.len() == 0 && rows.len() < batch@.rows,
            }
        }),
        r is Err <== batch@.columns.len() == 0 && surviving(
            batch@,
            measurement@,
            tombstones@,
            names_of(tag_col_names),
        ).len() < batch@.rows,
{
    let ghost names = names_of(tag_col_names);
    let ghost survives = |row: int|
        !row_is_deleted(batch@, measurement@, tombstones@, names, row);
    let count: usize = batch.num_rows();
    proof {
        lemma_all_rows(batch@);
    }
    if tombstones.is_empty() || count == 0 {
        proof {
            lemma_every_row(survives, count as nat);
        }
        return Ok(batch.duplicate());
    }
    let unsorted = match tag_col_names {
        Some(list) => find_columns(batch, &slice_to_vec(list)),
        None => text_columns(batch),
    };
    let columns = sort_by_name(batch, &unsorted);
    let times: Option<Vec<Option<i64>>> = match batch.index_of(time_column_name()) {
        Some(c) => Some(read_integers(batch.column(c))),
        None => None,
    };
    let mut mask: Vec<Option<bool>> = Vec::new();
    let mut all_kept = true;
    let mut row: usize = 0;
    while row < count
        invariant
            row <= count,
            count == batch@.rows,
            numbers_of(columns@) == by_name(batch@, tag_columns(batch@, names)),
            forall|i: int|
                0 <= i < columns@.len() ==> (#[trigger] columns@[i]) < batch@.columns.len(),
            times is None ==> batch@.index_of(time_column()) is None,
            times matches Some(list) ==> (batch@.index_of(time_column()) matches Some(c) && list@
                == integers(batch@.columns[c]) && list@.len() == count),
            survives == (|row: int|
                !row_is_deleted(batch@, measurement@, tombstones@, names, row)),
            mask@.len() == row,
            forall|i: int| 0 <= i < row ==> (#[trigger] mask@[i]) == Some(survives(i)),
            all_kept == forall|i: int| 0 <= i < row ==> #[trigger] survives(i),
        decreases count - row,
    {
        let series = compute_series_canonical(measurement, &columns, batch, row);
        let time: i64 = match &times {
            Some(list) => {
                match list[row] {
                    Some(t) => t,
                    None => 0,
                }
            },
            None => 0,
        };
        let keep = !tombstones.is_tombstoned(series.as_str(), time);
        assert(keep == survives(row as int));
        mask.push(Some(keep));
        if !keep {
            all_kept = false;
        }
        row = row + 1;
    }
    if all_kept {
        proof {
            lemma_every_row(survives, count as nat);
        }
        return Ok(batch.duplicate());
    }
    proof {
        let truth = |i: int| mask@[i] == Some(true);
        lemma_same_rows(truth, survives, count as nat);
        rows_are_found(survives, count as nat);
        lemma_fewer(survives, count as nat);
    }
    apply_filter(batch, &mask)
}

/// Where a row fails the condition, fewer rows than all are found.
proof fn lemma_fewer(meets: spec_fn(int) -> bool, n: nat)
    ensures
        rows_where(meets, n).len() <= n,
        (exists|row: int| 0 <= row < n && !#[trigger] meets(row)) ==> rows_where(meets, n).len()
            < n,
    decreases n,
{
    if n > 0 {
        lemma_fewer(meets, (n - 1) as nat);
    }
}

/// The names as a vector.
fn slice_to_vec<'a>(list: &[&'a str]) -> (r: Vec<&'a str>)
    ensures
        r@ == list@,
{
    let mut out: Vec<&'a str> = Vec::new();
    let mut i: usize = 0;
    while i < list.len()
        invariant
            i <= list.len(),
            out@ == list@.take(i as int),
        decreases list.len() - i,
    {
        out.push(list[i]);
        assert(list@.take(i + 1) =~= list@.take(i as int).push(list@[i as int]));
        i = i + 1;
    }
    assert(list@.take(i as int) =~= list@);
    out
}

/// Filtering by a wider range, or by fewer tags, keeps at least the same rows.
pub proof fn narrower_filters_keep_less(
    batch: BatchModel,
    row: int,
    start: i64,
    end: i64,
    tags: Seq<(Seq<char>, Seq<char>)>,
    wider_start: i64,
    wider_end: i64,
    fewer: Seq<(Seq<char>, Seq<char>)>,
)
    requires
        row_matches(batch, row, start, end, tags),
        wider_start <= start && end <= wider_end,
        forall|f: int| 0 <= f < fewer.len() ==> tags.contains(#[trigger] fewer[f]),
    ensures
        row_matches(batch, row, wider_start, wider_end, fewer),
{
    assert forall|f: int| 0 <= f < fewer.len() implies has_tag(batch, row, #[trigger] fewer[f]) by {
        let g = choose|g: int| 0 <= g < tags.len() && tags[g] == fewer[f];
        assert(has_tag(batch, row, tags[g]));
    }
}

} // verus!
