//! The memory that results take, and its charge to the budget.
use vstd::prelude::*;

use crate::query::batch::{Batch, Cell, Column, ColumnKind};
#[allow(unused_imports)]
use crate::query::batch::{BatchModel, CellModel, ColumnModel};
use crate::query::error::QueryError;
#[allow(unused_imports)]
use crate::query::grouping::{account, charged};
use crate::query::memory::MemoryTracker;
#[allow(unused_imports)]
use crate::query::result::{KeyColumn, ResultColumn};
use crate::query::result::{ResultTable, ResultValues};
use crate::query::track::AggResult;

verus! {

/// The account has no room for `bytes` more.
pub open spec fn exceeds(account: Option<(int, int)>, bytes: usize) -> bool {
    account matches Some((used, limit)) && used + bytes > limit
}

/// The error for an allocation of `bytes` that the account has no room for.
pub open spec fn is_over_budget(
    e: QueryError,
    account: Option<(int, int)>,
    bytes: usize,
) -> bool {
    &&& e matches QueryError::QueryMemoryExceeded { requested, allocated, budget }
    &&& requested == bytes
    &&& account == Some((allocated as int, budget as int))
}

/// What comes of `made` when `bytes` are charged for it: it is handed out, and
/// the account holds the charge, or the budget is exceeded and nothing is
/// charged. What was not made costs nothing.
pub open spec fn settles<T>(
    made: Result<T, QueryError>,
    start: Option<(int, int)>,
    r: Result<T, QueryError>,
    end: Option<(int, int)>,
    bytes: usize,
) -> bool {
    match made {
        Err(_) => r == made && end == start,
        Ok(_) => if exceeds(start, bytes) {
            &&& r matches Err(e)
            &&& is_over_budget(e, start, bytes)
            &&& end == start
        } else {
            r == made && end == charged(start, bytes as int)
        },
    }
}

/// What some charges come to.
pub open spec fn spent(sizes: Seq<usize>) -> int
    decreases sizes.len(),
{
    if sizes.len() == 0 {
        0
    } else {
        spent(sizes.drop_last()) + sizes.last()
    }
}

/// Each of some charges, made one after the other, finds room.
pub open spec fn all_fit(sizes: Seq<usize>, start: Option<(int, int)>) -> bool {
    forall|k: int|
        0 <= k < sizes.len() ==> !exceeds(
            charged(start, spent(sizes.take(k))),
            #[trigger] sizes[k],
        )
}

/// What comes of `count` parts that are charged one after the other: all are
/// handed out, or the last of the charges given exceeds the budget, and those
/// before it stay.
pub open spec fn settles_parts<T>(
    count: nat,
    start: Option<(int, int)>,
    r: Result<T, QueryError>,
    end: Option<(int, int)>,
    sizes: Seq<usize>,
) -> bool {
    match r {
        Ok(_) => {
            &&& sizes.len() == count
            &&& all_fit(sizes, start)
            &&& end == charged(start, spent(sizes))
        },
        Err(e) => {
            &&& 0 < sizes.len() <= count
            &&& all_fit(sizes.drop_last(), start)
            &&& end == charged(start, spent(sizes.drop_last()))
            &&& exceeds(end, sizes.last())
            &&& is_over_budget(e, end, sizes.last())
        },
    }
}

/// Charge `bytes` for a result, and hand it out if the budget allows it.
pub fn charge_result<T>(made: T, bytes: usize, tracker: &mut Option<MemoryTracker>) -> (r: Result<
    T,
    QueryError,
>)
    ensures
        settles(Ok(made), account(*old(tracker)), r, account(*final(tracker)), bytes),
{
    if let Some(budget) = tracker {
        match budget.try_allocate(bytes) {
            Ok(_) => {},
            Err(e) => {
                return Err(e);
            },
        }
    }
    Ok(made)
}

// ---------------------------------------------------------------------------
// Sizes
// ---------------------------------------------------------------------------

/// The size is at least so many bytes, or as many as can be counted.
pub open spec fn at_least(size: usize, least: nat) -> bool {
    size >= least || size == usize::MAX
}

/// What an array of `n` integers or double-precision values takes at least: its
/// values, and something for the array itself.
pub open spec fn word_least(n: nat) -> nat {
    8 * n + 1
}

/// What an array of `n` decimals takes at least: its values, and something for
/// the array itself.
pub open spec fn decimal_least(n: nat) -> nat {
    16 * n + 1
}

/// What an array of `n` texts of `bytes` bytes takes at least: the texts, where
/// each of them ends, and something for the array itself.
pub open spec fn text_least(bytes: nat, n: nat) -> nat {
    bytes + 4 * n + 1
}

/// What an array of `n` truth values takes at least: a bit for each, and
/// something for the array itself.
pub open spec fn flag_least(n: nat) -> nat {
    n / 8 + 1
}

/// `get_array_memory_size` of an arrow array of unsigned integers; one of
/// double-precision values, which are as wide, takes the same. It adds what the
/// allocator gave the array's buffers, of which the values take eight bytes
/// each, to the size of the array itself. How much more the allocator gave is
/// left open.
#[verifier::external_body]
fn word_array_bytes(cells: &Vec<Option<u64>>) -> (r: usize)
    ensures
        r >= word_least(cells@.len()),
{
    arrow::array::Array::get_array_memory_size(&arrow::array::UInt64Array::from(cells.clone()))
}

/// `get_array_memory_size` of an arrow array of signed integers. It adds what
/// the allocator gave the array's buffers, of which the values take eight bytes
/// each, to the size of the array itself. How much more the allocator gave is
/// left open.
#[verifier::external_body]
fn integer_array_bytes(cells: &Vec<Option<i64>>) -> (r: usize)
    ensures
        r >= word_least(cells@.len()),
{
    arrow::array::Array::get_array_memory_size(&arrow::array::Int64Array::from(cells.clone()))
}

/// `get_array_memory_size` of an arrow array of decimals. It adds what the
/// allocator gave the array's buffers, of which the values take sixteen bytes
/// each, to the size of the array itself. How much more the allocator gave is
/// left open.
#[verifier::external_body]
fn decimal_array_bytes(cells: &Vec<Option<i128>>) -> (r: usize)
    ensures
        r >= decimal_least(cells@.len()),
{
    arrow::array::Array::get_array_memory_size(&arrow::array::Decimal128Array::from(cells.clone()))
}

/// `get_array_memory_size` of an arrow array of truth values. It adds what the
/// allocator gave the array's buffers, of which the values take a bit each, to
/// the size of the array itself. How much more the allocator gave is left open.
#[verifier::external_body]
fn flag_array_bytes(cells: &Vec<Option<bool>>) -> (r: usize)
    ensures
        r >= flag_least(cells@.len()),
{
    arrow::array::Array::get_array_memory_size(&arrow::array::BooleanArray::from(cells.clone()))
}

/// `get_array_memory_size` of an arrow array of texts, which holds no more text
/// than 32-bit offsets reach. It adds what the allocator gave the array's
/// buffers, which hold the texts and an offset of four bytes for each, to the
/// size of the array itself. How much more the allocator gave is left open.
#[verifier::external_body]
fn text_array_bytes(cells: &Vec<Option<String>>) -> (r: usize)
    requires
        total_text(cells@) <= i32::MAX,
    ensures
        r >= text_least(total_text(cells@), cells@.len()),
{
    arrow::array::Array::get_array_memory_size(&arrow::array::StringArray::from_iter(cells.iter()))
}

/// The number of bytes in some texts.
pub open spec fn total_text(cells: Seq<Option<String>>) -> nat
    decreases cells.len(),
{
    if cells.len() == 0 {
        0
    } else {
        match cells.last() {
            Some(text) => total_text(cells.drop_last()) + vstd::utf8::encode_utf8(text@).len(),
            None => total_text(cells.drop_last()),
        }
    }
}

/// What a column of texts takes. One with more text than an array can hold
/// counts by its text and an offset of eight bytes for each.
fn text_bytes(cells: &Vec<Option<String>>) -> (r: usize)
    ensures
        at_least(r, text_least(total_text(cells@), cells@.len())),
{
    let mut total: usize = 0;
    let mut i: usize = 0;
    assert(cells@.take(0) =~= Seq::empty());
    while i < cells.len()
        invariant
            i <= cells.len(),
            total < usize::MAX ==> total == total_text(cells@.take(i as int)),
        decreases cells.len() - i,
    {
        assert(cells@.take(i + 1).drop_last() =~= cells@.take(i as int));
        if let Some(text) = &cells[i] {
            total = total.saturating_add(text.as_str().as_bytes().len());
        }
        i = i + 1;
    }
    assert(cells@.take(i as int) =~= cells@);
    if total <= i32::MAX as usize {
        text_array_bytes(cells)
    } else {
        let two: usize = cells.len().saturating_add(cells.len());
        let four: usize = two.saturating_add(two);
        let eight: usize = four.saturating_add(four);
        total.saturating_add(eight).saturating_add(8)
    }
}

/// What a column of timestamps and one of double-precision results take, given
/// which of the results are there.
pub(crate) fn timed_bytes(times: &Vec<Option<i64>>, present: &Vec<bool>) -> (r: usize)
    ensures
        at_least(r, word_least(times@.len()) + word_least(present@.len())),
{
    integer_array_bytes(times).saturating_add(result_bytes(present))
}

/// What a column of double-precision results takes, given which of them are
/// there.
pub(crate) fn result_bytes(present: &Vec<bool>) -> (r: usize)
    ensures
        r >= word_least(present@.len()),
{
    let mut cells: Vec<Option<u64>> = Vec::new();
    let mut i: usize = 0;
    while i < present.len()
        invariant
            i <= present.len(),
            cells@.len() == i,
        decreases present.len() - i,
    {
        if present[i] {
            cells.push(Some(0));
        } else {
            cells.push(None);
        }
        i = i + 1;
    }
    word_array_bytes(&cells)
}

/// The number of bytes in the texts among some cells.
pub open spec fn cell_text(cells: Seq<CellModel>) -> nat
    decreases cells.len(),
{
    if cells.len() == 0 {
        0
    } else {
        match cells.last() {
            CellModel::Text(text) => cell_text(cells.drop_last()) + vstd::utf8::encode_utf8(
                text,
            ).len(),
            _ => cell_text(cells.drop_last()),
        }
    }
}

/// The types whose arrays hold just the values of their rows, each in a place
/// of its own.
pub open spec fn is_plain(kind: ColumnKind) -> bool {
    kind is Int64 || kind is UInt64 || kind is Float64 || kind is Boolean || kind is Utf8
        || kind is Decimal128
}

/// What a column of a batch takes at least.
pub open spec fn column_least(column: ColumnModel) -> nat {
    match column.field.kind {
        ColumnKind::Utf8 => text_least(cell_text(column.cells), column.cells.len()),
        ColumnKind::Boolean => flag_least(column.cells.len()),
        ColumnKind::Decimal128 { .. } => decimal_least(column.cells.len()),
        _ => word_least(column.cells.len()),
    }
}

/// What some columns of a batch take at least.
pub open spec fn columns_least(columns: Seq<ColumnModel>) -> nat
    decreases columns.len(),
{
    if columns.len() == 0 {
        0
    } else {
        columns_least(columns.drop_last()) + column_least(columns.last())
    }
}

/// The columns of a batch have types whose arrays hold just their values.
pub open spec fn has_plain_columns(batch: BatchModel) -> bool {
    forall|c: int|
        0 <= c < batch.columns.len() ==> is_plain((#[trigger] batch.columns[c]).field.kind)
}

/// The texts among some cells.
fn cell_texts(cells: &Vec<Cell>) -> (r: Vec<Option<String>>)
    ensures
        r@.len() == cells@.len(),
        total_text(r@) == cell_text(cells.deep_view()),
{
    let ghost models = cells.deep_view();
    let mut texts: Vec<Option<String>> = Vec::new();
    let mut i: usize = 0;
    assert(models.take(0) =~= Seq::empty());
    while i < cells.len()
        invariant
            i <= cells.len(),
            models == cells.deep_view(),
            texts@.len() == i,
            total_text(texts@) == cell_text(models.take(i as int)),
        decreases cells.len() - i,
    {
        let ghost before = texts@;
        proof {
            assert(models.take(i + 1).drop_last() =~= models.take(i as int));
            assert(models.take(i + 1).last() == cells@[i as int].deep_view());
        }
        match &cells[i] {
            Cell::Text(text) => texts.push(Some(text.clone())),
            _ => texts.push(None),
        }
        assert(texts@.drop_last() =~= before);
        i = i + 1;
    }
    assert(models.take(i as int) =~= models);
    texts
}

/// What a column of a batch takes.
fn column_bytes(column: &Column) -> (r: usize)
    requires
        is_plain(column.field.kind),
    ensures
        at_least(r, column_least(column.deep_view())),
{
    let n: usize = column.cells.len();
    assert(column.deep_view().cells.len() == n);
    match column.field.kind {
        ColumnKind::Utf8 => {
            let texts = cell_texts(&column.cells);
            text_bytes(&texts)
        },
        ColumnKind::Boolean => {
            let mut flags: Vec<Option<bool>> = Vec::new();
            while flags.len() < n
                invariant
                    flags@.len() <= n,
                    n == column.cells.len(),
                decreases n - flags.len(),
            {
                let flag: Option<bool> = match &column.cells[flags.len()] {
                    Cell::Bool(v) => Some(*v),
                    _ => None,
                };
                flags.push(flag);
            }
            flag_array_bytes(&flags)
        },
        ColumnKind::Decimal128 { .. } => {
            let mut decimals: Vec<Option<i128>> = Vec::new();
            while decimals.len() < n
                invariant
                    decimals@.len() <= n,
                    n == column.cells.len(),
                decreases n - decimals.len(),
            {
                let mantissa: Option<i128> = match &column.cells[decimals.len()] {
                    Cell::Decimal(m) => Some(*m),
                    _ => None,
                };
                decimals.push(mantissa);
            }
            decimal_array_bytes(&decimals)
        },
        _ => {
            let mut words: Vec<Option<u64>> = Vec::new();
            while words.len() < n
                invariant
                    words@.len() <= n,
                    n == column.cells.len(),
                decreases n - words.len(),
            {
                let word: Option<u64> = match &column.cells[words.len()] {
                    Cell::Null => None,
                    _ => Some(0),
                };
                words.push(word);
            }
            word_array_bytes(&words)
        },
    }
}

/// What a batch takes whose arrays hold just their values: those of integers,
/// floats, truth values, texts and decimals. What an array of another type
/// takes depends on more than its values.
pub fn batch_bytes(batch: &Batch) -> (r: usize)
    requires
        has_plain_columns(batch@),
    ensures
        at_least(r, columns_least(batch@.columns)),
{
    let mut total: usize = 0;
    let n: usize = batch.num_columns();
    let ghost columns = batch@.columns;
    let mut c: usize = 0;
    assert(columns.take(0) =~= Seq::empty());
    while c < n
        invariant
            c <= n,
            n == columns.len(),
            columns == batch@.columns,
            has_plain_columns(batch@),
            at_least(total, columns_least(columns.take(c as int))),
        decreases n - c,
    {
        assert(columns.take(c + 1).drop_last() =~= columns.take(c as int));
        assert(is_plain(columns[c as int].field.kind));
        total = total.saturating_add(column_bytes(batch.column(c)));
        c = c + 1;
    }
    assert(columns.take(c as int) =~= columns);
    total
}

/// What some columns of keys take at least.
pub open spec fn keys_least(keys: Seq<KeyColumn>) -> nat
    decreases keys.len(),
{
    if keys.len() == 0 {
        0
    } else {
        keys_least(keys.drop_last()) + text_least(
            total_text(keys.last().values@),
            keys.last().values@.len(),
        )
    }
}

/// What a column of results takes at least.
pub open spec fn result_least(column: ResultColumn) -> nat {
    match column.values {
        ResultValues::Decimals { scale: _, mantissas } => decimal_least(mantissas@.len()),
        ResultValues::Floats(values) => word_least(values@.len()),
    }
}

/// What some columns of results take at least.
pub open spec fn results_least(results: Seq<ResultColumn>) -> nat
    decreases results.len(),
{
    if results.len() == 0 {
        0
    } else {
        results_least(results.drop_last()) + result_least(results.last())
    }
}

/// What a table of results takes at least: eight bytes for each double, sixteen
/// for each decimal, the texts of the keys with four bytes for each, and
/// something for each column.
pub open spec fn table_least(table: &ResultTable) -> nat {
    keys_least(table.keys@) + results_least(table.results@)
}

/// What a table of results takes.
pub(crate) fn table_bytes(table: &ResultTable) -> (r: usize)
    ensures
        at_least(r, table_least(table)),
{
    let mut total: usize = 0;
    let mut k: usize = 0;
    assert(table.keys@.take(0) =~= Seq::empty());
    while k < table.keys.len()
        invariant
            k <= table.keys.len(),
            at_least(total, keys_least(table.keys@.take(k as int))),
        decreases table.keys.len() - k,
    {
        assert(table.keys@.take(k + 1).drop_last() =~= table.keys@.take(k as int));
        total = total.saturating_add(text_bytes(&table.keys[k].values));
        k = k + 1;
    }
    assert(table.keys@.take(k as int) =~= table.keys@);
    let mut c: usize = 0;
    assert(table.results@.take(0) =~= Seq::empty());
    while c < table.results.len()
        invariant
            c <= table.results.len(),
            at_least(
                total,
                keys_least(table.keys@) + results_least(table.results@.take(c as int)),
            ),
        decreases table.results.len() - c,
    {
        assert(table.results@.take(c + 1).drop_last() =~= table.results@.take(c as int));
        let bytes: usize = match &table.results[c].values {
            ResultValues::Decimals { scale: _, mantissas } => decimal_array_bytes(mantissas),
            ResultValues::Floats(values) => {
                let mut present: Vec<bool> = Vec::new();
                while present.len() < values.len()
                    invariant
                        present@.len() <= values@.len(),
                    decreases values.len() - present.len(),
                {
                    present.push(values[present.len()] != AggResult::Null);
                }
                result_bytes(&present)
            },
        };
        total = total.saturating_add(bytes);
        c = c + 1;
    }
    assert(table.results@.take(c as int) =~= table.results@);
    total
}

/// Charge the memory that a table of results takes.
pub(crate) fn charge_table(table: ResultTable, tracker: &mut Option<MemoryTracker>) -> (r: Result<
    ResultTable,
    QueryError,
>)
    ensures
        exists|size: usize|
            at_least(size, table_least(&table)) && #[trigger] settles(
                Ok(table),
                account(*old(tracker)),
                r,
                account(*final(tracker)),
                size,
            ),
{
    let ghost start = account(*tracker);
    let size: usize = if tracker.is_some() {
        table_bytes(&table)
    } else {
        usize::MAX
    };
    let r = charge_result(table, size, tracker);
    assert(settles(Ok(table), start, r, account(*tracker), size));
    r
}

/// A result that takes more than the budget has left is refused, however it is
/// laid out in memory.
pub proof fn a_result_beyond_the_budget_is_refused<T>(
    made: Result<T, QueryError>,
    start: Option<(int, int)>,
    r: Result<T, QueryError>,
    end: Option<(int, int)>,
    size: usize,
    least: nat,
)
    requires
        made is Ok,
        settles(made, start, r, end, size),
        at_least(size, least),
        start matches Some((used, limit)) && 0 <= used && limit < usize::MAX && used + least
            > limit,
    ensures
        r matches Err(e) && is_over_budget(e, start, size),
        end == start,
{
}

/// Without a budget a result is always handed out, and nothing is charged.
pub proof fn no_budget_is_never_exceeded<T>(
    made: Result<T, QueryError>,
    r: Result<T, QueryError>,
    end: Option<(int, int)>,
    bytes: usize,
)
    requires
        settles(made, None, r, end, bytes),
    ensures
        r == made,
        end is None,
{
}

} // verus!
