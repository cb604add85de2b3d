//! The tags of a row, and the series that they make up.
use vstd::prelude::*;
use vstd::string::*;

#[allow(unused_imports)]
use crate::query::batch::{BatchModel, CellModel};
use crate::query::batch::{Batch, Cell, ColumnKind};
#[allow(unused_imports)]
use crate::query::series::canonical;
use crate::query::series::push_tag;
use crate::text::is_text_before;
#[allow(unused_imports)]
use crate::text::{
    lemma_text_before_irreflexive, lemma_text_before_total, lemma_text_before_transitive,
    text_before,
};

verus! {

broadcast use vstd::string::group_string_axioms;

/// The text of a cell: only of columns of texts, plain or encoded with a
/// dictionary of texts and 32-bit keys, and only where it is not null.
pub open spec fn text_at(batch: BatchModel, c: int, row: int) -> Option<Seq<char>> {
    let column = batch.columns[c];
    if column.field.kind == ColumnKind::Utf8 || column.field.kind == ColumnKind::Dictionary {
        match column.cells[row] {
            CellModel::Text(text) => Some(text),
            _ => None,
        }
    } else {
        None
    }
}

/// The text of a cell.
pub fn extract_string_value(batch: &Batch, c: usize, row: usize) -> (r: Option<&str>)
    requires
        c < batch@.columns.len(),
        row < batch@.rows,
    ensures
        match r {
            Some(text) => text_at(batch@, c as int, row as int) == Some(text@),
            None => text_at(batch@, c as int, row as int) is None,
        },
{
    let column = batch.column(c);
    assert(batch@.columns[c as int].cells[row as int] == column.cells@[row as int].deep_view());
    if column.field.kind == ColumnKind::Utf8 || column.field.kind == ColumnKind::Dictionary {
        match &column.cells[row] {
            Cell::Text(text) => Some(text.as_str()),
            _ => None,
        }
    } else {
        None
    }
}

/// The name of column `c` comes before that of column `d`.
pub open spec fn name_before(batch: BatchModel, c: int, d: int) -> bool {
    text_before(batch.columns[c].field.name, batch.columns[d].field.name)
}

/// The columns with one more, placed after those whose names do not come after
/// its name.
pub open spec fn inserted(batch: BatchModel, columns: Seq<int>, c: int) -> Seq<int>
    decreases columns.len(),
{
    if columns.len() > 0 && name_before(batch, c, columns.last()) {
        inserted(batch, columns.drop_last(), c).push(columns.last())
    } else {
        columns.push(c)
    }
}

/// The columns in the order of their names.
pub open spec fn by_name(batch: BatchModel, columns: Seq<int>) -> Seq<int>
    decreases columns.len(),
{
    if columns.len() == 0 {
        Seq::empty()
    } else {
        inserted(batch, by_name(batch, columns.drop_last()), columns.last())
    }
}

/// The columns are in the order of their names.
pub open spec fn is_by_name(batch: BatchModel, columns: Seq<int>) -> bool {
    forall|i: int, j: int|
        0 <= i < j < columns.len() ==> !name_before(
            batch,
            #[trigger] columns[j],
            #[trigger] columns[i],
        )
}

proof fn lemma_inserted(batch: BatchModel, columns: Seq<int>, c: int)
    requires
        is_by_name(batch, columns),
    ensures
        is_by_name(batch, inserted(batch, columns, c)),
        inserted(batch, columns, c).to_multiset() == columns.to_multiset().insert(c),
        inserted(batch, columns, c).len() == columns.len() + 1,
        forall|d: int| #[trigger]
            inserted(batch, columns, c).contains(d) ==> d == c || columns.contains(d),
    decreases columns.len(),
{
    let all = inserted(batch, columns, c);
    vstd::seq_lib::to_multiset_build(columns, c);
    if columns.len() > 0 && name_before(batch, c, columns.last()) {
        let rest = columns.drop_last();
        let last = columns.last();
        lemma_inserted(batch, rest, c);
        let before = inserted(batch, rest, c);
        assert(rest.push(last) =~= columns);
        vstd::seq_lib::to_multiset_build(rest, last);
        vstd::seq_lib::to_multiset_build(before, last);
        assert(all.to_multiset() =~= columns.to_multiset().insert(c));
        assert forall|i: int, j: int| 0 <= i < j < all.len() implies !name_before(
            batch,
            #[trigger] all[j],
            #[trigger] all[i],
        ) by {
            if j == all.len() - 1 {
                assert(before.contains(all[i]));
                if all[i] == c {
                    if name_before(batch, last, c) {
                        lemma_text_before_transitive(
                            batch.columns[c].field.name,
                            batch.columns[last].field.name,
                            batch.columns[c].field.name,
                        );
                        lemma_text_before_irreflexive(batch.columns[c].field.name);
                    }
                } else {
                    let k = choose|k: int| 0 <= k < rest.len() && rest[k] == all[i];
                    assert(columns[k] == all[i]);
                    assert(columns[columns.len() - 1] == last);
                }
            } else {
                assert(before[i] == all[i] && before[j] == all[j]);
            }
        }
        assert forall|d: int| #[trigger] all.contains(d) implies d == c || columns.contains(d) by {
            if d == last {
                assert(columns[columns.len() - 1] == d);
            } else {
                let k = choose|k: int| 0 <= k < all.len() && all[k] == d;
                assert(before[k] == d);
                assert(before.contains(d));
                if d != c {
                    let m = choose|m: int| 0 <= m < rest.len() && rest[m] == d;
                    assert(columns[m] == d);
                }
            }
        }
    } else {
        assert forall|i: int, j: int| 0 <= i < j < all.len() implies !name_before(
            batch,
            #[trigger] all[j],
            #[trigger] all[i],
        ) by {
            if j == all.len() - 1 {
                let last = columns.last();
                if i < columns.len() - 1 {
                    assert(!name_before(batch, columns[columns.len() - 1], columns[i]));
                    lemma_text_before_total(
                        batch.columns[c].field.name,
                        batch.columns[last].field.name,
                    );
                    if name_before(batch, c, columns[i]) && name_before(batch, last, c) {
                        lemma_text_before_transitive(
                            batch.columns[last].field.name,
                            batch.columns[c].field.name,
                            batch.columns[columns[i]].field.name,
                        );
                    }
                }
            } else {
                assert(columns[i] == all[i] && columns[j] == all[j]);
            }
        }
        assert forall|d: int| #[trigger] all.contains(d) implies d == c || columns.contains(d) by {
            let k = choose|k: int| 0 <= k < all.len() && all[k] == d;
            if k < columns.len() {
                assert(columns[k] == d);
            }
        }
    }
}

/// Ordering columns by name keeps them all and puts their names in ascending
/// order.
pub proof fn columns_are_ordered_by_name(batch: BatchModel, columns: Seq<int>)
    ensures
        is_by_name(batch, by_name(batch, columns)),
        by_name(batch, columns).to_multiset() == columns.to_multiset(),
        by_name(batch, columns).len() == columns.len(),
        forall|d: int| #[trigger]
            by_name(batch, columns).contains(d) ==> columns.contains(d),
    decreases columns.len(),
{
    if columns.len() > 0 {
        let rest = columns.drop_last();
        columns_are_ordered_by_name(batch, rest);
        lemma_inserted(batch, by_name(batch, rest), columns.last());
        assert(rest.push(columns.last()) =~= columns);
        vstd::seq_lib::to_multiset_build(rest, columns.last());
        assert forall|d: int| #[trigger] by_name(batch, columns).contains(d) implies columns.contains(
            d,
        ) by {
            if d == columns.last() {
                assert(columns[columns.len() - 1] == d);
            } else {
                assert(by_name(batch, rest).contains(d));
                let k = choose|k: int| 0 <= k < rest.len() && rest[k] == d;
                assert(columns[k] == d);
            }
        }
    } else {
        assert(columns =~= Seq::<int>::empty());
    }
}

proof fn lemma_inserted_at(batch: BatchModel, columns: Seq<int>, c: int, p: int)
    requires
        0 <= p <= columns.len(),
        forall|i: int| p <= i < columns.len() ==> name_before(batch, c, #[trigger] columns[i]),
        p == 0 || !name_before(batch, c, columns[p - 1]),
    ensures
        inserted(batch, columns, c) == columns.insert(p, c),
    decreases columns.len(),
{
    if p < columns.len() {
        let rest = columns.drop_last();
        assert(name_before(batch, c, columns[columns.len() - 1]));
        lemma_inserted_at(batch, rest, c, p);
        assert(rest.insert(p, c).push(columns.last()) =~= columns.insert(p, c));
    } else {
        assert(columns.push(c) =~= columns.insert(p, c));
    }
}

/// Numbers of columns or rows, as integers.
pub open spec fn numbers_of(list: Seq<usize>) -> Seq<int> {
    list.map_values(|n: usize| n as int)
}

/// The columns in the order of their names.
pub fn sort_by_name(batch: &Batch, columns: &Vec<usize>) -> (r: Vec<usize>)
    requires
        forall|i: int| 0 <= i < columns@.len() ==> (#[trigger] columns@[i]) < batch@.columns.len(),
    ensures
        numbers_of(r@) == by_name(batch@, numbers_of(columns@)),
        forall|i: int| 0 <= i < r@.len() ==> (#[trigger] r@[i]) < batch@.columns.len(),
{
    let ghost all = numbers_of(columns@);
    let mut out: Vec<usize> = Vec::new();
    let mut i: usize = 0;
    assert(numbers_of(out@) =~= by_name(batch@, all.take(0)));
    while i < columns.len()
        invariant
            i <= columns.len(),
            all == numbers_of(columns@),
            numbers_of(out@) == by_name(batch@, all.take(i as int)),
            forall|j: int|
                0 <= j < columns@.len() ==> (#[trigger] columns@[j]) < batch@.columns.len(),
            forall|j: int| 0 <= j < out@.len() ==> (#[trigger] out@[j]) < batch@.columns.len(),
        decreases columns.len() - i,
    {
        let c: usize = columns[i];
        let mut p: usize = out.len();
        while p > 0 && is_text_before(
            batch.column(c).field.name.as_str(),
            batch.column(out[p - 1]).field.name.as_str(),
        )
            invariant
                p <= out.len(),
                c < batch@.columns.len(),
                forall|j: int| 0 <= j < out@.len() ==> (#[trigger] out@[j]) < batch@.columns.len(),
                forall|j: int|
                    p <= j < out@.len() ==> name_before(
                        batch@,
                        c as int,
                        #[trigger] numbers_of(out@)[j],
                    ),
            ensures
                p == 0 || !name_before(batch@, c as int, numbers_of(out@)[p - 1]),
            decreases p,
        {
            p = p - 1;
        }
        proof {
            lemma_inserted_at(batch@, numbers_of(out@), c as int, p as int);
            assert(all.take(i + 1).drop_last() =~= all.take(i as int));
            assert(all.take(i + 1).last() == c as int);
            assert(numbers_of(out@.insert(p as int, c)) =~= numbers_of(out@).insert(
                p as int,
                c as int,
            ));
        }
        out.insert(p, c);
        i = i + 1;
    }
    assert(all.take(columns.len() as int) =~= all);
    out
}

/// The tags of a row: the names and texts of those of the columns that hold one.
pub open spec fn row_tags(batch: BatchModel, columns: Seq<int>, row: int) -> Seq<
    (Seq<char>, Seq<char>),
>
    decreases columns.len(),
{
    if columns.len() == 0 {
        Seq::empty()
    } else {
        let rest = row_tags(batch, columns.drop_last(), row);
        match text_at(batch, columns.last(), row) {
            Some(text) => rest.push((batch.columns[columns.last()].field.name, text)),
            None => rest,
        }
    }
}

/// The canonical form of the series that a row belongs to, given the tag columns.
pub open spec fn row_series(
    batch: BatchModel,
    measurement: Seq<char>,
    columns: Seq<int>,
    row: int,
) -> Seq<char> {
    canonical(measurement, row_tags(batch, by_name(batch, columns), row))
}

/// The canonical form of the series that a row belongs to, given the tag
/// columns in the order of their names.
pub fn compute_series_canonical(
    measurement: &str,
    columns: &Vec<usize>,
    batch: &Batch,
    row: usize,
) -> (r: String)
    requires
        forall|i: int| 0 <= i < columns@.len() ==> (#[trigger] columns@[i]) < batch@.columns.len(),
        row < batch@.rows,
    ensures
        r@ == canonical(measurement@, row_tags(batch@, numbers_of(columns@), row as int)),
{
    let ghost all = numbers_of(columns@);
    let mut out: String = measurement.to_owned();
    let mut i: usize = 0;
    while i < columns.len()
        invariant
            i <= columns.len(),
            all == numbers_of(columns@),
            row < batch@.rows,
            forall|j: int|
                0 <= j < columns@.len() ==> (#[trigger] columns@[j]) < batch@.columns.len(),
            out@ == canonical(measurement@, row_tags(batch@, all.take(i as int), row as int)),
        decreases columns.len() - i,
    {
        let c: usize = columns[i];
        let ghost before = row_tags(batch@, all.take(i as int), row as int);
        proof {
            assert(all.take(i + 1).drop_last() =~= all.take(i as int));
            assert(all.take(i + 1).last() == c as int);
        }
        match extract_string_value(batch, c, row) {
            Some(text) => {
                let name = batch.column(c).field.name.as_str();
                push_tag(&mut out, name, text);
                proof {
                    assert(before.push((name@, text@)).drop_last() =~= before);
                    assert(before.push((name@, text@)).last() == (name@, text@));
                }
            },
            None => {},
        }
        i = i + 1;
    }
    assert(all.take(columns.len() as int) =~= all);
    out
}

} // verus!
