//! Stable sorting of rows.
use vstd::prelude::*;

verus! {

/// Rows that can be sorted.
pub trait RowOrder {
    /// Number of rows.
    spec fn count(&self) -> nat;

    /// Row `i` does not come after row `j`.
    spec fn not_after(&self, i: int, j: int) -> bool;

    /// Any two rows are ordered, and the order is transitive.
    proof fn lemma_ordered(&self, i: int, j: int, k: int)
        ensures
            self.not_after(i, j) || self.not_after(j, i),
            self.not_after(i, j) && self.not_after(j, k) ==> self.not_after(i, k),
    ;

    /// Whether row `i` does not come after row `j`.
    fn is_not_after(&self, i: usize, j: usize) -> (r: bool)
        requires
            i < self.count(),
            j < self.count(),
        ensures
            r == self.not_after(i as int, j as int),
    ;
}

/// `a` comes before `b` in a stable sort: it is not after `b`, and where
/// neither is after the other it was before `b` to begin with.
pub open spec fn stably_before<O: RowOrder>(order: &O, a: int, b: int) -> bool {
    order.not_after(a, b) && (order.not_after(b, a) ==> a < b)
}

/// The rows from `from` to `to`, stably sorted: each of them once, each before
/// those that follow it.
pub open spec fn is_sorted<O: RowOrder>(order: &O, rows: Seq<usize>, from: int, to: int) -> bool {
    &&& rows.len() == to - from
    &&& forall|p: int| 0 <= p < rows.len() ==> from <= (#[trigger] rows[p]) < to
    &&& forall|row: int| from <= row < to ==> #[trigger] holds_row(rows, row)
    &&& forall|p: int, q: int|
        0 <= p < q < rows.len() ==> stably_before(
            order,
            (#[trigger] rows[p]) as int,
            (#[trigger] rows[q]) as int,
        )
}

/// The row is among the rows.
pub open spec fn holds_row(rows: Seq<usize>, row: int) -> bool {
    exists|p: int| 0 <= p < rows.len() && (#[trigger] rows[p]) == row
}

/// Merge two sorted runs, the first of which holds the lower rows.
fn merge<O: RowOrder>(
    order: &O,
    left: Vec<usize>,
    right: Vec<usize>,
    Ghost(from): Ghost<int>,
    Ghost(middle): Ghost<int>,
    Ghost(to): Ghost<int>,
) -> (r: Vec<usize>)
    requires
        0 <= from <= middle <= to <= order.count(),
        to <= usize::MAX,
        is_sorted(order, left@, from, middle),
        is_sorted(order, right@, middle, to),
    ensures
        is_sorted(order, r@, from, to),
{
    let mut out: Vec<usize> = Vec::new();
    let mut i: usize = 0;
    let mut j: usize = 0;
    while i < left.len() || j < right.len()
        invariant
            i <= left.len(),
            j <= right.len(),
            0 <= from <= middle <= to <= order.count(),
            to <= usize::MAX,
            is_sorted(order, left@, from, middle),
            is_sorted(order, right@, middle, to),
            out@.len() == i + j,
            forall|p: int| 0 <= p < out@.len() ==> from <= (#[trigger] out@[p]) < to,
            forall|p: int| 0 <= p < i ==> holds_row(out@, (#[trigger] left@[p]) as int),
            forall|p: int| 0 <= p < j ==> holds_row(out@, (#[trigger] right@[p]) as int),
            forall|p: int, q: int|
                0 <= p < q < out@.len() ==> stably_before(
                    order,
                    (#[trigger] out@[p]) as int,
                    (#[trigger] out@[q]) as int,
                ),
            forall|p: int, q: int|
                0 <= p < out@.len() && i <= q < left@.len() ==> stably_before(
                    order,
                    (#[trigger] out@[p]) as int,
                    (#[trigger] left@[q]) as int,
                ),
            forall|p: int, q: int|
                0 <= p < out@.len() && j <= q < right@.len() ==> stably_before(
                    order,
                    (#[trigger] out@[p]) as int,
                    (#[trigger] right@[q]) as int,
                ),
        decreases left.len() - i + right.len() - j,
    {
        let take_left: bool = if i >= left.len() {
            false
        } else if j >= right.len() {
            true
        } else {
            order.is_not_after(left[i], right[j])
        };
        let ghost before = out@;
        if take_left {
            let row: usize = left[i];
            out.push(row);
            proof {
                assert forall|q: int| j <= q < right@.len() implies stably_before(
                    order,
                    row as int,
                    (#[trigger] right@[q]) as int,
                ) by {
                    assert(row < middle <= right@[q]);
                    if q > j {
                        assert(stably_before(order, right@[j as int] as int, right@[q] as int));
                        order.lemma_ordered(
                            row as int,
                            right@[j as int] as int,
                            right@[q] as int,
                        );
                    }
                }
                lemma_pushed(before, row);
            }
            i = i + 1;
        } else {
            let row: usize = right[j];
            out.push(row);
            proof {
                assert forall|q: int| i <= q < left@.len() implies stably_before(
                    order,
                    row as int,
                    (#[trigger] left@[q]) as int,
                ) by {
                    order.lemma_ordered(left@[i as int] as int, row as int, row as int);
                    if q > i {
                        assert(stably_before(order, left@[i as int] as int, left@[q] as int));
                        order.lemma_ordered(row as int, left@[i as int] as int, left@[q] as int);
                        order.lemma_ordered(left@[i as int] as int, left@[q] as int, row as int);
                    }
                }
                lemma_pushed(before, row);
            }
            j = j + 1;
        }
    }
    proof {
        assert forall|row: int| from <= row < to implies #[trigger] holds_row(out@, row) by {
            if row < middle {
                assert(holds_row(left@, row));
                let p = choose|p: int| 0 <= p < left@.len() && (#[trigger] left@[p]) == row;
                assert(holds_row(out@, left@[p] as int));
            } else {
                assert(holds_row(right@, row));
                let p = choose|p: int| 0 <= p < right@.len() && (#[trigger] right@[p]) == row;
                assert(holds_row(out@, right@[p] as int));
            }
        }
    }
    out
}

proof fn lemma_pushed(rows: Seq<usize>, row: usize)
    ensures
        holds_row(rows.push(row), row as int),
        forall|other: int| holds_row(rows, other) ==> #[trigger] holds_row(rows.push(row), other),
{
    let all = rows.push(row);
    assert(all[rows.len() as int] == row);
    assert forall|other: int| holds_row(rows, other) implies #[trigger] holds_row(all, other) by {
        let p = choose|p: int| 0 <= p < rows.len() && (#[trigger] rows[p]) == other;
        assert(all[p] == other);
    }
}

fn sort_range<O: RowOrder>(order: &O, from: usize, to: usize) -> (r: Vec<usize>)
    requires
        from <= to <= order.count(),
    ensures
        is_sorted(order, r@, from as int, to as int),
    decreases to - from,
{
    if to - from <= 1 {
        let mut out: Vec<usize> = Vec::new();
        if from < to {
            out.push(from);
            assert(out@[0] == from);
        }
        return out;
    }
    let middle: usize = from + (to - from) / 2;
    let left = sort_range(order, from, middle);
    let right = sort_range(order, middle, to);
    merge(
        order,
        left,
        right,
        Ghost(from as int),
        Ghost(middle as int),
        Ghost(to as int),
    )
}

/// The rows below `count`, stably sorted.
pub fn sort_rows<O: RowOrder>(order: &O, count: usize) -> (r: Vec<usize>)
    requires
        count == order.count(),
    ensures
        is_sorted(order, r@, 0, count as int),
{
    sort_range(order, 0, count)
}

/// There is one way to sort rows stably.
pub proof fn sorting_is_unique<O: RowOrder>(
    order: &O,
    a: Seq<usize>,
    b: Seq<usize>,
    from: int,
    to: int,
)
    requires
        is_sorted(order, a, from, to),
        is_sorted(order, b, from, to),
    ensures
        a == b,
{
    assert forall|p: int| 0 <= p < a.len() implies a[p] == b[p] by {
        lemma_same_at(order, a, b, from, to, p);
    }
    assert(a =~= b);
}

proof fn lemma_same_at<O: RowOrder>(
    order: &O,
    a: Seq<usize>,
    b: Seq<usize>,
    from: int,
    to: int,
    p: int,
)
    requires
        is_sorted(order, a, from, to),
        is_sorted(order, b, from, to),
        0 <= p < a.len(),
    ensures
        a[p] == b[p],
    decreases p,
{
    assert forall|q: int| 0 <= q < p implies a[q] == b[q] by {
        lemma_same_at(order, a, b, from, to, q);
    }
    if a[p] != b[p] {
        assert(holds_row(b, a[p] as int));
        assert(holds_row(a, b[p] as int));
        let i = choose|i: int| 0 <= i < b.len() && (#[trigger] b[i]) == a[p];
        let j = choose|j: int| 0 <= j < a.len() && (#[trigger] a[j]) == b[p];
        assert(i > p) by {
            if i < p {
                assert(a[i] == b[i]);
                assert(stably_before(order, a[i] as int, a[p] as int));
            }
        }
        assert(j > p) by {
            if j < p {
                assert(a[j] == b[j]);
                assert(stably_before(order, b[j] as int, b[p] as int));
            }
        }
        assert(stably_before(order, b[p] as int, b[i] as int));
        assert(stably_before(order, a[p] as int, a[j] as int));
    }
}

} // verus!
