//! Rows by time bucket, in a hash map with the FNV hasher.
use vstd::prelude::*;

use fnv::FnvHashMap;

verus! {

/// `fnv::FnvHasher`, the hasher of the map.
#[verifier::external_type_specification]
#[verifier::external_body]
pub struct ExFnvHasher(fnv::FnvHasher);

/// `std::hash::BuildHasherDefault`, which builds the hasher.
#[verifier::external_type_specification]
#[verifier::external_body]
#[verifier::reject_recursive_types(H)]
pub struct ExBuildHasherDefault<H>(std::hash::BuildHasherDefault<H>);

/// The rows of a bucket: none if the map does not know it.
pub open spec fn rows_in(buckets: Map<i64, Vec<usize>>, start: i64) -> Seq<usize> {
    if buckets.contains_key(start) {
        buckets[start]@
    } else {
        Seq::empty()
    }
}

/// The buckets after a row was added to one of them.
pub open spec fn row_added(
    before: Map<i64, Vec<usize>>,
    after: Map<i64, Vec<usize>>,
    start: i64,
    row: usize,
) -> bool {
    &&& after.dom() == before.dom().insert(start)
    &&& rows_in(after, start) == rows_in(before, start).push(row)
    &&& forall|other: i64|
        other != start ==> #[trigger] rows_in(after, other) == rows_in(before, other)
}

/// An empty `fnv::FnvHashMap`, by its `default`.
#[verifier::external_body]
pub(crate) fn no_buckets() -> (r: FnvHashMap<i64, Vec<usize>>)
    ensures
        r@.dom() == Set::<i64>::empty(),
{
    FnvHashMap::default()
}

/// Take a bucket out of the map, with `remove`: nothing if the map does not know
/// it.
#[verifier::external_body]
fn take_bucket(buckets: &mut FnvHashMap<i64, Vec<usize>>, start: i64) -> (r: Option<Vec<usize>>)
    ensures
        final(buckets)@ == old(buckets)@.remove(start),
        r == (if old(buckets)@.contains_key(start) {
            Some(old(buckets)@[start])
        } else {
            None::<Vec<usize>>
        }),
{
    buckets.remove(&start)
}

/// Put a bucket into the map, with `insert`, in place of the one that it knows.
#[verifier::external_body]
fn put_bucket(buckets: &mut FnvHashMap<i64, Vec<usize>>, start: i64, rows: Vec<usize>)
    ensures
        final(buckets)@ == old(buckets)@.insert(start, rows),
{
    buckets.insert(start, rows);
}

/// Append a row to the rows of a bucket. A bucket that was not there starts
/// empty, and no other bucket changes.
pub(crate) fn add_row(buckets: &mut FnvHashMap<i64, Vec<usize>>, start: i64, row: usize)
    ensures
        row_added(old(buckets)@, final(buckets)@, start, row),
{
    let mut rows: Vec<usize> = match take_bucket(buckets, start) {
        Some(rows) => rows,
        None => Vec::new(),
    };
    rows.push(row);
    put_bucket(buckets, start, rows);
    proof {
        assert(buckets@.dom() =~= old(buckets)@.dom().insert(start));
        assert(rows_in(buckets@, start) =~= rows_in(old(buckets)@, start).push(row));
    }
}

/// The bucket starts, with `keys`: each of them once, in no particular order.
#[verifier::external_body]
pub(crate) fn bucket_starts(buckets: &FnvHashMap<i64, Vec<usize>>) -> (r: Vec<i64>)
    ensures
        r@.no_duplicates(),
        r@.to_set() == buckets@.dom(),
{
    buckets.keys().copied().collect()
}

/// The rows of a bucket, with `get`: nothing if the map does not know it.
#[verifier::external_body]
pub(crate) fn bucket_rows(buckets: &FnvHashMap<i64, Vec<usize>>, start: i64) -> (r: Option<
    &Vec<usize>,
>)
    ensures
        r == (if buckets@.contains_key(start) {
            Some(&buckets@[start])
        } else {
            None::<&Vec<usize>>
        }),
{
    buckets.get(&start)
}

} // verus!
