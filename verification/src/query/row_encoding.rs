//! Group keys encoded as bytes that sort like the keys.
use vstd::prelude::*;

use std::sync::Arc;

#[allow(unused_imports)]
use crate::query::grouping::GroupKey;
#[allow(unused_imports)]
use crate::query::groups::{row_keys, text_columns_of};
use crate::query::order::RowOrder;
#[allow(unused_imports)]
use crate::text::text_before;

verus! {

/// `a` comes before `b` byte by byte.
pub open spec fn bytes_before(a: Seq<u8>, b: Seq<u8>) -> bool
    decreases a.len(),
{
    if b.len() == 0 {
        false
    } else if a.len() == 0 {
        true
    } else if a[0] == b[0] {
        bytes_before(a.skip(1), b.skip(1))
    } else {
        a[0] < b[0]
    }
}

/// One part of a key comes before another: null before every text, and texts
/// in their order.
pub open spec fn part_before(a: Option<Seq<char>>, b: Option<Seq<char>>) -> bool {
    match (a, b) {
        (None, None) => false,
        (None, Some(_)) => true,
        (Some(_), None) => false,
        (Some(x), Some(y)) => text_before(x, y),
    }
}

/// `a` comes before `b` part by part.
pub open spec fn key_before(a: GroupKey, b: GroupKey) -> bool
    decreases a.len(),
{
    if a.len() == 0 || b.len() == 0 {
        a.len() < b.len()
    } else if a[0] == b[0] {
        key_before(a.skip(1), b.skip(1))
    } else {
        part_before(a[0], b[0])
    }
}

/// The conversion succeeded, and its results are equal where the keys are, and
/// ordered as they are.
pub open spec fn encodes(converted: Result<Vec<Vec<u8>>, String>, keys: Seq<GroupKey>) -> bool {
    converted matches Ok(encoded) && {
        &&& encoded@.len() == keys.len()
        &&& forall|i: int, j: int|
            #![trigger keys[i], keys[j]]
            0 <= i < keys.len() && 0 <= j < keys.len() ==> {
                &&& (encoded@[i]@ == encoded@[j]@) == (keys[i] == keys[j])
                &&& bytes_before(encoded@[i]@, encoded@[j]@) == key_before(keys[i], keys[j])
            }
    }
}

/// Encode the rows of some text columns with `arrow::row::RowConverter`
/// (`new`, `convert_columns`, and `data` of each row), one ascending field with
/// nulls first per column.
///
/// The contract says that the conversion succeeds, that there is one encoding
/// per row, that the encodings of two rows are equal just if their keys are,
/// and that they are ordered byte by byte as the keys are part by part; texts
/// are compared by their UTF-8 bytes, which order them as their characters do.
#[verifier::external_body]
fn convert_rows(columns: &Vec<Option<&Vec<Option<String>>>>, rows: usize) -> (r: Result<
    Vec<Vec<u8>>,
    String,
>)
    requires
        columns@.len() > 0,
        forall|c: int|
            0 <= c < columns@.len() ==> ((#[trigger] columns@[c]) matches Some(cells) && cells@.len()
                == rows),
    ensures
        encodes(r, row_keys(text_columns_of(columns@), rows as int)),
{
    let arrays: Vec<arrow::array::ArrayRef> = columns
        .iter()
        .flatten()
        .map(|cells| {
            let array: arrow::array::ArrayRef = Arc::new(
                cells.iter().map(|cell| cell.as_deref()).collect::<arrow::array::LargeStringArray>(),
            );
            array
        })
        .collect();
    let fields = arrays.iter().map(|a| arrow::row::SortField::new(a.data_type().clone())).collect();
    arrow::row::RowConverter::new(fields)
        .and_then(|converter| converter.convert_columns(&arrays))
        .map(|encoded| encoded.iter().map(|row| row.data().to_vec()).collect())
        .map_err(|e| e.to_string())
}

/// Rows in the order of their encodings.
pub struct EncodedRows {
    rows: Vec<Vec<u8>>,
}

impl View for EncodedRows {
    type V = Seq<Seq<u8>>;

    closed spec fn view(&self) -> Seq<Seq<u8>> {
        self.rows@.map_values(|row: Vec<u8>| row@)
    }
}

/// The byte order is a strict total order.
pub proof fn lemma_bytes_before(a: Seq<u8>, b: Seq<u8>, c: Seq<u8>)
    ensures
        !bytes_before(a, a),
        !(bytes_before(a, b) && bytes_before(b, a)),
        a == b || bytes_before(a, b) || bytes_before(b, a),
        bytes_before(a, b) && bytes_before(b, c) ==> bytes_before(a, c),
    decreases a.len(),
{
    if a.len() > 0 {
        lemma_bytes_before(a.skip(1), b.skip(1), c.skip(1));
        if b.len() > 0 && a[0] == b[0] && a.skip(1) == b.skip(1) {
            assert(a =~= seq![a[0]] + a.skip(1));
            assert(b =~= seq![b[0]] + b.skip(1));
        }
    } else if b.len() == 0 {
        assert(a =~= b);
    }
}

/// Whether `a` comes before `b` byte by byte.
fn is_bytes_before(a: &Vec<u8>, b: &Vec<u8>) -> (r: bool)
    ensures
        r == bytes_before(a@, b@),
{
    let mut i: usize = 0;
    assert(a@.skip(0) =~= a@);
    assert(b@.skip(0) =~= b@);
    while i < a.len() && i < b.len()
        invariant
            i <= a.len(),
            i <= b.len(),
            bytes_before(a@, b@) == bytes_before(a@.skip(i as int), b@.skip(i as int)),
        decreases a.len() - i,
    {
        proof {
            assert(a@.skip(i as int)[0] == a@[i as int]);
            assert(b@.skip(i as int)[0] == b@[i as int]);
            assert(a@.skip(i as int).skip(1) =~= a@.skip(i + 1));
            assert(b@.skip(i as int).skip(1) =~= b@.skip(i + 1));
        }
        if a[i] != b[i] {
            return a[i] < b[i];
        }
        i = i + 1;
    }
    i < b.len()
}

/// Whether two encodings are the same.
fn same_bytes(a: &Vec<u8>, b: &Vec<u8>) -> (r: bool)
    ensures
        r == (a@ == b@),
{
    if a.len() != b.len() {
        return false;
    }
    let mut i: usize = 0;
    while i < a.len()
        invariant
            i <= a.len() == b.len(),
            forall|j: int| 0 <= j < i ==> #[trigger] a@[j] == b@[j],
        decreases a.len() - i,
    {
        if a[i] != b[i] {
            return false;
        }
        i = i + 1;
    }
    assert(a@ =~= b@);
    true
}

impl RowOrder for EncodedRows {
    open spec fn count(&self) -> nat {
        self@.len()
    }

    open spec fn not_after(&self, i: int, j: int) -> bool {
        !bytes_before(self@[j], self@[i])
    }

    proof fn lemma_ordered(&self, i: int, j: int, k: int) {
        lemma_bytes_before(self@[i], self@[j], self@[k]);
        lemma_bytes_before(self@[k], self@[i], self@[j]);
        lemma_bytes_before(self@[j], self@[k], self@[i]);
        lemma_bytes_before(self@[k], self@[j], self@[i]);
    }

    fn is_not_after(&self, i: usize, j: usize) -> (r: bool) {
        !is_bytes_before(&self.rows[j], &self.rows[i])
    }
}

impl EncodedRows {
    /// The encodings stand for these keys.
    pub open spec fn stands_for(&self, keys: Seq<GroupKey>) -> bool {
        &&& self@.len() == keys.len()
        &&& forall|i: int, j: int|
            #![trigger keys[i], keys[j]]
            0 <= i < keys.len() && 0 <= j < keys.len() ==> {
                &&& (self@[i] == self@[j]) == (keys[i] == keys[j])
                &&& bytes_before(self@[i], self@[j]) == key_before(keys[i], keys[j])
            }
    }

    /// Encode the keys of all rows. The error, should there be one, is the
    /// converter's message.
    pub fn new(columns: &Vec<Option<&Vec<Option<String>>>>, rows: usize) -> (r: Result<
        Self,
        String,
    >)
        requires
            columns@.len() > 0,
            forall|c: int|
                0 <= c < columns@.len() ==> ((#[trigger] columns@[c]) matches Some(cells)
                    && cells@.len() == rows),
        ensures
            r matches Ok(encoded) && encoded.stands_for(
                row_keys(text_columns_of(columns@), rows as int),
            ),
    {
        match convert_rows(columns, rows) {
            Ok(encoded) => {
                let r = EncodedRows { rows: encoded };
                proof {
                    let keys = row_keys(
                        text_columns_of(columns@),
                        rows as int,
                    );
                    assert forall|i: int, j: int|
                        #![trigger keys[i], keys[j]]
                        0 <= i < keys.len() && 0 <= j < keys.len() implies {
                        &&& (r@[i] == r@[j]) == (keys[i] == keys[j])
                        &&& bytes_before(r@[i], r@[j]) == key_before(keys[i], keys[j])
                    } by {
                        assert(r@[i] == encoded@[i]@);
                        assert(r@[j] == encoded@[j]@);
                    }
                }
                Ok(r)
            },
            Err(message) => Err(message),
        }
    }

    /// Whether two rows have the same key.
    pub fn same(&self, i: usize, j: usize) -> (r: bool)
        requires
            i < self@.len(),
            j < self@.len(),
        ensures
            r == (self@[i as int] == self@[j as int]),
    {
        same_bytes(&self.rows[i], &self.rows[j])
    }
}

} // verus!
