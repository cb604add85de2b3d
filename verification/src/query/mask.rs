//! Row masks: what a predicate says of each row.
use vstd::prelude::*;

use crate::query::error::{invalid, QueryError};
#[allow(unused_imports)]
use crate::query::frame::optional_texts;

verus! {

/// What a predicate says of each row; null where the value is null.
pub type Mask = Seq<Option<bool>>;

/// The comparison succeeded and gave this mask.
pub open spec fn compares_as(compared: Result<Vec<Option<bool>>, String>, mask: Mask) -> bool {
    compared matches Ok(given) && given@ == mask
}

/// The mask of `value >= bound`.
pub open spec fn not_below(values: Seq<Option<i64>>, bound: i64) -> Mask {
    values.map_values(
        |value: Option<i64>|
            match value {
                Some(v) => Some(v >= bound),
                None => None,
            },
    )
}

/// The mask of `value <= bound`.
pub open spec fn not_above(values: Seq<Option<i64>>, bound: i64) -> Mask {
    values.map_values(
        |value: Option<i64>|
            match value {
                Some(v) => Some(v <= bound),
                None => None,
            },
    )
}

/// The mask of `text == value`.
pub open spec fn equal_to(texts: Seq<Option<Seq<char>>>, value: Seq<char>) -> Mask {
    texts.map_values(
        |text: Option<Seq<char>>|
            match text {
                Some(t) => Some(t == value),
                None => None,
            },
    )
}

/// Both masks together: null where either is.
pub open spec fn both(a: Mask, b: Mask) -> Mask {
    Seq::new(
        a.len(),
        |i: int|
            match (a[i], b[i]) {
                (Some(x), Some(y)) => Some(x && y),
                _ => None,
            },
    )
}

/// The values of the rows on which the mask is true.
pub open spec fn selected(values: Seq<u64>, mask: Mask) -> Seq<u64>
    decreases mask.len(),
{
    if mask.len() == 0 {
        Seq::empty()
    } else {
        let rest = selected(values, mask.drop_last());
        if mask.last() == Some(true) {
            rest.push(values[mask.len() - 1])
        } else {
            rest
        }
    }
}

/// The selection failed just if the mask is longer than the values, and else
/// gave the values on which the mask is true.
pub open spec fn selects(kept: Result<Vec<u64>, String>, values: Seq<u64>, mask: Mask) -> bool {
    match kept {
        Ok(given) => mask.len() <= values.len() && given@ == selected(values, mask),
        Err(_) => mask.len() > values.len(),
    }
}

/// `arrow::compute::kernels::cmp::gt_eq` of an array of 64-bit integers and a
/// scalar: succeeds, compares each value with the bound, and gives null for a
/// null.
#[verifier::external_body]
fn gt_eq(values: &Vec<Option<i64>>, bound: i64) -> (r: Result<Vec<Option<bool>>, String>)
    ensures
        compares_as(r, not_below(values@, bound)),
{
    let array = values.iter().copied().collect::<arrow::array::Int64Array>();
    let scalar = arrow::array::Int64Array::new_scalar(bound);
    arrow::compute::kernels::cmp::gt_eq(&array, &scalar)
        .map(|mask| mask.iter().collect())
        .map_err(|e| e.to_string())
}

/// `arrow::compute::kernels::cmp::lt_eq` of an array of 64-bit integers and a
/// scalar: succeeds, compares each value with the bound, and gives null for a
/// null.
#[verifier::external_body]
fn lt_eq(values: &Vec<Option<i64>>, bound: i64) -> (r: Result<Vec<Option<bool>>, String>)
    ensures
        compares_as(r, not_above(values@, bound)),
{
    let array = values.iter().copied().collect::<arrow::array::Int64Array>();
    let scalar = arrow::array::Int64Array::new_scalar(bound);
    arrow::compute::kernels::cmp::lt_eq(&array, &scalar)
        .map(|mask| mask.iter().collect())
        .map_err(|e| e.to_string())
}

/// `arrow::compute::kernels::cmp::eq` of an array of texts and a scalar:
/// succeeds, compares each text with the value, and gives null for a null.
#[verifier::external_body]
fn eq(texts: &Vec<Option<String>>, value: &str) -> (r: Result<Vec<Option<bool>>, String>)
    ensures
        compares_as(r, equal_to(optional_texts(texts@), value@)),
{
    let array =
        texts.iter().map(|text| text.as_deref()).collect::<arrow::array::LargeStringArray>();
    let scalar = arrow::array::LargeStringArray::new_scalar(value);
    arrow::compute::kernels::cmp::eq(&array, &scalar)
        .map(|mask| mask.iter().collect())
        .map_err(|e| e.to_string())
}

/// `arrow::compute::kernels::boolean::and`: fails just if the lengths differ,
/// and is null where either side is.
#[verifier::external_body]
fn and(a: &Vec<Option<bool>>, b: &Vec<Option<bool>>) -> (r: Result<Vec<Option<bool>>, String>)
    ensures
        a@.len() == b@.len() ==> compares_as(r, both(a@, b@)),
        a@.len() != b@.len() ==> r is Err,
{
    let left = a.iter().copied().collect::<arrow::array::BooleanArray>();
    let right = b.iter().copied().collect::<arrow::array::BooleanArray>();
    arrow::compute::kernels::boolean::and(&left, &right)
        .map(|mask| mask.iter().collect())
        .map_err(|e| e.to_string())
}

/// `arrow::compute::filter` of an array of 64-bit integers: fails just if the
/// mask is longer than the array, and keeps the values whose mask is true, in
/// their order.
#[verifier::external_body]
pub(crate) fn filter(values: &Vec<u64>, mask: &Vec<Option<bool>>) -> (r: Result<Vec<u64>, String>)
    ensures
        selects(r, values@, mask@),
{
    let array = values.iter().copied().collect::<arrow::array::UInt64Array>();
    let predicate = mask.iter().copied().collect::<arrow::array::BooleanArray>();
    arrow::compute::filter(&array, &predicate)
        .map(|kept| {
            arrow::array::AsArray::as_primitive::<arrow::datatypes::UInt64Type>(&kept)
                .values()
                .to_vec()
        })
        .map_err(|e| e.to_string())
}

/// The mask of `start <= value <= end`.
pub open spec fn within(values: Seq<Option<i64>>, start: i64, end: i64) -> Mask {
    values.map_values(
        |value: Option<i64>|
            match value {
                Some(v) => Some(start <= v <= end),
                None => None,
            },
    )
}

/// Which rows have a timestamp in `start..=end`; null where the timestamp is
/// null.
pub fn time_range_mask(timestamps: &Vec<Option<i64>>, start: i64, end: i64) -> (r: Result<
    Vec<Option<bool>>,
    QueryError,
>)
    ensures
        r matches Ok(mask) && mask@ == within(timestamps@, start, end),
{
    let from = match gt_eq(timestamps, start) {
        Ok(mask) => mask,
        Err(message) => {
            return Err(QueryError::Arrow(message));
        },
    };
    let to = match lt_eq(timestamps, end) {
        Ok(mask) => mask,
        Err(message) => {
            return Err(QueryError::Arrow(message));
        },
    };
    assert(both(from@, to@) =~= within(timestamps@, start, end));
    match and(&from, &to) {
        Ok(mask) => Ok(mask),
        Err(message) => Err(QueryError::Arrow(message)),
    }
}

/// Which rows have this tag value; null where the tag is null.
pub fn tag_equality_mask(column: &Vec<Option<String>>, value: &str) -> (r: Result<
    Vec<Option<bool>>,
    QueryError,
>)
    ensures
        r matches Ok(mask) && mask@ == equal_to(optional_texts(column@), value@),
{
    match eq(column, value) {
        Ok(mask) => Ok(mask),
        Err(message) => Err(QueryError::Arrow(message)),
    }
}

/// The texts that a dictionary column holds.
pub open spec fn decoded(
    keys: Seq<Option<usize>>,
    values: Seq<Option<Seq<char>>>,
) -> Seq<Option<Seq<char>>> {
    keys.map_values(
        |key: Option<usize>|
            match key {
                Some(k) => values[k as int],
                None => None,
            },
    )
}

/// Which rows of a dictionary-encoded column have this tag value; null where
/// the key, or what it stands for, is null.
pub fn dict_equality_mask(
    keys: &Vec<Option<usize>>,
    values: &Vec<Option<String>>,
    value: &str,
) -> (r: Result<Vec<Option<bool>>, QueryError>)
    requires
        forall|i: int|
            0 <= i < keys@.len() ==> ((#[trigger] keys@[i]) matches Some(k) ==> k < values@.len()),
    ensures
        r matches Ok(mask) && mask@ == equal_to(
            decoded(keys@, optional_texts(values@)),
            value@,
        ),
{
    let ghost want = decoded(keys@, optional_texts(values@));
    let mut texts: Vec<Option<String>> = Vec::new();
    let mut i: usize = 0;
    while i < keys.len()
        invariant
            i <= keys.len(),
            texts@.len() == i,
            want == decoded(keys@, optional_texts(values@)),
            forall|j: int|
                0 <= j < keys@.len() ==> ((#[trigger] keys@[j]) matches Some(k) ==> k
                    < values@.len()),
            forall|j: int| 0 <= j < i ==> #[trigger] optional_texts(texts@)[j] == want[j],
        decreases keys.len() - i,
    {
        let text: Option<String> = match keys[i] {
            Some(k) => {
                match &values[k] {
                    Some(text) => Some(text.clone()),
                    None => None,
                }
            },
            None => None,
        };
        let ghost before = texts@;
        texts.push(text);
        proof {
            assert forall|j: int| 0 <= j < i + 1 implies #[trigger] optional_texts(texts@)[j]
                == want[j] by {
                if j < i {
                    assert(optional_texts(before)[j] == want[j]);
                }
            }
        }
        i = i + 1;
    }
    assert(optional_texts(texts@) =~= want);
    tag_equality_mask(&texts, value)
}

/// The masks, taken by their contents.
pub open spec fn masks_of(masks: Seq<Vec<Option<bool>>>) -> Seq<Mask> {
    masks.map_values(|mask: Vec<Option<bool>>| mask@)
}

/// All masks together: null where any of them is, else true where all are.
pub open spec fn all_of(masks: Seq<Mask>) -> Mask
    decreases masks.len(),
{
    if masks.len() <= 1 {
        masks[0]
    } else {
        both(all_of(masks.drop_last()), masks.last())
    }
}

/// All masks have the length of the first.
pub open spec fn even(masks: Seq<Mask>) -> bool {
    forall|i: int| 0 <= i < masks.len() ==> (#[trigger] masks[i]).len() == masks[0].len()
}

proof fn lemma_all_of_len(masks: Seq<Mask>)
    requires
        masks.len() > 0,
    ensures
        all_of(masks).len() == masks[0].len(),
    decreases masks.len(),
{
    if masks.len() > 1 {
        lemma_all_of_len(masks.drop_last());
    }
}

/// Combine masks with AND.
///
/// Fails without masks, and where their lengths differ.
pub fn combine_masks(masks: &Vec<Vec<Option<bool>>>) -> (r: Result<Vec<Option<bool>>, QueryError>)
    ensures
        match r {
            Ok(mask) => masks@.len() > 0 && even(masks_of(masks@)) && mask@ == all_of(
                masks_of(masks@),
            ),
            Err(e) => if masks@.len() == 0 {
                e.is_validation("no masks to combine"@)
            } else {
                !even(masks_of(masks@)) && e is Arrow
            },
        },
{
    if masks.len() == 0 {
        return Err(invalid("no masks to combine"));
    }
    let ghost models = masks_of(masks@);
    let mut result: Vec<Option<bool>> = masks[0].clone();
    assert(result@ =~= models[0]);
    assert(models.take(1)[0] == models[0]);
    let mut i: usize = 1;
    while i < masks.len()
        invariant
            1 <= i <= masks.len(),
            models == masks_of(masks@),
            result@ == all_of(models.take(i as int)),
            forall|j: int| 0 <= j < i ==> (#[trigger] models[j]).len() == models[0].len(),
        decreases masks.len() - i,
    {
        proof {
            lemma_all_of_len(models.take(i as int));
            assert(models[i as int] == masks@[i as int]@);
            assert(models.take(i + 1).drop_last() =~= models.take(i as int));
            assert(models.take(i + 1).last() == models[i as int]);
        }
        match and(&result, &masks[i]) {
            Ok(mask) => {
                result = mask;
            },
            Err(message) => {
                assert(!even(models));
                return Err(QueryError::Arrow(message));
            },
        }
        i = i + 1;
    }
    assert(models.take(masks.len() as int) =~= models);
    Ok(result)
}

} // verus!
