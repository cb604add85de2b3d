//! Tables of aggregate results.
use vstd::prelude::*;
use vstd::string::*;

use crate::query::accumulator::MAX_COLUMN_SCALE;
use crate::query::agg_fn::AggFn;
use crate::query::error::{invalid, QueryError};
use crate::query::track::AggResult;
#[allow(unused_imports)]
use crate::text::numbered;
use crate::text::numbered_text;

verus! {

broadcast use vstd::string::group_string_axioms;

/// The cells of a result column.
#[derive(Debug)]
pub enum ResultValues {
    /// Exact decimals, at one scale.
    Decimals {
        /// Digits after the decimal point.
        scale: u8,
        /// The unscaled results.
        mantissas: Vec<Option<i128>>,
    },
    /// Floating-point results.
    Floats(Vec<AggResult>),
}

/// A named column of results.
#[derive(Debug)]
pub struct ResultColumn {
    /// Column name.
    pub name: String,
    /// Results.
    pub values: ResultValues,
}

/// A named column of group keys.
#[derive(Debug)]
pub struct KeyColumn {
    /// Column name.
    pub name: String,
    /// One part of the key of each group.
    pub values: Vec<Option<String>>,
}

/// The outcome of an aggregation: the group keys, then the results.
#[derive(Debug)]
pub struct ResultTable {
    /// One column per group-by column.
    pub keys: Vec<KeyColumn>,
    /// One column per field and function.
    pub results: Vec<ResultColumn>,
}

/// The scale of the first decimal among some results.
pub open spec fn results_scale(results: Seq<AggResult>) -> Option<u8>
    decreases results.len(),
{
    if results.len() == 0 {
        None
    } else {
        match results[0] {
            AggResult::Decimal { scale, .. } => Some(scale),
            _ => results_scale(results.skip(1)),
        }
    }
}

/// The mantissa of a decimal result.
pub open spec fn mantissa_of(result: AggResult) -> Option<i128> {
    match result {
        AggResult::Decimal { mantissa, .. } => Some(mantissa),
        _ => None,
    }
}

impl ResultColumn {
    /// The column shows these results under this name: as decimals if there is
    /// one among them, otherwise as floats.
    pub open spec fn shows(&self, name: Seq<char>, results: Seq<AggResult>) -> bool {
        &&& self.name@ == name
        &&& match self.values {
            ResultValues::Decimals { scale, mantissas } => {
                &&& results_scale(results) == Some(scale)
                &&& mantissas@ == results.map_values(|r: AggResult| mantissa_of(r))
            },
            ResultValues::Floats(values) => {
                &&& results_scale(results) is None
                &&& values@ == results
            },
        }
    }
}

/// The field and the function of each result column, field by field.
pub open spec fn result_pairs(
    fields: Seq<Seq<char>>,
    functions: Seq<AggFn>,
) -> Seq<(int, AggFn)>
    decreases fields.len(),
{
    if fields.len() == 0 {
        Seq::empty()
    } else {
        result_pairs(fields.drop_last(), functions) + functions.map_values(
            |f: AggFn| ((fields.len() - 1) as int, f),
        )
    }
}

/// There is one result column per field and function.
pub proof fn lemma_result_pairs(fields: Seq<Seq<char>>, functions: Seq<AggFn>)
    ensures
        result_pairs(fields, functions).len() == fields.len() * functions.len(),
        forall|p: int|
            0 <= p < result_pairs(fields, functions).len() ==> 0 <= (#[trigger] result_pairs(
                fields,
                functions,
            )[p]).0 < fields.len(),
    decreases fields.len(),
{
    if fields.len() > 0 {
        lemma_result_pairs(fields.drop_last(), functions);
        let n = (fields.len() - 1) as int;
        let f = functions.len() as int;
        assert((n + 1) * f == n * f + f) by (nonlinear_arith);
        let before = result_pairs(fields.drop_last(), functions);
        assert forall|p: int| 0 <= p < result_pairs(fields, functions).len() implies 0 <= (
        #[trigger] result_pairs(fields, functions)[p]).0 < fields.len() by {
            if p < before.len() {
                assert(result_pairs(fields, functions)[p] == before[p]);
            }
        }
    } else {
        assert(0 * functions.len() == 0);
    }
}

/// Build one output column from a column of results.
///
/// A decimal aggregate produces a decimal column, everything else a
/// floating-point one. A run of results is homogeneous by construction, so the
/// first decimal one decides.
pub fn agg_result_column(name: &str, results: &[AggResult]) -> (r: Result<
    ResultColumn,
    QueryError,
>)
    ensures
        match results_scale(results@) {
            Some(scale) if scale > MAX_COLUMN_SCALE => r matches Err(e) && e.is_validation(
                numbered("decimal scale ", scale as u64, " is out of range"),
            ),
            _ => r matches Ok(column) && column.shows(name@, results@),
        },
{
    let ghost all = results@;
    let mut scale: Option<u8> = None;
    let mut i: usize = 0;
    assert(all.skip(0) =~= all);
    while i < results.len() && scale.is_none()
        invariant
            i <= results.len(),
            all == results@,
            scale is None ==> results_scale(all) == results_scale(all.skip(i as int)),
            scale matches Some(s) ==> results_scale(all) == Some(s),
        decreases results.len() - i + if scale is None { 1int } else { 0int },
    {
        proof {
            assert(all.skip(i as int)[0] == all[i as int]);
            assert(all.skip(i as int).skip(1) =~= all.skip(i + 1));
        }
        match results[i] {
            AggResult::Decimal { scale: found, .. } => {
                scale = Some(found);
            },
            _ => {
                i = i + 1;
            },
        }
    }
    proof {
        if scale is None {
            assert(all.skip(i as int).len() == 0);
        }
    }
    match scale {
        Some(scale) => {
            if scale > MAX_COLUMN_SCALE {
                let text = numbered_text("decimal scale ", scale as u64, " is out of range");
                return Err(invalid(text.as_str()));
            }
            let mut mantissas: Vec<Option<i128>> = Vec::new();
            let mut i: usize = 0;
            while i < results.len()
                invariant
                    i <= results.len(),
                    all == results@,
                    mantissas@.len() == i,
                    forall|j: int| 0 <= j < i ==> #[trigger] mantissas@[j] == mantissa_of(all[j]),
                decreases results.len() - i,
            {
                mantissas.push(
                    match results[i] {
                        AggResult::Decimal { mantissa, .. } => Some(mantissa),
                        _ => None,
                    },
                );
                i = i + 1;
            }
            assert(mantissas@ =~= all.map_values(|r: AggResult| mantissa_of(r)));
            Ok(
                ResultColumn {
                    name: name.to_owned(),
                    values: ResultValues::Decimals { scale, mantissas },
                },
            )
        },
        None => {
            let mut values: Vec<AggResult> = Vec::new();
            let mut i: usize = 0;
            while i < results.len()
                invariant
                    i <= results.len(),
                    all == results@,
                    values@ == all.take(i as int),
                decreases results.len() - i,
            {
                values.push(results[i]);
                assert(all.take(i + 1) =~= all.take(i as int).push(all[i as int]));
                i = i + 1;
            }
            assert(values@ =~= all);
            Ok(ResultColumn { name: name.to_owned(), values: ResultValues::Floats(values) })
        },
    }
}

/// Results whose scales a column can have have such a scale together.
pub proof fn lemma_possible_scale(results: Seq<AggResult>)
    requires
        forall|i: int|
            0 <= i < results.len() ==> ((#[trigger] results[i]) matches AggResult::Decimal {
                scale,
                ..
            } ==> scale <= MAX_COLUMN_SCALE),
    ensures
        results_scale(results) matches Some(scale) ==> scale <= MAX_COLUMN_SCALE,
    decreases results.len(),
{
    if results.len() > 0 {
        assert(results[0] == results[0]);
        assert forall|i: int| 0 <= i < results.skip(1).len() implies ((
        #[trigger] results.skip(1)[i]) matches AggResult::Decimal { scale, .. } ==> scale
            <= MAX_COLUMN_SCALE) by {
            assert(results.skip(1)[i] == results[i + 1]);
        }
        lemma_possible_scale(results.skip(1));
    }
}

} // verus!
