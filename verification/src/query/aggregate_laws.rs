//! What the aggregation functions are for: how each result stands to the values
//! that it is the aggregate of.
use vstd::prelude::*;

#[allow(unused_imports)]
use crate::query::accumulator::{
    aggregate_of, decimals, earliest, float_max, float_min, foremost, hindmost, is_earliest,
    is_latest, latest, lemma_earliest, lemma_extremes_are_numbers, lemma_latest, numbers,
    the_extremes_bound_every_float, Moment, Num, Reading,
};
#[allow(unused_imports)]
use crate::query::agg_fn::AggFn;
#[allow(unused_imports)]
use crate::query::aggregate::{kernel_max, kernel_min};
#[allow(unused_imports)]
use crate::query::decimal::{
    a_decimal_total_is_exact, exact, exact_sum, greatest, least, lemma_greatest, lemma_least,
    lemma_top_scale, pow10, rounded_quotient, rounding_is_to_nearest, running_total, top_scale,
    LIMIT,
};
#[allow(unused_imports)]
use crate::query::float::{is_nan, less, total_less, INFINITY, NEG_INFINITY};
#[allow(unused_imports)]
use crate::query::track::{avg_scale, AggResult};

verus! {

// ---------------------------------------------------------------------------
// Counting
// ---------------------------------------------------------------------------

/// Counting counts every reading, whatever it is, and nothing gives zero.
pub proof fn a_count_is_of_all_readings(rs: Seq<(Reading, Moment)>)
    requires
        rs.len() <= u64::MAX,
    ensures
        aggregate_of(rs, AggFn::Count) matches AggResult::Count(n) && n == rs.len(),
{
}

/// Without a number among the readings there is nothing to aggregate: every
/// other function gives null.
pub proof fn nothing_has_no_aggregate(rs: Seq<(Reading, Moment)>, func: AggFn)
    requires
        !(func is Count),
        forall|i: int| 0 <= i < rs.len() ==> (#[trigger] rs[i]).0 is Present,
    ensures
        aggregate_of(rs, func) is Null,
{
    lemma_no_numbers(rs);
}

proof fn lemma_no_numbers(rs: Seq<(Reading, Moment)>)
    requires
        forall|i: int| 0 <= i < rs.len() ==> (#[trigger] rs[i]).0 is Present,
    ensures
        numbers(rs).len() == 0,
    decreases rs.len(),
{
    if rs.len() > 0 {
        assert(rs[rs.len() - 1].0 is Present);
        assert forall|i: int| 0 <= i < rs.drop_last().len() implies (
        #[trigger] rs.drop_last()[i]).0 is Present by {
            assert(rs[i].0 is Present);
        }
        lemma_no_numbers(rs.drop_last());
    }
}

// ---------------------------------------------------------------------------
// Floats
// ---------------------------------------------------------------------------

/// All readings are floats.
pub open spec fn are_floats(rs: Seq<(Reading, Moment)>) -> bool {
    forall|i: int| 0 <= i < rs.len() ==> (#[trigger] rs[i]).0 matches Reading::Number(Num::F64(_))
}

/// The float of a reading.
pub open spec fn float_in(r: (Reading, Moment)) -> u64 {
    match r.0 {
        Reading::Number(Num::F64(v)) => v,
        _ => 0,
    }
}

pub proof fn lemma_floats(rs: Seq<(Reading, Moment)>)
    requires
        are_floats(rs),
    ensures
        numbers(rs).len() == rs.len(),
        decimals(numbers(rs)).len() == 0,
        forall|i: int|
            0 <= i < rs.len() ==> #[trigger] numbers(rs)[i] == (Num::F64(float_in(rs[i])), rs[i].1),
    decreases rs.len(),
{
    if rs.len() > 0 {
        let rest = rs.drop_last();
        assert(rs[rs.len() - 1].0 matches Reading::Number(Num::F64(_)));
        assert forall|i: int| 0 <= i < rest.len() implies (
        #[trigger] rest[i]).0 matches Reading::Number(Num::F64(_)) by {
            assert(rs[i] == rest[i]);
        }
        lemma_floats(rest);
        assert(numbers(rs).drop_last() =~= numbers(rest));
        assert forall|i: int| 0 <= i < rs.len() implies #[trigger] numbers(rs)[i] == (
            Num::F64(float_in(rs[i])),
            rs[i].1,
        ) by {
            if i < rest.len() {
                assert(numbers(rs)[i] == numbers(rest)[i]);
                assert(rest[i] == rs[i]);
            }
        }
    }
}

proof fn lemma_extremes_are_among(ns: Seq<(Num, Moment)>)
    ensures
        float_max(ns) == NEG_INFINITY || exists|i: int|
            0 <= i < ns.len() && (#[trigger] ns[i]).0 == Num::F64(float_max(ns)),
        float_min(ns) == INFINITY || exists|i: int|
            0 <= i < ns.len() && (#[trigger] ns[i]).0 == Num::F64(float_min(ns)),
    decreases ns.len(),
{
    if ns.len() > 0 {
        let rest = ns.drop_last();
        lemma_extremes_are_among(rest);
        let n = ns.len() - 1;
        if float_max(ns) != float_max(rest) {
            assert(ns[n].0 == Num::F64(float_max(ns)));
        } else if float_max(ns) != NEG_INFINITY {
            let i = choose|i: int|
                0 <= i < rest.len() && (#[trigger] rest[i]).0 == Num::F64(float_max(rest));
            assert(ns[i].0 == Num::F64(float_max(ns)));
        }
        if float_min(ns) != float_min(rest) {
            assert(ns[n].0 == Num::F64(float_min(ns)));
        } else if float_min(ns) != INFINITY {
            let i = choose|i: int|
                0 <= i < rest.len() && (#[trigger] rest[i]).0 == Num::F64(float_min(rest));
            assert(ns[i].0 == Num::F64(float_min(ns)));
        }
    }
}

/// The greatest and the least of some numbers, of which one at least is a float
/// that is a number, are numbers among them.
pub proof fn the_extremes_are_among_the_numbers(ns: Seq<(Num, Moment)>, k: int)
    requires
        0 <= k < ns.len(),
        ns[k].0 matches Num::F64(v) && !is_nan(v),
    ensures
        exists|i: int| 0 <= i < ns.len() && (#[trigger] ns[i]).0 == Num::F64(float_max(ns)),
        exists|i: int| 0 <= i < ns.len() && (#[trigger] ns[i]).0 == Num::F64(float_min(ns)),
        !is_nan(float_max(ns)),
        !is_nan(float_min(ns)),
{
    lemma_extremes_are_among(ns);
    lemma_extremes_are_numbers(ns);
    the_extremes_bound_every_float(ns, k);
    let v = ns[k].0->F64_0;
    if float_max(ns) == NEG_INFINITY {
        assert(v == NEG_INFINITY);
        assert(ns[k].0 == Num::F64(float_max(ns)));
    }
    if float_min(ns) == INFINITY {
        assert(v == INFINITY);
        assert(ns[k].0 == Num::F64(float_min(ns)));
    }
}

/// `at` is a reading of the greatest number: no reading is greater.
pub open spec fn is_greatest(rs: Seq<(Reading, Moment)>, at: int) -> bool {
    &&& 0 <= at < rs.len()
    &&& !is_nan(float_in(rs[at]))
    &&& forall|j: int|
        0 <= j < rs.len() ==> !less(float_in(rs[at]), float_in(#[trigger] rs[j]))
}

/// `at` is a reading of the least number: no reading is less.
pub open spec fn is_least(rs: Seq<(Reading, Moment)>, at: int) -> bool {
    &&& 0 <= at < rs.len()
    &&& !is_nan(float_in(rs[at]))
    &&& forall|j: int|
        0 <= j < rs.len() ==> !less(float_in(#[trigger] rs[j]), float_in(rs[at]))
}

/// The maximum of some floats is the value of one of them, and none is greater;
/// the minimum is the value of one of them, and none is less. What is not a
/// number is passed over.
pub proof fn float_extremes_are_readings(rs: Seq<(Reading, Moment)>, k: int)
    requires
        are_floats(rs),
        0 <= k < rs.len(),
        !is_nan(float_in(rs[k])),
    ensures
        exists|i: int| #[trigger]
            is_greatest(rs, i) && aggregate_of(rs, AggFn::Max) == AggResult::F64(float_in(rs[i])),
        exists|i: int| #[trigger]
            is_least(rs, i) && aggregate_of(rs, AggFn::Min) == AggResult::F64(float_in(rs[i])),
{
    let ns = numbers(rs);
    lemma_floats(rs);
    assert(ns[k].0 == Num::F64(float_in(rs[k])));
    the_extremes_are_among_the_numbers(ns, k);
    let i = choose|i: int| 0 <= i < ns.len() && (#[trigger] ns[i]).0 == Num::F64(float_max(ns));
    let l = choose|l: int| 0 <= l < ns.len() && (#[trigger] ns[l]).0 == Num::F64(float_min(ns));
    assert forall|j: int| 0 <= j < rs.len() implies !less(
        float_in(rs[i]),
        float_in(#[trigger] rs[j]),
    ) && !less(float_in(rs[j]), float_in(rs[l])) by {
        the_extremes_bound_every_float(ns, j);
        assert(ns[j].0 == Num::F64(float_in(rs[j])));
    }
    assert(is_greatest(rs, i));
    assert(is_least(rs, l));
}

/// Sums and means of floats are told as such; the mean's divisor is the number
/// of the values.
pub proof fn float_sums_and_means_are_told(rs: Seq<(Reading, Moment)>)
    requires
        are_floats(rs),
        0 < rs.len() <= u64::MAX,
    ensures
        aggregate_of(rs, AggFn::Sum) is FloatSum,
        aggregate_of(rs, AggFn::Avg) matches AggResult::FloatMean { count } && count == rs.len(),
{
    lemma_floats(rs);
}

/// `at` was taken at the smallest timestamp, and is the first that was.
pub open spec fn is_first_taken(rs: Seq<(Reading, Moment)>, at: int) -> bool {
    &&& 0 <= at < rs.len()
    &&& rs[at].1 is At
    &&& forall|j: int|
        0 <= j < rs.len() ==> ((#[trigger] rs[j]).1 matches Moment::At(u) ==> rs[at].1->At_0 <= u
            && (rs[at].1->At_0 == u ==> at <= j))
}

/// `at` was taken at the largest timestamp, and is the last that was.
pub open spec fn is_last_taken(rs: Seq<(Reading, Moment)>, at: int) -> bool {
    &&& 0 <= at < rs.len()
    &&& rs[at].1 is At
    &&& forall|j: int|
        0 <= j < rs.len() ==> ((#[trigger] rs[j]).1 matches Moment::At(u) ==> u <= rs[at].1->At_0
            && (rs[at].1->At_0 == u ==> j <= at))
}

/// With timestamps, the first value is the one taken first and the last the one
/// taken last, wherever they stand.
pub proof fn first_and_last_are_by_time(rs: Seq<(Reading, Moment)>, k: int)
    requires
        are_floats(rs),
        0 <= k < rs.len(),
        rs[k].1 is At,
    ensures
        exists|i: int| #[trigger]
            is_first_taken(rs, i) && aggregate_of(rs, AggFn::First) == AggResult::F64(
                float_in(rs[i]),
            ),
        exists|i: int| #[trigger]
            is_last_taken(rs, i) && aggregate_of(rs, AggFn::Last) == AggResult::F64(
                float_in(rs[i]),
            ),
{
    let ns = numbers(rs);
    lemma_floats(rs);
    lemma_earliest(ns);
    lemma_latest(ns);
    assert(ns[k].1 is At);
    let (t, n) = earliest(ns).unwrap();
    let i = choose|i: int| #[trigger] is_earliest(ns, i, t, n);
    let (u, m) = latest(ns).unwrap();
    let l = choose|l: int| #[trigger] is_latest(ns, l, u, m);
    assert(ns[i] == (Num::F64(float_in(rs[i])), rs[i].1));
    assert(ns[l] == (Num::F64(float_in(rs[l])), rs[l].1));
    assert forall|j: int| 0 <= j < rs.len() implies #[trigger] rs[j].1 == ns[j].1 by {}
    assert(is_first_taken(rs, i));
    assert(is_last_taken(rs, l));
}

proof fn lemma_untimed(ns: Seq<(Num, Moment)>)
    requires
        ns.len() > 0,
        forall|i: int| 0 <= i < ns.len() ==> (#[trigger] ns[i]).1 is NoColumn,
    ensures
        foremost(ns) == Some(ns[0].0),
        hindmost(ns) == Some(ns.last().0),
        earliest(ns) is None,
        latest(ns) is None,
    decreases ns.len(),
{
    let rest = ns.drop_last();
    assert(ns[ns.len() - 1].1 is NoColumn);
    if rest.len() > 0 {
        assert forall|i: int| 0 <= i < rest.len() implies (#[trigger] rest[i]).1 is NoColumn by {
            assert(ns[i].1 is NoColumn);
        }
        lemma_untimed(rest);
    } else {
        assert(foremost(rest) is None);
        assert(earliest(rest) is None);
        assert(latest(rest) is None);
    }
}

/// Without a timestamp column, the first value is the one that stands first and
/// the last the one that stands last.
pub proof fn first_and_last_are_by_position(rs: Seq<(Reading, Moment)>)
    requires
        are_floats(rs),
        rs.len() > 0,
        forall|i: int| 0 <= i < rs.len() ==> (#[trigger] rs[i]).1 is NoColumn,
    ensures
        aggregate_of(rs, AggFn::First) == AggResult::F64(float_in(rs[0])),
        aggregate_of(rs, AggFn::Last) == AggResult::F64(float_in(rs.last())),
{
    let ns = numbers(rs);
    lemma_floats(rs);
    assert forall|i: int| 0 <= i < ns.len() implies (#[trigger] ns[i]).1 is NoColumn by {
        assert(rs[i].1 is NoColumn);
    }
    lemma_untimed(ns);
    assert(ns[0].0 == Num::F64(float_in(rs[0])));
    assert(ns[ns.len() - 1].0 == Num::F64(float_in(rs[rs.len() - 1])));
}

/// With a timestamp column in which all values are null, there is neither a first
/// nor a last value.
pub proof fn untimed_values_are_neither_first_nor_last(rs: Seq<(Reading, Moment)>)
    requires
        forall|i: int| 0 <= i < rs.len() ==> (#[trigger] rs[i]).1 is Unknown,
    ensures
        aggregate_of(rs, AggFn::First) is Null,
        aggregate_of(rs, AggFn::Last) is Null,
{
    lemma_unknown(rs);
}

proof fn lemma_unknown(rs: Seq<(Reading, Moment)>)
    requires
        forall|i: int| 0 <= i < rs.len() ==> (#[trigger] rs[i]).1 is Unknown,
    ensures
        forall|i: int| 0 <= i < numbers(rs).len() ==> (#[trigger] numbers(rs)[i]).1 is Unknown,
        earliest(numbers(rs)) is None,
        latest(numbers(rs)) is None,
        foremost(numbers(rs)) is None,
        hindmost(numbers(rs)) is None,
    decreases rs.len(),
{
    if rs.len() > 0 {
        let rest = rs.drop_last();
        assert forall|i: int| 0 <= i < rest.len() implies (#[trigger] rest[i]).1 is Unknown by {
            assert(rs[i] == rest[i]);
        }
        lemma_unknown(rest);
        assert(rs[rs.len() - 1].1 is Unknown);
        if numbers(rs) != numbers(rest) {
            assert(numbers(rs).drop_last() =~= numbers(rest));
            assert forall|i: int| 0 <= i < numbers(rs).len() implies (
            #[trigger] numbers(rs)[i]).1 is Unknown by {
                if i < numbers(rest).len() {
                    assert(numbers(rest)[i] == numbers(rs)[i]);
                }
            }
        }
    }
}

// ---------------------------------------------------------------------------
// Decimals
// ---------------------------------------------------------------------------

/// The readings are these decimals, each given by mantissa and scale.
pub open spec fn are_decimals(rs: Seq<(Reading, Moment)>, ds: Seq<(i128, u8)>) -> bool {
    &&& rs.len() == ds.len()
    &&& forall|i: int|
        0 <= i < rs.len() ==> (#[trigger] rs[i]).0 == Reading::Number(Num::Dec(ds[i].0, ds[i].1))
}

proof fn lemma_decimals(rs: Seq<(Reading, Moment)>, ds: Seq<(i128, u8)>)
    requires
        are_decimals(rs, ds),
    ensures
        numbers(rs).len() == rs.len(),
        decimals(numbers(rs)) == ds,
        forall|i: int|
            0 <= i < rs.len() ==> #[trigger] numbers(rs)[i] == (
                Num::Dec(ds[i].0, ds[i].1),
                rs[i].1,
            ),
    decreases rs.len(),
{
    if rs.len() > 0 {
        let rest = rs.drop_last();
        let less = ds.drop_last();
        assert forall|i: int| 0 <= i < rest.len() implies (#[trigger] rest[i]).0
            == Reading::Number(Num::Dec(less[i].0, less[i].1)) by {
            assert(rs[i] == rest[i]);
        }
        lemma_decimals(rest, less);
        let n = rs.len() - 1;
        assert(rs[n].0 == Reading::Number(Num::Dec(ds[n].0, ds[n].1)));
        assert(numbers(rs).drop_last() =~= numbers(rest));
        assert(decimals(numbers(rs)) =~= less.push(ds[n]));
        assert(less.push(ds[n]) =~= ds);
        assert forall|i: int| 0 <= i < rs.len() implies #[trigger] numbers(rs)[i] == (
            Num::Dec(ds[i].0, ds[i].1),
            rs[i].1,
        ) by {
            if i < n {
                assert(numbers(rs)[i] == numbers(rest)[i]);
            }
        }
    } else {
        assert(decimals(numbers(rs)) =~= ds);
    }
}

/// No decimal has more digits than the scale, and one has as many.
pub open spec fn is_widest(ds: Seq<(i128, u8)>, scale: u8) -> bool {
    &&& forall|i: int| 0 <= i < ds.len() ==> (#[trigger] ds[i]).1 <= scale
    &&& exists|i: int| 0 <= i < ds.len() && (#[trigger] ds[i]).1 == scale
}

proof fn lemma_widest(ds: Seq<(i128, u8)>)
    requires
        ds.len() > 0,
    ensures
        is_widest(ds, top_scale(ds[0].1, ds)),
{
    lemma_top_scale(ds[0].1, ds);
    lemma_top_is_among(ds[0].1, ds);
    if top_scale(ds[0].1, ds) == ds[0].1 {
        assert(ds[0].1 == top_scale(ds[0].1, ds));
    }
}

proof fn lemma_top_is_among(base: u8, ds: Seq<(i128, u8)>)
    ensures
        top_scale(base, ds) == base || exists|i: int|
            0 <= i < ds.len() && (#[trigger] ds[i]).1 == top_scale(base, ds),
    decreases ds.len(),
{
    if ds.len() > 0 {
        let rest = ds.drop_last();
        lemma_top_is_among(base, rest);
        if top_scale(base, ds) != top_scale(base, rest) {
            assert(ds[ds.len() - 1].1 == top_scale(base, ds));
        } else if top_scale(base, ds) != base {
            let i = choose|i: int|
                0 <= i < rest.len() && (#[trigger] rest[i]).1 == top_scale(base, rest);
            assert(ds[i].1 == top_scale(base, ds));
        }
    }
}

/// The mantissas of some decimals, brought to a scale, added up.
pub open spec fn total_at(ds: Seq<(i128, u8)>, scale: u8) -> int {
    ds.map_values(|d: (i128, u8)| d.0 * pow10((scale - d.1) as nat)).fold_left(
        0int,
        |a: int, b: int| a + b,
    )
}

proof fn lemma_total_at(ds: Seq<(i128, u8)>, scale: u8)
    ensures
        total_at(ds, scale) == exact_sum(ds, scale),
    decreases ds.len(),
{
    let f = |d: (i128, u8)| d.0 * pow10((scale - d.1) as nat);
    let add = |a: int, b: int| a + b;
    let all = ds.map_values(f);
    if ds.len() > 0 {
        lemma_total_at(ds.drop_last(), scale);
        assert(all.drop_last() =~= ds.drop_last().map_values(f));
        all.lemma_fold_left_split(0int, add, all.len() - 1);
        assert(all.subrange(0, all.len() - 1) =~= all.drop_last());
        let end = all.subrange(all.len() - 1, all.len() as int);
        assert(end =~= seq![all.last()]);
        let before = all.drop_last().fold_left(0int, add);
        assert(end.drop_last() =~= Seq::empty());
        reveal_with_fuel(Seq::fold_left, 3);
        assert(end.fold_left(before, add) == before + all.last());
    }
}

/// A sum of decimals is exact, at the widest scale among them, or null: it is
/// never another number.
pub proof fn a_decimal_sum_is_exact_or_null(rs: Seq<(Reading, Moment)>, ds: Seq<(i128, u8)>)
    requires
        are_decimals(rs, ds),
        ds.len() > 0,
    ensures
        aggregate_of(rs, AggFn::Sum) is Null || exists|scale: u8| #[trigger]
            is_widest(ds, scale) && -LIMIT < total_at(ds, scale) < LIMIT && aggregate_of(
                rs,
                AggFn::Sum,
            ) == (AggResult::Decimal { mantissa: total_at(ds, scale) as i128, scale }),
{
    lemma_decimals(rs, ds);
    lemma_widest(ds);
    let scale = top_scale(ds[0].1, ds);
    lemma_total_at(ds, scale);
    a_decimal_total_is_exact(ds[0].1, ds);
    assert(is_widest(ds, scale));
}

/// Decimals of one scale whose running totals all have at most 38 digits have a
/// sum.
pub proof fn a_decimal_sum_is_there(rs: Seq<(Reading, Moment)>, ds: Seq<(i128, u8)>, scale: u8)
    requires
        are_decimals(rs, ds),
        ds.len() > 0,
        scale <= 38,
        forall|i: int|
            0 <= i < ds.len() ==> (#[trigger] ds[i]).1 == scale && -LIMIT < ds[i].0 < LIMIT,
        forall|n: int| 0 <= n <= ds.len() ==> -LIMIT < #[trigger] total_at(ds.take(n), scale)
            < LIMIT,
    ensures
        aggregate_of(rs, AggFn::Sum) == (AggResult::Decimal {
            mantissa: total_at(ds, scale) as i128,
            scale,
        }),
{
    lemma_decimals(rs, ds);
    lemma_running(ds, scale, ds.len() as int);
    assert(ds.take(ds.len() as int) =~= ds);
}

proof fn lemma_running(ds: Seq<(i128, u8)>, scale: u8, n: int)
    requires
        0 <= n <= ds.len(),
        forall|i: int|
            0 <= i < ds.len() ==> (#[trigger] ds[i]).1 == scale && -LIMIT < ds[i].0 < LIMIT,
        forall|n: int| 0 <= n <= ds.len() ==> -LIMIT < #[trigger] total_at(ds.take(n), scale)
            < LIMIT,
    ensures
        running_total(scale, ds.take(n)) == Some(total_at(ds.take(n), scale)),
        top_scale(scale, ds.take(n)) == scale,
    decreases n,
{
    lemma_total_at(ds.take(n), scale);
    if n > 0 {
        lemma_running(ds, scale, n - 1);
        assert(ds.take(n).drop_last() =~= ds.take(n - 1));
        assert(ds.take(n).last() == ds[n - 1]);
        assert(ds[n - 1].1 == scale);
        lemma_total_at(ds.take(n - 1), scale);
        assert(pow10(0) == 1);
        let total = total_at(ds.take(n - 1), scale);
        let value = ds[n - 1].0 as int;
        assert(top_scale(scale, ds.take(n)) == scale);
        assert(total * pow10((scale - scale) as nat) == total);
        assert(exact(ds[n - 1], scale) == value);
        assert(running_total(scale, ds.take(n - 1)) == Some(total));
        assert(-LIMIT < total < LIMIT);
        assert(-LIMIT < total_at(ds.take(n), scale) < LIMIT);
        assert(total_at(ds.take(n), scale) == total + value);
    }
}

/// The value of a decimal, brought to a wider scale.
pub open spec fn brought_to(d: (i128, u8), scale: u8) -> int {
    d.0 * pow10((scale - d.1) as nat)
}

/// The `at`-th decimal is the least of them, compared at one scale.
pub open spec fn is_least_decimal(ds: Seq<(i128, u8)>, scale: u8, at: int) -> bool {
    &&& 0 <= at < ds.len()
    &&& forall|j: int|
        0 <= j < ds.len() ==> brought_to(ds[at], scale) <= brought_to(#[trigger] ds[j], scale)
}

/// The `at`-th decimal is the greatest of them, compared at one scale.
pub open spec fn is_greatest_decimal(ds: Seq<(i128, u8)>, scale: u8, at: int) -> bool {
    &&& 0 <= at < ds.len()
    &&& forall|j: int|
        0 <= j < ds.len() ==> brought_to(#[trigger] ds[j], scale) <= brought_to(ds[at], scale)
}

/// The value at a scale as a result: null where it has more than 38 digits.
pub open spec fn shows_decimal(result: AggResult, value: int, scale: u8) -> bool {
    if -LIMIT < value < LIMIT {
        result == (AggResult::Decimal { mantissa: value as i128, scale })
    } else {
        result is Null
    }
}

/// The minimum and the maximum of decimals are the least and the greatest of
/// them, at the widest scale among them.
pub proof fn decimal_extremes_are_readings(rs: Seq<(Reading, Moment)>, ds: Seq<(i128, u8)>)
    requires
        are_decimals(rs, ds),
        ds.len() > 0,
    ensures
        exists|scale: u8, i: int, j: int|
            {
                &&& is_widest(ds, scale)
                &&& #[trigger] is_least_decimal(ds, scale, i)
                &&& #[trigger] is_greatest_decimal(ds, scale, j)
                &&& shows_decimal(
                    aggregate_of(rs, AggFn::Min),
                    brought_to(ds[i], scale),
                    scale,
                )
                &&& shows_decimal(
                    aggregate_of(rs, AggFn::Max),
                    brought_to(ds[j], scale),
                    scale,
                )
            },
{
    lemma_decimals(rs, ds);
    lemma_widest(ds);
    let scale = top_scale(ds[0].1, ds);
    lemma_least(ds, scale);
    lemma_greatest(ds, scale);
    let i = choose|i: int| 0 <= i < ds.len() && least(ds, scale) == exact(#[trigger] ds[i], scale);
    let j = choose|j: int|
        0 <= j < ds.len() && greatest(ds, scale) == exact(#[trigger] ds[j], scale);
    assert forall|k: int| 0 <= k < ds.len() implies brought_to(ds[i], scale) <= brought_to(
        #[trigger] ds[k],
        scale,
    ) && brought_to(ds[k], scale) <= brought_to(ds[j], scale) by {
        assert(exact(ds[k], scale) == brought_to(ds[k], scale));
    }
    assert(is_least_decimal(ds, scale, i));
    assert(is_greatest_decimal(ds, scale, j));
}

/// With timestamps, the first and the last of decimals are those taken first and
/// last, wherever they stand, at the widest scale among all of them.
pub proof fn first_and_last_decimals_are_by_time(
    rs: Seq<(Reading, Moment)>,
    ds: Seq<(i128, u8)>,
    k: int,
)
    requires
        are_decimals(rs, ds),
        0 <= k < rs.len(),
        rs[k].1 is At,
    ensures
        exists|scale: u8, i: int, l: int|
            {
                &&& is_widest(ds, scale)
                &&& #[trigger] is_first_taken(rs, i)
                &&& #[trigger] is_last_taken(rs, l)
                &&& #[trigger] shows_decimal(
                    aggregate_of(rs, AggFn::First),
                    brought_to(ds[i], scale),
                    scale,
                )
                &&& shows_decimal(
                    aggregate_of(rs, AggFn::Last),
                    brought_to(ds[l], scale),
                    scale,
                )
            },
{
    let ns = numbers(rs);
    lemma_decimals(rs, ds);
    lemma_widest(ds);
    lemma_earliest(ns);
    lemma_latest(ns);
    let scale = top_scale(ds[0].1, ds);
    assert(ns[k].1 is At);
    let (t, n) = earliest(ns).unwrap();
    let i = choose|i: int| #[trigger] is_earliest(ns, i, t, n);
    let (u, m) = latest(ns).unwrap();
    let l = choose|l: int| #[trigger] is_latest(ns, l, u, m);
    assert(ns[i] == (Num::Dec(ds[i].0, ds[i].1), rs[i].1));
    assert(ns[l] == (Num::Dec(ds[l].0, ds[l].1), rs[l].1));
    assert forall|j: int| 0 <= j < rs.len() implies #[trigger] rs[j].1 == ns[j].1 by {
        assert(ns[j] == (Num::Dec(ds[j].0, ds[j].1), rs[j].1));
    }
    assert(is_first_taken(rs, i));
    assert(is_last_taken(rs, l));
    assert(exact((ds[i].0, ds[i].1), scale) == brought_to(ds[i], scale));
    assert(exact((ds[l].0, ds[l].1), scale) == brought_to(ds[l], scale));
    assert(shows_decimal(aggregate_of(rs, AggFn::First), brought_to(ds[i], scale), scale));
    assert(shows_decimal(aggregate_of(rs, AggFn::Last), brought_to(ds[l], scale), scale));
}

/// The mean of decimals is their exact total over their number, carried to six
/// more digits, or as many as a decimal has, and rounded to the nearest; or it
/// is null.
pub proof fn a_decimal_mean_is_nearest_or_null(rs: Seq<(Reading, Moment)>, ds: Seq<(i128, u8)>)
    requires
        are_decimals(rs, ds),
        0 < ds.len() <= u64::MAX,
    ensures
        aggregate_of(rs, AggFn::Avg) is Null || exists|wide: u8| #[trigger]
            is_widest(ds, wide) && (aggregate_of(rs, AggFn::Avg) matches AggResult::Decimal {
                mantissa,
                scale,
            } && {
                let n = ds.len() as int;
                let want = total_at(ds, wide) * pow10((scale - wide) as nat);
                &&& wide <= scale
                &&& scale == if wide <= 32 {
                    wide + 6
                } else {
                    38
                }
                &&& -n <= 2 * (mantissa * n - want) <= n
            }),
{
    lemma_decimals(rs, ds);
    lemma_widest(ds);
    let wide = top_scale(ds[0].1, ds);
    lemma_total_at(ds, wide);
    a_decimal_total_is_exact(ds[0].1, ds);
    assert(is_widest(ds, wide));
    if let AggResult::Decimal { mantissa, scale } = aggregate_of(rs, AggFn::Avg) {
        let n = ds.len() as int;
        let want = total_at(ds, wide) * pow10((avg_scale(wide) - wide) as nat);
        rounding_is_to_nearest(want, n);
        assert(mantissa == rounded_quotient(want, n));
    }
}

/// Decimals of one scale whose running totals all have at most 38 digits have a
/// mean, where their total at the mean's scale is an integer of 128 bits and the
/// mean has at most 38 digits.
pub proof fn a_decimal_mean_is_there(rs: Seq<(Reading, Moment)>, ds: Seq<(i128, u8)>, scale: u8)
    requires
        are_decimals(rs, ds),
        0 < ds.len() <= u64::MAX,
        scale <= 32,
        forall|i: int|
            0 <= i < ds.len() ==> (#[trigger] ds[i]).1 == scale && -LIMIT < ds[i].0 < LIMIT,
        forall|n: int| 0 <= n <= ds.len() ==> -LIMIT < #[trigger] total_at(ds.take(n), scale)
            < LIMIT,
        -LIMIT < total_at(ds, scale) * pow10(6) < LIMIT,
    ensures
        aggregate_of(rs, AggFn::Avg) matches AggResult::Decimal { mantissa, scale: shown }
            && shown == scale + 6 && -ds.len() <= 2 * (mantissa * ds.len() - total_at(ds, scale)
            * pow10(6)) <= ds.len(),
{
    lemma_decimals(rs, ds);
    lemma_running(ds, scale, ds.len() as int);
    assert(ds.take(ds.len() as int) =~= ds);
    let want = total_at(ds, scale) * pow10(6);
    let n = ds.len() as int;
    rounding_is_to_nearest(want, n);
    let q = crate::query::decimal::rounded_quotient(want, n);
    if q >= LIMIT {
        assert(q * n >= LIMIT + n - 1) by (nonlinear_arith)
            requires
                q >= LIMIT,
                n >= 1,
        ;
    }
    if q <= -LIMIT {
        assert(q * n <= -LIMIT - n + 1) by (nonlinear_arith)
            requires
                q <= -LIMIT,
                n >= 1,
        ;
    }
}

/// The readings that are decimals.
pub open spec fn decimal_readings(rs: Seq<(Reading, Moment)>) -> Seq<(Reading, Moment)> {
    rs.filter(|r: (Reading, Moment)| r.0 matches Reading::Number(Num::Dec(_, _)))
}

proof fn lemma_decimal_readings(rs: Seq<(Reading, Moment)>)
    ensures
        decimals(numbers(decimal_readings(rs))) == decimals(numbers(rs)),
        decimals(numbers(rs)).len() > 0 ==> numbers(decimal_readings(rs)).len() > 0,
    decreases rs.len(),
{
    reveal(Seq::filter);
    let exact_ones = |r: (Reading, Moment)| r.0 matches Reading::Number(Num::Dec(_, _));
    if rs.len() > 0 {
        let rest = rs.drop_last();
        lemma_decimal_readings(rest);
        let kept = decimal_readings(rest);
        if exact_ones(rs.last()) {
            assert(decimal_readings(rs) == kept.push(rs.last()));
            assert(kept.push(rs.last()).drop_last() =~= kept);
            let ns = numbers(decimal_readings(rs));
            assert(ns.drop_last() =~= numbers(kept));
            assert(numbers(rs).drop_last() =~= numbers(rest));
        } else {
            assert(decimal_readings(rs) == kept);
            if numbers(rs) != numbers(rest) {
                assert(numbers(rs).drop_last() =~= numbers(rest));
            }
        }
    }
}

/// Where there are decimals among the numbers, their sum and their extremes are
/// those of the decimals alone.
pub proof fn decimals_are_summed_apart(rs: Seq<(Reading, Moment)>, func: AggFn)
    requires
        func is Sum || func is Min || func is Max,
        decimal_readings(rs).len() > 0,
    ensures
        aggregate_of(rs, func) == aggregate_of(decimal_readings(rs), func),
{
    lemma_decimal_readings(rs);
    lemma_some_decimal(rs);
}

proof fn lemma_some_decimal(rs: Seq<(Reading, Moment)>)
    requires
        decimal_readings(rs).len() > 0,
    ensures
        decimals(numbers(rs)).len() > 0,
        numbers(rs).len() > 0,
    decreases rs.len(),
{
    reveal(Seq::filter);
    if rs.len() > 0 {
        let rest = rs.drop_last();
        if decimal_readings(rest).len() > 0 {
            lemma_some_decimal(rest);
        }
        if numbers(rs) != numbers(rest) {
            assert(numbers(rs).drop_last() =~= numbers(rest));
        }
    }
}

// ---------------------------------------------------------------------------
// Whole columns
// ---------------------------------------------------------------------------

/// Of a whole column of floats the greatest and the least are taken in the total
/// order: they are values of the column, and no value comes after the greatest
/// or before the least.
pub proof fn kernel_extremes_are_readings(rs: Seq<(Reading, Moment)>)
    requires
        are_floats(rs),
        rs.len() > 0,
    ensures
        exists|i: int|
            0 <= i < rs.len() && kernel_max(numbers(rs)) == Some(float_in(#[trigger] rs[i])),
        exists|i: int|
            0 <= i < rs.len() && kernel_min(numbers(rs)) == Some(float_in(#[trigger] rs[i])),
        forall|j: int|
            0 <= j < rs.len() ==> !total_less(
                kernel_max(numbers(rs)).unwrap(),
                float_in(#[trigger] rs[j]),
            ) && !total_less(float_in(rs[j]), kernel_min(numbers(rs)).unwrap()),
    decreases rs.len(),
{
    lemma_floats(rs);
    let rest = rs.drop_last();
    let n = rs.len() - 1;
    assert(are_floats(rest)) by {
        assert forall|i: int| 0 <= i < rest.len() implies (
        #[trigger] rest[i]).0 matches Reading::Number(Num::F64(_)) by {
            assert(rs[i] == rest[i]);
        }
    }
    lemma_floats(rest);
    assert(rs[n].0 matches Reading::Number(Num::F64(_)));
    assert(numbers(rs).drop_last() =~= numbers(rest));
    assert(numbers(rs).last() == (Num::F64(float_in(rs[n])), rs[n].1));
    if n > 0 {
        kernel_extremes_are_readings(rest);
        let i = choose|i: int|
            0 <= i < rest.len() && kernel_max(numbers(rest)) == Some(float_in(#[trigger] rest[i]));
        let l = choose|l: int|
            0 <= l < rest.len() && kernel_min(numbers(rest)) == Some(float_in(#[trigger] rest[l]));
        assert(rs[i] == rest[i]);
        assert(rs[l] == rest[l]);
        assert(float_in(rs[n]) == float_in(rs[n]));
        assert forall|j: int| 0 <= j < rs.len() implies !total_less(
            kernel_max(numbers(rs)).unwrap(),
            float_in(#[trigger] rs[j]),
        ) && !total_less(float_in(rs[j]), kernel_min(numbers(rs)).unwrap()) by {
            if j < n {
                assert(rest[j] == rs[j]);
            }
        }
    } else {
        assert(kernel_max(numbers(rs)) == Some(float_in(rs[0])));
        assert(kernel_min(numbers(rs)) == Some(float_in(rs[0])));
    }
}

} // verus!
