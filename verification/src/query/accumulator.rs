//! The incremental accumulator: one pass over the readings of a field answers
//! every aggregation function.
use vstd::prelude::*;

use crate::query::agg_fn::AggFn;
#[allow(unused_imports)]
use crate::query::decimal::{exact, greatest, least, top_scale};
use crate::query::decimal::rescale;
#[allow(unused_imports)]
use crate::query::float::less;
use crate::query::float::{is_less, INFINITY, NEG_INFINITY};
#[allow(unused_imports)]
use crate::query::track::{decimal_avg, decimal_result, decimal_sum};
use crate::query::track::{AggResult, DecimalTrack};

verus! {

/// The largest scale that a decimal column of a batch can have.
pub const MAX_COLUMN_SCALE: u8 = 127;

/// A value pulled out of a column, in the type that keeps it exact.
#[derive(Clone, Copy, Debug, PartialEq, Eq, Structural)]
pub enum Num {
    /// Anything that was already a float, or was widened to one, by its bits.
    F64(u64),
    /// A decimal mantissa together with its scale.
    Dec(i128, u8),
}

/// A decimal's scale is one that a column can have.
pub open spec fn scale_is_possible(n: Num) -> bool {
    n matches Num::Dec(_, scale) ==> scale <= MAX_COLUMN_SCALE
}

/// A cell that is not null.
#[derive(Clone, Copy, Debug, PartialEq, Eq, Structural)]
pub enum Reading {
    /// A value that is no number, such as a text.
    Present,
    /// A number.
    Number(Num),
}

/// When a reading was taken.
#[derive(Clone, Copy, Debug, PartialEq, Eq, Structural)]
pub enum Moment {
    /// There is no timestamp column: readings are ordered by position.
    NoColumn,
    /// The row's timestamp is null.
    Unknown,
    /// The row's timestamp.
    At(i64),
}

/// The numbers among some readings.
pub open spec fn numbers(rs: Seq<(Reading, Moment)>) -> Seq<(Num, Moment)>
    decreases rs.len(),
{
    if rs.len() == 0 {
        Seq::empty()
    } else {
        match rs.last().0 {
            Reading::Number(n) => numbers(rs.drop_last()).push((n, rs.last().1)),
            Reading::Present => numbers(rs.drop_last()),
        }
    }
}

/// The decimals among some numbers.
pub open spec fn decimals(ns: Seq<(Num, Moment)>) -> Seq<(i128, u8)>
    decreases ns.len(),
{
    if ns.len() == 0 {
        Seq::empty()
    } else {
        match ns.last().0 {
            Num::Dec(mantissa, scale) => decimals(ns.drop_last()).push((mantissa, scale)),
            Num::F64(_) => decimals(ns.drop_last()),
        }
    }
}

/// The least of the floats among some numbers; infinity if there are none.
/// What is not a number is passed over.
pub open spec fn float_min(ns: Seq<(Num, Moment)>) -> u64
    decreases ns.len(),
{
    if ns.len() == 0 {
        INFINITY
    } else {
        let before = float_min(ns.drop_last());
        match ns.last().0 {
            Num::F64(v) if less(v, before) => v,
            _ => before,
        }
    }
}

/// The greatest of the floats among some numbers; negative infinity if there
/// are none.
pub open spec fn float_max(ns: Seq<(Num, Moment)>) -> u64
    decreases ns.len(),
{
    if ns.len() == 0 {
        NEG_INFINITY
    } else {
        let before = float_max(ns.drop_last());
        match ns.last().0 {
            Num::F64(v) if less(before, v) => v,
            _ => before,
        }
    }
}

/// The number with the smallest timestamp, the first of them on ties.
pub open spec fn earliest(ns: Seq<(Num, Moment)>) -> Option<(i64, Num)>
    decreases ns.len(),
{
    if ns.len() == 0 {
        None
    } else {
        let before = earliest(ns.drop_last());
        match ns.last().1 {
            Moment::At(t) if before is None || t < before.unwrap().0 => Some((t, ns.last().0)),
            _ => before,
        }
    }
}

/// The number with the largest timestamp, the last of them on ties.
pub open spec fn latest(ns: Seq<(Num, Moment)>) -> Option<(i64, Num)>
    decreases ns.len(),
{
    if ns.len() == 0 {
        None
    } else {
        let before = latest(ns.drop_last());
        match ns.last().1 {
            Moment::At(t) if before is None || t >= before.unwrap().0 => Some((t, ns.last().0)),
            _ => before,
        }
    }
}

/// The first number that comes without a timestamp column.
pub open spec fn foremost(ns: Seq<(Num, Moment)>) -> Option<Num>
    decreases ns.len(),
{
    if ns.len() == 0 {
        None
    } else {
        let before = foremost(ns.drop_last());
        if before is None && ns.last().1 is NoColumn {
            Some(ns.last().0)
        } else {
            before
        }
    }
}

/// The last number that comes without a timestamp column.
pub open spec fn hindmost(ns: Seq<(Num, Moment)>) -> Option<Num>
    decreases ns.len(),
{
    if ns.len() == 0 {
        None
    } else if ns.last().1 is NoColumn {
        Some(ns.last().0)
    } else {
        hindmost(ns.drop_last())
    }
}

/// The first value: by timestamp, or by position where there is no timestamp
/// column.
pub open spec fn first_value(ns: Seq<(Num, Moment)>) -> Option<Num> {
    match earliest(ns) {
        Some((_, n)) => Some(n),
        None => foremost(ns),
    }
}

/// The last value: by timestamp, or by position where there is no timestamp
/// column.
pub open spec fn last_value(ns: Seq<(Num, Moment)>) -> Option<Num> {
    match latest(ns) {
        Some((_, n)) => Some(n),
        None => hindmost(ns),
    }
}

/// One number of a column as a result. A decimal is shown at the widest scale
/// among the column's decimals.
pub open spec fn shown(n: Option<Num>, ds: Seq<(i128, u8)>) -> AggResult {
    match n {
        None => AggResult::Null,
        Some(Num::F64(bits)) => AggResult::F64(bits),
        Some(Num::Dec(mantissa, scale)) => {
            let wide = top_scale(ds[0].1, ds);
            decimal_result(exact((mantissa, scale), wide), wide)
        },
    }
}

/// The aggregate of some readings.
pub open spec fn aggregate_of(rs: Seq<(Reading, Moment)>, func: AggFn) -> AggResult {
    let ns = numbers(rs);
    let ds = decimals(ns);
    let base = ds[0].1;
    let wide = top_scale(base, ds);
    match func {
        AggFn::Count => AggResult::Count(rs.len() as u64),
        _ if ns.len() == 0 => AggResult::Null,
        AggFn::First => shown(first_value(ns), ds),
        AggFn::Last => shown(last_value(ns), ds),
        AggFn::Sum => if ds.len() > 0 {
            decimal_sum(base, ds)
        } else {
            AggResult::FloatSum
        },
        AggFn::Avg => if ds.len() > 0 {
            decimal_avg(base, ds, ns.len() as u64)
        } else {
            AggResult::FloatMean { count: ns.len() as u64 }
        },
        AggFn::Min => if ds.len() > 0 {
            decimal_result(least(ds, wide), wide)
        } else {
            AggResult::F64(float_min(ns))
        },
        AggFn::Max => if ds.len() > 0 {
            decimal_result(greatest(ds, wide), wide)
        } else {
            AggResult::F64(float_max(ns))
        },
    }
}

/// Per-field accumulator that supports all aggregation functions without
/// materializing the input.
#[derive(Debug, Clone, Copy)]
pub struct IncrementalAccumulator {
    count: u64,
    number_count: u64,
    min: u64,
    max: u64,
    first: Option<(i64, Num)>,
    last: Option<(i64, Num)>,
    front: Option<Num>,
    back: Option<Num>,
    decimal: Option<DecimalTrack>,
}

impl IncrementalAccumulator {
    /// The accumulator summarizes these readings, taken in this order.
    pub closed spec fn summarizes(&self, rs: Seq<(Reading, Moment)>) -> bool {
        let ns = numbers(rs);
        let ds = decimals(ns);
        &&& self.count == rs.len()
        &&& self.number_count == ns.len()
        &&& self.min == float_min(ns)
        &&& self.max == float_max(ns)
        &&& self.first == earliest(ns)
        &&& self.last == latest(ns)
        &&& self.front == foremost(ns)
        &&& self.back == hindmost(ns)
        &&& match self.decimal {
            None => ds.len() == 0,
            Some(track) => ds.len() > 0 && track.covers(ds[0].1, ds),
        }
    }

    /// The scale of what was taken is one that a column can have.
    pub closed spec fn fits_a_column(&self) -> bool {
        self.decimal matches Some(track) ==> track.scale <= MAX_COLUMN_SCALE
    }

    /// How many readings have been taken.
    pub closed spec fn taken(&self) -> u64 {
        self.count
    }

    /// An accumulator that has taken no reading.
    pub fn new() -> (r: Self)
        ensures
            r.summarizes(Seq::empty()),
            r.taken() == 0,
            r.fits_a_column(),
    {
        IncrementalAccumulator {
            count: 0,
            number_count: 0,
            min: INFINITY,
            max: NEG_INFINITY,
            first: None,
            last: None,
            front: None,
            back: None,
            decimal: None,
        }
    }

    /// Take one reading.
    pub fn update(&mut self, reading: Reading, moment: Moment)
        requires
            old(self).taken() < u64::MAX,
        ensures
            final(self).taken() == old(self).taken() + 1,
            forall|rs: Seq<(Reading, Moment)>| #[trigger]
                old(self).summarizes(rs) ==> final(self).summarizes(rs.push((reading, moment))),
            old(self).fits_a_column() && (reading matches Reading::Number(n) ==> scale_is_possible(
                n,
            )) ==> final(self).fits_a_column(),
    {
        let ghost before = *self;
        self.count = self.count + 1;
        let ghost counted = *self;
        match reading {
            Reading::Present => {},
            Reading::Number(n) => {
                self.take_number(n, moment);
            },
        }
        proof {
            assert forall|rs: Seq<(Reading, Moment)>| #[trigger]
                before.summarizes(rs) implies self.summarizes(rs.push((reading, moment))) by {
                let all = rs.push((reading, moment));
                assert(all.drop_last() =~= rs);
                lemma_fewer_numbers(rs);
                assert(counted.has_numbers(numbers(rs)));
            }
        }
    }

    fn take_number(&mut self, n: Num, moment: Moment)
        ensures
            final(self).count == old(self).count,
            old(self).number_count < u64::MAX ==> forall|ns: Seq<(Num, Moment)>| #[trigger]
                old(self).has_numbers(ns) ==> final(self).has_numbers(ns.push((n, moment))),
            old(self).fits_a_column() && scale_is_possible(n) ==> final(self).fits_a_column(),
    {
        let ghost before = *self;
        if self.number_count < u64::MAX {
            self.number_count = self.number_count + 1;
        }
        match n {
            Num::F64(v) => {
                if is_less(v, self.min) {
                    self.min = v;
                }
                if is_less(self.max, v) {
                    self.max = v;
                }
            },
            Num::Dec(mantissa, scale) => {
                let mut track = match self.decimal {
                    Some(track) => track,
                    None => DecimalTrack::new(scale),
                };
                let ghost empty = track;
                let _ = track.fold(mantissa, scale);
                proof {
                    let d = (mantissa, scale);
                    assert forall|ns: Seq<(Num, Moment)>| #[trigger]
                        before.has_numbers(ns) implies track.covers(
                        decimals(ns).push(d)[0].1,
                        decimals(ns).push(d),
                    ) by {
                        let ds = decimals(ns);
                        if before.decimal is Some {
                            assert(empty.covers(ds[0].1, ds));
                            assert(ds.push(d)[0] == ds[0]);
                        } else {
                            assert(empty.covers(scale, Seq::empty()));
                            assert(ds =~= Seq::empty());
                        }
                    }
                }
                self.decimal = Some(track);
            },
        }
        match moment {
            Moment::At(t) => {
                let is_first = match self.first {
                    None => true,
                    Some((best, _)) => t < best,
                };
                if is_first {
                    self.first = Some((t, n));
                }
                let is_last = match self.last {
                    None => true,
                    Some((best, _)) => t >= best,
                };
                if is_last {
                    self.last = Some((t, n));
                }
            },
            Moment::Unknown => {},
            Moment::NoColumn => {
                if self.front.is_none() {
                    self.front = Some(n);
                }
                self.back = Some(n);
            },
        }
        proof {
            if before.number_count < u64::MAX {
                assert forall|ns: Seq<(Num, Moment)>| #[trigger]
                    before.has_numbers(ns) implies self.has_numbers(ns.push((n, moment))) by {
                    assert(ns.push((n, moment)).drop_last() =~= ns);
                }
            }
        }
    }

    spec fn has_numbers(&self, ns: Seq<(Num, Moment)>) -> bool {
        let ds = decimals(ns);
        &&& self.number_count == ns.len()
        &&& self.min == float_min(ns)
        &&& self.max == float_max(ns)
        &&& self.first == earliest(ns)
        &&& self.last == latest(ns)
        &&& self.front == foremost(ns)
        &&& self.back == hindmost(ns)
        &&& match self.decimal {
            None => ds.len() == 0,
            Some(track) => ds.len() > 0 && track.covers(ds[0].1, ds),
        }
    }

    /// Number of readings taken.
    pub fn count(&self) -> (r: u64)
        ensures
            r == self.taken(),
            forall|rs: Seq<(Reading, Moment)>| #[trigger] self.summarizes(rs) ==> r == rs.len(),
    {
        self.count
    }

    /// The exact half, if a decimal was taken.
    pub fn track(&self) -> (r: Option<&DecimalTrack>)
        ensures
            forall|rs: Seq<(Reading, Moment)>| #[trigger]
                self.summarizes(rs) ==> {
                    let ds = decimals(numbers(rs));
                    match r {
                        None => ds.len() == 0,
                        Some(track) => ds.len() > 0 && track.covers(ds[0].1, ds),
                    }
                },
    {
        match &self.decimal {
            Some(track) => Some(track),
            None => None,
        }
    }

    /// The result of one function over the readings taken.
    pub fn finalize(&self, func: AggFn) -> (r: AggResult)
        ensures
            forall|rs: Seq<(Reading, Moment)>| #[trigger]
                self.summarizes(rs) ==> r == aggregate_of(rs, func),
            self.fits_a_column() ==> (r matches AggResult::Decimal { scale, .. } ==> scale
                <= MAX_COLUMN_SCALE),
    {
        if let AggFn::Count = func {
            return AggResult::Count(self.count);
        }
        if self.number_count == 0 {
            return AggResult::Null;
        }
        match func {
            AggFn::First => {
                let value = match self.first {
                    Some((_, n)) => Some(n),
                    None => self.front,
                };
                self.show(value)
            },
            AggFn::Last => {
                let value = match self.last {
                    Some((_, n)) => Some(n),
                    None => self.back,
                };
                self.show(value)
            },
            _ => match &self.decimal {
                Some(track) => match func {
                    AggFn::Sum => track.sum_result(),
                    AggFn::Avg => track.avg_result(self.number_count),
                    AggFn::Min => track.min_result(),
                    _ => track.max_result(),
                },
                None => match func {
                    AggFn::Sum => AggResult::FloatSum,
                    AggFn::Avg => AggResult::FloatMean { count: self.number_count },
                    AggFn::Min => AggResult::F64(self.min),
                    _ => AggResult::F64(self.max),
                },
            },
        }
    }

    fn show(&self, n: Option<Num>) -> (r: AggResult)
        ensures
            forall|rs: Seq<(Reading, Moment)>| #[trigger]
                self.summarizes(rs) && (n == first_value(numbers(rs)) || n == last_value(
                    numbers(rs),
                )) ==> r == shown(n, decimals(numbers(rs))),
            self.fits_a_column() ==> (r matches AggResult::Decimal { scale, .. } ==> scale
                <= MAX_COLUMN_SCALE),
    {
        proof {
            assert forall|rs: Seq<(Reading, Moment)>| #[trigger]
                self.summarizes(rs) && (n == first_value(numbers(rs)) || n == last_value(
                    numbers(rs),
                )) implies (n matches Some(Num::Dec(mantissa, scale)) ==> decimals(
                numbers(rs),
            ).contains((mantissa, scale))) by {
                lemma_chosen_are_numbers(numbers(rs));
            }
        }
        match n {
            None => AggResult::Null,
            Some(Num::F64(bits)) => AggResult::F64(bits),
            Some(Num::Dec(mantissa, scale)) => match &self.decimal {
                None => AggResult::Null,
                Some(track) => {
                    if scale > track.scale {
                        proof {
                            assert forall|rs: Seq<(Reading, Moment)>| #[trigger]
                                self.summarizes(rs) && (n == first_value(numbers(rs)) || n
                                    == last_value(numbers(rs))) implies false by {
                                let ds = decimals(numbers(rs));
                                assert(ds.contains((mantissa, scale)));
                                crate::query::decimal::lemma_top_scale(ds[0].1, ds);
                            }
                        }
                        return AggResult::Null;
                    }
                    match rescale(mantissa, track.scale - scale) {
                        Some(m) => track.at(m),
                        None => AggResult::Null,
                    }
                },
            },
        }
    }
}

proof fn lemma_fewer_numbers(rs: Seq<(Reading, Moment)>)
    ensures
        numbers(rs).len() <= rs.len(),
    decreases rs.len(),
{
    if rs.len() > 0 {
        lemma_fewer_numbers(rs.drop_last());
    }
}

proof fn lemma_decimals_hold(ns: Seq<(Num, Moment)>, i: int)
    requires
        0 <= i < ns.len(),
    ensures
        ns[i].0 matches Num::Dec(mantissa, scale) ==> decimals(ns).contains((mantissa, scale)),
    decreases ns.len(),
{
    let before = decimals(ns.drop_last());
    let all = decimals(ns);
    if i < ns.len() - 1 {
        lemma_decimals_hold(ns.drop_last(), i);
        assert(ns.drop_last()[i] == ns[i]);
        if let Num::Dec(mantissa, scale) = ns[i].0 {
            let k = choose|k: int| 0 <= k < before.len() && before[k] == (mantissa, scale);
            assert(all[k] == (mantissa, scale));
        }
    } else if ns[i].0 is Dec {
        assert(all[all.len() - 1] == all.last());
    }
}

pub proof fn lemma_earliest(ns: Seq<(Num, Moment)>)
    ensures
        match earliest(ns) {
            None => forall|j: int| 0 <= j < ns.len() ==> !((#[trigger] ns[j]).1 is At),
            Some((t, n)) => exists|i: int| #[trigger] is_earliest(ns, i, t, n),
        },
    decreases ns.len(),
{
    if ns.len() > 0 {
        let rest = ns.drop_last();
        let end = ns.len() - 1;
        lemma_earliest(rest);
        assert(forall|j: int| 0 <= j < end ==> #[trigger] rest[j] == ns[j]);
        if let Some((t, n)) = earliest(ns) {
            if earliest(rest) == Some((t, n)) && !(ns.last().1 is At && ns.last().1->At_0 < t) {
                let i = choose|i: int| #[trigger] is_earliest(rest, i, t, n);
                assert(ns[i] == rest[i]);
                assert forall|j: int| 0 <= j < ns.len() implies ((
                #[trigger] ns[j]).1 matches Moment::At(u) ==> t <= u && (t == u ==> i <= j)) by {
                    if j < end {
                        assert(rest[j] == ns[j]);
                    }
                }
                assert(is_earliest(ns, i, t, n));
            } else {
                assert(ns[end] == (n, Moment::At(t)));
                assert forall|j: int| 0 <= j < ns.len() implies ((
                #[trigger] ns[j]).1 matches Moment::At(u) ==> t <= u && (t == u ==> end <= j)) by {
                    if j < end && ns[j].1 is At {
                        assert(rest[j] == ns[j]);
                        let (t0, n0) = earliest(rest).unwrap();
                        let i = choose|i: int| #[trigger] is_earliest(rest, i, t0, n0);
                        assert(t0 <= rest[j].1->At_0);
                    }
                }
                assert(is_earliest(ns, end, t, n));
            }
        } else {
            assert forall|j: int| 0 <= j < ns.len() implies !((#[trigger] ns[j]).1 is At) by {
                if j < end {
                    assert(rest[j] == ns[j]);
                }
            }
        }
    }
}

pub proof fn lemma_latest(ns: Seq<(Num, Moment)>)
    ensures
        match latest(ns) {
            None => forall|j: int| 0 <= j < ns.len() ==> !((#[trigger] ns[j]).1 is At),
            Some((t, n)) => exists|i: int| #[trigger] is_latest(ns, i, t, n),
        },
    decreases ns.len(),
{
    if ns.len() > 0 {
        let rest = ns.drop_last();
        let end = ns.len() - 1;
        lemma_latest(rest);
        assert(forall|j: int| 0 <= j < end ==> #[trigger] rest[j] == ns[j]);
        if let Some((t, n)) = latest(ns) {
            if latest(rest) == Some((t, n)) && !(ns.last().1 is At && ns.last().1->At_0 >= t) {
                let i = choose|i: int| #[trigger] is_latest(rest, i, t, n);
                assert(ns[i] == rest[i]);
                assert forall|j: int| 0 <= j < ns.len() implies ((
                #[trigger] ns[j]).1 matches Moment::At(u) ==> u <= t && (t == u ==> j <= i)) by {
                    if j < end {
                        assert(rest[j] == ns[j]);
                    }
                }
                assert(is_latest(ns, i, t, n));
            } else {
                assert(ns[end] == (n, Moment::At(t)));
                assert forall|j: int| 0 <= j < ns.len() implies ((
                #[trigger] ns[j]).1 matches Moment::At(u) ==> u <= t && (t == u ==> j <= end)) by {
                    if j < end && ns[j].1 is At {
                        assert(rest[j] == ns[j]);
                        let (t0, n0) = latest(rest).unwrap();
                        let i = choose|i: int| #[trigger] is_latest(rest, i, t0, n0);
                        assert(rest[j].1->At_0 <= t0);
                    }
                }
                assert(is_latest(ns, end, t, n));
            }
        } else {
            assert forall|j: int| 0 <= j < ns.len() implies !((#[trigger] ns[j]).1 is At) by {
                if j < end {
                    assert(rest[j] == ns[j]);
                }
            }
        }
    }
}

/// The `i`-th number was taken at `t`, nothing was taken before, and nothing
/// that was taken at the same time comes before it.
pub open spec fn is_earliest(ns: Seq<(Num, Moment)>, i: int, t: i64, n: Num) -> bool {
    &&& 0 <= i < ns.len()
    &&& ns[i] == (n, Moment::At(t))
    &&& forall|j: int|
        0 <= j < ns.len() ==> ((#[trigger] ns[j]).1 matches Moment::At(u) ==> t <= u && (t == u
            ==> i <= j))
}

/// The `i`-th number was taken at `t`, nothing was taken after, and nothing
/// that was taken at the same time comes after it.
pub open spec fn is_latest(ns: Seq<(Num, Moment)>, i: int, t: i64, n: Num) -> bool {
    &&& 0 <= i < ns.len()
    &&& ns[i] == (n, Moment::At(t))
    &&& forall|j: int|
        0 <= j < ns.len() ==> ((#[trigger] ns[j]).1 matches Moment::At(u) ==> u <= t && (t == u
            ==> j <= i))
}

proof fn lemma_untimed_are_numbers(ns: Seq<(Num, Moment)>)
    ensures
        foremost(ns) matches Some(n) ==> exists|i: int| 0 <= i < ns.len() && (#[trigger] ns[i]).0 == n,
        hindmost(ns) matches Some(n) ==> exists|i: int| 0 <= i < ns.len() && (#[trigger] ns[i]).0 == n,
    decreases ns.len(),
{
    if ns.len() > 0 {
        let rest = ns.drop_last();
        let end = ns.len() - 1;
        lemma_untimed_are_numbers(rest);
        assert(forall|j: int| 0 <= j < end ==> #[trigger] rest[j] == ns[j]);
        if let Some(n) = foremost(ns) {
            if foremost(rest) == Some(n) {
                let i = choose|i: int| 0 <= i < rest.len() && (#[trigger] rest[i]).0 == n;
                assert(ns[i].0 == n);
            } else {
                assert(ns[end].0 == n);
            }
        }
        if let Some(n) = hindmost(ns) {
            if ns.last().1 is NoColumn {
                assert(ns[end].0 == n);
            } else {
                let i = choose|i: int| 0 <= i < rest.len() && (#[trigger] rest[i]).0 == n;
                assert(ns[i].0 == n);
            }
        }
    }
}

proof fn lemma_chosen_are_numbers(ns: Seq<(Num, Moment)>)
    ensures
        first_value(ns) matches Some(Num::Dec(mantissa, scale)) ==> decimals(ns).contains(
            (mantissa, scale),
        ),
        last_value(ns) matches Some(Num::Dec(mantissa, scale)) ==> decimals(ns).contains(
            (mantissa, scale),
        ),
{
    lemma_earliest(ns);
    lemma_latest(ns);
    lemma_untimed_are_numbers(ns);
    if let Some(n) = first_value(ns) {
        let i = match earliest(ns) {
            Some((t, _)) => choose|i: int| #[trigger] is_earliest(ns, i, t, n),
            None => choose|i: int| 0 <= i < ns.len() && (#[trigger] ns[i]).0 == n,
        };
        assert(ns[i].0 == n);
        lemma_decimals_hold(ns, i);
    }
    if let Some(n) = last_value(ns) {
        let i = match latest(ns) {
            Some((t, _)) => choose|i: int| #[trigger] is_latest(ns, i, t, n),
            None => choose|i: int| 0 <= i < ns.len() && (#[trigger] ns[i]).0 == n,
        };
        assert(ns[i].0 == n);
        lemma_decimals_hold(ns, i);
    }
}

/// The first and the last value are those at the smallest and at the largest
/// timestamp, wherever they stand. On ties the first row wins for the first
/// value, and the last row for the last.
pub proof fn first_and_last_go_by_timestamp(ns: Seq<(Num, Moment)>, k: int)
    requires
        0 <= k < ns.len(),
        ns[k].1 is At,
    ensures
        exists|i: int, t: i64, n: Num| #[trigger]
            is_earliest(ns, i, t, n) && first_value(ns) == Some(n),
        exists|i: int, t: i64, n: Num| #[trigger]
            is_latest(ns, i, t, n) && last_value(ns) == Some(n),
{
    lemma_earliest(ns);
    lemma_latest(ns);
    let (t, n) = earliest(ns).unwrap();
    let i = choose|i: int| #[trigger] is_earliest(ns, i, t, n);
    assert(is_earliest(ns, i, t, n) && first_value(ns) == Some(n));
    let (u, m) = latest(ns).unwrap();
    let j = choose|j: int| #[trigger] is_latest(ns, j, u, m);
    assert(is_latest(ns, j, u, m) && last_value(ns) == Some(m));
}

/// Numbers whose timestamps are all null have no first and no last value.
pub proof fn null_timestamps_are_skipped(ns: Seq<(Num, Moment)>)
    requires
        forall|i: int| 0 <= i < ns.len() ==> (#[trigger] ns[i]).1 is Unknown,
    ensures
        first_value(ns) is None,
        last_value(ns) is None,
    decreases ns.len(),
{
    if ns.len() > 0 {
        assert(ns[ns.len() - 1].1 is Unknown);
        assert forall|i: int| 0 <= i < ns.drop_last().len() implies (
        #[trigger] ns.drop_last()[i]).1 is Unknown by {
            assert(ns[i].1 is Unknown);
        }
        null_timestamps_are_skipped(ns.drop_last());
    }
}

/// No float is less than the minimum, and none is greater than the maximum.
pub proof fn the_extremes_bound_every_float(ns: Seq<(Num, Moment)>, i: int)
    requires
        0 <= i < ns.len(),
    ensures
        ns[i].0 matches Num::F64(v) ==> !less(v, float_min(ns)) && !less(float_max(ns), v),
    decreases ns.len(),
{
    lemma_extremes_are_numbers(ns.drop_last());
    if i < ns.len() - 1 {
        assert(ns.drop_last()[i] == ns[i]);
        the_extremes_bound_every_float(ns.drop_last(), i);
    }
}

pub proof fn lemma_extremes_are_numbers(ns: Seq<(Num, Moment)>)
    ensures
        !crate::query::float::is_nan(float_min(ns)),
        !crate::query::float::is_nan(float_max(ns)),
    decreases ns.len(),
{
    if ns.len() > 0 {
        lemma_extremes_are_numbers(ns.drop_last());
    }
}

} // verus!
