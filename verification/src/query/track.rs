//! Aggregate results, and the exact half of an accumulator.
use vstd::prelude::*;

#[allow(unused_imports)]
use crate::query::decimal::{
    exact, fits, greatest, in_range, least, lemma_exact_widens, lemma_greatest, lemma_least,
    lemma_pow10_positive, lemma_too_long_stays, lemma_top_scale, lemma_widening_keeps_order, pow10,
    rounded_quotient, running_total, top_scale,
};
use crate::query::decimal::{power_of_ten, rescale, round_divide, LIMIT, MAX_DECIMAL_SCALE};

verus! {

/// Extra fractional digits an average of a decimal column is computed to.
///
/// A mean is a division, and a division of exact decimals does not generally
/// terminate, so `avg` is the one aggregate here that rounds: the result is
/// carried to the column's scale plus six digits and rounded half away from
/// zero.
pub const AVG_EXTRA_SCALE: u8 = 6;

/// One aggregate's result, in the type that keeps it exact.
///
/// Sums and means of floating-point columns are told, not computed: the
/// library adds up no floats.
#[derive(Debug, Clone, Copy, PartialEq, Eq, Structural)]
pub enum AggResult {
    /// SQL `NULL`: an empty bucket, or a result that overflowed.
    Null,
    /// A floating-point result, by its bits.
    F64(u64),
    /// An exact decimal result: `mantissa × 10⁻ˢᶜᵃˡᵉ`.
    Decimal {
        /// The unscaled result.
        mantissa: i128,
        /// Digits after the decimal point.
        scale: u8,
    },
    /// A number of values.
    Count(u64),
    /// The floating-point sum of the values. They are those that
    /// [`group_summands`](crate::query::totals::group_summands) gives for a
    /// group of rows, and [`summands`](crate::query::totals::summands) for
    /// each batch where all rows are one group; for a time bucket they are the
    /// values of its [`rows`](crate::query::downsample::Bucket::rows).
    FloatSum,
    /// The floating-point sum of these values, divided by a number.
    FloatMean {
        /// Number of values.
        count: u64,
    },
}

/// A decimal result, or `Null` where it has more than 38 digits.
pub open spec fn decimal_result(mantissa: int, scale: u8) -> AggResult {
    if fits(mantissa) {
        AggResult::Decimal { mantissa: mantissa as i128, scale }
    } else {
        AggResult::Null
    }
}

/// The sum of some decimals: `Null` where the running total was lost or is no
/// decimal.
pub open spec fn decimal_sum(base: u8, ds: Seq<(i128, u8)>) -> AggResult {
    match running_total(base, ds) {
        Some(total) if top_scale(base, ds) <= MAX_DECIMAL_SCALE => decimal_result(
            total,
            top_scale(base, ds),
        ),
        _ => AggResult::Null,
    }
}

/// The scale of the average of decimals at a scale.
pub open spec fn avg_scale(scale: u8) -> u8 {
    if scale + AVG_EXTRA_SCALE <= MAX_DECIMAL_SCALE {
        (scale + AVG_EXTRA_SCALE) as u8
    } else {
        MAX_DECIMAL_SCALE
    }
}

/// The mean of a total over `count` values, at the average's scale and rounded
/// half away from zero.
pub open spec fn decimal_mean(total: int, scale: u8, count: u64) -> AggResult {
    let numerator = total * pow10((avg_scale(scale) - scale) as nat);
    if count == 0 || scale > MAX_DECIMAL_SCALE || !in_range(numerator) {
        AggResult::Null
    } else {
        decimal_result(rounded_quotient(numerator, count as int), avg_scale(scale))
    }
}

/// The average of some decimals among `count` values.
pub open spec fn decimal_avg(base: u8, ds: Seq<(i128, u8)>, count: u64) -> AggResult {
    match running_total(base, ds) {
        Some(total) => decimal_mean(total, top_scale(base, ds), count),
        None => AggResult::Null,
    }
}

/// The exact half of an accumulator, for decimal columns.
///
/// `min` and `max` start at values that stand for nothing tracked yet. What
/// has more than 38 digits at the track's scale cannot be tracked as a number;
/// the flags remember that it was there, so that the affected results are
/// `NULL`: a number that is not the answer is worse than no number.
#[derive(Debug, Clone, Copy)]
pub struct DecimalTrack {
    /// The scale everything tracked here is expressed at.
    pub scale: u8,
    /// Running total.
    pub sum: i128,
    /// Smallest mantissa seen.
    pub min: i128,
    /// Largest mantissa seen.
    pub max: i128,
    /// The sum, or a value in it, needed more digits than there are.
    pub overflow: bool,
    /// A value below every mantissa with 38 digits was seen.
    pub min_lost: bool,
    /// A value above every mantissa with 38 digits was seen.
    pub max_lost: bool,
}

impl DecimalTrack {
    /// The track has seen these decimals, in this order, starting at scale
    /// `base`.
    pub open spec fn covers(self, base: u8, ds: Seq<(i128, u8)>) -> bool {
        &&& self.scale == top_scale(base, ds)
        &&& self.covers_sum(base, ds)
        &&& self.covers_min(ds)
        &&& self.covers_max(ds)
    }

    /// The sum is the running total.
    pub open spec fn covers_sum(self, base: u8, ds: Seq<(i128, u8)>) -> bool {
        match running_total(base, ds) {
            Some(total) => !self.overflow && self.sum == total,
            None => self.overflow,
        }
    }

    /// The minimum is that of the values that fit.
    pub open spec fn covers_min(self, ds: Seq<(i128, u8)>) -> bool {
        &&& self.min_lost == exists|i: int|
            0 <= i < ds.len() && exact(#[trigger] ds[i], self.scale) <= -LIMIT
        &&& !self.min_lost ==> {
            &&& forall|i: int|
                0 <= i < ds.len() && fits(exact(#[trigger] ds[i], self.scale)) ==> self.min
                    <= exact(ds[i], self.scale)
            &&& {
                ||| self.min == i128::MAX && forall|i: int|
                    0 <= i < ds.len() ==> exact(#[trigger] ds[i], self.scale) >= LIMIT
                ||| fits(self.min as int) && exists|i: int|
                    0 <= i < ds.len() && exact(#[trigger] ds[i], self.scale) == self.min
            }
        }
    }

    /// The maximum is that of the values that fit.
    pub open spec fn covers_max(self, ds: Seq<(i128, u8)>) -> bool {
        &&& self.max_lost == exists|i: int|
            0 <= i < ds.len() && exact(#[trigger] ds[i], self.scale) >= LIMIT
        &&& !self.max_lost ==> {
            &&& forall|i: int|
                0 <= i < ds.len() && fits(exact(#[trigger] ds[i], self.scale)) ==> self.max
                    >= exact(ds[i], self.scale)
            &&& {
                ||| self.max == i128::MIN && forall|i: int|
                    0 <= i < ds.len() ==> exact(#[trigger] ds[i], self.scale) <= -LIMIT
                ||| fits(self.max as int) && exists|i: int|
                    0 <= i < ds.len() && exact(#[trigger] ds[i], self.scale) == self.max
            }
        }
    }

    /// `self` is `before`, re-expressed `by` digits wider.
    pub open spec fn widened_from(self, before: DecimalTrack, by: nat) -> bool {
        &&& self.scale == before.scale + by
        &&& self.overflow == (before.overflow || !in_range(before.sum * pow10(by)))
        &&& !self.overflow ==> self.sum == before.sum * pow10(by)
        &&& self.min_lost == (before.min_lost || (before.min != i128::MAX && before.min * pow10(by)
            <= -LIMIT))
        &&& !self.min_lost ==> self.min == if before.min == i128::MAX || before.min * pow10(by)
            >= LIMIT {
            i128::MAX as int
        } else {
            before.min * pow10(by)
        }
        &&& self.max_lost == (before.max_lost || (before.max != i128::MIN && before.max * pow10(by)
            >= LIMIT))
        &&& !self.max_lost ==> self.max == if before.max == i128::MIN || before.max * pow10(by)
            <= -LIMIT {
            i128::MIN as int
        } else {
            before.max * pow10(by)
        }
    }

    /// An empty track at `scale`.
    pub fn new(scale: u8) -> (r: Self)
        ensures
            r.covers(scale, Seq::empty()),
            r.scale == scale,
    {
        DecimalTrack {
            scale,
            sum: 0,
            min: i128::MAX,
            max: i128::MIN,
            overflow: false,
            min_lost: false,
            max_lost: false,
        }
    }

    /// Re-express everything tracked so far at a wider scale. A narrower scale
    /// cannot hold it: the sum is then lost, and nothing else changes.
    pub fn widen_to(&mut self, scale: u8)
        ensures
            scale >= old(self).scale ==> final(self).widened_from(
                *old(self),
                (scale - old(self).scale) as nat,
            ),
            scale < old(self).scale ==> *final(self) == (DecimalTrack {
                overflow: true,
                ..*old(self)
            }),
    {
        if scale < self.scale {
            self.overflow = true;
            return;
        }
        let ghost before = *self;
        let by: u8 = scale - self.scale;
        let ghost p = pow10(by as nat);
        proof {
            lemma_pow10_positive(by as nat);
        }
        if !self.overflow {
            match widen_sum(self.sum, by) {
                Some(sum) => {
                    self.sum = sum;
                },
                None => {
                    self.overflow = true;
                },
            }
        }
        if !self.min_lost && self.min != i128::MAX {
            let negative: bool = self.min < 0;
            match rescale(self.min, by) {
                Some(min) => {
                    self.min = min;
                },
                None => {
                    proof {
                        lemma_product_sign(before.min as int, p);
                    }
                    if negative {
                        self.min_lost = true;
                    } else {
                        self.min = i128::MAX;
                    }
                },
            }
        }
        if !self.max_lost && self.max != i128::MIN {
            let negative: bool = self.max < 0;
            match rescale(self.max, by) {
                Some(max) => {
                    self.max = max;
                },
                None => {
                    proof {
                        lemma_product_sign(before.max as int, p);
                    }
                    if negative {
                        self.max = i128::MIN;
                    } else {
                        self.max_lost = true;
                    }
                },
            }
        }
        self.scale = scale;
    }

    /// Bring an incoming mantissa to the track's scale, widening the track if
    /// the incoming value is finer. Both directions are exact.
    ///
    /// Returns `None` when the aligned mantissa would have more than 38
    /// digits.
    pub fn align(&mut self, mantissa: i128, scale: u8) -> (r: Option<i128>)
        ensures
            scale <= old(self).scale ==> *final(self) == *old(self),
            scale > old(self).scale ==> final(self).widened_from(
                *old(self),
                (scale - old(self).scale) as nat,
            ),
            match r {
                Some(m) => m == exact((mantissa, scale), final(self).scale) && fits(m as int),
                None => !fits(exact((mantissa, scale), final(self).scale)),
            },
    {
        if scale > self.scale {
            self.widen_to(scale);
        }
        rescale(mantissa, self.scale - scale)
    }

    /// Fold one decimal into the sum, the minimum and the maximum. Returns the
    /// mantissa at the track's scale, if 38 digits hold it.
    pub fn fold(&mut self, mantissa: i128, scale: u8) -> (r: Option<i128>)
        ensures
            forall|base: u8, ds: Seq<(i128, u8)>| #[trigger]
                old(self).covers(base, ds) ==> final(self).covers(base, ds.push((mantissa, scale))),
            match r {
                Some(m) => m == exact((mantissa, scale), final(self).scale) && fits(m as int),
                None => !fits(exact((mantissa, scale), final(self).scale)),
            },
            final(self).scale == if scale > old(self).scale {
                scale
            } else {
                old(self).scale
            },
    {
        let ghost before = *self;
        let aligned = self.align(mantissa, scale);
        let ghost middle = *self;
        match aligned {
            Some(m) => {
                match self.sum.checked_add(m) {
                    Some(sum) => {
                        self.sum = sum;
                    },
                    None => {
                        self.overflow = true;
                    },
                }
                if m < self.min {
                    self.min = m;
                }
                if m > self.max {
                    self.max = m;
                }
            },
            None => {
                self.overflow = true;
                if mantissa < 0 {
                    self.min_lost = true;
                } else {
                    self.max_lost = true;
                }
            },
        }
        proof {
            let d = (mantissa, scale);
            lemma_product_sign(mantissa as int, pow10((middle.scale - scale) as nat));
            lemma_pow10_positive((middle.scale - scale) as nat);
            assert forall|base: u8, ds: Seq<(i128, u8)>| #[trigger]
                before.covers(base, ds) implies self.covers(base, ds.push(d)) by {
                lemma_fold_covers(before, middle, *self, base, ds, d);
            }
        }
        aligned
    }

    /// The sum, or `Null` if it overflowed 38 digits.
    pub fn sum_result(&self) -> (r: AggResult)
        ensures
            forall|base: u8, ds: Seq<(i128, u8)>| #[trigger]
                self.covers(base, ds) ==> r == decimal_sum(base, ds),
            r == if self.overflow || self.scale > MAX_DECIMAL_SCALE {
                AggResult::Null
            } else {
                decimal_result(self.sum as int, self.scale)
            },
    {
        if self.overflow || self.scale > MAX_DECIMAL_SCALE || self.sum >= LIMIT || self.sum
            <= -LIMIT {
            return AggResult::Null;
        }
        AggResult::Decimal { mantissa: self.sum, scale: self.scale }
    }

    /// The mean, carried to [`AVG_EXTRA_SCALE`] extra digits and rounded half
    /// away from zero.
    pub fn avg_result(&self, count: u64) -> (r: AggResult)
        ensures
            forall|base: u8, ds: Seq<(i128, u8)>| #[trigger]
                self.covers(base, ds) ==> r == decimal_avg(base, ds, count),
            r == if self.overflow {
                AggResult::Null
            } else {
                decimal_mean(self.sum as int, self.scale, count)
            },
    {
        if self.overflow || count == 0 || self.scale > MAX_DECIMAL_SCALE {
            return AggResult::Null;
        }
        let target: u8 = if self.scale <= MAX_DECIMAL_SCALE - AVG_EXTRA_SCALE {
            self.scale + AVG_EXTRA_SCALE
        } else {
            MAX_DECIMAL_SCALE
        };
        match widen_sum(self.sum, target - self.scale) {
            None => AggResult::Null,
            Some(numerator) => {
                let rounded: i128 = round_divide(numerator, count);
                if rounded >= LIMIT || rounded <= -LIMIT {
                    AggResult::Null
                } else {
                    AggResult::Decimal { mantissa: rounded, scale: target }
                }
            },
        }
    }

    /// One tracked mantissa as a result.
    pub fn at(&self, mantissa: i128) -> (r: AggResult)
        ensures
            r == (AggResult::Decimal { mantissa, scale: self.scale }),
    {
        AggResult::Decimal { mantissa, scale: self.scale }
    }

    /// The minimum.
    pub fn min_result(&self) -> (r: AggResult)
        ensures
            forall|base: u8, ds: Seq<(i128, u8)>| #[trigger]
                self.covers(base, ds) && ds.len() > 0 ==> r == decimal_result(
                    least(ds, self.scale),
                    self.scale,
                ),
            r matches AggResult::Decimal { scale, .. } ==> scale == self.scale,
    {
        let r = if self.min_lost || self.min == i128::MAX {
            AggResult::Null
        } else {
            self.at(self.min)
        };
        proof {
            assert forall|base: u8, ds: Seq<(i128, u8)>| #[trigger]
                self.covers(base, ds) && ds.len() > 0 implies r == decimal_result(
                least(ds, self.scale),
                self.scale,
            ) by {
                lemma_least(ds, self.scale);
                let k = choose|k: int|
                    0 <= k < ds.len() && least(ds, self.scale) == exact(
                        #[trigger] ds[k],
                        self.scale,
                    );
                assert(exact(ds[k], self.scale) == least(ds, self.scale));
            }
        }
        r
    }

    /// The maximum.
    pub fn max_result(&self) -> (r: AggResult)
        ensures
            forall|base: u8, ds: Seq<(i128, u8)>| #[trigger]
                self.covers(base, ds) && ds.len() > 0 ==> r == decimal_result(
                    greatest(ds, self.scale),
                    self.scale,
                ),
            r matches AggResult::Decimal { scale, .. } ==> scale == self.scale,
    {
        let r = if self.max_lost || self.max == i128::MIN {
            AggResult::Null
        } else {
            self.at(self.max)
        };
        proof {
            assert forall|base: u8, ds: Seq<(i128, u8)>| #[trigger]
                self.covers(base, ds) && ds.len() > 0 implies r == decimal_result(
                greatest(ds, self.scale),
                self.scale,
            ) by {
                lemma_greatest(ds, self.scale);
                let k = choose|k: int|
                    0 <= k < ds.len() && greatest(ds, self.scale) == exact(
                        #[trigger] ds[k],
                        self.scale,
                    );
                assert(exact(ds[k], self.scale) == greatest(ds, self.scale));
            }
        }
        r
    }
}

/// A total with `by` more digits, if a 128-bit integer holds it.
fn widen_sum(sum: i128, by: u8) -> (r: Option<i128>)
    ensures
        match r {
            Some(x) => x == sum * pow10(by as nat),
            None => !in_range(sum * pow10(by as nat)),
        },
{
    if sum == 0 {
        return Some(0);
    }
    match power_of_ten(by as u32) {
        None => {
            // More than 38 digits further, a total other than zero has at
            // least 40 digits.
            proof {
                lemma_wide_power(by as nat);
                let p = pow10(by as nat);
                assert(sum * p >= p || sum * p <= -p) by (nonlinear_arith)
                    requires
                        sum != 0,
                        p >= 0,
                ;
            }
            None
        },
        Some(factor) => sum.checked_mul(factor),
    }
}

proof fn lemma_wide_power(by: nat)
    requires
        by > 38,
    ensures
        pow10(by) > i128::MAX + 1,
    decreases by,
{
    if by > 39 {
        lemma_wide_power((by - 1) as nat);
    } else {
        reveal_with_fuel(pow10, 21);
        assert(pow10(19) == 10_000_000_000_000_000_000);
        assert(pow10(39) == 10 * LIMIT);
    }
}

proof fn lemma_product_sign(v: int, p: int)
    ensures
        p >= 1 && v > 0 ==> v * p > 0,
        p >= 1 && v < 0 ==> v * p < 0,
        v == 0 ==> v * p == 0,
{
    assert(p >= 1 && v > 0 ==> v * p > 0) by (nonlinear_arith);
    assert(p >= 1 && v < 0 ==> v * p < 0) by (nonlinear_arith);
    assert(v == 0 ==> v * p == 0) by (nonlinear_arith);
}

/// Widening a track keeps its minimum and maximum those of what it has seen.
proof fn lemma_widening_covers(
    before: DecimalTrack,
    after: DecimalTrack,
    base: u8,
    ds: Seq<(i128, u8)>,
)
    requires
        before.covers(base, ds),
        before.scale <= after.scale,
        after.widened_from(before, (after.scale - before.scale) as nat),
    ensures
        after.covers_min(ds),
        after.covers_max(ds),
{
    let by = (after.scale - before.scale) as nat;
    lemma_top_scale(base, ds);
    lemma_pow10_positive(by);
    assert forall|i: int| 0 <= i < ds.len() implies exact(#[trigger] ds[i], after.scale) == exact(
        ds[i],
        before.scale,
    ) * pow10(by) by {
        lemma_exact_widens(ds[i], before.scale, after.scale);
    }
    assert forall|i: int| 0 <= i < ds.len() implies {
        let x = exact(#[trigger] ds[i], before.scale);
        let y = exact(ds[i], after.scale);
        &&& x >= LIMIT ==> y >= LIMIT
        &&& x <= -LIMIT ==> y <= -LIMIT
        &&& x <= before.min ==> y <= before.min * pow10(by)
        &&& before.min <= x ==> before.min * pow10(by) <= y
        &&& x <= before.max ==> y <= before.max * pow10(by)
        &&& before.max <= x ==> before.max * pow10(by) <= y
    } by {
        let x = exact(ds[i], before.scale);
        lemma_too_long_stays(x, by);
        if x <= before.min {
            lemma_widening_keeps_order(x, before.min as int, by);
        }
        if before.min <= x {
            lemma_widening_keeps_order(before.min as int, x, by);
        }
        if x <= before.max {
            lemma_widening_keeps_order(x, before.max as int, by);
        }
        if before.max <= x {
            lemma_widening_keeps_order(before.max as int, x, by);
        }
    }
}

/// Folding one more decimal into a track that has seen some makes it one that
/// has seen them and this one.
proof fn lemma_fold_covers(
    before: DecimalTrack,
    middle: DecimalTrack,
    after: DecimalTrack,
    base: u8,
    ds: Seq<(i128, u8)>,
    d: (i128, u8),
)
    requires
        before.covers(base, ds),
        d.1 <= before.scale ==> middle == before,
        d.1 > before.scale ==> middle.widened_from(before, (d.1 - before.scale) as nat),
        after.scale == middle.scale,
        ({
            let m = exact(d, middle.scale);
            if fits(m) {
                &&& after.overflow == (middle.overflow || !in_range(middle.sum + m))
                &&& !after.overflow ==> after.sum == middle.sum + m
                &&& after.min == if m < middle.min {
                    m
                } else {
                    middle.min as int
                }
                &&& after.max == if m > middle.max {
                    m
                } else {
                    middle.max as int
                }
                &&& after.min_lost == middle.min_lost
                &&& after.max_lost == middle.max_lost
            } else {
                &&& after.overflow
                &&& after.min == middle.min
                &&& after.max == middle.max
                &&& after.min_lost == (middle.min_lost || m < 0)
                &&& after.max_lost == (middle.max_lost || m > 0)
            }
        }),
    ensures
        after.covers(base, ds.push(d)),
{
    let all = ds.push(d);
    let s = after.scale;
    let m = exact(d, s);
    assert(all.drop_last() =~= ds);
    assert(all.last() == d);
    assert(top_scale(base, all) == s);
    if d.1 > before.scale {
        lemma_widening_covers(before, middle, base, ds);
    } else {
        assert(pow10(0) == 1);
    }
    assert(middle.covers_min(ds));
    assert(middle.covers_max(ds));
    assert(after.covers_sum(base, all));
    let n = ds.len() as int;
    assert(forall|i: int| 0 <= i < n ==> #[trigger] all[i] == ds[i]);
    assert(all[n] == d);
    assert(after.covers_min(all)) by {
        if middle.min_lost {
            let k = choose|k: int| 0 <= k < n && exact(#[trigger] ds[k], s) <= -LIMIT;
            assert(exact(all[k], s) <= -LIMIT);
        } else if !fits(m) && m < 0 {
            assert(exact(all[n], s) <= -LIMIT);
        } else {
            assert forall|i: int| 0 <= i < all.len() implies exact(#[trigger] all[i], s) > -LIMIT by {
                if i < n {
                    assert(all[i] == ds[i]);
                }
            }
            assert forall|i: int|
                0 <= i < all.len() && fits(exact(#[trigger] all[i], s)) implies after.min <= exact(
                all[i],
                s,
            ) by {
                if i < n {
                    assert(all[i] == ds[i]);
                }
            }
            if fits(m) && m < middle.min {
                assert(exact(all[n], s) == after.min);
            } else if middle.min != i128::MAX {
                let k = choose|k: int| 0 <= k < n && exact(#[trigger] ds[k], s) == middle.min;
                assert(exact(all[k], s) == after.min);
            }
        }
    }
    assert(after.covers_max(all)) by {
        if middle.max_lost {
            let k = choose|k: int| 0 <= k < n && exact(#[trigger] ds[k], s) >= LIMIT;
            assert(exact(all[k], s) >= LIMIT);
        } else if !fits(m) && m > 0 {
            assert(exact(all[n], s) >= LIMIT);
        } else {
            assert forall|i: int| 0 <= i < all.len() implies exact(#[trigger] all[i], s) < LIMIT by {
                if i < n {
                    assert(all[i] == ds[i]);
                }
            }
            assert forall|i: int|
                0 <= i < all.len() && fits(exact(#[trigger] all[i], s)) implies after.max >= exact(
                all[i],
                s,
            ) by {
                if i < n {
                    assert(all[i] == ds[i]);
                }
            }
            if fits(m) && m > middle.max {
                assert(exact(all[n], s) == after.max);
            } else if middle.max != i128::MIN {
                let k = choose|k: int| 0 <= k < n && exact(#[trigger] ds[k], s) == middle.max;
                assert(exact(all[k], s) == after.max);
            }
        }
    }
}

} // verus!
