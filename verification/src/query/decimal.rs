//! Exact decimal arithmetic: `mantissa × 10⁻ˢᶜᵃˡᵉ`, with at most 38 digits.
use vstd::prelude::*;

use vstd::arithmetic::mul::{
    lemma_mul_inequality, lemma_mul_is_associative, lemma_mul_is_distributive_add_other_way,
};

verus! {

/// Digits of precision of a decimal column.
pub const DECIMAL_PRECISION: u8 = 38;

/// Largest scale of a decimal column.
pub const MAX_DECIMAL_SCALE: u8 = 38;

/// The first mantissa with more than 38 digits.
pub const LIMIT: i128 = 100_000_000_000_000_000_000_000_000_000_000_000_000;

/// Ten to the power of `n`.
pub open spec fn pow10(n: nat) -> int
    decreases n,
{
    if n == 0 {
        1
    } else {
        10 * pow10((n - 1) as nat)
    }
}

/// The mantissa has at most 38 digits.
pub open spec fn fits(mantissa: int) -> bool {
    -LIMIT < mantissa < LIMIT
}

/// A number that a signed 128-bit integer can hold.
pub open spec fn in_range(n: int) -> bool {
    i128::MIN <= n <= i128::MAX
}

/// The mantissa of a decimal, given as mantissa and scale, at a wider scale.
pub open spec fn exact(d: (i128, u8), scale: u8) -> int {
    d.0 * pow10((scale - d.1) as nat)
}

/// Powers of ten are positive.
pub proof fn lemma_pow10_positive(n: nat)
    ensures
        pow10(n) >= 1,
    decreases n,
{
    if n > 0 {
        lemma_pow10_positive((n - 1) as nat);
    }
}

/// A power of a sum is a product of powers.
pub proof fn lemma_pow10_adds(a: nat, b: nat)
    ensures
        pow10(a + b) == pow10(a) * pow10(b),
    decreases a,
{
    if a > 0 {
        lemma_pow10_adds((a - 1) as nat, b);
        assert((a + b - 1) as nat == (a - 1) as nat + b);
        lemma_mul_is_associative(10, pow10((a - 1) as nat), pow10(b));
    } else {
        assert(1 * pow10(b) == pow10(b));
    }
}

pub proof fn lemma_pow10_38()
    ensures
        pow10(38) == LIMIT,
{
    reveal_with_fuel(pow10, 20);
    assert(pow10(19) == 10_000_000_000_000_000_000);
    assert(pow10(38) == LIMIT);
}

proof fn lemma_pow10_grows(a: nat, b: nat)
    requires
        a <= b,
    ensures
        pow10(a) <= pow10(b),
    decreases b,
{
    if a < b {
        lemma_pow10_grows(a, (b - 1) as nat);
        lemma_pow10_positive((b - 1) as nat);
    }
}

/// Ten to the power of `n`, if 38 digits hold it.
pub fn power_of_ten(n: u32) -> (r: Option<i128>)
    ensures
        n <= 38 ==> r == Some(pow10(n as nat) as i128) && 1 <= pow10(n as nat) <= LIMIT,
        n > 38 ==> r is None && pow10(n as nat) > LIMIT,
{
    proof {
        lemma_pow10_38();
    }
    if n > 38 {
        proof {
            lemma_pow10_grows(39, n as nat);
        }
        return None;
    }
    let mut out: i128 = 1;
    let mut i: u32 = 0;
    proof {
        lemma_pow10_grows(0, n as nat);
        lemma_pow10_grows(n as nat, 38);
    }
    while i < n
        invariant
            i <= n <= 38,
            pow10(38) == LIMIT,
            out == pow10(i as nat),
            out >= 1,
        decreases n - i,
    {
        proof {
            lemma_pow10_grows((i + 1) as nat, 38);
        }
        out = out * 10;
        i = i + 1;
    }
    Some(out)
}

/// The mantissa with `by` more digits after the point, if it has at most 38
/// digits.
pub fn rescale(mantissa: i128, by: u8) -> (r: Option<i128>)
    ensures
        match r {
            Some(x) => x == mantissa * pow10(by as nat) && fits(x as int),
            None => !fits(mantissa * pow10(by as nat)),
        },
{
    if mantissa == 0 {
        return Some(0);
    }
    match power_of_ten(by as u32) {
        None => {
            proof {
                let p = pow10(by as nat);
                assert(mantissa * p >= p || mantissa * p <= -p) by (nonlinear_arith)
                    requires
                        mantissa != 0,
                        p >= 0,
                ;
            }
            None
        },
        Some(factor) => match mantissa.checked_mul(factor) {
            Some(x) => if x < LIMIT && x > -LIMIT {
                Some(x)
            } else {
                None
            },
            None => None,
        },
    }
}

/// Widening in two steps is widening in one.
pub proof fn lemma_exact_widens(d: (i128, u8), from: u8, to: u8)
    requires
        d.1 <= from <= to,
    ensures
        exact(d, to) == exact(d, from) * pow10((to - from) as nat),
{
    let a = (from - d.1) as nat;
    let b = (to - from) as nat;
    lemma_pow10_adds(a, b);
    lemma_mul_is_associative(d.0 as int, pow10(a), pow10(b));
    assert((to - d.1) as nat == a + b);
}

/// A mantissa that is too long stays too long at a wider scale.
pub proof fn lemma_too_long_stays(v: int, by: nat)
    ensures
        v >= LIMIT ==> v * pow10(by) >= LIMIT,
        v <= -LIMIT ==> v * pow10(by) <= -LIMIT,
        v > 0 ==> v * pow10(by) > 0,
        v < 0 ==> v * pow10(by) < 0,
{
    lemma_pow10_positive(by);
    let p = pow10(by);
    assert(v > 0 ==> v * p >= v) by (nonlinear_arith)
        requires
            p >= 1,
    ;
    assert(v < 0 ==> v * p <= v) by (nonlinear_arith)
        requires
            p >= 1,
    ;
}

/// Widening keeps the order of mantissas.
pub proof fn lemma_widening_keeps_order(a: int, b: int, by: nat)
    requires
        a <= b,
    ensures
        a * pow10(by) <= b * pow10(by),
{
    lemma_pow10_positive(by);
    lemma_mul_inequality(a, b, pow10(by));
}

/// The widest of `base` and the scales of some decimals.
pub open spec fn top_scale(base: u8, ds: Seq<(i128, u8)>) -> u8
    decreases ds.len(),
{
    if ds.len() == 0 {
        base
    } else if ds.last().1 > top_scale(base, ds.drop_last()) {
        ds.last().1
    } else {
        top_scale(base, ds.drop_last())
    }
}

/// The running total of some decimals, at their widest scale. There is none
/// once a value has more than 38 digits at that scale, or the total leaves the
/// range of a 128-bit integer.
pub open spec fn running_total(base: u8, ds: Seq<(i128, u8)>) -> Option<int>
    decreases ds.len(),
{
    if ds.len() == 0 {
        Some(0)
    } else {
        let scale = top_scale(base, ds);
        let before = top_scale(base, ds.drop_last());
        match running_total(base, ds.drop_last()) {
            None => None,
            Some(total) => {
                let widened = total * pow10((scale - before) as nat);
                let value = exact(ds.last(), scale);
                if in_range(widened) && fits(value) && in_range(widened + value) {
                    Some(widened + value)
                } else {
                    None
                }
            },
        }
    }
}

/// The sum of the exact values of some decimals, at a scale.
pub open spec fn exact_sum(ds: Seq<(i128, u8)>, scale: u8) -> int
    decreases ds.len(),
{
    if ds.len() == 0 {
        0
    } else {
        exact_sum(ds.drop_last(), scale) + exact(ds.last(), scale)
    }
}

/// The least exact value, at a scale.
pub open spec fn least(ds: Seq<(i128, u8)>, scale: u8) -> int
    decreases ds.len(),
{
    if ds.len() <= 1 {
        exact(ds[0], scale)
    } else if exact(ds.last(), scale) < least(ds.drop_last(), scale) {
        exact(ds.last(), scale)
    } else {
        least(ds.drop_last(), scale)
    }
}

/// The greatest exact value, at a scale.
pub open spec fn greatest(ds: Seq<(i128, u8)>, scale: u8) -> int
    decreases ds.len(),
{
    if ds.len() <= 1 {
        exact(ds[0], scale)
    } else if exact(ds.last(), scale) > greatest(ds.drop_last(), scale) {
        exact(ds.last(), scale)
    } else {
        greatest(ds.drop_last(), scale)
    }
}

/// No decimal has a wider scale than the widest.
pub proof fn lemma_top_scale(base: u8, ds: Seq<(i128, u8)>)
    ensures
        base <= top_scale(base, ds),
        forall|i: int| 0 <= i < ds.len() ==> (#[trigger] ds[i]).1 <= top_scale(base, ds),
    decreases ds.len(),
{
    if ds.len() > 0 {
        lemma_top_scale(base, ds.drop_last());
        assert forall|i: int| 0 <= i < ds.len() implies (#[trigger] ds[i]).1 <= top_scale(
            base,
            ds,
        ) by {
            if i < ds.len() - 1 {
                assert(ds[i] == ds.drop_last()[i]);
            }
        }
    }
}

/// The least value is one of the values, and no value is less.
pub proof fn lemma_least(ds: Seq<(i128, u8)>, scale: u8)
    requires
        ds.len() > 0,
    ensures
        forall|i: int| 0 <= i < ds.len() ==> least(ds, scale) <= exact(#[trigger] ds[i], scale),
        exists|i: int| 0 <= i < ds.len() && least(ds, scale) == exact(#[trigger] ds[i], scale),
    decreases ds.len(),
{
    let n = ds.len() - 1;
    if n > 0 {
        lemma_least(ds.drop_last(), scale);
        let k = choose|k: int|
            0 <= k < n && least(ds.drop_last(), scale) == exact(
                #[trigger] ds.drop_last()[k],
                scale,
            );
        assert(ds.drop_last()[k] == ds[k]);
        assert forall|i: int| 0 <= i < ds.len() implies least(ds, scale) <= exact(
            #[trigger] ds[i],
            scale,
        ) by {
            if i < n {
                assert(ds.drop_last()[i] == ds[i]);
            }
        }
        assert(ds[n] == ds.last());
    } else {
        assert(least(ds, scale) == exact(ds[0], scale));
    }
}

/// The greatest value is one of the values, and no value is greater.
pub proof fn lemma_greatest(ds: Seq<(i128, u8)>, scale: u8)
    requires
        ds.len() > 0,
    ensures
        forall|i: int| 0 <= i < ds.len() ==> exact(#[trigger] ds[i], scale) <= greatest(ds, scale),
        exists|i: int| 0 <= i < ds.len() && greatest(ds, scale) == exact(#[trigger] ds[i], scale),
    decreases ds.len(),
{
    let n = ds.len() - 1;
    if n > 0 {
        lemma_greatest(ds.drop_last(), scale);
        let k = choose|k: int|
            0 <= k < n && greatest(ds.drop_last(), scale) == exact(
                #[trigger] ds.drop_last()[k],
                scale,
            );
        assert(ds.drop_last()[k] == ds[k]);
        assert forall|i: int| 0 <= i < ds.len() implies exact(#[trigger] ds[i], scale) <= greatest(
            ds,
            scale,
        ) by {
            if i < n {
                assert(ds.drop_last()[i] == ds[i]);
            }
        }
        assert(ds[n] == ds.last());
    } else {
        assert(greatest(ds, scale) == exact(ds[0], scale));
    }
}

proof fn lemma_exact_sum_widens(base: u8, ds: Seq<(i128, u8)>, from: u8, to: u8)
    requires
        top_scale(base, ds) <= from <= to,
    ensures
        exact_sum(ds, to) == exact_sum(ds, from) * pow10((to - from) as nat),
    decreases ds.len(),
{
    let p = pow10((to - from) as nat);
    if ds.len() > 0 {
        lemma_top_scale(base, ds);
        assert(ds[ds.len() - 1].1 <= from);
        lemma_exact_sum_widens(base, ds.drop_last(), from, to);
        lemma_exact_widens(ds.last(), from, to);
        lemma_mul_is_distributive_add_other_way(
            p,
            exact_sum(ds.drop_last(), from),
            exact(ds.last(), from),
        );
    } else {
        assert(0 * p == 0);
    }
}

/// A running total, as long as there is one, is the exact sum of the values.
pub proof fn a_decimal_total_is_exact(base: u8, ds: Seq<(i128, u8)>)
    ensures
        running_total(base, ds) matches Some(total) ==> total == exact_sum(
            ds,
            top_scale(base, ds),
        ),
    decreases ds.len(),
{
    if ds.len() > 0 && running_total(base, ds) is Some {
        a_decimal_total_is_exact(base, ds.drop_last());
        lemma_top_scale(base, ds);
        lemma_exact_sum_widens(
            base,
            ds.drop_last(),
            top_scale(base, ds.drop_last()),
            top_scale(base, ds),
        );
    }
}

/// The whole number nearest to `n / d`, where halves go away from zero.
pub open spec fn rounded_quotient(n: int, d: int) -> int {
    if n >= 0 {
        (2 * n + d) / (2 * d)
    } else {
        -((2 * (-n) + d) / (2 * d))
    }
}

/// The rounded quotient is at most half a unit away from the quotient, and a
/// quotient that lies halfway is rounded away from zero.
pub proof fn rounding_is_to_nearest(n: int, d: int)
    requires
        d > 0,
    ensures
        2 * (n - rounded_quotient(n, d) * d) <= d,
        -d <= 2 * (n - rounded_quotient(n, d) * d),
        n >= 0 ==> 2 * (n - rounded_quotient(n, d) * d) < d,
        n < 0 ==> -d < 2 * (n - rounded_quotient(n, d) * d),
{
    let a = if n >= 0 {
        n
    } else {
        -n
    };
    let top = 2 * a + d;
    let q = top / (2 * d);
    vstd::arithmetic::div_mod::lemma_fundamental_div_mod(top, 2 * d);
    assert(2 * d * q == 2 * (q * d)) by (nonlinear_arith);
    assert(-q * d == -(q * d)) by (nonlinear_arith);
}

/// Divide, rounding halves away from zero.
pub fn round_divide(n: i128, d: u64) -> (r: i128)
    requires
        d > 0,
    ensures
        r == rounded_quotient(n as int, d as int),
{
    let negative: bool = n < 0;
    let size: u128 = if n == i128::MIN {
        0x8000_0000_0000_0000_0000_0000_0000_0000
    } else if negative {
        (-n) as u128
    } else {
        n as u128
    };
    let quotient: u128 = size / (d as u128);
    let rest: u128 = size % (d as u128);
    let up: bool = 2 * rest >= d as u128;
    proof {
        let a = size as int;
        let dd = d as int;
        vstd::arithmetic::div_mod::lemma_fundamental_div_mod(a, dd);
        let q = a / dd;
        let rem = a % dd;
        let want = q + if up {
            1int
        } else {
            0int
        };
        let off = 2 * rem + dd - if up {
            2 * dd
        } else {
            0int
        };
        assert(2 * a + dd == want * (2 * dd) + off) by (nonlinear_arith)
            requires
                a == dd * q + rem,
                want == q + if up {
                    1int
                } else {
                    0int
                },
                off == 2 * rem + dd - if up {
                    2 * dd
                } else {
                    0int
                },
        ;
        vstd::arithmetic::div_mod::lemma_fundamental_div_mod_converse(
            2 * a + dd,
            2 * dd,
            want,
            off,
        );
        assert(q <= a) by (nonlinear_arith)
            requires
                a == dd * q + rem,
                rem >= 0,
                dd >= 1,
                q >= 0,
        ;
        assert(up && dd == 1 ==> false);
        assert(up ==> q + 1 <= a) by (nonlinear_arith)
            requires
                a == dd * q + rem,
                0 <= rem < dd,
                dd >= 1,
                q >= 0,
                up ==> 2 * rem >= dd,
        ;
    }
    let total: u128 = if up {
        quotient + 1
    } else {
        quotient
    };
    if negative {
        if total == 0x8000_0000_0000_0000_0000_0000_0000_0000 {
            i128::MIN
        } else {
            -(total as i128)
        }
    } else {
        total as i128
    }
}

} // verus!
