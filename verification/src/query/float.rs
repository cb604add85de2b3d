//! Double-precision values, carried as their bits.
//!
//! The library moves such values about, tells the not-a-number values from
//! the others, orders the others, finds the one nearest to an integer, and
//! divides those of two integers. It does no other arithmetic on them.
#[allow(unused_imports)]
use vstd::arithmetic::power2::{
    lemma2_to64, lemma2_to64_rest, lemma_pow2_adds, lemma_pow2_pos, lemma_pow2_unfold, pow2,
};
use vstd::prelude::*;

verus! {

/// The bits of a value without its sign.
pub open spec fn magnitude(bits: u64) -> int {
    if bits >= 0x8000_0000_0000_0000 {
        bits - 0x8000_0000_0000_0000
    } else {
        bits as int
    }
}

/// The value is not a number: its magnitude lies beyond that of infinity.
pub open spec fn is_nan(bits: u64) -> bool {
    magnitude(bits) > 0x7ff0_0000_0000_0000
}

/// Where a number stands among the numbers. Both zeros stand at zero.
pub open spec fn rank(bits: u64) -> int {
    if bits >= 0x8000_0000_0000_0000 {
        -magnitude(bits)
    } else {
        magnitude(bits)
    }
}

/// `a` is less than `b`. Nothing is less than, or greater than, what is not a
/// number.
pub open spec fn less(a: u64, b: u64) -> bool {
    !is_nan(a) && !is_nan(b) && rank(a) < rank(b)
}

/// `a` and `b` are the same number. Nothing equals what is not a number.
pub open spec fn same_number(a: u64, b: u64) -> bool {
    !is_nan(a) && !is_nan(b) && rank(a) == rank(b)
}

/// Where a value stands in the total order of all values: negative
/// not-a-number values first, positive ones last, and negative zero before
/// zero.
pub open spec fn total_rank(bits: u64) -> int {
    if bits >= 0x8000_0000_0000_0000 {
        -magnitude(bits) - 1
    } else {
        magnitude(bits)
    }
}

/// `a` comes before `b` in the total order.
pub open spec fn total_less(a: u64, b: u64) -> bool {
    total_rank(a) < total_rank(b)
}

/// Positive infinity.
pub const INFINITY: u64 = 0x7ff0_0000_0000_0000;

/// Negative infinity.
pub const NEG_INFINITY: u64 = 0xfff0_0000_0000_0000;

/// The bits of a value without its sign.
fn magnitude_of(bits: u64) -> (r: u64)
    ensures
        r == magnitude(bits),
{
    if bits >= 0x8000_0000_0000_0000 {
        bits - 0x8000_0000_0000_0000
    } else {
        bits
    }
}

/// Whether a value is not a number.
pub fn not_a_number(bits: u64) -> (r: bool)
    ensures
        r == is_nan(bits),
{
    magnitude_of(bits) > 0x7ff0_0000_0000_0000
}

/// Where a number stands among the numbers.
fn rank_of(bits: u64) -> (r: i64)
    ensures
        r == rank(bits),
{
    if bits >= 0x8000_0000_0000_0000 {
        -((bits - 0x8000_0000_0000_0000) as i64)
    } else {
        bits as i64
    }
}

/// Whether `a` is less than `b`.
pub fn is_less(a: u64, b: u64) -> (r: bool)
    ensures
        r == less(a, b),
{
    !not_a_number(a) && !not_a_number(b) && rank_of(a) < rank_of(b)
}

/// Whether `a` and `b` are the same number.
pub fn is_same_number(a: u64, b: u64) -> (r: bool)
    ensures
        r == same_number(a, b),
{
    !not_a_number(a) && !not_a_number(b) && rank_of(a) == rank_of(b)
}

/// Whether `a` comes before `b` in the total order.
pub fn is_total_less(a: u64, b: u64) -> (r: bool)
    ensures
        r == total_less(a, b),
{
    if a >= 0x8000_0000_0000_0000 {
        b < 0x8000_0000_0000_0000 || a > b
    } else {
        b < 0x8000_0000_0000_0000 && a < b
    }
}

/// The total order tells any two values apart, and agrees with the order of
/// the numbers.
pub proof fn the_total_order_refines_the_numbers(a: u64, b: u64)
    ensures
        a == b || total_less(a, b) || total_less(b, a),
        less(a, b) ==> total_less(a, b),
{
}

/// Of two numbers exactly one is less, or they are the same.
pub proof fn numbers_are_ordered(a: u64, b: u64)
    requires
        !is_nan(a),
        !is_nan(b),
    ensures
        less(a, b) || less(b, a) || same_number(a, b),
        !(less(a, b) && less(b, a)),
        !(less(a, b) && same_number(a, b)),
{
}

/// Every number lies between the infinities.
pub proof fn numbers_lie_between_the_infinities(a: u64)
    requires
        !is_nan(a),
    ensures
        !less(INFINITY, a),
        !less(a, NEG_INFINITY),
{
}

// ---------------------------------------------------------------------------
// Integers
// ---------------------------------------------------------------------------

/// The place of the highest bit that is set in a positive integer.
pub open spec fn top_bit(m: nat) -> nat
    decreases m,
{
    if m < 2 {
        0
    } else {
        1 + top_bit(m / 2)
    }
}

/// A quotient rounded to the nearest integer, and to an even one where it lies
/// half way between two.
pub open spec fn half_even(n: nat, d: nat) -> nat {
    let q = n / d;
    let r = n % d;
    if 2 * r > d || (2 * r == d && q % 2 == 1) {
        q + 1
    } else {
        q
    }
}

/// The 53 leading bits of a positive integer, rounded.
pub open spec fn significand(m: nat) -> nat {
    let e = top_bit(m);
    if e <= 52 {
        m * pow2((52 - e) as nat)
    } else {
        half_even(m, pow2((e - 52) as nat))
    }
}

/// The bits of the value nearest to an integer that is not negative. Where
/// rounding carries beyond the leading bits, it carries into the exponent.
pub open spec fn nearest_bits(m: nat) -> nat {
    if m == 0 {
        0
    } else {
        (top_bit(m) + 1022) as nat * 0x10_0000_0000_0000 + significand(m)
    }
}

/// The value nearest to an integer.
pub open spec fn float_of(v: int) -> u64 {
    if v < 0 {
        (0x8000_0000_0000_0000 + nearest_bits((-v) as nat)) as u64
    } else {
        nearest_bits(v as nat) as u64
    }
}

proof fn lemma_top_bit(m: nat, e: nat)
    requires
        pow2(e) <= m < 2 * pow2(e),
    ensures
        top_bit(m) == e,
    decreases e,
{
    if e == 0 {
        assert(pow2(0) == 1) by {
            lemma2_to64();
        }
    } else {
        let below = (e - 1) as nat;
        lemma_pow2_unfold(e);
        lemma_pow2_pos(below);
        assert(pow2(e) == 2 * pow2(below));
        lemma_top_bit(m / 2, below);
    }
}

/// The bits of the value nearest to a positive integer.
fn nearest_magnitude(m: u128) -> (r: u64)
    requires
        0 < m,
    ensures
        r == nearest_bits(m as nat),
        0x3ff0_0000_0000_0000 <= r <= 0x47f0_0000_0000_0000,
{
    let mut e: u64 = 0;
    let mut p: u128 = 1;
    proof {
        lemma2_to64();
        lemma2_to64_rest();
        lemma_pow2_adds(64, 64);
    }
    while p <= m / 2
        invariant
            0 < m,
            p == pow2(e as nat),
            0 < p <= m,
            e <= 127,
            pow2(64) == 0x1_0000_0000_0000_0000,
            pow2(128) == 0x1_0000_0000_0000_0000 * 0x1_0000_0000_0000_0000,
        decreases m - p,
    {
        proof {
            lemma_pow2_unfold((e + 1) as nat);
            if e + 1 == 128 {
                assert(2 * p > u128::MAX);
            }
        }
        p = p * 2;
        e = e + 1;
    }
    proof {
        lemma_top_bit(m as nat, e as nat);
    }
    let leading: u128 = if e <= 52 {
        let scale: u128 = 0x10_0000_0000_0000 / p;
        proof {
            let rest = (52 - e) as nat;
            lemma_pow2_adds(rest, e as nat);
            lemma_pow2_pos(e as nat);
            let s = pow2(rest) as int;
            assert((s * p) / (p as int) == s) by (nonlinear_arith)
                requires
                    p > 0,
            ;
            assert(scale == s);
            assert(0x10_0000_0000_0000 <= m * s < 0x20_0000_0000_0000) by (nonlinear_arith)
                requires
                    p <= m < 2 * p,
                    s > 0,
                    s * p == 0x10_0000_0000_0000,
            ;
        }
        m * scale
    } else {
        let unit: u128 = p / 0x10_0000_0000_0000;
        proof {
            let rest = (e - 52) as nat;
            lemma_pow2_adds(rest, 52);
            lemma_pow2_pos(rest);
            assert(unit == pow2(rest));
            assert(p == unit * 0x10_0000_0000_0000);
        }
        rounded_part(m, unit)
    };
    (e + 1022) * 0x10_0000_0000_0000 + leading as u64
}

/// A quotient with 53 bits, rounded.
fn rounded_part(n: u128, d: u128) -> (r: u128)
    requires
        0 < d,
        0x10_0000_0000_0000 * d <= n < 0x20_0000_0000_0000 * d,
        d <= u128::MAX / 2,
    ensures
        r == half_even(n as nat, d as nat),
        0x10_0000_0000_0000 <= r <= 0x20_0000_0000_0000,
{
    proof {
        vstd::arithmetic::div_mod::lemma_fundamental_div_mod(n as int, d as int);
        let q = n as int / d as int;
        let rest = n as int % d as int;
        assert(0x10_0000_0000_0000 <= q < 0x20_0000_0000_0000) by (nonlinear_arith)
            requires
                0x10_0000_0000_0000 * d <= n < 0x20_0000_0000_0000 * d,
                n == d * q + rest,
                0 <= rest < d,
                d > 0,
        ;
    }
    let q: u128 = n / d;
    let rest: u128 = n % d;
    if 2 * rest > d || (2 * rest == d && q % 2 == 1) {
        q + 1
    } else {
        q
    }
}

/// The value nearest to an integer.
pub fn nearest_float(v: i128) -> (r: u64)
    ensures
        r == float_of(v as int),
{
    if v == 0 {
        0
    } else if v < 0 {
        0x8000_0000_0000_0000 + nearest_magnitude(magnitude_of_integer(v))
    } else {
        nearest_magnitude(v as u128)
    }
}

fn magnitude_of_integer(v: i128) -> (r: u128)
    requires
        v < 0,
    ensures
        r == -v,
{
    (-(v + 1)) as u128 + 1
}

/// The bits of the value nearest to the quotient of two numbers, given by their
/// bits, of which neither is below one.
pub open spec fn quotient_bits(a: nat, b: nat) -> nat {
    let (sa, ea) = (0x10_0000_0000_0000 + a % 0x10_0000_0000_0000, a / 0x10_0000_0000_0000);
    let (sb, eb) = (0x10_0000_0000_0000 + b % 0x10_0000_0000_0000, b / 0x10_0000_0000_0000);
    if sa >= sb {
        ((ea - eb + 1022) * 0x10_0000_0000_0000 + half_even(sa * 0x10_0000_0000_0000, sb)) as nat
    } else {
        ((ea - eb + 1021) * 0x10_0000_0000_0000 + half_even(sa * 0x20_0000_0000_0000, sb)) as nat
    }
}

/// The value nearest to an integer, divided by the value nearest to a positive
/// one.
pub open spec fn float_ratio(n: int, d: int) -> u64 {
    if n == 0 {
        0
    } else if n < 0 {
        (0x8000_0000_0000_0000 + quotient_bits(nearest_bits((-n) as nat), nearest_bits(d as nat))) as u64
    } else {
        quotient_bits(nearest_bits(n as nat), nearest_bits(d as nat)) as u64
    }
}

fn divide_magnitudes(a: u64, b: u64) -> (r: u64)
    requires
        0x3ff0_0000_0000_0000 <= a <= 0x47f0_0000_0000_0000,
        0x3ff0_0000_0000_0000 <= b <= 0x47f0_0000_0000_0000,
    ensures
        r == quotient_bits(a as nat, b as nat),
        r < 0x8000_0000_0000_0000,
{
    let sa: u128 = 0x10_0000_0000_0000 + (a % 0x10_0000_0000_0000) as u128;
    let sb: u128 = 0x10_0000_0000_0000 + (b % 0x10_0000_0000_0000) as u128;
    let ea: u64 = a / 0x10_0000_0000_0000;
    let eb: u64 = b / 0x10_0000_0000_0000;
    if sa >= sb {
        let leading: u128 = rounded_part(sa * 0x10_0000_0000_0000, sb);
        (ea + 1022 - eb) * 0x10_0000_0000_0000 + leading as u64
    } else {
        let leading: u128 = rounded_part(sa * 0x20_0000_0000_0000, sb);
        (ea + 1021 - eb) * 0x10_0000_0000_0000 + leading as u64
    }
}

/// Divide an integer by a positive one, both as double-precision values.
pub fn divide_as_floats(n: i128, d: i128) -> (r: u64)
    requires
        d > 0,
    ensures
        r == float_ratio(n as int, d as int),
{
    if n == 0 {
        return 0;
    }
    let below: u64 = nearest_magnitude(d as u128);
    if n < 0 {
        0x8000_0000_0000_0000 + divide_magnitudes(nearest_magnitude(magnitude_of_integer(n)), below)
    } else {
        divide_magnitudes(nearest_magnitude(n as u128), below)
    }
}

} // verus!
