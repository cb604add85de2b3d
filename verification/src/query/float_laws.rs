//! How near the values that stand for integers and their quotients are.
#[allow(unused_imports)]
use vstd::arithmetic::power2::{
    lemma2_to64, lemma2_to64_rest, lemma_pow2_adds, lemma_pow2_pos, lemma_pow2_strictly_increases,
    lemma_pow2_unfold, pow2,
};
use vstd::prelude::*;

#[allow(unused_imports)]
use crate::query::float::{
    float_of, float_ratio, half_even, nearest_bits, quotient_bits, significand, top_bit,
};

verus! {

/// The leading bits of a positive normal value, as an integer with 53 bits.
pub open spec fn leading(bits: u64) -> int {
    0x10_0000_0000_0000 + bits % 0x10_0000_0000_0000
}

/// The power of two that such a value starts at: the value is its leading bits
/// times two to this power less 52.
pub open spec fn exponent(bits: u64) -> int {
    bits / 0x10_0000_0000_0000 - 1023
}

/// The positive value is the one nearest to the integer: the same where its last
/// bit counts for one or less, and else at most half of what that bit counts for
/// away, with an even last bit half way between two.
pub open spec fn is_nearest(v: int, bits: u64) -> bool {
    let x = exponent(bits);
    let s = leading(bits);
    let unit = pow2((x - 52) as nat) as int;
    &&& 0 <= x
    &&& x <= 52 ==> s == v * pow2((52 - x) as nat)
    &&& x > 52 ==> -unit <= 2 * (v - s * unit) <= unit
    &&& x > 52 && (2 * (v - s * unit) == unit || 2 * (v - s * unit) == -unit) ==> s % 2 == 0
}

proof fn lemma_half_even(n: nat, d: nat)
    requires
        d > 0,
    ensures
        ({
            let q = half_even(n, d) as int;
            &&& -(d as int) <= 2 * (n - q * d) <= d
            &&& 2 * (n - q * d) == d || 2 * (n - q * d) == -(d as int) ==> q % 2 == 0
        }),
{
    vstd::arithmetic::div_mod::lemma_fundamental_div_mod(n as int, d as int);
    let q0 = n as int / d as int;
    let r = n as int % d as int;
    assert(q0 * d == d * q0) by (nonlinear_arith);
    assert((q0 + 1) * d == q0 * d + d) by (nonlinear_arith);
}

proof fn lemma_top_bit_bounds(m: nat)
    requires
        m > 0,
    ensures
        pow2(top_bit(m)) <= m < 2 * pow2(top_bit(m)),
    decreases m,
{
    lemma2_to64();
    if m >= 2 {
        lemma_top_bit_bounds(m / 2);
        lemma_pow2_unfold(top_bit(m));
    }
}

/// The value that stands for an integer is the one nearest to it. That of a
/// negative one differs in the sign alone, and zero stands for itself.
pub proof fn integers_are_held_as_the_nearest_values(v: int)
    requires
        0 < v < 0x1_0000_0000_0000_0000 * 0x1_0000_0000_0000_0000,
    ensures
        is_nearest(v, float_of(v)),
        float_of(v) < 0x8000_0000_0000_0000,
        float_of(-v) == 0x8000_0000_0000_0000 + float_of(v),
        float_of(0) == 0,
{
    let m = v as nat;
    let e = top_bit(m);
    lemma_top_bit_bounds(m);
    lemma2_to64();
    lemma2_to64_rest();
    lemma_pow2_adds(64, 64);
    if e >= 128 {
        if e > 128 {
            lemma_pow2_strictly_increases(128, e);
        }
        assert(false);
    }
    let s = significand(m);
    assert(0x10_0000_0000_0000 <= s <= 0x20_0000_0000_0000) by {
        if e <= 52 {
            let rest = (52 - e) as nat;
            lemma_pow2_adds(rest, e);
            lemma_pow2_pos(rest);
            let k = pow2(rest) as int;
            let p = pow2(e) as int;
            assert(0x10_0000_0000_0000 <= m * k < 0x20_0000_0000_0000) by (nonlinear_arith)
                requires
                    p <= m < 2 * p,
                    k > 0,
                    k * p == 0x10_0000_0000_0000,
            ;
        } else {
            let rest = (e - 52) as nat;
            lemma_pow2_adds(rest, 52);
            lemma_pow2_pos(rest);
            let u = pow2(rest) as int;
            lemma_half_even(m, pow2(rest));
            assert(0x10_0000_0000_0000 * u <= m < 0x20_0000_0000_0000 * u);
            assert(0x10_0000_0000_0000 <= s <= 0x20_0000_0000_0000) by (nonlinear_arith)
                requires
                    0x10_0000_0000_0000 * u <= m < 0x20_0000_0000_0000 * u,
                    -u <= 2 * (m - s * u) <= u,
                    u > 0,
            ;
        }
    }
    let bits = ((e + 1022) * 0x10_0000_0000_0000 + s) as int;
    assert(nearest_bits(m) == bits);
    assert(0 <= bits < 0x8000_0000_0000_0000);
    assert(float_of(v) == bits);
    let x = exponent(float_of(v));
    let lead = leading(float_of(v));
    if s < 0x20_0000_0000_0000 {
        assert(bits == (e + 1023) * 0x10_0000_0000_0000 + (s - 0x10_0000_0000_0000));
        assert(x == e);
        assert(lead == s);
        if e > 52 {
            lemma_pow2_pos((e - 52) as nat);
            lemma_half_even(m, pow2((e - 52) as nat));
        }
    } else {
        assert(bits == (e + 1024) * 0x10_0000_0000_0000);
        assert(x == e + 1);
        assert(lead == 0x10_0000_0000_0000);
        if e <= 52 {
            let rest = (52 - e) as nat;
            lemma_pow2_adds(rest, e);
            lemma_pow2_pos(rest);
            let k = pow2(rest) as int;
            let p = pow2(e) as int;
            assert(m * k < 0x20_0000_0000_0000) by (nonlinear_arith)
                requires
                    p <= m < 2 * p,
                    k > 0,
                    k * p == 0x10_0000_0000_0000,
            ;
            assert(false);
        } else {
            let u = pow2((e - 52) as nat) as int;
            lemma_pow2_pos((e - 52) as nat);
            lemma_half_even(m, pow2((e - 52) as nat));
            lemma_pow2_unfold((x - 52) as nat);
            assert(pow2((x - 52) as nat) == 2 * u);
            assert(lead * (2 * u) == s * u) by (nonlinear_arith)
                requires
                    lead == 0x10_0000_0000_0000,
                    s == 0x20_0000_0000_0000,
            ;
        }
    }
}

/// The positive value is the one nearest to the quotient of two others that are
/// not below one: it is at most half of what its last bit counts for away.
pub open spec fn is_nearest_quotient(a: u64, b: u64, r: u64) -> bool {
    let k = exponent(r) - exponent(a) + exponent(b);
    let step = pow2((k + 1) as nat) as int;
    &&& -1 <= k <= 1
    &&& -(leading(b) * step) <= 2 * (leading(r) * step * leading(b) - leading(a)
        * 0x20_0000_0000_0000) <= leading(b) * step
}

proof fn lemma_quotient(a: u64, b: u64)
    requires
        0x3ff0_0000_0000_0000 <= a <= 0x47f0_0000_0000_0000,
        0x3ff0_0000_0000_0000 <= b <= 0x47f0_0000_0000_0000,
    ensures
        quotient_bits(a as nat, b as nat) < 0x8000_0000_0000_0000,
        is_nearest_quotient(a, b, quotient_bits(a as nat, b as nat) as u64),
{
    let sa = leading(a);
    let sb = leading(b);
    let ea = a as int / 0x10_0000_0000_0000;
    let eb = b as int / 0x10_0000_0000_0000;
    lemma2_to64();
    let (n, base) = if sa >= sb {
        (sa * 0x10_0000_0000_0000, ea - eb + 1022)
    } else {
        (sa * 0x20_0000_0000_0000, ea - eb + 1021)
    };
    let s = half_even(n as nat, sb as nat) as int;
    lemma_half_even(n as nat, sb as nat);
    assert(0x10_0000_0000_0000 <= s <= 0x20_0000_0000_0000) by {
        assert(0x10_0000_0000_0000 * sb <= n < 0x20_0000_0000_0000 * sb);
        assert(0x10_0000_0000_0000 <= s <= 0x20_0000_0000_0000) by (nonlinear_arith)
            requires
                0x10_0000_0000_0000 * sb <= n < 0x20_0000_0000_0000 * sb,
                -sb <= 2 * (n - s * sb) <= sb,
                sb > 0,
        ;
    }
    let bits = base * 0x10_0000_0000_0000 + s;
    assert(quotient_bits(a as nat, b as nat) == bits);
    let r = bits as u64;
    let k = exponent(r) - exponent(a) + exponent(b);
    let step = pow2((k + 1) as nat) as int;
    let lead = leading(r);
    if s < 0x20_0000_0000_0000 {
        assert(exponent(r) == base + 1 - 1023);
        assert(lead == s);
    } else {
        assert(exponent(r) == base + 2 - 1023);
        assert(lead == 0x10_0000_0000_0000);
    }
    assert(pow2(0) == 1 && pow2(1) == 2 && pow2(2) == 4);
    // What the quotient's last bit counts for, against that of the rounding.
    let (c, t) = if sa >= sb {
        (2int, step / 2)
    } else {
        (1int, step)
    };
    assert(step == c * t);
    if s < 0x20_0000_0000_0000 {
        assert(t == 1);
    } else {
        assert(t == 2);
    }
    assert(lead * t == s) by (nonlinear_arith)
        requires
            (t == 1 && lead == s) || (t == 2 && 2 * lead == s),
    ;
    assert(lead * step * sb == c * (s * sb)) by (nonlinear_arith)
        requires
            step == c * t,
            lead * t == s,
    ;
    assert(sa * 0x20_0000_0000_0000 == c * n);
    let miss = s * sb - n;
    assert(2 * (lead * step * sb - sa * 0x20_0000_0000_0000) == c * (2 * miss)) by (nonlinear_arith)
        requires
            lead * step * sb == c * (s * sb),
            sa * 0x20_0000_0000_0000 == c * n,
            miss == s * sb - n,
    ;
    assert(sb * step >= c * sb) by (nonlinear_arith)
        requires
            step == c * t,
            t >= 1,
            c >= 1,
            sb > 0,
    ;
    assert(-(c * sb) <= c * (2 * miss) <= c * sb) by (nonlinear_arith)
        requires
            -sb <= 2 * miss <= sb,
            c >= 1,
    ;
}

/// The ratio of two integers is the value nearest to the quotient of the values
/// that stand for them. That of a negative one differs in the sign alone, and
/// that of zero is zero.
pub proof fn ratios_are_the_nearest_quotients(n: int, d: int)
    requires
        0 < n < 0x1_0000_0000_0000_0000 * 0x1_0000_0000_0000_0000,
        0 < d < 0x1_0000_0000_0000_0000 * 0x1_0000_0000_0000_0000,
    ensures
        is_nearest_quotient(float_of(n), float_of(d), float_ratio(n, d)),
        float_ratio(n, d) < 0x8000_0000_0000_0000,
        float_ratio(-n, d) == 0x8000_0000_0000_0000 + float_ratio(n, d),
        float_ratio(0, d) == 0,
{
    integers_are_held_as_the_nearest_values(n);
    integers_are_held_as_the_nearest_values(d);
    lemma_bits_range(n as nat);
    lemma_bits_range(d as nat);
    lemma_quotient(float_of(n), float_of(d));
}

proof fn lemma_bits_range(m: nat)
    requires
        0 < m < 0x1_0000_0000_0000_0000 * 0x1_0000_0000_0000_0000,
    ensures
        0x3ff0_0000_0000_0000 <= nearest_bits(m) <= 0x47f0_0000_0000_0000,
{
    let e = top_bit(m);
    lemma_top_bit_bounds(m);
    lemma2_to64();
    lemma2_to64_rest();
    lemma_pow2_adds(64, 64);
    if e >= 128 {
        if e > 128 {
            lemma_pow2_strictly_increases(128, e);
        }
        assert(false);
    }
    let s = significand(m);
    if e <= 52 {
        let rest = (52 - e) as nat;
        lemma_pow2_adds(rest, e);
        lemma_pow2_pos(rest);
        let k = pow2(rest) as int;
        let p = pow2(e) as int;
        assert(0x10_0000_0000_0000 <= m * k < 0x20_0000_0000_0000) by (nonlinear_arith)
            requires
                p <= m < 2 * p,
                k > 0,
                k * p == 0x10_0000_0000_0000,
        ;
    } else {
        let rest = (e - 52) as nat;
        lemma_pow2_adds(rest, 52);
        lemma_pow2_pos(rest);
        let u = pow2(rest) as int;
        lemma_half_even(m, pow2(rest));
        assert(0x10_0000_0000_0000 * u <= m < 0x20_0000_0000_0000 * u);
        assert(0x10_0000_0000_0000 <= s <= 0x20_0000_0000_0000) by (nonlinear_arith)
            requires
                0x10_0000_0000_0000 * u <= m < 0x20_0000_0000_0000 * u,
                -u <= 2 * (m - s * u) <= u,
                u > 0,
        ;
    }
}

} // verus!
