//! The orders that results go by: of texts, of group keys and of floats.
use vstd::prelude::*;

#[allow(unused_imports)]
use crate::query::float::{is_nan, less, same_number, total_less};
#[allow(unused_imports)]
use crate::query::grouping::GroupKey;
#[allow(unused_imports)]
use crate::query::row_encoding::key_before;
#[allow(unused_imports)]
use crate::text::text_before;

verus! {

// ---------------------------------------------------------------------------
// Texts and keys
// ---------------------------------------------------------------------------

/// The texts agree up to the `k`-th character, where `a` ends first or has the
/// smaller character.
pub open spec fn falls_behind_at(a: Seq<char>, b: Seq<char>, k: int) -> bool {
    &&& 0 <= k <= a.len()
    &&& k < b.len()
    &&& a.take(k) == b.take(k)
    &&& k == a.len() || (a[k] as int) < (b[k] as int)
}

/// One text comes before another just if it ends first, or has the smaller
/// character, where they first differ.
pub proof fn texts_are_ordered_by_their_first_difference(a: Seq<char>, b: Seq<char>)
    ensures
        text_before(a, b) <==> exists|k: int| #[trigger] falls_behind_at(a, b, k),
    decreases a.len(),
{
    if b.len() > 0 && a.len() > 0 && a[0] == b[0] {
        let x = a.drop_first();
        let y = b.drop_first();
        texts_are_ordered_by_their_first_difference(x, y);
        if text_before(x, y) {
            let k = choose|k: int| #[trigger] falls_behind_at(x, y, k);
            assert(a.take(k + 1) =~= seq![a[0]] + x.take(k));
            assert(b.take(k + 1) =~= seq![b[0]] + y.take(k));
            assert(falls_behind_at(a, b, k + 1));
        }
        if exists|k: int| #[trigger] falls_behind_at(a, b, k) {
            let k = choose|k: int| #[trigger] falls_behind_at(a, b, k);
            assert(k > 0);
            assert(x.take(k - 1) =~= a.take(k).drop_first());
            assert(y.take(k - 1) =~= b.take(k).drop_first());
            assert(falls_behind_at(x, y, k - 1));
        }
    } else if b.len() > 0 {
        if text_before(a, b) {
            assert(a.take(0) =~= b.take(0));
            assert(falls_behind_at(a, b, 0));
        }
        if exists|k: int| #[trigger] falls_behind_at(a, b, k) {
            let k = choose|k: int| #[trigger] falls_behind_at(a, b, k);
            if k > 0 {
                assert(a.take(k)[0] == b.take(k)[0]);
            }
        }
    }
}

/// The keys agree up to the `k`-th part, where `a` has the null, or the text
/// that comes first.
pub open spec fn key_falls_behind_at(a: GroupKey, b: GroupKey, k: int) -> bool {
    &&& 0 <= k < a.len()
    &&& k < b.len()
    &&& a.take(k) == b.take(k)
    &&& match (a[k], b[k]) {
        (None, Some(_)) => true,
        (Some(x), Some(y)) => text_before(x, y),
        _ => false,
    }
}

/// One key comes before another of as many parts just if the first part in which
/// they differ is null in it alone, or holds the text that comes first.
pub proof fn keys_are_ordered_by_their_first_difference(a: GroupKey, b: GroupKey)
    requires
        a.len() == b.len(),
    ensures
        key_before(a, b) <==> exists|k: int| #[trigger] key_falls_behind_at(a, b, k),
    decreases a.len(),
{
    if a.len() > 0 && a[0] == b[0] {
        let x = a.skip(1);
        let y = b.skip(1);
        keys_are_ordered_by_their_first_difference(x, y);
        if key_before(x, y) {
            let k = choose|k: int| #[trigger] key_falls_behind_at(x, y, k);
            assert(a.take(k + 1) =~= seq![a[0]] + x.take(k));
            assert(b.take(k + 1) =~= seq![b[0]] + y.take(k));
            assert(key_falls_behind_at(a, b, k + 1));
        }
        if exists|k: int| #[trigger] key_falls_behind_at(a, b, k) {
            let k = choose|k: int| #[trigger] key_falls_behind_at(a, b, k);
            if k == 0 {
                if let Some(t) = a[0] {
                    crate::text::lemma_text_before_irreflexive(t);
                }
            }
            assert(x.take(k - 1) =~= a.take(k).skip(1));
            assert(y.take(k - 1) =~= b.take(k).skip(1));
            assert(key_falls_behind_at(x, y, k - 1));
        }
    } else if a.len() > 0 {
        if key_before(a, b) {
            assert(a.take(0) =~= b.take(0));
            assert(key_falls_behind_at(a, b, 0));
        }
        if exists|k: int| #[trigger] key_falls_behind_at(a, b, k) {
            let k = choose|k: int| #[trigger] key_falls_behind_at(a, b, k);
            if k > 0 {
                assert(a.take(k)[0] == b.take(k)[0]);
            }
        }
    }
}

// ---------------------------------------------------------------------------
// Floats
// ---------------------------------------------------------------------------

/// The value with its sign turned.
pub open spec fn negated(bits: u64) -> u64 {
    if bits >= 0x8000_0000_0000_0000 {
        (bits - 0x8000_0000_0000_0000) as u64
    } else {
        (bits + 0x8000_0000_0000_0000) as u64
    }
}

/// Not a number is what has all bits of the exponent and one of the fraction.
pub proof fn not_a_number_is_told_by_its_bits(bits: u64)
    ensures
        is_nan(bits) <==> (bits / 0x10_0000_0000_0000) % 2048 == 2047 && bits % 0x10_0000_0000_0000
            != 0,
{
}

/// Positive numbers are ordered as their bits, turning the signs turns the
/// order, a negative number is less than a positive one, and the two zeros are
/// the same.
pub proof fn floats_are_ordered_as_numbers(a: u64, b: u64)
    requires
        !is_nan(a),
        !is_nan(b),
    ensures
        a < 0x8000_0000_0000_0000 && b < 0x8000_0000_0000_0000 ==> (less(a, b) <==> a < b),
        less(negated(a), negated(b)) <==> less(b, a),
        a > 0x8000_0000_0000_0000 && b < 0x8000_0000_0000_0000 ==> less(a, b),
        a >= 0x8000_0000_0000_0000 && 0 < b < 0x8000_0000_0000_0000 ==> less(a, b),
        same_number(0, 0x8000_0000_0000_0000),
        !less(0, 0x8000_0000_0000_0000) && !less(0x8000_0000_0000_0000, 0),
        same_number(a, b) <==> !less(a, b) && !less(b, a),
{
}

/// Nothing is less than, greater than, or the same as what is not a number.
pub proof fn what_is_not_a_number_is_not_ordered(a: u64, b: u64)
    requires
        is_nan(a),
    ensures
        !less(a, b),
        !less(b, a),
        !same_number(a, b),
{
}

/// In the total order positive values are ordered as their bits, turning the
/// signs turns the order, and every negative value comes before every positive
/// one: negative zero before zero, what is not a number beyond the infinities.
pub proof fn the_total_order_goes_by_sign_and_bits(a: u64, b: u64)
    ensures
        a < 0x8000_0000_0000_0000 && b < 0x8000_0000_0000_0000 ==> (total_less(a, b) <==> a < b),
        total_less(negated(a), negated(b)) <==> total_less(b, a),
        a >= 0x8000_0000_0000_0000 && b < 0x8000_0000_0000_0000 ==> total_less(a, b),
{
}

} // verus!
