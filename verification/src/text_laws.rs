//! What numerals and lists of identifiers say.
use vstd::prelude::*;

#[allow(unused_imports)]
use crate::text::{decimal, digit, id_items, id_list, signed_decimal};

verus! {

/// The number that a row of decimal digits stands for.
pub open spec fn numeral_value(digits: Seq<char>) -> int
    decreases digits.len(),
{
    if digits.len() == 0 {
        0
    } else {
        10 * numeral_value(digits.drop_last()) + (digits.last() as int - '0' as int)
    }
}

/// The decimal numeral of a number is made of digits, stands for the number, and
/// starts with a zero only if it is zero.
pub proof fn numerals_stand_for_their_numbers(n: nat)
    ensures
        numeral_value(decimal(n)) == n,
        decimal(n).len() > 0,
        forall|i: int|
            0 <= i < decimal(n).len() ==> '0' as int <= #[trigger] decimal(n)[i] as int <= '9' as int,
        n > 0 ==> decimal(n)[0] != '0',
    decreases n,
{
    if n < 10 {
        assert(decimal(n).drop_last() =~= Seq::<char>::empty());
        assert(numeral_value(Seq::<char>::empty()) == 0);
        assert(decimal(n).last() == digit(n));
    } else {
        let rest = decimal(n / 10);
        numerals_stand_for_their_numbers(n / 10);
        assert(decimal(n) == rest.push(digit(n % 10)));
        assert(decimal(n).drop_last() =~= rest);
        assert(decimal(n)[0] == rest[0]);
        assert forall|i: int| 0 <= i < decimal(n).len() implies '0' as int
            <= #[trigger] decimal(n)[i] as int <= '9' as int by {
            if i < rest.len() {
                assert(decimal(n)[i] == rest[i]);
            }
        }
    }
}

/// Different numbers have different numerals, also with a sign.
pub proof fn numerals_differ(a: int, b: int)
    ensures
        a >= 0 && b >= 0 && decimal(a as nat) == decimal(b as nat) ==> a == b,
        signed_decimal(a) == signed_decimal(b) ==> a == b,
        a < 0 ==> signed_decimal(a)[0] == '-',
        a >= 0 ==> signed_decimal(a) == decimal(a as nat),
{
    let x = if a < 0 {
        -a
    } else {
        a
    };
    let y = if b < 0 {
        -b
    } else {
        b
    };
    numerals_stand_for_their_numbers(x as nat);
    numerals_stand_for_their_numbers(y as nat);
    if a < 0 {
        assert(signed_decimal(a).skip(1) =~= decimal(x as nat));
        assert(signed_decimal(a)[0] == '-');
    }
    if b < 0 {
        assert(signed_decimal(b).skip(1) =~= decimal(y as nat));
        assert(signed_decimal(b)[0] == '-');
    }
    if a >= 0 {
        assert('0' as int <= decimal(x as nat)[0] as int);
    }
    if b >= 0 {
        assert('0' as int <= decimal(y as nat)[0] as int);
    }
}

/// A list of identifiers is in brackets, with a comma and a space between two.
pub proof fn lists_are_in_brackets(ids: Seq<u64>, id: u64)
    ensures
        id_list(Seq::empty()) == "["@ + "]"@,
        id_list(seq![id]) == "["@ + decimal(id as nat) + "]"@,
        ids.len() > 0 ==> id_items(ids.push(id)) == id_items(ids) + ", "@ + decimal(id as nat),
        id_list(ids) == "["@ + id_items(ids) + "]"@,
{
    assert("["@ + Seq::<char>::empty() =~= "["@);
    assert(ids.push(id).drop_last() =~= ids);
}

} // verus!
