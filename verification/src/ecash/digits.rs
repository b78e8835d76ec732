//! Numbers as sequences of digits, least significant digit first.

use vstd::prelude::*;
use vstd::arithmetic::div_mod::*;
use vstd::arithmetic::mul::*;
use vstd::arithmetic::power::*;

verus! {

/// The number that has these digits.
pub open spec fn value(digits: Seq<nat>, base: nat) -> nat
    decreases digits.len(),
{
    if digits.len() == 0 {
        0
    } else {
        digits[0] + base * value(digits.skip(1), base)
    }
}

/// The digit at a place of a number.
pub open spec fn digit(v: nat, base: nat, place: nat) -> nat {
    ((v as int / pow(base as int, place)) % (base as int)) as nat
}

/// Every digit is below the base.
pub open spec fn digits_below(digits: Seq<nat>, base: nat) -> bool {
    forall|i: int| 0 <= i < digits.len() ==> #[trigger] digits[i] < base
}

/// The digits of the bytes of a little-endian encoding.
pub open spec fn byte_digits(bytes: Seq<u8>) -> Seq<nat> {
    bytes.map_values(|b: u8| b as nat)
}

/// The number that a little-endian encoding stands for.
pub open spec fn le_value(bytes: Seq<u8>) -> nat {
    value(byte_digits(bytes), 256)
}

pub proof fn lemma_value_bound(digits: Seq<nat>, base: nat)
    requires
        base > 0,
        digits_below(digits, base),
    ensures
        value(digits, base) < pow(base as int, digits.len()),
    decreases digits.len(),
{
    reveal(pow);
    if digits.len() > 0 {
        let rest = digits.skip(1);
        let w = pow(base as int, rest.len());
        lemma_value_bound(rest, base);
        assert(digits[0] + base * value(rest, base) < base * w) by (nonlinear_arith)
            requires
                digits[0] < base,
                value(rest, base) + 1 <= w,
        ;
    }
}

pub proof fn lemma_value_append(low: Seq<nat>, high: Seq<nat>, base: nat)
    ensures
        value(low + high, base) == value(low, base) + pow(base as int, low.len()) * value(
            high,
            base,
        ),
    decreases low.len(),
{
    reveal(pow);
    if low.len() == 0 {
        assert(low + high =~= high);
        lemma_pow0(base as int);
        lemma_mul_basics(value(high, base) as int);
    } else {
        let rest = low.skip(1);
        assert((low + high).skip(1) =~= rest + high);
        lemma_value_append(rest, high, base);
        let w = pow(base as int, rest.len());
        let h = value(high, base);
        assert(base * (value(rest, base) + w * h) == base * value(rest, base) + (base * w) * h)
            by (nonlinear_arith);
    }
}

pub proof fn lemma_digit(digits: Seq<nat>, base: nat, place: nat)
    requires
        base > 0,
        digits_below(digits, base),
        place < digits.len(),
    ensures
        digit(value(digits, base), base, place) == digits[place as int],
    decreases place,
{
    let v = value(digits, base) as int;
    let b = base as int;
    let rest = value(digits.skip(1), base) as int;
    lemma_mul_is_commutative(b, rest);
    lemma_fundamental_div_mod_converse(v, b, rest, digits[0] as int);
    if place == 0 {
        lemma_pow0(b);
        lemma_div_basics(v);
    } else {
        let j = (place - 1) as nat;
        lemma_digit(digits.skip(1), base, j);
        lemma_pow_positive(b, j);
        assert(pow(b, place) == b * pow(b, j)) by {
            reveal(pow);
        }
        lemma_div_denominator(v, b, pow(b, j));
    }
}

pub proof fn lemma_update(digits: Seq<nat>, base: nat, place: int, x: nat)
    requires
        0 <= place < digits.len(),
    ensures
        value(digits.update(place, x), base) == value(digits, base) + (x - digits[place]) * pow(
            base as int,
            place as nat,
        ),
    decreases place,
{
    let new = digits.update(place, x);
    if place == 0 {
        lemma_pow0(base as int);
        assert(new.skip(1) =~= digits.skip(1));
        lemma_mul_basics(x - digits[place]);
    } else {
        let rest = digits.skip(1);
        assert(new.skip(1) =~= rest.update(place - 1, x));
        lemma_update(rest, base, place - 1, x);
        assert(pow(base as int, place as nat) == base * pow(base as int, (place - 1) as nat)) by {
            reveal(pow);
        }
        let d = x - digits[place];
        let w = pow(base as int, (place - 1) as nat);
        assert(base * (value(rest, base) + d * w) == base * value(rest, base) + d * (base * w))
            by (nonlinear_arith);
    }
}

/// A number is the value of its digits.
pub proof fn lemma_value_of_digits(v: nat, base: nat, digits: Seq<nat>)
    requires
        base > 0,
        v < pow(base as int, digits.len()),
        forall|i: int| 0 <= i < digits.len() ==> #[trigger] digits[i] == digit(v, base, i as nat),
    ensures
        value(digits, base) == v,
    decreases digits.len(),
{
    let b = base as int;
    lemma_pow0(b);
    if digits.len() > 0 {
        let rest = digits.skip(1);
        let h = (v / base) as int;
        let w = pow(b, rest.len());
        assert(pow(b, digits.len()) == b * w) by {
            reveal(pow);
        }
        lemma_fundamental_div_mod(v as int, b);
        assert(h < w) by (nonlinear_arith)
            requires
                v < b * w,
                v as int == b * h + (v as int) % b,
                (v as int) % b >= 0,
                b > 0,
        ;
        assert forall|i: int| 0 <= i < rest.len() implies #[trigger] rest[i] == digit(
            h as nat,
            base,
            i as nat,
        ) by {
            assert(rest[i] == digits[i + 1]);
            lemma_pow_positive(b, i as nat);
            assert(pow(b, (i + 1) as nat) == b * pow(b, i as nat)) by {
                reveal(pow);
            }
            lemma_div_denominator(v as int, b, pow(b, i as nat));
        }
        lemma_value_of_digits(h as nat, base, rest);
        assert(digits[0] == digit(v, base, 0));
        lemma_div_basics(v as int);
    }
}

/// A little-endian encoding is a big-endian one read backwards.
pub proof fn lemma_le_value_is_reversed(bytes: Seq<u8>)
    ensures
        le_value(bytes) == crate::bytes::be_value(bytes.reverse()),
    decreases bytes.len(),
{
    let back = bytes.reverse();
    if bytes.len() > 0 {
        lemma_le_value_is_reversed(bytes.skip(1));
        assert(byte_digits(bytes).skip(1) =~= byte_digits(bytes.skip(1)));
        assert(back.drop_last() =~= bytes.skip(1).reverse());
        assert(back.last() == bytes[0]);
    } else {
        assert(back.len() == 0);
    }
}

} // verus!
