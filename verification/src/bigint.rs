//! Arbitrary precision integers, as the `rug` crate provides them.
//!
//! An `Integer` is opaque to the verifier. What it holds has the name
//! [`integer_value`], and each operation that the arbitrary precision backend
//! uses is declared here with what it does to that value. None of these
//! declarations is proved: they restate the documentation of `rug`.
use rug::Integer;
use vstd::arithmetic::power2::pow2;
use vstd::prelude::*;

verus! {

/// `rug::Integer`, which the verifier takes as a type it cannot look into.
#[verifier::external_type_specification]
#[verifier::external_body]
pub struct ExInteger(Integer);

/// The mathematical integer that an arbitrary precision integer holds.
pub uninterp spec fn integer_value(i: &Integer) -> int;

/// The remainder of a division that rounds its quotient towards zero: it has
/// the sign of the dividend.
pub open spec fn truncated_rem(a: int, b: int) -> int {
    if a >= 0 {
        a % b
    } else {
        -((-a) % b)
    }
}

/// Bit `index` of `a` in two's complement.
pub open spec fn bit_of(a: int, index: nat) -> bool {
    (a / (pow2(index) as int)) % 2 == 1
}

/// The bitwise and of two natural numbers: bit by bit from the lowest one, a
/// bit of the result is set where it is set in both.
pub open spec fn bit_and(a: nat, b: nat) -> nat
    decreases a,
{
    if a == 0 {
        0
    } else {
        2 * bit_and(a / 2, b / 2) + if a % 2 == 1 && b % 2 == 1 {
            1nat
        } else {
            0nat
        }
    }
}

/// The bitwise or of two natural numbers: bit by bit from the lowest one, a
/// bit of the result is set where it is set in either.
pub open spec fn bit_or(a: nat, b: nat) -> nat
    decreases a + b,
{
    if a == 0 {
        b
    } else if b == 0 {
        a
    } else {
        2 * bit_or(a / 2, b / 2) + if a % 2 == 1 || b % 2 == 1 {
            1nat
        } else {
            0nat
        }
    }
}

/// `p` is the smallest power of two that is not below the positive `a`.
pub open spec fn is_smallest_power_of_two(p: int, a: int) -> bool {
    exists|k: nat| p == #[trigger] pow2(k) && a <= p && p < 2 * a
}

/// `Clone::clone` of an `Integer`: a new integer with the same value.
pub assume_specification[ <Integer as Clone>::clone ](x: &Integer) -> (r: Integer)
    ensures
        integer_value(&r) == integer_value(x),
;

/// `Integer::from` on a `u32`: the integer with the same value.
#[verifier::external_body]
pub(crate) fn big_from_u32(x: u32) -> (r: Integer)
    ensures
        integer_value(&r) == x,
{
    Integer::from(x)
}

/// `==` on two `Integer`s: whether the values are equal.
#[verifier::external_body]
pub(crate) fn big_eq(a: &Integer, b: &Integer) -> (r: bool)
    ensures
        r == (integer_value(a) == integer_value(b)),
{
    a == b
}

/// `<` on two `Integer`s: whether the first value is the smaller one.
#[verifier::external_body]
pub(crate) fn big_lt(a: &Integer, b: &Integer) -> (r: bool)
    ensures
        r == (integer_value(a) < integer_value(b)),
{
    a < b
}

/// `+` on `Integer`s: the sum.
#[verifier::external_body]
pub(crate) fn big_add(a: Integer, b: &Integer) -> (r: Integer)
    ensures
        integer_value(&r) == integer_value(&a) + integer_value(b),
{
    a + b
}

/// `-` on `Integer`s: the difference.
#[verifier::external_body]
pub(crate) fn big_sub(a: Integer, b: &Integer) -> (r: Integer)
    ensures
        integer_value(&r) == integer_value(&a) - integer_value(b),
{
    a - b
}

/// `*` on `Integer`s: the product.
#[verifier::external_body]
pub(crate) fn big_mul(a: Integer, b: &Integer) -> (r: Integer)
    ensures
        integer_value(&r) == integer_value(&a) * integer_value(b),
{
    a * b
}

/// `Integer::square`: the product of the value with itself.
#[verifier::external_body]
pub(crate) fn big_square(a: Integer) -> (r: Integer)
    ensures
        integer_value(&r) == integer_value(&a) * integer_value(&a),
{
    a.square()
}

/// `%` on `Integer`s: the remainder of the division that rounds towards
/// zero. The outside function panics on a divisor of zero.
#[verifier::external_body]
pub(crate) fn big_rem(a: Integer, b: &Integer) -> (r: Integer)
    requires
        integer_value(b) != 0,
    ensures
        integer_value(&r) == truncated_rem(integer_value(&a), integer_value(b)),
{
    a % b
}

/// `<<` of an `Integer` by a `u32`: the value times `2^n`.
#[verifier::external_body]
pub(crate) fn big_shl(a: Integer, n: u32) -> (r: Integer)
    ensures
        integer_value(&r) == integer_value(&a) * pow2(n as nat),
{
    a << n
}

/// `>>` of an `Integer` by a `u32`: the value divided by `2^n`, rounded
/// towards minus infinity.
#[verifier::external_body]
pub(crate) fn big_shr(a: Integer, n: u32) -> (r: Integer)
    ensures
        integer_value(&r) == integer_value(&a) / (pow2(n as nat) as int),
{
    a >> n
}

/// `Integer::keep_bits`: the `n` least significant bits of the two's
/// complement form, which is the remainder modulo `2^n` in `[0, 2^n)`.
#[verifier::external_body]
pub(crate) fn big_keep_bits(a: Integer, n: u32) -> (r: Integer)
    ensures
        integer_value(&r) == integer_value(&a) % (pow2(n as nat) as int),
{
    a.keep_bits(n)
}

/// `&` on `Integer`s that are not negative: the bitwise and of the two values.
#[verifier::external_body]
pub(crate) fn big_bitand(a: Integer, b: &Integer) -> (r: Integer)
    requires
        0 <= integer_value(&a),
        0 <= integer_value(b),
    ensures
        integer_value(&r) == bit_and(integer_value(&a) as nat, integer_value(b) as nat),
{
    a & b
}

/// `|` on `Integer`s that are not negative: the bitwise or of the two values.
#[verifier::external_body]
pub(crate) fn big_bitor(a: Integer, b: &Integer) -> (r: Integer)
    requires
        0 <= integer_value(&a),
        0 <= integer_value(b),
    ensures
        integer_value(&r) == bit_or(integer_value(&a) as nat, integer_value(b) as nat),
{
    a | b
}

/// `Integer::next_power_of_two`: the smallest power of two that is not below
/// the value, and 1 where the value is not positive.
#[verifier::external_body]
pub(crate) fn big_next_power_of_two(a: Integer) -> (r: Integer)
    ensures
        integer_value(&a) <= 0 ==> integer_value(&r) == 1,
        integer_value(&a) > 0 ==> is_smallest_power_of_two(integer_value(&r), integer_value(&a)),
{
    a.next_power_of_two()
}

/// `Integer::find_one`: the index of the first one bit at or after `start`.
/// The outside function converts the index to a `u32` and panics where it
/// does not fit, so the value must be positive and below `2^(2^32)`.
#[verifier::external_body]
pub(crate) fn big_find_one(a: &Integer, start: u32) -> (r: Option<u32>)
    requires
        0 < integer_value(a) < pow2(0x1_0000_0000),
    ensures
        r matches Some(i) ==> start <= i && bit_of(integer_value(a), i as nat) && forall|j: nat|
            start <= j < i ==> !#[trigger] bit_of(integer_value(a), j),
        r is None ==> forall|j: nat| start <= j ==> !#[trigger] bit_of(integer_value(a), j),
{
    a.find_one(start)
}

} // verus!
