//! Double-width values: the full, lossless product of two `u128` words and the
//! arithmetic that REDC needs on it. The arithmetic itself is that of the
//! `twoword` crate.
use crate::theory::two_128;
use num_traits::ops::overflowing::OverflowingAdd;
use twoword::TwoWord;
use vstd::prelude::*;

verus! {

/// An unsigned 256-bit value in two words: `higher * 2^128 + lower`.
#[derive(Debug, Clone, Copy, PartialEq, Eq, Structural)]
pub struct DoubleWidth {
    pub higher: u128,
    pub lower: u128,
}

/// `TwoWord::<u128>::mult`: the full product of two words. The outside
/// function multiplies the four pairs of 64-bit halves and adds them up with
/// their carries, so the product is exact.
#[verifier::external_body]
fn two_word_mult(a: u128, b: u128) -> (r: DoubleWidth)
    ensures
        r.value() == a * b,
{
    let t = TwoWord::<u128>::mult(a, b);
    DoubleWidth { higher: t.higher, lower: t.lower }
}

/// `OverflowingAdd::overflowing_add` of `TwoWord<u128>`: the sum modulo
/// `2^256`, and whether the true sum reached `2^256`. The outside function adds
/// the lower words, then the higher words and the carry, and reports a carry
/// out of the higher words.
#[verifier::external_body]
fn two_word_overflowing_add(a: &DoubleWidth, b: &DoubleWidth) -> (r: (DoubleWidth, bool))
    ensures
        r.0.value() == (a.value() + b.value()) % (two_128() * two_128()),
        r.1 == (a.value() + b.value() >= two_128() * two_128()),
{
    let x = TwoWord::<u128> { higher: a.higher, lower: a.lower };
    let y = TwoWord::<u128> { higher: b.higher, lower: b.lower };
    let (t, carry) = x.overflowing_add(&y);
    (DoubleWidth { higher: t.higher, lower: t.lower }, carry)
}

/// `Rem::rem` of `TwoWord<u128>`: the remainder of `a` divided by `b`. The
/// outside function divides by shifting and subtracting, and stops with a
/// "Division by zero" panic where `b` is zero.
#[verifier::external_body]
fn two_word_rem(a: DoubleWidth, b: DoubleWidth) -> (r: DoubleWidth)
    requires
        b.value() != 0,
    ensures
        r.value() == a.value() % b.value(),
{
    let x = TwoWord::<u128> { higher: a.higher, lower: a.lower };
    let y = TwoWord::<u128> { higher: b.higher, lower: b.lower };
    let t = x % y;
    DoubleWidth { higher: t.higher, lower: t.lower }
}

impl DoubleWidth {
    /// The integer that the two words stand for.
    pub open spec fn value(&self) -> int {
        self.higher * two_128() + self.lower
    }

    /// A single word as a double-width value.
    pub fn from_word(v: u128) -> (r: Self)
        ensures
            r.higher == 0,
            r.lower == v,
            r.value() == v,
    {
        DoubleWidth { higher: 0, lower: v }
    }

    /// The full product of two words.
    pub fn mult(a: u128, b: u128) -> (r: Self)
        ensures
            r.value() == a * b,
    {
        two_word_mult(a, b)
    }

    /// The sum modulo `2^256`, and the carry out of it.
    pub fn overflowing_add(&self, v: &Self) -> (r: (Self, bool))
        ensures
            r.0.value() == (self.value() + v.value()) % (two_128() * two_128()),
            r.1 == (self.value() + v.value() >= two_128() * two_128()),
    {
        two_word_overflowing_add(self, v)
    }

    /// The remainder of `self` divided by a `divisor` other than zero.
    pub fn rem(self, divisor: Self) -> (r: Self)
        requires
            divisor.value() != 0,
        ensures
            r.value() == self.value() % divisor.value(),
            0 <= r.value() < divisor.value(),
    {
        proof {
            divisor.lemma_value_bounds();
            vstd::arithmetic::div_mod::lemma_mod_bound(self.value(), divisor.value());
        }
        two_word_rem(self, divisor)
    }

    /// The value determines both words: the lower one is its remainder modulo
    /// `2^128`, the higher one its quotient.
    pub proof fn lemma_value_bounds(&self)
        ensures
            0 <= self.value() < two_128() * two_128(),
            self.lower == self.value() % two_128(),
            self.higher == self.value() / two_128(),
    {
        let h = self.higher as int;
        let l = self.lower as int;
        assert(0 <= h * two_128() + l && h * two_128() + l < two_128() * two_128())
            by (nonlinear_arith)
            requires
                0 <= h < two_128(),
                0 <= l < two_128(),
        ;
        vstd::arithmetic::mul::lemma_mul_is_commutative(h, two_128());
        vstd::arithmetic::div_mod::lemma_fundamental_div_mod_converse(
            self.value(),
            two_128(),
            h,
            l,
        );
    }
}

} // verus!
