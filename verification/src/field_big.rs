//! The backend over arbitrary precision integers. The radix is the smallest
//! power of two that is not below the modulus, and its bit count is kept in
//! the field, since no overflow marks the end of a word.
use crate::bigint::{
    big_add, big_bitand, big_bitor, big_eq, big_find_one, big_from_u32, big_keep_bits, big_lt,
    big_mul, big_next_power_of_two, big_rem, big_shl, big_shr, big_square, big_sub, bit_and, bit_of,
    bit_or, integer_value, truncated_rem,
};
use crate::laws::{law_power_of_word, law_round_trip};
use crate::theory::{
    is_reduction, lemma_congruent_to_form, lemma_form_of_reduce, lemma_hensel_step,
    lemma_montgomery_form_mod, lemma_pow_halve, lemma_pow_step, lemma_radix_multiple,
    lemma_redc_congruent, lemma_redc_quotient, lemma_redc_result, lemma_reduce_montgomery_form,
    lemma_reduce_product, lemma_to_montgomery, montgomery_form, negates_inverse, reduce,
    valid_parameters,
};
use crate::{Field, Redc, RugField, SetupError};
use rug::Integer;
use vstd::arithmetic::div_mod::*;
use vstd::arithmetic::mul::*;
use vstd::arithmetic::power::*;
use vstd::arithmetic::power2::*;
use vstd::prelude::*;

verus! {

/// The exponent `c` of the radix that belongs to the modulus `n`: `2^c` is the
/// smallest power of two that is not below `n`.
pub open spec fn radix_exponent(n: int) -> nat {
    choose|c: nat| n <= #[trigger] pow2(c) && pow2(c) < 2 * n
}

/// The powers of two grow with their exponents.
pub proof fn lemma_pow2_monotone(a: nat, b: nat)
    requires
        a <= b,
    ensures
        pow2(a) <= pow2(b),
{
    if a < b {
        lemma_pow2_strictly_increases(a, b);
    }
}

/// Only one power of two lies in `[n, 2n)`.
pub proof fn lemma_radix_exponent_unique(n: int, c: nat)
    requires
        n <= pow2(c) < 2 * n,
    ensures
        radix_exponent(n) == c,
{
    let d = radix_exponent(n);
    if d < c {
        lemma_pow2_monotone(d + 1, c);
        lemma_pow2_unfold(d + 1);
    } else if c < d {
        lemma_pow2_monotone(c + 1, d);
        lemma_pow2_unfold(c + 1);
    }
}

/// A power of two has exactly one bit set.
pub proof fn lemma_bit_of_pow2(c: nat, i: nat)
    ensures
        bit_of(pow2(c) as int, i) <==> i == c,
{
    lemma_pow2_pos(i);
    lemma_pow2_pos(c);
    if i < c {
        // 2^c == 2^i * 2^(c-i), and 2^(c-i) is even
        let d = (c - i) as nat;
        lemma_pow2_adds(i, d);
        lemma_pow2_unfold(d);
        lemma_div_multiples_vanish(pow2(d) as int, pow2(i) as int);
        lemma_mul_is_commutative(pow2(i) as int, pow2(d) as int);
    } else if i > c {
        lemma_pow2_strictly_increases(c, i);
        lemma_basic_div(pow2(c) as int, pow2(i) as int);
    } else {
        lemma_div_by_self(pow2(c) as int);
    }
}

/// Under a mask of `j` ones a natural number keeps its `j` lowest bits.
pub proof fn lemma_bit_and_mask(a: nat, j: nat)
    ensures
        bit_and(a, (pow2(j) - 1) as nat) == a % pow2(j),
    decreases j,
{
    lemma_pow2_pos(j);
    if j == 0 {
        lemma2_to64();
        lemma_bit_and_zero(a);
    } else if a != 0 {
        let h = (j - 1) as nat;
        lemma_pow2_pos(h);
        lemma_pow2_unfold(j);
        let mask = (pow2(j) - 1) as nat;
        assert(mask / 2 == pow2(h) - 1 && mask % 2 == 1);
        lemma_bit_and_mask(a / 2, h);
        lemma_mod_breakdown(a as int, 2, pow2(h) as int);
    } else {
        lemma_small_mod(0, pow2(j));
    }
}

/// The bitwise and with zero is zero.
proof fn lemma_bit_and_zero(a: nat)
    ensures
        bit_and(a, 0) == 0,
    decreases a,
{
    if a != 0 {
        lemma_bit_and_zero(a / 2);
    }
}

/// Setting a bit that is clear adds the weight of the bit.
pub proof fn lemma_bit_or_power(a: nat, k: nat)
    requires
        !bit_of(a as int, k),
    ensures
        bit_or(a, pow2(k)) == a + pow2(k),
    decreases k,
{
    lemma_pow2_pos(k);
    if a != 0 {
        if k == 0 {
            // the lowest bit of a is clear, and nothing lies above that of 1
            lemma2_to64();
            assert(a as int / 1 == a);
            assert(bit_or(a / 2, 0) == a / 2);
        } else {
            // bit k of a is bit k - 1 of a / 2
            let h = (k - 1) as nat;
            lemma_pow2_pos(h);
            lemma_pow2_unfold(k);
            lemma_div_denominator(a as int, 2, pow2(h) as int);
            lemma_bit_or_power(a / 2, h);
        }
    }
}

/// Computes by Hensel lifting the negated inverse of the odd, positive
/// `prime` modulo its radix `R`, the smallest power of two that is not below
/// it: the integer `inverse` in `[1, R]` with `prime * inverse ≡ -1 (mod R)`.
///
/// The inverse is built bit by bit from the least significant one. Before
/// the round for bit `k` the candidate is right modulo `2^k`; the round tests
/// it modulo `2^(k+1)` under a mask of `k + 1` ones and sets bit `k` where
/// the test fails. The rounds end when the bit to be set has reached `R`.
pub fn rug_calc_prime_inverse(prime: Integer) -> (inverse: Integer)
    requires
        integer_value(&prime) > 0,
        integer_value(&prime) % 2 == 1,
    ensures
        1 <= integer_value(&inverse) <= pow2(radix_exponent(integer_value(&prime))),
        negates_inverse(
            integer_value(&inverse),
            integer_value(&prime),
            pow2(radix_exponent(integer_value(&prime))) as int,
        ),
{
    let ghost n = integer_value(&prime);
    let one = big_from_u32(1);
    let mut last_power = big_from_u32(2);
    let mut current_power = big_from_u32(4);
    let mut prime_inv_mod = big_from_u32(1);
    let mut mod_mask = big_from_u32(0b11);
    let r = big_next_power_of_two(prime.clone());
    let ghost c: nat = choose|c: nat|
        integer_value(&r) == #[trigger] pow2(c) && n <= pow2(c) && pow2(c) < 2 * n;
    let ghost mut k: nat = 1;
    proof {
        lemma2_to64();
        lemma_radix_exponent_unique(n, c);
        assert((n * 1) % 2 == 1);
        if c >= 1 {
            lemma_pow2_monotone(1, c);
        }
    }
    while big_lt(&last_power, &r)
        invariant
            n == integer_value(&prime),
            n > 0,
            n % 2 == 1,
            integer_value(&one) == 1,
            integer_value(&r) == pow2(c),
            radix_exponent(n) == c,
            1 <= k,
            k <= c || (c == 0 && k == 1),
            integer_value(&last_power) == pow2(k),
            integer_value(&current_power) == pow2(k + 1),
            integer_value(&mod_mask) == pow2(k + 1) - 1,
            1 <= integer_value(&prime_inv_mod) < pow2(k),
            (n * integer_value(&prime_inv_mod)) % (pow2(k) as int) == pow2(k) - 1,
        decreases c - k,
    {
        let ghost inv = integer_value(&prime_inv_mod);
        let ghost m = pow2(k + 1) as int;
        proof {
            if k >= c {
                lemma_pow2_monotone(c, k);
            }
            lemma_pow2_pos(k);
            lemma_pow2_pos(k + 1);
        }
        let prime_mod = big_bitand(prime.clone(), &mod_mask);
        proof {
            lemma_bit_and_mask(n as nat, k + 1);
            lemma_mod_bound(n, m);
            lemma_mul_nonnegative(n % m, inv);
            lemma_bit_and_mask(((n % m) * inv) as nat, k + 1);
        }
        let product = big_mul(prime_mod, &prime_inv_mod);
        let test = big_bitand(product, &mod_mask);
        proof {
            lemma_mul_mod_noop_left(n, inv, m);
            assert(integer_value(&test) == (n * inv) % m);
            lemma_hensel_step(n, inv, k);
            lemma_basic_div(inv, pow2(k) as int);
            assert(!bit_of(inv, k));
            lemma_bit_or_power(inv as nat, k);
        }
        if !big_eq(&test, &mod_mask) {
            prime_inv_mod = big_bitor(prime_inv_mod, &last_power);
        }
        last_power = current_power.clone();
        current_power = big_shl(current_power, 1);
        mod_mask = big_shl(mod_mask, 1);
        proof {
            lemma2_to64();
            lemma_pow2_unfold(k + 2);
            // the shifted mask is even, so its lowest bit is clear
            let shifted = integer_value(&mod_mask);
            assert(shifted == 2 * (m - 1));
            assert(!bit_of(shifted, 0));
            lemma_bit_or_power(shifted as nat, 0);
        }
        mod_mask = big_bitor(mod_mask, &one);
        proof {
            k = k + 1;
        }
    }
    proof {
        if c == 0 {
            lemma2_to64();
            assert((n * integer_value(&prime_inv_mod)) % 1 == 0);
        } else if k < c {
            lemma_pow2_strictly_increases(k, c);
        }
    }
    prime_inv_mod
}

impl RugField {
    /// The modulus.
    pub closed spec fn modulus_value(&self) -> int {
        integer_value(&self.prime)
    }

    /// The stored negated inverse of the modulus modulo the radix.
    pub closed spec fn neg_inverse_value(&self) -> int {
        integer_value(&self.prime_inverted)
    }

    /// The stored square of the radix modulo the modulus.
    pub closed spec fn r_squared_value(&self) -> int {
        integer_value(&self.r_squared)
    }

    /// The number of bits of the radix: the radix is `2^radix_bits`.
    pub closed spec fn radix_bits(&self) -> nat {
        self.r_count as nat
    }

    /// What the accessors read.
    pub(crate) proof fn lemma_fields(&self)
        ensures
            self.modulus_value() == integer_value(&self.prime),
            self.neg_inverse_value() == integer_value(&self.prime_inverted),
            self.r_squared_value() == integer_value(&self.r_squared),
            self.radix_bits() == self.r_count,
    {
    }

    /// The Montgomery radix.
    pub open spec fn radix_value(&self) -> int {
        pow2(self.radix_bits()) as int
    }

    /// The invariant of a field over arbitrary precision integers: the
    /// parameters are valid, and the radix is the smallest power of two that is
    /// not below the modulus.
    pub open spec fn valid(&self) -> bool {
        &&& valid_parameters(
            self.modulus_value(),
            self.neg_inverse_value(),
            self.r_squared_value(),
            self.radix_value(),
        )
        &&& self.radix_value() < 2 * self.modulus_value()
        &&& 1 <= self.neg_inverse_value() <= self.radix_value()
    }

    /// REDC over arbitrary precision integers. The `radix_bits` lowest bits
    /// of `value` are `value mod R`, and those of their product with `n'` are
    /// `m`. The sum `value + m * modulus` is a multiple of `R`, and shifting it
    /// right by `radix_bits` divides by `R`. One conditional subtraction then
    /// gives the representative below the modulus.
    ///
    /// Outside `[0, modulus * R)` the result is still congruent to the
    /// reduction, but more than one subtraction would be needed to bring it
    /// into `[0, modulus)`.
    pub fn montgomery_reduce(&self, value: Integer) -> (r: Integer)
        requires
            self.valid(),
        ensures
            (integer_value(&r) * self.radix_value()) % self.modulus_value() == integer_value(
                &value,
            ) % self.modulus_value(),
            0 <= integer_value(&value) < self.modulus_value() * self.radix_value() ==> is_reduction(
                integer_value(&r),
                integer_value(&value),
                self.modulus_value(),
                self.radix_value(),
            ),
            0 <= integer_value(&value) < self.modulus_value() * self.radix_value()
                ==> integer_value(&r) == reduce(
                integer_value(&value),
                self.modulus_value(),
                self.radix_value(),
            ),
    {
        let ghost t = integer_value(&value);
        let ghost n = self.modulus_value();
        let ghost n_inv = self.neg_inverse_value();
        let ghost radix = self.radix_value();
        let value_mod_r = big_keep_bits(value.clone(), self.r_count);
        let m = big_keep_bits(big_mul(value_mod_r, &self.prime_inverted), self.r_count);
        proof {
            lemma_redc_quotient(t, n, n_inv, radix, integer_value(&m));
            lemma_mul_is_commutative(integer_value(&m), n);
        }
        let sum = big_add(big_mul(m, &self.prime), &value);
        let tw = big_shr(sum, self.r_count);
        proof {
            let q = integer_value(&tw);
            let reduced = if q >= n {
                q - n
            } else {
                q
            };
            lemma_redc_congruent(t, n, radix, q, reduced);
            if 0 <= t < n * radix {
                lemma_redc_result(t, n, n_inv, radix, q, reduced);
            }
        }
        if !big_lt(&tw, &self.prime) {
            big_sub(tw, &self.prime)
        } else {
            tw
        }
    }
}

impl Field<Integer> for RugField {
    open spec fn wf(&self) -> bool {
        self.valid()
    }

    open spec fn modulus(&self) -> int {
        self.modulus_value()
    }

    open spec fn radix(&self) -> int {
        self.radix_value()
    }

    fn redc(&self, value: Integer) -> (r: Integer) {
        self.montgomery_reduce(value)
    }
}

impl Redc for Integer {
    type SourceType = Integer;

    type FieldType = RugField;

    open spec fn value(&self) -> int {
        integer_value(self)
    }

    open spec fn source_value(source: &Integer) -> int {
        integer_value(source)
    }

    open spec fn supported(&self) -> bool {
        0 <= integer_value(self) < pow2(0xffff_ffff)
    }

    open spec fn field_wf(field: &RugField) -> bool {
        field.valid()
    }

    open spec fn field_modulus(field: &RugField) -> int {
        field.modulus_value()
    }

    open spec fn field_radix(field: &RugField) -> int {
        field.radix_value()
    }

    fn setup_field(self) -> (r: Result<RugField, SetupError>) {
        let ghost n = integer_value(&self);
        let two = big_from_u32(2);
        let zero = big_from_u32(0);
        if big_eq(&big_rem(self.clone(), &two), &zero) {
            return Err(SetupError::EvenModulus);
        }
        let r = big_next_power_of_two(self.clone());
        let ghost c: nat = choose|c: nat|
        integer_value(&r) == #[trigger] pow2(c) && n <= pow2(c) && pow2(c) < 2 * n;
        proof {
            lemma_radix_exponent_unique(n, c);
            lemma_pow2_unfold(0x1_0000_0000);
            lemma_pow2_pos(c);
        }
        let r_count = match big_find_one(&r, 0) {
            Some(index) => index,
            None => {
                proof {
                    lemma_bit_of_pow2(c, c);
                }
                0
            },
        };
        proof {
            lemma_bit_of_pow2(c, r_count as nat);
        }
        let r_squared = big_rem(big_square(r), &self);
        proof {
            lemma_mul_nonnegative(pow2(c) as int, pow2(c) as int);
        }
        Ok(
            RugField {
                prime: self.clone(),
                prime_inverted: rug_calc_prime_inverse(self),
                r_squared,
                r_count,
            },
        )
    }

    fn to_montgomery_unchecked(self, field: &RugField) -> (r: Integer) {
        let ghost x = integer_value(&self);
        proof {
            if 0 <= x < field.modulus_value() {
                lemma_unchecked_bound_big(x, field);
                law_round_trip(
                    x,
                    field.modulus_value(),
                    field.neg_inverse_value(),
                    field.r_squared_value(),
                    field.radix_value(),
                );
            }
        }
        let r = field.montgomery_reduce(big_mul(self, &field.r_squared));
        proof {
            lemma_congruent_to_form(
                integer_value(&r),
                x,
                field.modulus_value(),
                field.neg_inverse_value(),
                field.r_squared_value(),
                field.radix_value(),
            );
        }
        r
    }

    fn to_montgomery(self, field: &RugField) -> (r: Integer) {
        let ghost x = integer_value(&self);
        proof {
            lemma_reduce_montgomery_form(
                integer_value(&self),
                field.modulus_value(),
                field.neg_inverse_value(),
                field.radix_value(),
            );
            let n = field.modulus_value();
            lemma_montgomery_form_mod(x, n, field.radix_value());
            lemma_mod_bound(x, n);
            lemma_unchecked_bound_big(x % n, field);
            lemma_truncated_rem(x, n);
        }
        // the remainder has the sign of `self`: a negative one is one modulus too low
        let remainder = big_rem(self, &field.prime);
        let reduced = if big_lt(&remainder, &big_from_u32(0)) {
            big_add(remainder, &field.prime)
        } else {
            remainder
        };
        field.montgomery_reduce(big_mul(reduced, &field.r_squared))
    }

    fn to_normal(self, field: &RugField) -> (r: Integer) {
        proof {
            lemma_radix_multiple(field.modulus_value(), field.radix_value());
            lemma_pow2_pos(field.radix_bits());
        }
        field.montgomery_reduce(self)
    }

    fn mod_pow(self, exponent: Integer, field: &RugField) -> (r: Integer) {
        let ghost self_value = integer_value(&self);
        let ghost n = field.modulus_value();
        let ghost n_inv = field.neg_inverse_value();
        let ghost radix = field.radix_value();
        let ghost base = reduce(integer_value(&self), n, radix);
        let ghost full = integer_value(&exponent) as nat;
        let zero = big_from_u32(0);
        let one = big_from_u32(1);
        let two = big_from_u32(2);
        let mut exponent = exponent;
        proof {
            lemma_pow2_pos(field.radix_bits());
            lemma2_to64();
        }
        let mut result = if big_eq(&big_rem(exponent.clone(), &two), &zero) {
            big_from_u32(1).to_montgomery(field)
        } else {
            self.clone()
        };
        let mut power = self;
        // the values that `power` and `result` stand for
        let ghost mut sq: int = base;
        let ghost mut acc: int = if full % 2 == 0 {
            1
        } else {
            base
        };
        exponent = big_shr(exponent, 1);
        proof {
            lemma_form_of_reduce(integer_value(&power), n, n_inv, radix);
            lemma_pow_halve(base, full);
            lemma_pow1(base);
            lemma_pow0(base);
            assert(pow(base, full) == acc * pow(sq * sq, integer_value(&exponent) as nat));
        }
        while !big_eq(&exponent, &zero)
            invariant
                field.valid(),
                n == field.modulus_value(),
                n_inv == field.neg_inverse_value(),
                radix == field.radix_value(),
                0 < radix,
                integer_value(&zero) == 0,
                integer_value(&one) == 1,
                integer_value(&two) == 2,
                0 <= integer_value(&exponent),
                0 <= integer_value(&power) < n,
                0 <= integer_value(&result) < n,
                integer_value(&power) == montgomery_form(sq, n, radix),
                integer_value(&result) == montgomery_form(acc, n, radix),
                (acc * pow(sq * sq, integer_value(&exponent) as nat)) % n == pow(base, full) % n,
            decreases integer_value(&exponent),
        {
            let ghost old_sq = sq;
            let ghost old_acc = acc;
            let ghost old_e = integer_value(&exponent) as nat;
            proof {
                lemma_product_bound_big(integer_value(&power), integer_value(&power), field);
                lemma_reduce_product(sq, sq, n, n_inv, radix);
            }
            power = field.montgomery_reduce(big_square(power));
            proof {
                sq = old_sq * old_sq;
            }
            if big_eq(&big_rem(exponent.clone(), &two), &one) {
                proof {
                    lemma_product_bound_big(
                        integer_value(&result),
                        integer_value(&power),
                        field,
                    );
                    lemma_reduce_product(acc, sq, n, n_inv, radix);
                }
                result = field.montgomery_reduce(big_mul(result, &power));
                proof {
                    acc = old_acc * sq;
                }
            }
            exponent = big_shr(exponent, 1);
            proof {
                lemma2_to64();
                lemma_pow_step(old_acc, old_sq, old_e, n, sq, acc);
            }
        }
        proof {
            field.lemma_fields();
            law_power_of_word(self_value, full, n, n_inv, field.r_squared_value(), radix);
            lemma_pow0(sq * sq);
            lemma_montgomery_form_mod(acc, n, radix);
            lemma_montgomery_form_mod(pow(base, full), n, radix);
        }
        result
    }
}

/// The remainder of the division that rounds towards zero is the remainder
/// in `[0, n)`, or lies one `n` below it.
pub proof fn lemma_truncated_rem(x: int, n: int)
    requires
        n > 0,
    ensures
        truncated_rem(x, n) == if truncated_rem(x, n) < 0 {
            x % n - n
        } else {
            x % n
        },
{
    if x < 0 {
        let m = (-x) % n;
        let q = (-x) / n;
        lemma_fundamental_div_mod(-x, n);
        lemma_mod_bound(-x, n);
        if m == 0 {
            assert(x == (-q) * n + 0) by (nonlinear_arith)
                requires
                    -x == n * q,
            ;
            lemma_fundamental_div_mod_converse(x, n, -q, 0);
        } else {
            assert(x == (-q - 1) * n + (n - m)) by (nonlinear_arith)
                requires
                    -x == n * q + m,
            ;
            lemma_fundamental_div_mod_converse(x, n, -q - 1, n - m);
        }
    }
}

/// A product of two non-negative integers, one of them below the modulus and
/// the other below the radix, is in the domain of REDC.
pub proof fn lemma_product_bound_big(a: int, b: int, field: &RugField)
    requires
        field.valid(),
        0 <= a < field.radix_value(),
        0 <= b < field.modulus_value(),
    ensures
        0 <= a * b < field.modulus_value() * field.radix_value(),
{
    let n = field.modulus_value();
    let radix = field.radix_value();
    assert(0 <= a * b && a * b < n * radix) by (nonlinear_arith)
        requires
            0 <= a < radix,
            0 <= b < n,
    ;
}

/// The product that the conversion into Montgomery form reduces is in the
/// domain of REDC, and its reduction is the Montgomery form.
proof fn lemma_unchecked_bound_big(x: int, field: &RugField)
    requires
        field.valid(),
        0 <= x < field.modulus_value(),
    ensures
        0 <= x * field.r_squared_value() < field.modulus_value() * field.radix_value(),
        reduce(x * field.r_squared_value(), field.modulus_value(), field.radix_value())
            == montgomery_form(x, field.modulus_value(), field.radix_value()),
        0 <= montgomery_form(x, field.modulus_value(), field.radix_value())
            < field.modulus_value(),
{
    let n = field.modulus_value();
    let radix = field.radix_value();
    lemma_mod_bound(radix * radix, n);
    lemma_product_bound_big(x, field.r_squared_value(), field);
    lemma_to_montgomery(x, n, field.neg_inverse_value(), field.r_squared_value(), radix);
}

} // verus!
