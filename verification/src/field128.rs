//! The backend over `u128`. The radix is `2^128`, and a full product of two
//! words is a [`DoubleWidth`], since no native type is wide enough.
use crate::bits::{
    lemma_low_mask_128, lemma_pow2_bound_128, lemma_set_bit_128, lemma_shift_left_128,
};
use crate::double_width::DoubleWidth;
use crate::laws::law_power_of_word;
use crate::theory::{
    is_reduction, lemma_form_of_reduce, lemma_hensel_step, lemma_montgomery_form_mod,
    lemma_pow2_128, lemma_pow_halve, lemma_pow_step, lemma_radix_multiple, lemma_redc_quotient,
    lemma_redc_result, lemma_reduce_montgomery_form, lemma_reduce_product, lemma_to_montgomery,
    montgomery_form, negates_inverse, reduce, two_128, valid_parameters,
};
use crate::{Field, PrimIntField, Redc, SetupError};
use vstd::arithmetic::div_mod::*;
use vstd::arithmetic::mul::*;
use vstd::arithmetic::power::*;
use vstd::arithmetic::power2::*;
use vstd::prelude::*;

verus! {

/// Computes by Hensel lifting the negated inverse of the odd `prime` modulo
/// `2^128`: the word `inverse` with `prime * inverse ≡ -1 (mod 2^128)`.
///
/// The inverse is built bit by bit from the least significant one. Before
/// the round for bit `k` the candidate is right modulo `2^k`; the round tests
/// it modulo `2^(k+1)` under a mask of `k + 1` ones and sets bit `k` where
/// the test fails.
pub fn p_calc_prime_inverse(prime: u128) -> (inverse: u128)
    requires
        prime % 2 == 1,
    ensures
        negates_inverse(inverse as int, prime as int, two_128()),
{
    let mut last_power: u128 = 2;
    let mut current_power: u128 = 4;
    let mut prime_inv_mod: u128 = 1;
    let mut mod_mask: u128 = 3;
    let ghost mut k: nat = 1;
    proof {
        lemma2_to64();
        lemma_pow2_128();
        assert((prime * 1) % 2 == 1);
    }
    while last_power != 0
        invariant
            prime % 2 == 1,
            1 <= k <= 128,
            k < 128 ==> last_power == pow2(k),
            k == 128 ==> last_power == 0,
            k < 127 ==> current_power == pow2(k + 1),
            k >= 127 ==> current_power == 0,
            k < 128 ==> mod_mask == pow2(k + 1) - 1,
            prime_inv_mod < pow2(k),
            (prime * prime_inv_mod) % (pow2(k) as int) == pow2(k) - 1,
        decreases 128 - k,
    {
        proof {
            lemma_pow2_bound_128(k);
            lemma_pow2_bound_128(k + 1);
            lemma_pow2_128();
        }
        let prime_mod = prime & mod_mask;
        let product = prime_mod.wrapping_mul(prime_inv_mod);
        proof {
            let m = pow2(k + 1) as int;
            lemma_low_mask_128(prime, k + 1);
            lemma_low_mask_128(product, k + 1);
            assert(prime_mod == prime as int % m);
            assert(product == (prime_mod * prime_inv_mod) % two_128());
            // 2^128 == 2^(k+1) * 2^(127-k), so reducing modulo 2^128 first changes nothing
            lemma_pow2_adds(k + 1, (127 - k) as nat);
            lemma_pow2_pos((127 - k) as nat);
            lemma_mod_mod(prime_mod * prime_inv_mod, m, pow2((127 - k) as nat) as int);
            lemma_mul_mod_noop_left(prime as int, prime_inv_mod as int, m);
            assert((product & mod_mask) == (prime * prime_inv_mod) % m);
            lemma_hensel_step(prime as int, prime_inv_mod as int, k);
            lemma_set_bit_128(prime_inv_mod, k);
        }
        if product & mod_mask != mod_mask {
            prime_inv_mod |= last_power;
        }
        proof {
            lemma_shift_left_128(current_power);
            lemma_shift_left_128(mod_mask);
            lemma_pow2_top_128();
            if k + 1 < 128 {
                lemma_pow2_unfold(k + 2);
                lemma_pow2_bound_128(k + 2);
                if k + 2 < 128 {
                    lemma_pow2_strictly_increases(k + 1, 127);
                }
            }
        }
        last_power = current_power;
        current_power <<= 1;
        mod_mask <<= 1;
        mod_mask |= 1;
        proof {
            k = k + 1;
        }
    }
    proof {
        lemma_pow2_128();
    }
    prime_inv_mod
}

/// `2^127` is the top bit of a `u128`.
proof fn lemma_pow2_top_128()
    ensures
        pow2(127) == 0x8000_0000_0000_0000_0000_0000_0000_0000,
{
    lemma_pow2_128();
    lemma_pow2_unfold(128);
}

/// Computes `R² mod prime` for `R = 2^128`, without ever holding `R` itself:
/// `R mod prime` is `((u128::MAX mod prime) + 1) mod prime`, and its square is
/// a double-width product that is reduced modulo the prime.
pub fn p_calc_r_squared_u128(prime: u128) -> (r_squared: u128)
    requires
        prime != 0,
    ensures
        r_squared == (two_128() * two_128()) % (prime as int),
{
    let r_mod = ((u128::MAX % prime) + 1) % prime;
    let r_squared = DoubleWidth::mult(r_mod, r_mod).rem(DoubleWidth::from_word(prime));
    proof {
        let p = prime as int;
        assert(u128::MAX + 1 == two_128());
        lemma_fundamental_div_mod(u128::MAX as int, p);
        lemma_mod_multiples_vanish(u128::MAX as int / p, u128::MAX as int % p + 1, p);
        assert(r_mod == two_128() % p);
        lemma_mul_mod_noop(two_128(), two_128(), p);
        r_squared.lemma_value_bounds();
        lemma_small_mod(r_squared.value() as nat, two_128() as nat);
    }
    r_squared.lower
}

impl PrimIntField<u128> {
    /// The modulus.
    pub closed spec fn modulus_value(&self) -> int {
        self.prime as int
    }

    /// The stored negated inverse of the modulus modulo `2^128`.
    pub closed spec fn neg_inverse_value(&self) -> int {
        self.prime_inverted as int
    }

    /// The stored `2^256 mod modulus`.
    pub closed spec fn r_squared_value(&self) -> int {
        self.r_squared as int
    }

    /// What the accessors read.
    pub(crate) proof fn lemma_fields(&self)
        ensures
            self.modulus_value() == self.prime,
            self.neg_inverse_value() == self.prime_inverted,
            self.r_squared_value() == self.r_squared,
    {
    }

    /// The invariant of a field over `u128`.
    pub open spec fn valid(&self) -> bool {
        &&& valid_parameters(
            self.modulus_value(),
            self.neg_inverse_value(),
            self.r_squared_value(),
            two_128(),
        )
        &&& 0 <= self.neg_inverse_value() < two_128()
    }

    /// REDC over `u128`. The lower word of `value` is `value mod R`, and the
    /// lower word of its product with `n'` is `m`. The sum `value + m * modulus`
    /// is a multiple of `R = 2^128`, so its higher word is the quotient; where
    /// the sum overflows the double width, the lost bit stands for `R`, and
    /// `R - modulus` is added in place of subtracting the modulus.
    pub fn montgomery_reduce(&self, value: DoubleWidth) -> (r: u128)
        requires
            self.valid(),
            value.value() < self.modulus_value() * two_128(),
        ensures
            is_reduction(r as int, value.value(), self.modulus_value(), two_128()),
            r == reduce(value.value(), self.modulus_value(), two_128()),
    {
        let value_mod_r = value.lower;
        let value_times_n_prime = DoubleWidth::mult(value_mod_r, self.prime_inverted);
        let m = value_times_n_prime.lower;
        let m_times_prime = DoubleWidth::mult(m, self.prime);
        let (tw, carry) = m_times_prime.overflowing_add(&value);
        let mut tw_higher = tw.higher;
        proof {
            let n = self.prime as int;
            let t = value.value();
            value.lemma_value_bounds();
            value_times_n_prime.lemma_value_bounds();
            tw.lemma_value_bounds();
            lemma_redc_quotient(t, n, self.prime_inverted as int, two_128(), m as int);
            let s = t + m * n;
            let q = s / two_128();
            lemma_mul_is_commutative(two_128(), q);
            if carry {
                assert(s < 2 * (two_128() * two_128())) by (nonlinear_arith)
                    requires
                        s == two_128() * q,
                        0 <= q < 2 * n,
                        n <= two_128(),
                ;
                lemma_fundamental_div_mod_converse(
                    s,
                    two_128() * two_128(),
                    1,
                    s - two_128() * two_128(),
                );
                assert(tw.value() == two_128() * (q - two_128())) by (nonlinear_arith)
                    requires
                        tw.value() == s - two_128() * two_128(),
                        s == two_128() * q,
                ;
                lemma_div_multiples_vanish(q - two_128(), two_128());
                assert(tw_higher == q - two_128());
            } else {
                lemma_small_mod(s as nat, (two_128() * two_128()) as nat);
                assert(tw_higher == q);
            }
        }
        if carry {
            tw_higher += u128::MAX - self.prime + 1;
        } else if tw_higher >= self.prime {
            tw_higher -= self.prime;
        }
        proof {
            let n = self.prime as int;
            let t = value.value();
            let q = (t + m * n) / two_128();
            lemma_redc_result(t, n, self.prime_inverted as int, two_128(), q, tw_higher as int);
        }
        tw_higher
    }
}

impl Field<u128> for PrimIntField<u128> {
    open spec fn wf(&self) -> bool {
        self.valid()
    }

    open spec fn modulus(&self) -> int {
        self.modulus_value()
    }

    open spec fn radix(&self) -> int {
        two_128()
    }

    fn redc(&self, value: DoubleWidth) -> (r: u128) {
        self.montgomery_reduce(value)
    }
}

impl Redc for u128 {
    type SourceType = DoubleWidth;

    type FieldType = PrimIntField<u128>;

    open spec fn value(&self) -> int {
        *self as int
    }

    open spec fn source_value(source: &DoubleWidth) -> int {
        source.value()
    }

    open spec fn supported(&self) -> bool {
        true
    }

    open spec fn field_wf(field: &PrimIntField<u128>) -> bool {
        field.valid()
    }

    open spec fn field_modulus(field: &PrimIntField<u128>) -> int {
        field.modulus_value()
    }

    open spec fn field_radix(field: &PrimIntField<u128>) -> int {
        two_128()
    }

    fn setup_field(self) -> (r: Result<PrimIntField<u128>, SetupError>) {
        if self % 2 == 0 {
            return Err(SetupError::EvenModulus);
        }
        Ok(
            PrimIntField {
                prime: self,
                prime_inverted: p_calc_prime_inverse(self),
                r_squared: p_calc_r_squared_u128(self),
            },
        )
    }

    fn to_montgomery_unchecked(self, field: &PrimIntField<u128>) -> (r: u128) {
        proof {
            lemma_mod_bound(self * two_128(), field.modulus_value());
            lemma_small_mod(
                montgomery_form(self as int, field.modulus_value(), two_128()) as nat,
                field.modulus_value() as nat,
            );
            lemma_mod_twice(self as int, field.modulus_value());
            if self < field.modulus_value() {
                lemma_small_mod(self as nat, field.modulus_value() as nat);
            }
            lemma_reduce_montgomery_form(
                self as int,
                field.modulus_value(),
                field.neg_inverse_value(),
                two_128(),
            );
            let n = field.modulus_value();
            lemma_mod_bound(two_128() * two_128(), n);
            lemma_product_bound_128(self, field.r_squared, field);
            lemma_to_montgomery(
                self as int,
                n,
                field.neg_inverse_value(),
                field.r_squared_value(),
                two_128(),
            );
        }
        field.montgomery_reduce(DoubleWidth::mult(self, field.r_squared))
    }

    fn to_montgomery(self, field: &PrimIntField<u128>) -> (r: u128) {
        proof {
            lemma_reduce_montgomery_form(
                self as int,
                field.modulus_value(),
                field.neg_inverse_value(),
                two_128(),
            );
            lemma_montgomery_form_mod(self as int, field.prime as int, two_128());
        }
        (self % field.prime).to_montgomery_unchecked(field)
    }

    fn to_normal(self, field: &PrimIntField<u128>) -> (r: u128) {
        proof {
            lemma_radix_multiple(field.prime as int, two_128());
        }
        field.montgomery_reduce(DoubleWidth { higher: 0, lower: self })
    }

    fn mod_pow(self, exponent: u128, field: &PrimIntField<u128>) -> (r: u128) {
        let ghost n = field.prime as int;
        let ghost n_inv = field.prime_inverted as int;
        let ghost base = reduce(self as int, n, two_128());
        let ghost full = exponent as nat;
        let mut exponent = exponent;
        let mut power = self;
        let mut result = if exponent % 2 == 0 {
            1u128.to_montgomery(field)
        } else {
            self
        };
        // the values that `power` and `result` stand for
        let ghost mut sq: int = base;
        let ghost mut acc: int = if full % 2 == 0 {
            1
        } else {
            base
        };
        let ghost e_start = exponent;
        exponent >>= 1;
        proof {
            lemma_form_of_reduce(self as int, n, n_inv, two_128());
            assert(exponent == e_start / 2) by (bit_vector)
                requires
                    exponent == e_start >> 1,
            ;
            lemma_pow_halve(base, full);
            lemma_pow1(base);
            lemma_pow0(base);
            assert(pow(base, full) == acc * pow(sq * sq, exponent as nat));
        }
        while exponent != 0
            invariant
                field.valid(),
                n == field.prime as int,
                n_inv == field.prime_inverted as int,
                power < n,
                result < n,
                power == montgomery_form(sq, n, two_128()),
                result == montgomery_form(acc, n, two_128()),
                (acc * pow(sq * sq, exponent as nat)) % n == pow(base, full) % n,
            decreases exponent,
        {
            let ghost old_sq = sq;
            let ghost old_acc = acc;
            let ghost old_e = exponent as nat;
            proof {
                lemma_product_bound_128(power, power, field);
                lemma_reduce_product(sq, sq, n, n_inv, two_128());
            }
            power = field.montgomery_reduce(DoubleWidth::mult(power, power));
            proof {
                sq = old_sq * old_sq;
            }
            if exponent % 2 == 1 {
                proof {
                    lemma_product_bound_128(result, power, field);
                    lemma_reduce_product(acc, sq, n, n_inv, two_128());
                }
                result = field.montgomery_reduce(DoubleWidth::mult(result, power));
                proof {
                    acc = old_acc * sq;
                }
            }
            let ghost e_before = exponent;
            exponent >>= 1;
            proof {
                assert(exponent == e_before / 2) by (bit_vector)
                    requires
                        exponent == e_before >> 1,
                ;
                lemma_pow_step(old_acc, old_sq, old_e, n, sq, acc);
            }
        }
        proof {
            field.lemma_fields();
            law_power_of_word(self as int, full, n, n_inv, field.r_squared_value(), two_128());
            lemma_pow0(sq * sq);
            // result == form(acc), and acc ≡ base^full
            lemma_montgomery_form_mod(acc, n, two_128());
            lemma_montgomery_form_mod(pow(base, full), n, two_128());
        }
        result
    }
}

/// A product of a word with a word below the modulus is in the domain of REDC.
pub proof fn lemma_product_bound_128(a: u128, b: u128, field: &PrimIntField<u128>)
    requires
        field.valid(),
        b < field.modulus_value(),
    ensures
        0 <= a * b < field.modulus_value() * two_128(),
{
    let n = field.modulus_value();
    assert(0 <= a * b && a * b < n * two_128()) by (nonlinear_arith)
        requires
            0 <= a < two_128(),
            0 <= b < n,
            n <= two_128(),
    ;
}

} // verus!
