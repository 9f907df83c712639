//! The backend over `u64`. The radix is `2^64`, and a full product of two
//! words is a `u128`.
use crate::bits::{lemma_low_mask_64, lemma_pow2_bound_64, lemma_set_bit_64, lemma_shift_left_64};
use crate::laws::law_power_of_word;
use crate::theory::{
    is_reduction, lemma_form_of_reduce, lemma_hensel_step, lemma_montgomery_form_mod, lemma_pow2_64,
    lemma_pow_halve, lemma_pow_step, lemma_radix_multiple, lemma_redc_quotient, lemma_redc_result,
    lemma_reduce_montgomery_form, lemma_reduce_product, lemma_to_montgomery, montgomery_form,
    negates_inverse, reduce, two_64, valid_parameters,
};
use crate::{Field, PrimIntField, Redc, SetupError};
use vstd::arithmetic::div_mod::*;
use vstd::arithmetic::mul::*;
use vstd::arithmetic::power::*;
use vstd::arithmetic::power2::*;
use vstd::prelude::*;

verus! {

/// Computes by Hensel lifting the negated inverse of the odd `prime` modulo
/// `2^64`: the word `inverse` with `prime * inverse ≡ -1 (mod 2^64)`.
///
/// The inverse is built bit by bit from the least significant one. Before
/// the round for bit `k` the candidate is right modulo `2^k`; the round tests
/// it modulo `2^(k+1)` under a mask of `k + 1` ones and sets bit `k` where
/// the test fails.
pub fn p_calc_prime_inverse(prime: u64) -> (inverse: u64)
    requires
        prime % 2 == 1,
    ensures
        negates_inverse(inverse as int, prime as int, two_64()),
{
    let mut last_power: u64 = 2;
    let mut current_power: u64 = 4;
    let mut prime_inv_mod: u64 = 1;
    let mut mod_mask: u64 = 3;
    let ghost mut k: nat = 1;
    proof {
        lemma2_to64();
        lemma_pow2_64();
        assert((prime * 1) % 2 == 1);
    }
    while last_power != 0
        invariant
            prime % 2 == 1,
            1 <= k <= 64,
            k < 64 ==> last_power == pow2(k),
            k == 64 ==> last_power == 0,
            k < 63 ==> current_power == pow2(k + 1),
            k >= 63 ==> current_power == 0,
            k < 64 ==> mod_mask == pow2(k + 1) - 1,
            prime_inv_mod < pow2(k),
            (prime * prime_inv_mod) % (pow2(k) as int) == pow2(k) - 1,
        decreases 64 - k,
    {
        proof {
            lemma_pow2_bound_64(k);
            lemma_pow2_bound_64(k + 1);
            lemma_pow2_64();
        }
        let prime_mod = prime & mod_mask;
        let product = prime_mod.wrapping_mul(prime_inv_mod);
        proof {
            let m = pow2(k + 1) as int;
            lemma_low_mask_64(prime, k + 1);
            lemma_low_mask_64(product, k + 1);
            assert(prime_mod == prime as int % m);
            assert(product == (prime_mod * prime_inv_mod) % two_64());
            // 2^64 == 2^(k+1) * 2^(63-k), so reducing modulo 2^64 first changes nothing
            lemma_pow2_adds(k + 1, (63 - k) as nat);
            lemma_pow2_pos((63 - k) as nat);
            lemma_mod_mod(prime_mod * prime_inv_mod, m, pow2((63 - k) as nat) as int);
            lemma_mul_mod_noop_left(prime as int, prime_inv_mod as int, m);
            assert((product & mod_mask) == (prime * prime_inv_mod) % m);
            lemma_hensel_step(prime as int, prime_inv_mod as int, k);
            lemma_set_bit_64(prime_inv_mod, k);
        }
        if product & mod_mask != mod_mask {
            prime_inv_mod |= last_power;
        }
        proof {
            lemma_shift_left_64(current_power);
            lemma_shift_left_64(mod_mask);
            if k + 1 < 64 {
                lemma_pow2_unfold(k + 2);
                lemma_pow2_bound_64(k + 2);
                lemma2_to64_rest();
                if k + 2 < 64 {
                    lemma_pow2_strictly_increases(k + 1, 63);
                }
            }
        }
        last_power = current_power;
        current_power <<= 1;
        mod_mask <<= 1;
        mod_mask |= 1;
        proof {
            k = k + 1;
        }
    }
    proof {
        lemma_pow2_64();
    }
    prime_inv_mod
}

/// Computes `R² mod prime` for `R = 2^64`, without ever holding `R` itself:
/// `R mod prime` is `((u64::MAX mod prime) + 1) mod prime`, and its square is
/// reduced in double width.
pub fn p_calc_r_squared_u64(prime: u64) -> (r_squared: u64)
    requires
        prime != 0,
    ensures
        r_squared == (two_64() * two_64()) % (prime as int),
{
    let r_mod = ((u64::MAX % prime) + 1) % prime;
    assert(r_mod * r_mod <= u128::MAX) by (nonlinear_arith)
        requires
            r_mod < 0x1_0000_0000_0000_0000,
    ;
    let r_squared = (u128::from(r_mod) * u128::from(r_mod)) % u128::from(prime);
    proof {
        let p = prime as int;
        assert(u64::MAX + 1 == two_64());
        lemma_fundamental_div_mod(u64::MAX as int, p);
        lemma_mod_multiples_vanish(u64::MAX as int / p, u64::MAX as int % p + 1, p);
        assert(r_mod == two_64() % p);
        lemma_mul_mod_noop(two_64(), two_64(), p);
        lemma_mod_bound(two_64() * two_64(), p);
    }
    r_squared as u64
}

impl PrimIntField<u64> {
    /// The modulus.
    pub closed spec fn modulus_value(&self) -> int {
        self.prime as int
    }

    /// The stored negated inverse of the modulus modulo `2^64`.
    pub closed spec fn neg_inverse_value(&self) -> int {
        self.prime_inverted as int
    }

    /// The stored `2^128 mod modulus`.
    pub closed spec fn r_squared_value(&self) -> int {
        self.r_squared as int
    }

    /// What the accessors read.
    pub(crate) proof fn lemma_fields(&self)
        ensures
            self.modulus_value() == self.prime,
            self.neg_inverse_value() == self.prime_inverted,
            self.r_squared_value() == self.r_squared,
    {
    }

    /// The invariant of a field over `u64`.
    pub open spec fn valid(&self) -> bool {
        &&& valid_parameters(
            self.modulus_value(),
            self.neg_inverse_value(),
            self.r_squared_value(),
            two_64(),
        )
        &&& 0 <= self.neg_inverse_value() < two_64()
    }

    /// REDC over `u64`. With `m = (value mod R) * n' mod R` the sum
    /// `value + m * modulus` is a multiple of `R = 2^64`. It may exceed a
    /// `u128` by one bit, which the carry holds and which is put back above
    /// the quotient by `R`. One conditional subtraction then gives the
    /// representative below the modulus.
    pub fn montgomery_reduce(&self, value: u128) -> (r: u64)
        requires
            self.valid(),
            value < self.modulus_value() * two_64(),
        ensures
            is_reduction(r as int, value as int, self.modulus_value(), two_64()),
            r == reduce(value as int, self.modulus_value(), two_64()),
    {
        let radix: u128 = 0x1_0000_0000_0000_0000;
        let value_mod_r = value % radix;
        assert(value_mod_r * self.prime_inverted <= u128::MAX) by (nonlinear_arith)
            requires
                value_mod_r < 0x1_0000_0000_0000_0000,
                self.prime_inverted < 0x1_0000_0000_0000_0000,
        ;
        let value_times_n_prime = value_mod_r * u128::from(self.prime_inverted);
        let m = value_times_n_prime % radix;
        assert(m * self.prime <= u128::MAX) by (nonlinear_arith)
            requires
                m < 0x1_0000_0000_0000_0000,
                self.prime < 0x1_0000_0000_0000_0000,
        ;
        let m_times_prime = m * u128::from(self.prime);
        let sum = m_times_prime.wrapping_add(value);
        let carry = sum < value;
        let mut tw = sum / radix;
        proof {
            let n = self.prime as int;
            let t = value as int;
            lemma_redc_quotient(t, n, self.prime_inverted as int, two_64(), m as int);
            let s = t + m * n;
            let q = s / two_64();
            if carry {
                assert(sum == s - two_64() * two_64());
                assert(sum == two_64() * (q - two_64())) by (nonlinear_arith)
                    requires
                        sum == s - two_64() * two_64(),
                        s == two_64() * q,
                ;
                lemma_div_multiples_vanish(q - two_64(), two_64());
                assert(tw == q - two_64());
            } else {
                assert(sum == s);
            }
        }
        if carry {
            tw += radix;
        }
        if tw >= u128::from(self.prime) {
            tw -= u128::from(self.prime);
        }
        proof {
            let n = self.prime as int;
            let t = value as int;
            let q = (t + m * n) / two_64();
            lemma_redc_result(t, n, self.prime_inverted as int, two_64(), q, tw as int);
        }
        tw as u64
    }
}

impl Field<u64> for PrimIntField<u64> {
    open spec fn wf(&self) -> bool {
        self.valid()
    }

    open spec fn modulus(&self) -> int {
        self.modulus_value()
    }

    open spec fn radix(&self) -> int {
        two_64()
    }

    fn redc(&self, value: u128) -> (r: u64) {
        self.montgomery_reduce(value)
    }
}

impl Redc for u64 {
    type SourceType = u128;

    type FieldType = PrimIntField<u64>;

    open spec fn value(&self) -> int {
        *self as int
    }

    open spec fn source_value(source: &u128) -> int {
        *source as int
    }

    open spec fn supported(&self) -> bool {
        true
    }

    open spec fn field_wf(field: &PrimIntField<u64>) -> bool {
        field.valid()
    }

    open spec fn field_modulus(field: &PrimIntField<u64>) -> int {
        field.modulus_value()
    }

    open spec fn field_radix(field: &PrimIntField<u64>) -> int {
        two_64()
    }

    fn setup_field(self) -> (r: Result<PrimIntField<u64>, SetupError>) {
        if self % 2 == 0 {
            return Err(SetupError::EvenModulus);
        }
        Ok(
            PrimIntField {
                prime: self,
                prime_inverted: p_calc_prime_inverse(self),
                r_squared: p_calc_r_squared_u64(self),
            },
        )
    }

    fn to_montgomery_unchecked(self, field: &PrimIntField<u64>) -> (r: u64) {
        proof {
            lemma_mod_bound(self * two_64(), field.modulus_value());
            lemma_small_mod(
                montgomery_form(self as int, field.modulus_value(), two_64()) as nat,
                field.modulus_value() as nat,
            );
            lemma_mod_twice(self as int, field.modulus_value());
            if self < field.modulus_value() {
                lemma_small_mod(self as nat, field.modulus_value() as nat);
            }
            lemma_reduce_montgomery_form(
                self as int,
                field.modulus_value(),
                field.neg_inverse_value(),
                two_64(),
            );
            lemma_unchecked_bound_64(self, field);
        }
        field.montgomery_reduce(u128::from(self) * u128::from(field.r_squared))
    }

    fn to_montgomery(self, field: &PrimIntField<u64>) -> (r: u64) {
        proof {
            lemma_reduce_montgomery_form(
                self as int,
                field.modulus_value(),
                field.neg_inverse_value(),
                two_64(),
            );
            lemma_montgomery_form_mod(self as int, field.prime as int, two_64());
        }
        (self % field.prime).to_montgomery_unchecked(field)
    }

    fn to_normal(self, field: &PrimIntField<u64>) -> (r: u64) {
        proof {
            lemma_radix_multiple(field.prime as int, two_64());
        }
        field.montgomery_reduce(u128::from(self))
    }

    fn mod_pow(self, exponent: u64, field: &PrimIntField<u64>) -> (r: u64) {
        let ghost n = field.prime as int;
        let ghost n_inv = field.prime_inverted as int;
        let ghost base = reduce(self as int, n, two_64());
        let ghost full = exponent as nat;
        let mut exponent = exponent;
        let mut power = self;
        let mut result = if exponent % 2 == 0 {
            1u64.to_montgomery(field)
        } else {
            self
        };
        // the values that `power` and `result` stand for
        let ghost mut sq: int = base;
        let ghost mut acc: int = if full % 2 == 0 {
            1
        } else {
            base
        };
        let ghost e_start = exponent;
        exponent >>= 1;
        proof {
            lemma_form_of_reduce(self as int, n, n_inv, two_64());
            assert(exponent == e_start / 2) by (bit_vector)
                requires
                    exponent == e_start >> 1,
            ;
            lemma_pow_halve(base, full);
            lemma_pow1(base);
            lemma_pow0(base);
            assert(pow(base, full) == acc * pow(sq * sq, exponent as nat));
        }
        while exponent != 0
            invariant
                field.valid(),
                n == field.prime as int,
                n_inv == field.prime_inverted as int,
                power < n,
                result < n,
                power == montgomery_form(sq, n, two_64()),
                result == montgomery_form(acc, n, two_64()),
                (acc * pow(sq * sq, exponent as nat)) % n == pow(base, full) % n,
            decreases exponent,
        {
            let ghost old_sq = sq;
            let ghost old_acc = acc;
            let ghost old_e = exponent as nat;
            proof {
                lemma_product_bound_64(power, power, field);
                lemma_reduce_product(sq, sq, n, n_inv, two_64());
            }
            power = field.montgomery_reduce(u128::from(power) * u128::from(power));
            proof {
                sq = old_sq * old_sq;
            }
            if exponent % 2 == 1 {
                proof {
                    lemma_product_bound_64(result, power, field);
                    lemma_reduce_product(acc, sq, n, n_inv, two_64());
                }
                result = field.montgomery_reduce(u128::from(result) * u128::from(power));
                proof {
                    acc = old_acc * sq;
                }
            }
            let ghost e_before = exponent;
            exponent >>= 1;
            proof {
                assert(exponent == e_before / 2) by (bit_vector)
                    requires
                        exponent == e_before >> 1,
                ;
                lemma_pow_step(old_acc, old_sq, old_e, n, sq, acc);
            }
        }
        proof {
            field.lemma_fields();
            law_power_of_word(self as int, full, n, n_inv, field.r_squared_value(), two_64());
            lemma_pow0(sq * sq);
            // result == form(acc), and acc ≡ base^full
            lemma_montgomery_form_mod(acc, n, two_64());
            lemma_montgomery_form_mod(pow(base, full), n, two_64());
        }
        result
    }
}

/// A product of a word with a word below the modulus is in the domain of REDC.
pub proof fn lemma_product_bound_64(a: u64, b: u64, field: &PrimIntField<u64>)
    requires
        field.valid(),
        b < field.modulus_value(),
    ensures
        a * b <= u128::MAX,
        0 <= a * b < field.modulus_value() * two_64(),
        a * b < field.modulus_value() * two_64(),
{
    let n = field.modulus_value();
    assert(0 <= a * b && a * b < n * two_64() && a * b <= u128::MAX) by (nonlinear_arith)
        requires
            0 <= a < two_64(),
            0 <= b < n,
            n <= two_64(),
            two_64() == 0x1_0000_0000_0000_0000,
    ;
}

/// The product that `to_montgomery_unchecked` reduces is in the domain of
/// REDC, whatever the word, and its reduction is the Montgomery form.
proof fn lemma_unchecked_bound_64(x: u64, field: &PrimIntField<u64>)
    requires
        field.valid(),
    ensures
        x * field.r_squared <= u128::MAX,
        x * field.r_squared < field.modulus_value() * two_64(),
        reduce(x * field.r_squared, field.modulus_value(), two_64()) == montgomery_form(
            x as int,
            field.modulus_value(),
            two_64(),
        ),
        0 <= montgomery_form(x as int, field.modulus_value(), two_64()) < field.modulus_value(),
{
    let n = field.modulus_value();
    lemma_mod_bound(two_64() * two_64(), n);
    lemma_product_bound_64(x, field.r_squared, field);
    lemma_to_montgomery(
        x as int,
        n,
        field.neg_inverse_value(),
        field.r_squared_value(),
        two_64(),
    );
}

} // verus!
