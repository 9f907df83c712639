//! What holds of every Montgomery field, whatever the backend: the
//! conversions are inverse to each other, and arithmetic on Montgomery forms
//! is arithmetic on the values they stand for.
//!
//! The laws are stated over the functions of the [`theory`](crate::theory)
//! module, which are the ones the contracts of the backends use: `to_montgomery`
//! yields `montgomery_form`, `redc` and `to_normal` yield `reduce`, and
//! `mod_pow` yields `montgomery_power`.
use crate::fermat::{is_prime, lemma_fermat_little};
use crate::theory::{
    add_mod, lemma_form_of_reduce, lemma_reduce_eq, lemma_reduce_is_reduction,
    lemma_reduce_montgomery_form, lemma_reduce_product, mod_exp, montgomery_form, montgomery_power,
    reduce, sub_mod, valid_parameters,
};
use vstd::arithmetic::div_mod::*;
use vstd::arithmetic::mul::*;
use vstd::arithmetic::power::*;
use vstd::prelude::*;

verus! {

/// Round trip: a residue that is put into Montgomery form and taken out
/// again is unchanged.
pub proof fn law_round_trip(x: int, n: int, n_inv: int, r_squared: int, radix: int)
    requires
        valid_parameters(n, n_inv, r_squared, radix),
        0 <= x < n,
    ensures
        reduce(montgomery_form(x, n, radix), n, radix) == x,
{
    lemma_reduce_montgomery_form(x, n, n_inv, radix);
    lemma_small_mod(x as nat, n as nat);
}

/// Homomorphism: the reduced product of two Montgomery forms, taken out of
/// Montgomery form, is the product of the two residues modulo the modulus.
pub proof fn law_homomorphism(a: int, b: int, n: int, n_inv: int, r_squared: int, radix: int)
    requires
        valid_parameters(n, n_inv, r_squared, radix),
        0 <= a < n,
        0 <= b < n,
    ensures
        reduce(
            reduce(montgomery_form(a, n, radix) * montgomery_form(b, n, radix), n, radix),
            n,
            radix,
        ) == (a * b) % n,
{
    lemma_reduce_product(a, b, n, n_inv, radix);
    lemma_reduce_montgomery_form(a * b, n, n_inv, radix);
}

/// Addition: the sum of two Montgomery forms modulo the modulus stands for
/// the sum of the two residues.
pub proof fn law_addition(a: int, b: int, n: int, n_inv: int, r_squared: int, radix: int)
    requires
        valid_parameters(n, n_inv, r_squared, radix),
        0 <= a < n,
        0 <= b < n,
    ensures
        add_mod(montgomery_form(a, n, radix), montgomery_form(b, n, radix), n) == montgomery_form(
            a + b,
            n,
            radix,
        ),
        reduce(add_mod(montgomery_form(a, n, radix), montgomery_form(b, n, radix), n), n, radix)
            == (a + b) % n,
{
    lemma_add_mod_noop(a * radix, b * radix, n);
    lemma_mul_is_distributive_add_other_way(radix, a, b);
    lemma_reduce_montgomery_form(a + b, n, n_inv, radix);
}

/// Subtraction: the difference of two Montgomery forms modulo the modulus
/// stands for the difference of the two residues.
pub proof fn law_subtraction(a: int, b: int, n: int, n_inv: int, r_squared: int, radix: int)
    requires
        valid_parameters(n, n_inv, r_squared, radix),
        0 <= a < n,
        0 <= b < n,
    ensures
        sub_mod(montgomery_form(a, n, radix), montgomery_form(b, n, radix), n) == montgomery_form(
            a - b,
            n,
            radix,
        ),
        reduce(sub_mod(montgomery_form(a, n, radix), montgomery_form(b, n, radix), n), n, radix)
            == (a - b) % n,
{
    lemma_sub_mod_noop(a * radix, b * radix, n);
    lemma_mul_is_distributive_sub_other_way(radix, a, b);
    lemma_reduce_montgomery_form(a - b, n, n_inv, radix);
}

/// Exponentiation agreement: exponentiation inside the Montgomery domain,
/// taken out of Montgomery form, is `b^e mod n` by the plain definition.
pub proof fn law_exponentiation(b: int, e: nat, n: int, n_inv: int, r_squared: int, radix: int)
    requires
        valid_parameters(n, n_inv, r_squared, radix),
        0 <= b < n,
    ensures
        reduce(montgomery_power(montgomery_form(b, n, radix), e, n, radix), n, radix) == mod_exp(
            b,
            e,
            n,
        ),
{
    lemma_reduce_montgomery_form(b, n, n_inv, radix);
    lemma_small_mod(b as nat, n as nat);
    lemma_reduce_montgomery_form(pow(b, e), n, n_inv, radix);
}

/// Addition of words: the sum of two Montgomery forms modulo the modulus
/// stands for the sum of the residues that the two stand for.
pub proof fn law_sum_of_words(u: int, v: int, n: int, n_inv: int, r_squared: int, radix: int)
    requires
        valid_parameters(n, n_inv, r_squared, radix),
        0 <= u < n,
        0 <= v < n,
    ensures
        reduce(add_mod(u, v, n), n, radix) == (reduce(u, n, radix) + reduce(v, n, radix)) % n,
{
    lemma_form_of_reduce(u, n, n_inv, radix);
    lemma_form_of_reduce(v, n, n_inv, radix);
    law_addition(reduce(u, n, radix), reduce(v, n, radix), n, n_inv, r_squared, radix);
}

/// Subtraction of words: the difference of two Montgomery forms modulo the
/// modulus stands for the difference of the residues that the two stand for.
pub proof fn law_difference_of_words(
    u: int,
    v: int,
    n: int,
    n_inv: int,
    r_squared: int,
    radix: int,
)
    requires
        valid_parameters(n, n_inv, r_squared, radix),
        0 <= u < n,
        0 <= v < n,
    ensures
        reduce(sub_mod(u, v, n), n, radix) == (reduce(u, n, radix) - reduce(v, n, radix)) % n,
{
    lemma_form_of_reduce(u, n, n_inv, radix);
    lemma_form_of_reduce(v, n, n_inv, radix);
    law_subtraction(reduce(u, n, radix), reduce(v, n, radix), n, n_inv, r_squared, radix);
}

/// Multiplication of words: the reduced product of two Montgomery forms
/// stands for the product of the residues that the two stand for.
pub proof fn law_product_of_words(u: int, v: int, n: int, n_inv: int, r_squared: int, radix: int)
    requires
        valid_parameters(n, n_inv, r_squared, radix),
        0 <= u < n,
        0 <= v < n,
    ensures
        reduce(reduce(u * v, n, radix), n, radix) == (reduce(u, n, radix) * reduce(v, n, radix))
            % n,
{
    lemma_form_of_reduce(u, n, n_inv, radix);
    lemma_form_of_reduce(v, n, n_inv, radix);
    law_homomorphism(reduce(u, n, radix), reduce(v, n, radix), n, n_inv, r_squared, radix);
}

/// Exponentiation of a word: the power of a Montgomery form stands for the
/// power of the residue that the form stands for.
pub proof fn law_power_of_word(w: int, e: nat, n: int, n_inv: int, r_squared: int, radix: int)
    requires
        valid_parameters(n, n_inv, r_squared, radix),
        0 <= w < n,
    ensures
        reduce(montgomery_power(w, e, n, radix), n, radix) == mod_exp(reduce(w, n, radix), e, n),
{
    lemma_reduce_montgomery_form(pow(reduce(w, n, radix), e), n, n_inv, radix);
}

/// Inversion of a stored word: for a prime modulus and a stored word other
/// than zero, the value of the word times the value of its power `n - 2` is 1
/// modulo `n`.
pub proof fn law_inverse_of_word(w: int, n: int, n_inv: int, r_squared: int, radix: int)
    requires
        valid_parameters(n, n_inv, r_squared, radix),
        is_prime(n),
        0 < w < n,
    ensures
        (reduce(w, n, radix) * reduce(
            montgomery_power(w, (n - 2) as nat, n, radix),
            n,
            radix,
        )) % n == 1,
{
    let e = (n - 2) as nat;
    let x = reduce(w, n, radix);
    lemma_form_of_reduce(w, n, n_inv, radix);
    // x is not zero, since zero has the Montgomery form zero
    assert(x != 0) by {
        assert(0 * radix == 0);
        lemma_small_mod(0, n as nat);
    }
    lemma_reduce_montgomery_form(pow(x, e), n, n_inv, radix);
    // x * (x^e mod n) ≡ x * x^e == x^(n-1) ≡ 1
    lemma_mul_mod_noop_right(x, pow(x, e), n);
    lemma_pow1(x);
    lemma_pow_adds(x, 1, e);
    lemma_fermat_little(n, x);
}

/// Inverse correctness: for a prime modulus and a residue `x` other than
/// zero, `x` times what `invert` stands for is 1 modulo `n`.
pub proof fn law_inverse(x: int, n: int, n_inv: int, r_squared: int, radix: int)
    requires
        valid_parameters(n, n_inv, r_squared, radix),
        is_prime(n),
        0 < x < n,
    ensures
        (x * reduce(
            montgomery_power(montgomery_form(x, n, radix), (n - 2) as nat, n, radix),
            n,
            radix,
        )) % n == 1,
{
    let w = montgomery_form(x, n, radix);
    law_round_trip(x, n, n_inv, r_squared, radix);
    lemma_mod_bound(x * radix, n);
    // the Montgomery form of a residue other than zero is not zero
    assert(w != 0) by {
        if w == 0 {
            lemma_reduce_is_reduction(0, n, n_inv, radix);
            lemma_reduce_eq(0, 0, n, n_inv, radix);
        }
    }
    law_inverse_of_word(w, n, n_inv, r_squared, radix);
}

} // verus!
