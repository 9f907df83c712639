//! The arithmetic behind Montgomery reduction, over mathematical integers.
//!
//! Everything here is ghost code: definitions that the contracts of the
//! executable backends are stated in, and the lemmas they are proved from.
use vstd::arithmetic::div_mod::*;
use vstd::arithmetic::mul::*;
use vstd::arithmetic::power::*;
use vstd::arithmetic::power2::*;
use vstd::prelude::*;

verus! {

/// `n_inv` is a negated inverse of `n` modulo `radix`: `n * n_inv ≡ -1 (mod radix)`.
pub open spec fn negates_inverse(n_inv: int, n: int, radix: int) -> bool {
    (n * n_inv) % radix == radix - 1
}

/// The parameters of a Montgomery field: an odd modulus `n` that does not
/// exceed the radix, a negated inverse of `n` modulo the radix, and
/// `radix² mod n`.
pub open spec fn valid_parameters(n: int, n_inv: int, r_squared: int, radix: int) -> bool {
    &&& 0 < n <= radix
    &&& n % 2 == 1
    &&& negates_inverse(n_inv, n, radix)
    &&& r_squared == (radix * radix) % n
}

/// The Montgomery form of `x`: `x * radix mod n`.
pub open spec fn montgomery_form(x: int, n: int, radix: int) -> int {
    (x * radix) % n
}

/// `r` is the Montgomery reduction of `t`: the representative in `[0, n)`
/// with `r * radix ≡ t (mod n)`.
pub open spec fn is_reduction(r: int, t: int, n: int, radix: int) -> bool {
    0 <= r < n && (r * radix) % n == t % n
}

/// The Montgomery reduction of `t`, that is `t * radix⁻¹ mod n`.
pub open spec fn reduce(t: int, n: int, radix: int) -> int {
    choose|r: int| is_reduction(r, t, n, radix)
}

/// Modular exponentiation by the plain definition: `b^e mod n`.
pub open spec fn mod_exp(b: int, e: nat, n: int) -> int {
    pow(b, e) % n
}

/// What exponentiation inside the Montgomery domain yields: the Montgomery
/// form of `b^e`, where `b` is the value that `base` stands for.
pub open spec fn montgomery_power(base: int, e: nat, n: int, radix: int) -> int {
    montgomery_form(pow(reduce(base, n, radix), e), n, radix)
}

/// The sum of two residues.
pub open spec fn add_mod(a: int, b: int, n: int) -> int {
    (a + b) % n
}

/// The difference of two residues.
pub open spec fn sub_mod(a: int, b: int, n: int) -> int {
    (a - b) % n
}

/// A quotient `c` with `c * radix == n * n_inv + 1`, which makes `c` an
/// inverse of `radix` modulo `n`.
pub open spec fn radix_inverse(n: int, n_inv: int, radix: int) -> int {
    (n * n_inv + 1) / radix
}

/// `2^128`.
pub open spec fn two_128() -> int {
    0x1_0000_0000_0000_0000_0000_0000_0000_0000int
}

/// `2^64`.
pub open spec fn two_64() -> int {
    0x1_0000_0000_0000_0000int
}

/// `pow2(64)` is `2^64`.
pub proof fn lemma_pow2_64()
    ensures
        pow2(64) == two_64(),
{
    lemma2_to64_rest();
}

/// `pow2(128)` is `2^128`.
pub proof fn lemma_pow2_128()
    ensures
        pow2(128) == two_128(),
{
    lemma2_to64_rest();
    lemma_pow2_adds(64, 64);
    assert(0x1_0000_0000_0000_0000int * 0x1_0000_0000_0000_0000int
        == 0x1_0000_0000_0000_0000_0000_0000_0000_0000int) by (nonlinear_arith);
}

/// `(a * b) * c == a * (b * c)` and friends, for the solver.
proof fn lemma_mul_assoc3(a: int, b: int, c: int)
    ensures
        (a * b) * c == a * (b * c),
        (a * b) * c == (a * c) * b,
        (a * b) * c == b * (a * c),
{
    assert((a * b) * c == a * (b * c)) by (nonlinear_arith);
    assert((a * b) * c == (a * c) * b) by (nonlinear_arith);
    assert((a * b) * c == b * (a * c)) by (nonlinear_arith);
}

/// Congruent factors give congruent products.
pub proof fn lemma_mul_congruent(a: int, b: int, c: int, m: int)
    requires
        0 < m,
        a % m == b % m,
    ensures
        (a * c) % m == (b * c) % m,
        (c * a) % m == (c * b) % m,
{
    lemma_mul_mod_noop_left(a, c, m);
    lemma_mul_mod_noop_left(b, c, m);
    lemma_mul_is_commutative(a, c);
    lemma_mul_is_commutative(b, c);
}

/// The radix has an inverse modulo `n`.
pub proof fn lemma_radix_inverse(n: int, n_inv: int, radix: int)
    requires
        0 < n,
        0 < radix,
        negates_inverse(n_inv, n, radix),
    ensures
        radix_inverse(n, n_inv, radix) * radix == n * n_inv + 1,
        (radix_inverse(n, n_inv, radix) * radix) % n == 1int % n,
{
    let x = n * n_inv;
    let c = radix_inverse(n, n_inv, radix);
    lemma_fundamental_div_mod(x, radix);
    // x == radix * (x / radix) + radix - 1, so x + 1 == radix * (x / radix + 1)
    let q = x / radix;
    assert(x + 1 == radix * (q + 1)) by (nonlinear_arith)
        requires
            x == radix * q + (radix - 1),
    ;
    lemma_fundamental_div_mod_converse(x + 1, radix, q + 1, 0);
    assert(c == q + 1);
    lemma_mul_is_commutative(c, radix);
    assert(c * radix == n * n_inv + 1);
    lemma_mod_multiples_vanish(n_inv, 1, n);
}

/// A Montgomery reduction is unique.
pub proof fn lemma_reduction_unique(r1: int, r2: int, t: int, n: int, n_inv: int, radix: int)
    requires
        0 < n,
        0 < radix,
        negates_inverse(n_inv, n, radix),
        is_reduction(r1, t, n, radix),
        is_reduction(r2, t, n, radix),
    ensures
        r1 == r2,
{
    let c = radix_inverse(n, n_inv, radix);
    lemma_radix_inverse(n, n_inv, radix);
    lemma_cancel_radix(r1, c, n, radix);
    lemma_cancel_radix(r2, c, n, radix);
    lemma_mul_congruent(r1 * radix, r2 * radix, c, n);
    lemma_small_mod(r1 as nat, n as nat);
    lemma_small_mod(r2 as nat, n as nat);
}

/// Multiplying by the radix and then by its inverse changes nothing modulo `n`.
proof fn lemma_cancel_radix(r: int, c: int, n: int, radix: int)
    requires
        0 < n,
        (c * radix) % n == 1int % n,
    ensures
        ((r * radix) * c) % n == r % n,
{
    lemma_mul_assoc3(r, radix, c);
    lemma_mul_is_commutative(radix, c);
    assert((r * radix) * c == r * (c * radix));
    lemma_mul_mod_noop_right(r, c * radix, n);
    lemma_mul_mod_noop_right(r, 1, n);
}

/// Every integer has a Montgomery reduction, and `reduce` names it.
pub proof fn lemma_reduce_is_reduction(t: int, n: int, n_inv: int, radix: int)
    requires
        0 < n,
        0 < radix,
        negates_inverse(n_inv, n, radix),
    ensures
        is_reduction(reduce(t, n, radix), t, n, radix),
{
    let c = radix_inverse(n, n_inv, radix);
    lemma_radix_inverse(n, n_inv, radix);
    let r = (t * c) % n;
    lemma_mod_bound(t * c, n);
    // (r * radix) % n == ((t * c) * radix) % n == (t * (c * radix)) % n == t % n
    lemma_mul_mod_noop_left(t * c, radix, n);
    lemma_mul_assoc3(t, c, radix);
    lemma_mul_mod_noop_right(t, c * radix, n);
    lemma_mul_mod_noop_right(t, 1, n);
    assert(is_reduction(r, t, n, radix));
}

/// A value that meets the defining property of the reduction is the reduction.
pub proof fn lemma_reduce_eq(r: int, t: int, n: int, n_inv: int, radix: int)
    requires
        0 < n,
        0 < radix,
        negates_inverse(n_inv, n, radix),
        is_reduction(r, t, n, radix),
    ensures
        r == reduce(t, n, radix),
{
    lemma_reduce_is_reduction(t, n, n_inv, radix);
    lemma_reduction_unique(r, reduce(t, n, radix), t, n, n_inv, radix);
}

/// The heart of REDC. With `m ≡ t * n_inv (mod radix)`, the sum `t + m * n` is
/// a multiple of the radix, and its quotient `q` by the radix is congruent to
/// `t * radix⁻¹`. For `t` in `[0, n * radix)` the quotient lies below `2n`.
pub proof fn lemma_redc_quotient(t: int, n: int, n_inv: int, radix: int, m: int)
    requires
        0 < n,
        0 < radix,
        negates_inverse(n_inv, n, radix),
        m == ((t % radix) * n_inv) % radix,
    ensures
        0 <= m < radix,
        (t + m * n) % radix == 0,
        (t + m * n) == radix * ((t + m * n) / radix),
        0 <= t < n * radix ==> 0 <= (t + m * n) / radix < 2 * n,
        (((t + m * n) / radix) * radix) % n == t % n,
{
    lemma_mod_bound((t % radix) * n_inv, radix);
    // m * n ≡ t * (n_inv * n) ≡ t * (radix - 1) (mod radix)
    lemma_mul_mod_noop_left(t, n_inv, radix);
    assert(m == (t * n_inv) % radix);
    lemma_mul_mod_noop_left(t * n_inv, n, radix);
    lemma_mul_assoc3(t, n_inv, n);
    lemma_mul_is_commutative(n_inv, n);
    assert((m * n) % radix == (t * (n * n_inv)) % radix);
    lemma_mul_mod_noop_right(t, n * n_inv, radix);
    assert((m * n) % radix == (t * (radix - 1)) % radix);
    // t + t * (radix - 1) == t * radix
    assert(t + t * (radix - 1) == radix * t) by (nonlinear_arith);
    lemma_add_mod_noop_right(t, m * n, radix);
    lemma_add_mod_noop_right(t, t * (radix - 1), radix);
    lemma_mod_multiples_basic(t, radix);
    lemma_mul_is_commutative(t, radix);
    let s = t + m * n;
    assert(s % radix == 0);
    lemma_fundamental_div_mod(s, radix);
    let q = s / radix;
    assert(s == radix * q);
    // bounds
    assert(0 <= m * n && m * n < radix * n) by (nonlinear_arith)
        requires
            0 <= m < radix,
            0 < n,
    ;
    if 0 <= t < n * radix {
        assert(0 <= q < 2 * n) by (nonlinear_arith)
            requires
                s == radix * q,
                0 <= s,
                s < n * radix + radix * n,
                0 < radix,
        ;
    }
    // congruence modulo n
    lemma_mul_is_commutative(q, radix);
    lemma_mul_is_commutative(m, n);
    lemma_mod_multiples_vanish(m, t, n);
    assert((n * m + t) % n == t % n);
}

/// The final conditional subtraction of REDC keeps the congruence, whatever
/// the quotient.
pub proof fn lemma_redc_congruent(t: int, n: int, radix: int, q: int, r: int)
    requires
        0 < n,
        (q * radix) % n == t % n,
        r == if q >= n {
            q - n
        } else {
            q
        },
    ensures
        (r * radix) % n == t % n,
{
    if q >= n {
        assert((q - n) * radix == q * radix - n * radix) by (nonlinear_arith);
        lemma_mul_is_commutative(n, radix);
        lemma_mod_multiples_vanish(-radix, q * radix, n);
        assert(n * (-radix) == -(n * radix)) by (nonlinear_arith);
    }
}

/// The final conditional subtraction of REDC yields the reduction.
pub proof fn lemma_redc_result(t: int, n: int, n_inv: int, radix: int, q: int, r: int)
    requires
        0 < n,
        0 < radix,
        negates_inverse(n_inv, n, radix),
        0 <= q < 2 * n,
        (q * radix) % n == t % n,
        r == if q >= n {
            q - n
        } else {
            q
        },
    ensures
        is_reduction(r, t, n, radix),
        r == reduce(t, n, radix),
{
    lemma_redc_congruent(t, n, radix, q, r);
    lemma_reduce_eq(r, t, n, n_inv, radix);
}

/// A value that is congruent to the reduction of `x * r_squared` is congruent
/// to the Montgomery form of `x`.
pub proof fn lemma_congruent_to_form(r: int, x: int, n: int, n_inv: int, r_squared: int, radix: int)
    requires
        valid_parameters(n, n_inv, r_squared, radix),
        (r * radix) % n == (x * r_squared) % n,
    ensures
        r % n == montgomery_form(x, n, radix),
{
    let f = montgomery_form(x, n, radix);
    let c = radix_inverse(n, n_inv, radix);
    lemma_to_montgomery(x, n, n_inv, r_squared, radix);
    lemma_reduce_is_reduction(x * r_squared, n, n_inv, radix);
    lemma_radix_inverse(n, n_inv, radix);
    lemma_cancel_radix(r, c, n, radix);
    lemma_cancel_radix(f, c, n, radix);
    lemma_mul_congruent(r * radix, f * radix, c, n);
    lemma_small_mod(f as nat, n as nat);
}

/// The radix does not exceed `n * radix`, so every value below the radix is in
/// the domain of REDC.
pub proof fn lemma_radix_multiple(n: int, radix: int)
    requires
        0 < n,
        0 < radix,
    ensures
        radix <= n * radix,
{
    assert(radix <= n * radix) by (nonlinear_arith)
        requires
            0 < n,
            0 < radix,
    ;
}

/// Reducing `x * r_squared` gives the Montgomery form of `x`.
pub proof fn lemma_to_montgomery(x: int, n: int, n_inv: int, r_squared: int, radix: int)
    requires
        valid_parameters(n, n_inv, r_squared, radix),
    ensures
        reduce(x * r_squared, n, radix) == montgomery_form(x, n, radix),
        0 <= montgomery_form(x, n, radix) < n,
{
    let f = montgomery_form(x, n, radix);
    lemma_mod_bound(x * radix, n);
    // (f * radix) % n == (x * radix * radix) % n == (x * r_squared) % n
    lemma_mul_mod_noop_left(x * radix, radix, n);
    lemma_mul_assoc3(x, radix, radix);
    lemma_mul_mod_noop_right(x, radix * radix, n);
    assert(is_reduction(f, x * r_squared, n, radix));
    lemma_reduce_eq(f, x * r_squared, n, n_inv, radix);
}

/// The Montgomery form only depends on the residue of `x`.
pub proof fn lemma_montgomery_form_mod(x: int, n: int, radix: int)
    requires
        0 < n,
    ensures
        montgomery_form(x % n, n, radix) == montgomery_form(x, n, radix),
{
    lemma_mul_mod_noop_left(x, radix, n);
}

/// Reducing the Montgomery form of a residue gives the residue back.
pub proof fn lemma_reduce_montgomery_form(x: int, n: int, n_inv: int, radix: int)
    requires
        0 < n,
        0 < radix,
        negates_inverse(n_inv, n, radix),
    ensures
        reduce(montgomery_form(x, n, radix), n, radix) == x % n,
{
    let f = montgomery_form(x, n, radix);
    lemma_mod_bound(x, n);
    lemma_mul_mod_noop_left(x, radix, n);
    lemma_mod_twice(x * radix, n);
    assert(is_reduction(x % n, f, n, radix));
    lemma_reduce_eq(x % n, f, n, n_inv, radix);
}

/// A value in `[0, n)` is the Montgomery form of its own reduction.
pub proof fn lemma_form_of_reduce(v: int, n: int, n_inv: int, radix: int)
    requires
        0 < n,
        0 < radix,
        negates_inverse(n_inv, n, radix),
        0 <= v < n,
    ensures
        montgomery_form(reduce(v, n, radix), n, radix) == v,
        0 <= reduce(v, n, radix) < n,
{
    lemma_reduce_is_reduction(v, n, n_inv, radix);
    lemma_small_mod(v as nat, n as nat);
}

/// Reducing the product of two Montgomery forms gives the Montgomery form of
/// the product.
pub proof fn lemma_reduce_product(a: int, b: int, n: int, n_inv: int, radix: int)
    requires
        0 < n,
        0 < radix,
        negates_inverse(n_inv, n, radix),
    ensures
        reduce(montgomery_form(a, n, radix) * montgomery_form(b, n, radix), n, radix)
            == montgomery_form(a * b, n, radix),
{
    let fa = montgomery_form(a, n, radix);
    let fb = montgomery_form(b, n, radix);
    let f = montgomery_form(a * b, n, radix);
    lemma_mod_bound((a * b) * radix, n);
    // (f * radix) % n == ((a * b * radix) * radix) % n == ((a * radix) * (b * radix)) % n
    lemma_mul_mod_noop_left((a * b) * radix, radix, n);
    assert(((a * b) * radix) * radix == (a * radix) * (b * radix)) by (nonlinear_arith);
    lemma_mul_mod_noop(a * radix, b * radix, n);
    assert(is_reduction(f, fa * fb, n, radix));
    lemma_reduce_eq(f, fa * fb, n, n_inv, radix);
}

/// One step of Hensel lifting: a negated inverse of the odd `p` modulo `2^k`
/// extends to one modulo `2^(k+1)` by setting bit `k` where needed.
pub proof fn lemma_hensel_step(p: int, inv: int, k: nat)
    requires
        0 < p,
        p % 2 == 1,
        0 <= inv < pow2(k),
        (p * inv) % (pow2(k) as int) == pow2(k) - 1,
    ensures
        (p * inv) % (pow2(k + 1) as int) == pow2(k + 1) - 1 || (p * inv) % (pow2(k + 1) as int)
            == pow2(k) - 1,
        (p * inv) % (pow2(k + 1) as int) != pow2(k + 1) - 1 ==> (p * (inv + pow2(k))) % (pow2(
            k + 1,
        ) as int) == pow2(k + 1) - 1,
        inv + pow2(k) < pow2(k + 1),
{
    let h = pow2(k) as int;
    let m = pow2(k + 1) as int;
    lemma_pow2_pos(k);
    lemma_pow2_unfold(k + 1);
    assert(m == 2 * h);
    let x = p * inv;
    lemma_mul_nonnegative(p, inv);
    lemma_mul_is_commutative(h, 2);
    lemma_mod_breakdown(x, h, 2);
    assert(x % (h * 2) == h * ((x / h) % 2) + x % h);
    let bit = (x / h) % 2;
    assert(bit == 0 || bit == 1);
    assert(h * bit == 0 || h * bit == h) by (nonlinear_arith)
        requires
            bit == 0 || bit == 1,
    ;
    if x % m != m - 1 {
        assert(x % m == h - 1);
        // p == 2 * j + 1, so p * h == j * m + h
        let j = p / 2;
        lemma_fundamental_div_mod(p, 2);
        assert(p * (inv + h) == m * j + (x + h)) by (nonlinear_arith)
            requires
                p == 2 * j + 1,
                m == 2 * h,
                x == p * inv,
        ;
        lemma_mod_multiples_vanish(j, x + h, m);
        lemma_add_mod_noop(x, h, m);
        lemma_small_mod(h as nat, m as nat);
        lemma_small_mod((2 * h - 1) as nat, m as nat);
    }
}

/// Powers: `b^e == b^(e mod 2) * (b²)^(e / 2)`.
pub proof fn lemma_pow_halve(b: int, e: nat)
    ensures
        pow(b, e) == pow(b, e % 2) * pow(b * b, e / 2),
{
    let h = e / 2;
    let l = e % 2;
    assert(e == l + 2 * h);
    lemma_pow_adds(b, l, 2 * h);
    lemma_pow_multiplies(b, 2, h);
    lemma_square_is_pow2(b);
    reveal_with_fuel(pow, 3);
    assert(pow(b, 2) == b * b) by {
        lemma_pow1(b);
        lemma_pow_adds(b, 1, 1);
    }
}

/// Square-and-multiply keeps `acc * (sq²)^e` unchanged modulo `n`: after
/// squaring the running power and folding in the low bit of `e`, the same
/// product is formed with `e / 2`.
pub proof fn lemma_pow_step(acc: int, sq: int, e: nat, n: int, sq2: int, acc2: int)
    requires
        0 < n,
        sq2 % n == (sq * sq) % n,
        acc2 % n == (if e % 2 == 1 {
            acc * sq2
        } else {
            acc
        }) % n,
    ensures
        (acc2 * pow(sq2 * sq2, e / 2)) % n == (acc * pow(sq * sq, e)) % n,
{
    let s = sq * sq;
    lemma_pow_halve(s, e);
    // pow(s, e) == pow(s, e % 2) * pow(s * s, e / 2)
    lemma_pow_mod_noop(sq2 * sq2, e / 2, n);
    lemma_pow_mod_noop(s * s, e / 2, n);
    lemma_mul_mod_noop(sq2, sq2, n);
    lemma_mul_mod_noop(s, s, n);
    assert((sq2 * sq2) % n == (s * s) % n);
    let t2 = pow(sq2 * sq2, e / 2);
    let t = pow(s * s, e / 2);
    assert(t2 % n == t % n);
    // acc2 * t2 ≡ acc2 * t
    lemma_mul_congruent(t2, t, acc2, n);
    if e % 2 == 1 {
        lemma_pow1(s);
        assert(pow(s, e) == s * t);
        lemma_mul_congruent(sq2, s, acc, n);
        assert(acc2 % n == (acc * s) % n);
        lemma_mul_congruent(acc2, acc * s, t, n);
        lemma_mul_assoc3(acc, s, t);
    } else {
        lemma_pow0(s);
        assert(pow(s, e) == 1 * t);
        lemma_mul_congruent(acc2, acc, t, n);
    }
}

} // verus!
