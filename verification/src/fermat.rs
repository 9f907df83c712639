//! Fermat's little theorem, which is what makes the power `p - 2` an inverse
//! modulo a prime `p`.
//!
//! The proof is the one by the binomial theorem: the binomial coefficients
//! `C(p, k)` with `0 < k < p` are multiples of `p`, so `(a + 1)^p ≡ a^p + 1`,
//! and `a^p ≡ a` follows by induction on `a`.
use vstd::arithmetic::div_mod::*;
use vstd::arithmetic::mul::*;
use vstd::arithmetic::power::*;
use vstd::prelude::*;

verus! {

/// `p` is a prime number.
pub open spec fn is_prime(p: int) -> bool {
    p > 1 && forall|d: int| 1 < d < p ==> #[trigger] (p % d) != 0
}

/// The binomial coefficient `C(n, k)`, by Pascal's rule.
pub open spec fn binomial(n: nat, k: nat) -> nat
    decreases n,
{
    if k == 0 {
        1
    } else if n == 0 {
        0
    } else {
        binomial((n - 1) as nat, (k - 1) as nat) + binomial((n - 1) as nat, k)
    }
}

/// The first `m + 1` terms of the binomial expansion of `(a + 1)^n`:
/// the sum of `C(n, k) * a^k` for `k` from 0 to `m`.
pub open spec fn binomial_sum(n: nat, a: int, m: nat) -> int
    decreases m,
{
    binomial(n, m) * pow(a, m) + if m == 0 {
        0
    } else {
        binomial_sum(n, a, (m - 1) as nat)
    }
}

/// A multiple of `m` leaves no remainder.
proof fn lemma_multiple_mod(m: int, t: int)
    requires
        m > 0,
    ensures
        (m * t) % m == 0,
        (t * m) % m == 0,
{
    lemma_mod_multiples_basic(t, m);
    lemma_mul_is_commutative(m, t);
}

/// Euclid's lemma for a factor below the prime: where `p` divides `a * b`
/// and `0 < a < p`, it divides `b`.
pub proof fn lemma_euclid(p: int, a: int, b: int)
    requires
        is_prime(p),
        0 < a < p,
        (a * b) % p == 0,
    ensures
        b % p == 0,
    decreases a,
{
    if a == 1 {
        assert(a * b == b) by (nonlinear_arith)
            requires
                a == 1,
        ;
    } else {
        // p == q * a + r with 0 < r < a, and p divides r * b == p * b - q * (a * b)
        let q = p / a;
        let r = p % a;
        lemma_fundamental_div_mod(p, a);
        lemma_mod_bound(p, a);
        assert(r != 0);
        let t = (a * b) / p;
        lemma_fundamental_div_mod(a * b, p);
        assert(a * b == p * t);
        assert(r * b == p * (b - q * t)) by (nonlinear_arith)
            requires
                p == a * q + r,
                a * b == p * t,
        ;
        lemma_multiple_mod(p, b - q * t);
        lemma_euclid(p, r, b);
    }
}

/// No coefficient lies to the right of the diagonal of Pascal's triangle.
proof fn lemma_binomial_zero(n: nat, k: nat)
    requires
        k > n,
    ensures
        binomial(n, k) == 0,
    decreases n,
{
    if n > 0 {
        lemma_binomial_zero((n - 1) as nat, (k - 1) as nat);
        lemma_binomial_zero((n - 1) as nat, k);
    }
}

/// The coefficients on the diagonal are 1.
proof fn lemma_binomial_diagonal(n: nat)
    ensures
        binomial(n, n) == 1,
    decreases n,
{
    if n > 0 {
        lemma_binomial_diagonal((n - 1) as nat);
        lemma_binomial_zero((n - 1) as nat, n);
    }
}

/// The absorption identity: `k * C(n, k) == n * C(n - 1, k - 1)`.
proof fn lemma_binomial_absorption(n: nat, k: nat)
    requires
        n >= 1,
        k >= 1,
    ensures
        k * binomial(n, k) == n * binomial((n - 1) as nat, (k - 1) as nat),
    decreases n,
{
    let n1 = (n - 1) as nat;
    let k1 = (k - 1) as nat;
    if n == 1 {
        if k > 1 {
            lemma_binomial_zero(1, k);
            lemma_binomial_zero(0, k1);
        } else {
            assert(binomial(1, 1) == 1) by {
                reveal_with_fuel(binomial, 3);
            }
            assert(binomial(0, 0) == 1);
        }
    } else {
        let n2 = (n - 2) as nat;
        // C(n, k) == C(n-1, k-1) + C(n-1, k)
        let left = binomial(n1, k1) as int;
        let right = binomial(n1, k) as int;
        assert(binomial(n, k) == left + right);
        // k * C(n-1, k) == (n-1) * C(n-2, k-1)
        lemma_binomial_absorption(n1, k);
        let up = binomial(n2, k1) as int;
        assert(k * right == (n - 1) * up);
        if k == 1 {
            // C(n-1, 0) == 1 == C(n-2, 0)
            assert(left == 1 && up == 1);
            assert(k * (left + right) == n * left) by (nonlinear_arith)
                requires
                    k == 1,
                    left == 1,
                    up == 1,
                    k * right == (n - 1) * up,
            ;
        } else {
            // (k-1) * C(n-1, k-1) == (n-1) * C(n-2, k-2), and Pascal's rule for C(n-1, k-1)
            let k2 = (k - 2) as nat;
            lemma_binomial_absorption(n1, k1);
            let up_left = binomial(n2, k2) as int;
            assert((k - 1) * left == (n - 1) * up_left);
            assert(left == up_left + up);
            assert(k * (left + right) == n * left) by (nonlinear_arith)
                requires
                    k * right == (n - 1) * up,
                    (k - 1) * left == (n - 1) * up_left,
                    left == up_left + up,
            ;
        }
    }
}

/// The coefficients `C(p, k)` with `0 < k < p` are multiples of the prime `p`.
proof fn lemma_binomial_prime(p: nat, k: nat)
    requires
        is_prime(p as int),
        0 < k < p,
    ensures
        binomial(p, k) % p == 0,
{
    lemma_binomial_absorption(p, k);
    let c = binomial(p, k) as int;
    let d = binomial((p - 1) as nat, (k - 1) as nat) as int;
    assert(k * c == p * d);
    lemma_multiple_mod(p as int, d);
    lemma_euclid(p as int, k as int, c);
}

/// Pascal's rule, summed: the partial sums for `n + 1` are those for `n`
/// plus `a` times those for `n` with one term less.
proof fn lemma_binomial_sum_step(n: nat, a: int, m: nat)
    requires
        m >= 1,
    ensures
        binomial_sum(n + 1, a, m) == binomial_sum(n, a, m) + a * binomial_sum(
            n,
            a,
            (m - 1) as nat,
        ),
    decreases m,
{
    let m1 = (m - 1) as nat;
    let c_left = binomial(n, m1) as int;
    let c_right = binomial(n, m) as int;
    assert(binomial(n + 1, m) == c_left + c_right);
    let am = pow(a, m);
    let am1 = pow(a, m1);
    assert(am == a * am1) by {
        reveal(pow);
    }
    // the term of m on the left is the term of m on the right plus a times the term of m - 1
    assert((c_left + c_right) * am == c_right * am + a * (c_left * am1)) by (nonlinear_arith)
        requires
            am == a * am1,
    ;
    if m == 1 {
        assert(binomial_sum(n + 1, a, 0) == binomial_sum(n, a, 0));
        assert(binomial_sum(n, a, m1) == c_left * am1);
    } else {
        let m2 = (m - 2) as nat;
        lemma_binomial_sum_step(n, a, m1);
        assert(a * (c_left * am1 + binomial_sum(n, a, m2)) == a * (c_left * am1) + a
            * binomial_sum(n, a, m2)) by (nonlinear_arith);
    }
}

/// The binomial theorem for `(a + 1)^n`.
proof fn lemma_binomial_theorem(n: nat, a: int)
    ensures
        pow(a + 1, n) == binomial_sum(n, a, n),
    decreases n,
{
    if n == 0 {
        lemma_pow0(a + 1);
        lemma_pow0(a);
    } else {
        let n1 = (n - 1) as nat;
        lemma_binomial_theorem(n1, a);
        let s = binomial_sum(n1, a, n1);
        assert(pow(a + 1, n) == (a + 1) * pow(a + 1, n1)) by {
            reveal(pow);
        }
        assert((a + 1) * s == s + a * s) by (nonlinear_arith);
        lemma_binomial_sum_step(n1, a, n);
        lemma_binomial_zero(n1, n);
        assert(binomial_sum(n1, a, n) == s) by {
            assert(0 * pow(a, n) == 0);
        }
    }
}

/// Modulo a prime `p`, the terms of the expansion of `(a + 1)^p` below the
/// last one sum to 1.
proof fn lemma_binomial_sum_prime(p: nat, a: int, m: nat)
    requires
        is_prime(p as int),
        m < p,
    ensures
        binomial_sum(p, a, m) % (p as int) == 1,
    decreases m,
{
    let n = p as int;
    if m == 0 {
        lemma_pow0(a);
        lemma_small_mod(1, p);
    } else {
        let m1 = (m - 1) as nat;
        lemma_binomial_sum_prime(p, a, m1);
        lemma_binomial_prime(p, m);
        let c = binomial(p, m) as int;
        let rest = binomial_sum(p, a, m1);
        // c * a^m is a multiple of p
        lemma_mul_mod_noop_left(c, pow(a, m), n);
        assert((c * pow(a, m)) % n == 0) by {
            assert(0 * pow(a, m) == 0);
            lemma_small_mod(0, p);
        }
        lemma_add_mod_noop(c * pow(a, m), rest, n);
        lemma_small_mod(1, p);
    }
}

/// Modulo a prime `p`, `(a + 1)^p ≡ a^p + 1`.
proof fn lemma_power_of_successor(p: nat, a: int)
    requires
        is_prime(p as int),
    ensures
        pow(a + 1, p) % (p as int) == (pow(a, p) + 1) % (p as int),
{
    let n = p as int;
    let p1 = (p - 1) as nat;
    lemma_binomial_theorem(p, a);
    lemma_binomial_diagonal(p);
    lemma_binomial_sum_prime(p, a, p1);
    let rest = binomial_sum(p, a, p1);
    assert(binomial_sum(p, a, p) == pow(a, p) + rest) by {
        assert(1 * pow(a, p) == pow(a, p));
    }
    lemma_add_mod_noop_right(pow(a, p), rest, n);
}

/// Fermat's little theorem in the form `a^p ≡ a (mod p)`.
pub proof fn lemma_fermat_power(p: nat, a: nat)
    requires
        is_prime(p as int),
    ensures
        pow(a as int, p) % (p as int) == a % p,
    decreases a,
{
    let n = p as int;
    if a == 0 {
        lemma0_pow(p);
    } else {
        let a1 = (a - 1) as nat;
        lemma_fermat_power(p, a1);
        lemma_power_of_successor(p, a1 as int);
        // (a1^p + 1) % p == (a1 + 1) % p
        lemma_add_mod_noop(pow(a1 as int, p), 1, n);
        lemma_add_mod_noop(a1 as int, 1, n);
    }
}

/// Fermat's little theorem: for a prime `p` and `0 < x < p`,
/// `x^(p-1) ≡ 1 (mod p)`.
pub proof fn lemma_fermat_little(p: int, x: int)
    requires
        is_prime(p),
        0 < x < p,
    ensures
        pow(x, (p - 1) as nat) % p == 1,
{
    let e = (p - 1) as nat;
    lemma_fermat_power(p as nat, x as nat);
    lemma_small_mod(x as nat, p as nat);
    assert(pow(x, p as nat) == x * pow(x, e)) by {
        reveal(pow);
    }
    // p divides x^p - x == x * (x^(p-1) - 1), and not x
    let y = pow(x, e);
    assert(x * (y - 1) == x * y - x) by (nonlinear_arith);
    lemma_mod_equivalence(x * y, x, p);
    lemma_euclid(p, x, y - 1);
    lemma_mod_equivalence(y, 1, p);
    lemma_small_mod(1, p as nat);
}

} // verus!
