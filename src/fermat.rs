//! Fermat's little theorem, and from it Euler's theorem for prime squares:
//! the facts that make the exponent reductions of the key sound.
use vstd::prelude::*;
use vstd::arithmetic::power::{pow, lemma_pow0, lemma_pow1, lemma_pow_adds, lemma_pow_multiplies};
use vstd::arithmetic::div_mod::{
    lemma_fundamental_div_mod, lemma_small_mod, lemma_mod_multiples_vanish,
    lemma_mul_mod_noop_left, lemma_mul_mod_noop_right, lemma_add_mod_noop,
    lemma_mod_multiples_basic,
};
use crate::bignum::{gcd, is_prime};

verus! {

/// Binomial coefficients by Pascal's rule.
pub open spec fn binom(n: nat, k: nat) -> nat
    decreases n, k,
{
    if k == 0 {
        1
    } else if n == 0 {
        0
    } else {
        binom((n - 1) as nat, (k - 1) as nat) + binom((n - 1) as nat, k)
    }
}

/// `sum_{i <= k} binom(n, i) a^i`.
pub open spec fn binom_sum(a: int, n: nat, k: nat) -> int
    decreases k,
{
    if k == 0 {
        1
    } else {
        binom_sum(a, n, (k - 1) as nat) + binom(n, k) * pow(a, k)
    }
}

proof fn lemma_binom_zero(n: nat, k: nat)
    requires
        k > n,
    ensures
        binom(n, k) == 0,
    decreases n,
{
    if n > 0 {
        lemma_binom_zero((n - 1) as nat, (k - 1) as nat);
        lemma_binom_zero((n - 1) as nat, k);
    }
}

/// Terms past `n` vanish.
proof fn lemma_binom_sum_full(a: int, n: nat, k: nat)
    requires
        k >= n,
    ensures
        binom_sum(a, n, k) == binom_sum(a, n, n),
    decreases k,
{
    if k > n {
        lemma_binom_sum_full(a, n, (k - 1) as nat);
        lemma_binom_zero(n, k);
    }
}

/// Pascal's rule summed: `S(n + 1, k) = S(n, k) + a S(n, k - 1)`.
proof fn lemma_binom_sum_step(a: int, n: nat, k: nat)
    requires
        k >= 1,
    ensures
        binom_sum(a, n + 1, k) == binom_sum(a, n, k) + a * binom_sum(a, n, (k - 1) as nat),
    decreases k,
{
    lemma_pow_adds(a, 1, (k - 1) as nat);
    lemma_pow1(a);
    assert(pow(a, k) == a * pow(a, (k - 1) as nat));
    if k == 1 {
        lemma_pow0(a);
        assert(binom(n + 1, 1) == binom(n, 0) + binom(n, 1));
        assert(binom_sum(a, n, 0) == 1);
        assert(binom_sum(a, n + 1, 0) == 1);
        assert(binom_sum(a, n + 1, 1) == binom_sum(a, n + 1, 0) + binom(n + 1, 1) * pow(a, 1));
        assert(binom_sum(a, n, 1) == binom_sum(a, n, 0) + binom(n, 1) * pow(a, 1));
        assert(binom(n + 1, 1) * pow(a, 1) == binom(n, 1) * pow(a, 1) + a * 1) by (nonlinear_arith)
            requires
                binom(n + 1, 1) == 1 + binom(n, 1),
                pow(a, 1) == a,
        ;
    } else {
        lemma_binom_sum_step(a, n, (k - 1) as nat);
        let c1 = binom(n, (k - 1) as nat);
        let c2 = binom(n, k);
        let pk = pow(a, k);
        let pk1 = pow(a, (k - 1) as nat);
        assert(binom(n + 1, k) == c1 + c2);
        assert(binom_sum(a, n + 1, k) == binom_sum(a, n + 1, (k - 1) as nat) + (c1 + c2) * pk);
        assert(binom_sum(a, n, k) == binom_sum(a, n, (k - 1) as nat) + c2 * pk);
        assert(binom_sum(a, n, (k - 1) as nat) == binom_sum(a, n, (k - 2) as nat) + c1 * pk1);
        assert((c1 + c2) * pk == c2 * pk + a * (c1 * pk1)) by (nonlinear_arith)
            requires
                pk == a * pk1,
        ;
        assert(a * binom_sum(a, n, (k - 1) as nat) == a * binom_sum(a, n, (k - 2) as nat) + a * (c1
            * pk1)) by (nonlinear_arith)
            requires
                binom_sum(a, n, (k - 1) as nat) == binom_sum(a, n, (k - 2) as nat) + c1 * pk1,
        ;
    }
}

/// The binomial theorem for `(a + 1)^n`.
pub proof fn lemma_binomial_theorem(a: int, n: nat)
    ensures
        pow(a + 1, n) == binom_sum(a, n, n),
    decreases n,
{
    if n == 0 {
        lemma_pow0(a + 1);
    } else {
        let m = (n - 1) as nat;
        lemma_binomial_theorem(a, m);
        lemma_pow_adds(a + 1, 1, m);
        lemma_pow1(a + 1);
        lemma_binom_sum_step(a, m, n);
        lemma_binom_sum_full(a, m, n);
        assert(pow(a + 1, n) == (a + 1) * binom_sum(a, m, m));
        assert((a + 1) * binom_sum(a, m, m) == binom_sum(a, m, m) + a * binom_sum(a, m, m)) by (
        nonlinear_arith);
    }
}

/// `k binom(n, k) = n binom(n - 1, k - 1)`.
proof fn lemma_binom_absorb(n: nat, k: nat)
    requires
        n >= 1,
        k >= 1,
    ensures
        k * binom(n, k) == n * binom((n - 1) as nat, (k - 1) as nat),
    decreases n,
{
    if k == 1 {
        lemma_binom_one(n);
        assert(binom((n - 1) as nat, 0) == 1);
    } else if n == 1 {
        lemma_binom_zero(0, (k - 1) as nat);
        lemma_binom_zero(0, k);
        assert(binom(1, k) == binom(0, (k - 1) as nat) + binom(0, k));
    } else {
        let n1 = (n - 1) as nat;
        let k1 = (k - 1) as nat;
        lemma_binom_absorb(n1, k1);
        lemma_binom_absorb(n1, k);
        assert(binom(n, k) == binom(n1, k1) + binom(n1, k));
        assert(binom(n1, k1) == binom((n1 - 1) as nat, (k1 - 1) as nat) + binom((n1 - 1) as nat, k1));
        let a = binom(n1, k1);
        let b = binom(n1, k);
        let c = binom((n1 - 1) as nat, (k1 - 1) as nat);
        let d = binom((n1 - 1) as nat, k1);
        assert(k * (a + b) == n * a) by (nonlinear_arith)
            requires
                k1 * a == n1 * c,
                k * b == n1 * d,
                a == c + d,
                k == k1 + 1,
                n == n1 + 1,
        ;
    }
}

proof fn lemma_binom_one(n: nat)
    ensures
        binom(n, 1) == n,
    decreases n,
{
    if n > 0 {
        lemma_binom_one((n - 1) as nat);
        assert(binom(n, 1) == binom((n - 1) as nat, 0) + binom((n - 1) as nat, 1));
    }
}

/// Bezout: `u a + v b = gcd(a, b)` for some integers `u`, `v`.
pub proof fn lemma_bezout(a: nat, b: nat) -> (r: (int, int))
    ensures
        r.0 * a + r.1 * b == gcd(a, b),
    decreases b,
{
    if b == 0 {
        (1, 0)
    } else {
        let (u, v) = lemma_bezout(b, a % b);
        lemma_fundamental_div_mod(a as int, b as int);
        let q = (a / b) as int;
        assert(v * a + (u - v * q) * b == u * b + v * (a % b)) by (nonlinear_arith)
            requires
                a == b * q + a % b,
        ;
        (v, u - v * q)
    }
}

/// A prime divides `a` or is co-prime to it.
proof fn lemma_prime_gcd(a: nat, p: nat)
    requires
        is_prime(p as int),
        a % p != 0,
    ensures
        gcd(a, p) == 1,
{
    crate::laws::lemma_gcd_divides(a, p);
    let g = gcd(a, p);
    if g != 1 {
        if g < p {
            assert((p as int) % (g as int) != 0);
        } else {
            assert(g <= p) by {
                if g > p {
                    lemma_small_mod(p, g);
                }
            }
            assert(g == p);
        }
    }
}

/// Euclid's lemma: a prime dividing a product divides a factor.
pub proof fn lemma_euclid(a: int, b: int, p: int)
    requires
        is_prime(p),
        a >= 0,
        (a * b) % p == 0,
        a % p != 0,
    ensures
        b % p == 0,
{
    lemma_prime_gcd(a as nat, p as nat);
    let (u, v) = lemma_bezout(a as nat, p as nat);
    // b = u a b + v p b
    assert(b == u * (a * b) + p * (v * b)) by (nonlinear_arith)
        requires
            u * a + v * p == 1,
    ;
    lemma_mul_mod_noop_right(u, a * b, p);
    lemma_small_mod(0, p as nat);
    assert(u * 0 == 0);
    lemma_mod_multiples_vanish(v * b, u * (a * b), p);
}

/// A prime divides the inner binomial coefficients.
proof fn lemma_prime_divides_binom(p: nat, k: nat)
    requires
        is_prime(p as int),
        0 < k < p,
    ensures
        binom(p, k) % p == 0,
{
    lemma_binom_absorb(p, k);
    let c = binom((p - 1) as nat, (k - 1) as nat);
    lemma_mod_multiples_basic(c as int, p as int);
    lemma_small_mod(k, p);
    lemma_euclid(k as int, binom(p, k) as int, p as int);
}

/// The inner terms of `(a + 1)^p` vanish modulo `p`.
proof fn lemma_binom_sum_mod_prime(a: int, p: nat, k: nat)
    requires
        is_prime(p as int),
        k < p,
    ensures
        binom_sum(a, p, k) % (p as int) == 1,
    decreases k,
{
    lemma_small_mod(1, p);
    if k > 0 {
        lemma_binom_sum_mod_prime(a, p, (k - 1) as nat);
        lemma_prime_divides_binom(p, k);
        lemma_mul_mod_noop_left(binom(p, k) as int, pow(a, k), p as int);
        lemma_small_mod(0, p);
        assert(0 * pow(a, k) == 0);
        lemma_add_mod_noop(binom_sum(a, p, (k - 1) as nat), binom(p, k) * pow(a, k), p as int);
    }
}

/// `(a + 1)^p = a^p + 1 (mod p)`.
proof fn lemma_freshman(a: int, p: nat)
    requires
        is_prime(p as int),
    ensures
        pow(a + 1, p) % (p as int) == (pow(a, p) + 1) % (p as int),
{
    lemma_binomial_theorem(a, p);
    let k = (p - 1) as nat;
    lemma_binom_sum_mod_prime(a, p, k);
    lemma_binom_one(p);
    lemma_binom_full(p);
    assert(binom_sum(a, p, p) == binom_sum(a, p, k) + pow(a, p));
    lemma_add_mod_noop(binom_sum(a, p, k), pow(a, p), p as int);
    lemma_add_mod_noop(1, pow(a, p), p as int);
    lemma_small_mod(1, p);
}

proof fn lemma_binom_full(n: nat)
    ensures
        binom(n, n) == 1,
    decreases n,
{
    if n > 0 {
        lemma_binom_full((n - 1) as nat);
        lemma_binom_zero((n - 1) as nat, n);
    }
}

/// `a^p = a (mod p)` for `a >= 0`.
pub proof fn lemma_fermat_power(a: nat, p: nat)
    requires
        is_prime(p as int),
    ensures
        pow(a as int, p) % (p as int) == (a as int) % (p as int),
    decreases a,
{
    if a == 0 {
        vstd::arithmetic::power::lemma0_pow(p);
    } else {
        let b = (a - 1) as nat;
        lemma_fermat_power(b, p);
        lemma_freshman(b as int, p);
        lemma_add_mod_noop(pow(b as int, p), 1, p as int);
        lemma_add_mod_noop(b as int, 1, p as int);
    }
}

/// Fermat's little theorem: `a^(p-1) = 1 (mod p)` for `a` not a multiple of `p`.
pub proof fn lemma_fermat(a: nat, p: nat)
    requires
        is_prime(p as int),
        a % p != 0,
    ensures
        pow(a as int, (p - 1) as nat) % (p as int) == 1,
{
    lemma_fermat_power(a, p);
    let e = (p - 1) as nat;
    lemma_pow_adds(a as int, 1, e);
    lemma_pow1(a as int);
    let t = pow(a as int, e);
    // p | a (t - 1)
    assert((a as int) * (t - 1) == pow(a as int, p) - (a as int)) by (nonlinear_arith)
        requires
            pow(a as int, p) == (a as int) * t,
    ;
    vstd::arithmetic::div_mod::lemma_mod_equivalence(pow(a as int, p), a as int, p as int);
    lemma_euclid(a as int, t - 1, p as int);
    vstd::arithmetic::div_mod::lemma_mod_equivalence(t, 1, p as int);
    lemma_small_mod(1, p);
}

/// Euler's theorem for a prime square: `a^(p^2 - p) = 1 (mod p^2)` for `a`
/// not a multiple of `p`.
pub proof fn lemma_euler_prime_square(a: nat, p: nat)
    requires
        is_prime(p as int),
        a % p != 0,
    ensures
        pow(a as int, (p * p - p) as nat) % ((p * p) as int) == 1,
{
    lemma_fermat(a, p);
    let e = (p - 1) as nat;
    let t = pow(a as int, e);
    lemma_fundamental_div_mod(t, p as int);
    let k = t / (p as int);
    assert(t == 1 + k * p);
    lemma_pow_multiplies(a as int, e, p);
    assert(e * p == p * p - p) by (nonlinear_arith)
        requires
            e == p - 1,
    ;
    crate::laws::lemma_binomial(p as int, k, p);
    assert(1 + p * k * p == (p * p) * k + 1) by (nonlinear_arith);
    assert((p * p) as int > 1) by (nonlinear_arith)
        requires
            p > 1,
    ;
    lemma_mod_multiples_vanish(k, 1, (p * p) as int);
    lemma_small_mod(1, p * p);
}

} // verus!
