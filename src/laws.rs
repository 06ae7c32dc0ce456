//! Laws of the scheme: what the Chinese-remainder exponentiation computes,
//! why the two encryption paths agree, and how the homomorphic operations act
//! on encryptions.
use vstd::prelude::*;
use vstd::arithmetic::power::{pow, lemma_pow_adds, lemma_pow_multiplies, lemma_pow_mod_noop, lemma1_pow};
use vstd::arithmetic::div_mod::{
    lemma_fundamental_div_mod, lemma_fundamental_div_mod_converse, lemma_mod_mod,
    lemma_mod_equivalence, lemma_mul_mod_noop, lemma_mul_mod_noop_left, lemma_mul_mod_noop_right,
    lemma_small_mod, lemma_mod_bound, lemma_mod_self_0, lemma_mod_twice, lemma_mod_multiples_basic,
};
use vstd::arithmetic::mul::{lemma_mul_is_associative, lemma_mul_is_commutative};
use crate::bignum::{abs, gcd, lcm, is_inverse, is_prime};
use crate::fermat::{lemma_bezout, lemma_euler_prime_square, lemma_fermat};
use crate::modular::{crt_combine, lemma_crt_combine, mod_inverse, in_mult_group_spec};
use crate::utils::{CrtExp, Exponent};
use crate::encryption_key::paillier_encrypt;
use crate::decryption_key::{DecryptionKey, to_signed};
use crate::modular::lemma_is_mod_inverse;
use vstd::arithmetic::power::lemma_pow_distributes;
use vstd::arithmetic::div_mod::lemma_mod_multiples_vanish;

verus! {

/// Euler's congruence for `x` modulo `m` with exponent `phi`:
/// `x^phi = 1 (mod m)`. Euler's theorem gives it for every `x` co-prime to
/// `m` when `phi` is the totient of `m`, e.g. `phi(p^2) = p^2 - p` for a
/// prime `p`.
pub open spec fn euler_congruence(x: int, m: int, phi: int) -> bool {
    phi >= 0 && pow(x, phi as nat) % m == 1int % m
}

/// Under Euler's congruence an exponent may be reduced modulo `phi`.
pub proof fn lemma_pow_reduce(x: int, e: nat, phi: nat, m: int)
    requires
        m > 0,
        phi > 0,
        euler_congruence(x, m, phi as int),
    ensures
        pow(x, e) % m == pow(x, e % phi) % m,
{
    let k = e / phi;
    let r = e % phi;
    lemma_fundamental_div_mod(e as int, phi as int);
    assert(e == phi * k + r);
    lemma_pow_adds(x, phi * k, r);
    lemma_pow_multiplies(x, phi, k);
    let big = pow(pow(x, phi), k);
    lemma_pow_mod_noop(pow(x, phi), k, m);
    lemma1_pow(k);
    lemma_mul_mod_noop_left(big, pow(x, r), m);
    if m == 1 {
        lemma_small_mod(0, 1);
        assert(pow(x, e) % m == 0);
        assert(pow(x, r) % m == 0);
    } else {
        lemma_small_mod(1, m as nat);
        assert(pow(1int % m, k) == 1);
        assert(big % m == 1);
        assert(1 * pow(x, r) == pow(x, r));
    }
}

/// Two values of `[0, n1 * n2)` with the same residues modulo co-prime `n1`
/// and `n2` are equal.
pub proof fn lemma_crt_unique(n1: int, n2: int, beta: int, y: int, z: int)
    requires
        n1 > 0,
        n2 > 0,
        is_inverse(n1, beta, n2),
        0 <= y < n1 * n2,
        0 <= z < n1 * n2,
        y % n1 == z % n1,
        y % n2 == z % n2,
    ensures
        y == z,
{
    let d = y - z;
    lemma_mod_equivalence(y, z, n1);
    lemma_mod_equivalence(y, z, n2);
    lemma_fundamental_div_mod(d, n1);
    let k = d / n1;
    assert(d == n1 * k);
    // k = k * (n1 * beta) = d * beta = 0   (mod n2)
    lemma_mul_mod_noop_left(d, beta, n2);
    assert(d % n2 == 0);
    assert((d % n2) * beta == 0);
    lemma_small_mod(0, n2 as nat);
    assert((d * beta) % n2 == 0);
    lemma_mul_is_associative(k, n1, beta);
    lemma_mul_is_commutative(k, n1);
    assert(d * beta == k * (n1 * beta));
    lemma_mul_mod_noop_right(k, n1 * beta, n2);
    let t = (n1 * beta) % n2;
    assert(t == 1int % n2);
    if n2 == 1 {
        assert(k % n2 == 0);
    } else {
        lemma_small_mod(1, n2 as nat);
        assert(t == 1);
        assert(k * t == k);
        assert(k % n2 == 0);
    }
    lemma_fundamental_div_mod(k, n2);
    let j = k / n2;
    assert(d == n1 * n2 * j) by (nonlinear_arith)
        requires
            d == n1 * k,
            k == n2 * j + 0,
    ;
    assert(j == 0) by (nonlinear_arith)
        requires
            d == n1 * n2 * j,
            -(n1 * n2) < d < n1 * n2,
            n1 * n2 > 0,
    ;
}

/// Where Euler's congruence holds for `x` modulo both factors, the tables
/// compute the true power: `crt_power(x, e mod phi1, e mod phi2) = x^e mod n`.
pub proof fn lemma_crt_power_is_pow(c: CrtExp, x: int, e: nat)
    requires
        c.wf(),
        euler_congruence(x, c.n1(), c.phi_n1()),
        euler_congruence(x, c.n2(), c.phi_n2()),
    ensures
        c.crt_power(x, e % (c.phi_n1() as nat), e % (c.phi_n2() as nat)) == pow(x, e) % c.modulus(),
{
    let n1 = c.n1();
    let n2 = c.n2();
    let e1 = e % (c.phi_n1() as nat);
    let e2 = e % (c.phi_n2() as nat);
    lemma_pow_mod_noop(x, e1, n1);
    lemma_pow_mod_noop(x, e2, n2);
    lemma_pow_reduce(x, e, c.phi_n1() as nat, n1);
    lemma_pow_reduce(x, e, c.phi_n2() as nat, n2);
    let r1 = pow(x % n1, e1) % n1;
    let r2 = pow(x % n2, e2) % n2;
    lemma_mod_bound(pow(x % n1, e1), n1);
    lemma_mod_bound(pow(x % n2, e2), n2);
    lemma_crt_combine(n1, n2, c.beta(), r1, r2);
    let y = crt_combine(n1, n2, c.beta(), r1, r2);
    let z = pow(x, e) % (n1 * n2);
    assert(n1 * n2 > 0) by (nonlinear_arith)
        requires
            n1 > 0,
            n2 > 0,
    ;
    lemma_mod_bound(pow(x, e), n1 * n2);
    lemma_mod_mod(pow(x, e), n1, n2);
    lemma_mul_is_commutative(n1, n2);
    lemma_mod_mod(pow(x, e), n2, n1);
    lemma_crt_unique(n1, n2, c.beta(), y, z);
}

/// Exponentiation through the tables agrees with plain modular
/// exponentiation: `exp(x, prepare(e)) = x^e mod n`, where a negative `e`
/// means the inverse of `x^|e|` and there is none unless `x^|e|` is
/// invertible. It needs Euler's congruence for `x` modulo `n1` and `n2`,
/// which Euler's theorem gives for every `x` co-prime to `n` when `phi_n1`,
/// `phi_n2` are the totients.
proof fn lemma_crt_exp_matches_pow_euler(c: CrtExp, x: int, e: int, ex: Exponent)
    requires
        c.wf(),
        ex.e1() == abs(e) % (c.phi_n1() as nat),
        ex.e2() == abs(e) % (c.phi_n2() as nat),
        ex.negative() == (e < 0),
        euler_congruence(x, c.n1(), c.phi_n1()),
        euler_congruence(x, c.n2(), c.phi_n2()),
    ensures
        c.exp_spec(x, ex) == ({
            let y = pow(x, abs(e)) % c.modulus();
            if e >= 0 {
                Some(y)
            } else if gcd(y as nat, c.modulus() as nat) == 1 {
                Some(mod_inverse(y, c.modulus()))
            } else {
                None
            }
        }),
{
    lemma_crt_power_is_pow(c, x, abs(e));
}

/// The fast encryption of a [`DecryptionKey`] yields the ciphertext of
/// [`crate::EncryptionKey::encrypt_with`]: the power `nonce^N` through the
/// tables is the plain one. It needs Euler's congruence for the nonce modulo
/// `p^2` and `q^2`, which Euler's theorem gives for every nonce co-prime to
/// `N` when `p` and `q` are prime.
proof fn lemma_encryption_paths_agree_euler(dk: DecryptionKey, x: int, nonce: int)
    requires
        dk.wf(),
        euler_congruence(nonce, dk.spec_p() * dk.spec_p(), dk.spec_p() * dk.spec_p() - dk.spec_p()),
        euler_congruence(nonce, dk.spec_q() * dk.spec_q(), dk.spec_q() * dk.spec_q() - dk.spec_q()),
    ensures
        dk.fast_encrypt_spec(x, nonce) == paillier_encrypt(dk.spec_n(), x, nonce),
{
    dk.lemma_key_facts();
    let n = dk.spec_n();
    lemma_crt_power_is_pow(dk.spec_crt(), nonce, n as nat);
    lemma_mul_mod_noop_right(1 + (x % n) * n, pow(nonce, n as nat), n * n);
}

/// `(1 + a n)(1 + b n) = 1 + ((a + b) mod n) n (mod n^2)` for residues `a`, `b`.
proof fn lemma_one_plus_mul(n: int, a: int, b: int)
    requires
        n > 0,
    ensures
        ((1 + (a % n) * n) * (1 + (b % n) * n)) % (n * n) == (1 + ((a + b) % n) * n) % (n * n),
{
    let a1 = a % n;
    let b1 = b % n;
    let c = (a + b) % n;
    vstd::arithmetic::div_mod::lemma_add_mod_noop(a, b, n);
    lemma_fundamental_div_mod(a1 + b1, n);
    let t = (a1 + b1) / n;
    assert(a1 + b1 == n * t + c);
    assert((1 + a1 * n) * (1 + b1 * n) == (n * n) * (t + a1 * b1) + (1 + c * n)) by (nonlinear_arith)
        requires
            a1 + b1 == n * t + c,
    ;
    assert(n * n > 0) by (nonlinear_arith)
        requires
            n > 0,
    ;
    lemma_mod_multiples_vanish(t + a1 * b1, 1 + c * n, n * n);
}

/// Homomorphic addition on encryptions: multiplying the encryptions of `a`
/// and `b` modulo `N^2` gives the encryption of `a + b` with the product of
/// the nonces.
pub proof fn lemma_oadd_encrypts_sum(n: int, a: int, b: int, r1: int, r2: int)
    requires
        n > 0,
    ensures
        (paillier_encrypt(n, a, r1) * paillier_encrypt(n, b, r2)) % (n * n) == paillier_encrypt(
            n,
            a + b,
            r1 * r2,
        ),
{
    let m = n * n;
    assert(n * n > 0) by (nonlinear_arith)
        requires
            n > 0,
    ;
    let ka = 1 + (a % n) * n;
    let kb = 1 + (b % n) * n;
    let kc = 1 + ((a + b) % n) * n;
    let pr1 = pow(r1, n as nat);
    let pr2 = pow(r2, n as nat);
    lemma_pow_distributes(r1, r2, n as nat);
    lemma_mul_mod_noop(ka * pr1, kb * pr2, m);
    assert((ka * pr1) * (kb * pr2) == (ka * kb) * (pr1 * pr2)) by (nonlinear_arith);
    lemma_one_plus_mul(n, a, b);
    lemma_mul_mod_noop_left(ka * kb, pr1 * pr2, m);
    lemma_mul_mod_noop_left(kc, pr1 * pr2, m);
}

/// `(1 + c n)^k = 1 + k c n (mod n^2)`.
pub proof fn lemma_binomial(n: int, c: int, k: nat)
    requires
        n > 0,
    ensures
        pow(1 + c * n, k) % (n * n) == (1 + k * c * n) % (n * n),
    decreases k,
{
    let m = n * n;
    assert(n * n > 0) by (nonlinear_arith)
        requires
            n > 0,
    ;
    if k == 0 {
        vstd::arithmetic::power::lemma_pow0(1 + c * n);
        assert(k * c * n == 0) by (nonlinear_arith)
            requires
                k == 0,
        ;
    } else {
        let a = 1 + c * n;
        let k1 = (k - 1) as nat;
        lemma_binomial(n, c, k1);
        lemma_pow_adds(a, 1, k1);
        assert(1 + k1 == k);
        vstd::arithmetic::power::lemma_pow1(a);
        assert(pow(a, k) == a * pow(a, k1));
        lemma_mul_mod_noop_right(a, pow(a, k1), m);
        lemma_mul_mod_noop_right(a, 1 + k1 * c * n, m);
        assert(a * (1 + k1 * c * n) == m * (k1 * c * c) + (1 + k * c * n)) by (nonlinear_arith)
            requires
                k == k1 + 1,
                m == n * n,
                a == 1 + c * n,
        ;
        lemma_mod_multiples_vanish(k1 * c * c, 1 + k * c * n, m);
    }
}

/// Homomorphic scalar multiplication on encryptions: raising the encryption
/// of `b` to a non-negative `k` modulo `N^2` gives the encryption of `k * b`
/// with the nonce raised to `k`.
pub proof fn lemma_omul_encrypts_product(n: int, k: nat, b: int, r: int)
    requires
        n > 0,
    ensures
        pow(paillier_encrypt(n, b, r), k) % (n * n) == paillier_encrypt(n, k * b, pow(r, k)),
{
    let m = n * n;
    assert(n * n > 0) by (nonlinear_arith)
        requires
            n > 0,
    ;
    let kb = 1 + (b % n) * n;
    let p = pow(r, n as nat);
    lemma_pow_mod_noop(kb * p, k, m);
    lemma_pow_distributes(kb, p, k);
    lemma_binomial(n, b % n, k);
    // p^k = r^(n k) = (r^k)^n
    lemma_pow_multiplies(r, n as nat, k);
    lemma_pow_multiplies(r, k, n as nat);
    assert((n as nat) * k == k * (n as nat)) by (nonlinear_arith);
    lemma_mul_mod_noop_left(pow(kb, k), pow(p, k), m);
    lemma_mul_mod_noop_left(1 + k * (b % n) * n, pow(p, k), m);
    // 1 + k (b mod n) n = 1 + (k b mod n) n   (mod n^2)
    vstd::arithmetic::div_mod::lemma_mul_mod_noop_right(k as int, b, n);
    lemma_fundamental_div_mod(k * (b % n), n);
    let t = (k * (b % n)) / n;
    assert(k * (b % n) == n * t + (k * b) % n);
    assert(1 + k * (b % n) * n == m * t + (1 + ((k * b) % n) * n)) by (nonlinear_arith)
        requires
            k * (b % n) == n * t + (k * b) % n,
            m == n * n,
    ;
    lemma_mod_multiples_vanish(t, 1 + ((k * b) % n) * n, m);
    lemma_mul_mod_noop_left(1 + ((k * b) % n) * n, pow(p, k), m);
}

/// Homomorphic negation on encryptions: the inverse modulo `N^2` of the
/// encryption of `a` with nonce `r` is the encryption of `-a` with an
/// inverse `s` of `r` modulo `N^2` as nonce.
pub proof fn lemma_oneg_encrypts_negation(n: int, a: int, r: int, s: int)
    requires
        n > 0,
        is_inverse(r, s, n * n),
    ensures
        mod_inverse(paillier_encrypt(n, a, r), n * n) == paillier_encrypt(n, -a, s),
{
    let m = n * n;
    assert(n * n > 0) by (nonlinear_arith)
        requires
            n > 0,
    ;
    lemma_oadd_encrypts_sum(n, a, -a, r, s);
    assert(a + -a == 0);
    // the encryption of zero with nonce r s = 1 is 1
    lemma_small_mod(0, n as nat);
    lemma_pow_mod_noop(r * s, n as nat, m);
    lemma1_pow(n as nat);
    lemma_mul_mod_noop_right(1, pow(r * s, n as nat), m);
    let c = paillier_encrypt(n, a, r);
    let d = paillier_encrypt(n, -a, s);
    lemma_mod_bound((1 + ((-a) % n) * n) * pow(s, n as nat), m);
    if m == 1 {
        assert(1int % m == 0);
    } else {
        lemma_small_mod(1, m as nat);
        assert(pow(1int % m, n as nat) == 1);
    }
    assert(is_inverse(c, d, m));
    lemma_is_mod_inverse(c, d, m);
}

/// Homomorphic subtraction on encryptions: multiplying the encryption of `a`
/// by the inverse of the encryption of `b` gives the encryption of `a - b`,
/// with nonce `r1 s2` for an inverse `s2` of `r2` modulo `N^2`.
pub proof fn lemma_osub_encrypts_difference(n: int, a: int, b: int, r1: int, r2: int, s2: int)
    requires
        n > 0,
        is_inverse(r2, s2, n * n),
    ensures
        (paillier_encrypt(n, a, r1) * mod_inverse(paillier_encrypt(n, b, r2), n * n)) % (n * n)
            == paillier_encrypt(n, a - b, r1 * s2),
{
    lemma_oneg_encrypts_negation(n, b, r2, s2);
    lemma_oadd_encrypts_sum(n, a, -b, r1, s2);
    assert(a + -b == a - b);
}

/// `gcd(a, b)` divides both arguments when one of them is positive.
pub proof fn lemma_gcd_divides(a: nat, b: nat)
    requires
        a > 0 || b > 0,
    ensures
        gcd(a, b) > 0,
        a % gcd(a, b) == 0,
        b % gcd(a, b) == 0,
    decreases b,
{
    if b == 0 {
        lemma_mod_self_0(a as int);
        lemma_small_mod(0, a);
    } else {
        let r = a % b;
        lemma_gcd_divides(b, r);
        let g = gcd(b, r) as int;
        assert(gcd(a, b) == g);
        let ai = a as int;
        let bi = b as int;
        let qi = ai / bi;
        lemma_fundamental_div_mod(ai, bi);
        assert(ai == bi * qi + r);
        // a = b * (a / b) + r, and g divides b and r
        lemma_mul_mod_noop_left(bi, qi, g);
        lemma_small_mod(0, g as nat);
        assert((bi % g) * qi == 0);
        assert((bi * qi) % g == 0);
        vstd::arithmetic::div_mod::lemma_add_mod_noop(bi * qi, r as int, g);
    }
}

/// An element with an inverse modulo `m` is co-prime to `m`.
pub proof fn lemma_inverse_gives_coprime(x: int, y: int, m: int)
    requires
        m > 1,
        x >= 0,
        (x * y) % m == 1,
    ensures
        gcd(x as nat, m as nat) == 1,
{
    lemma_gcd_divides(x as nat, m as nat);
    let g = gcd(x as nat, m as nat) as int;
    lemma_fundamental_div_mod(x * y, m);
    let t = (x * y) / m;
    assert(x * y == m * t + 1);
    lemma_mul_mod_noop_left(x, y, g);
    lemma_mul_mod_noop_left(m, t, g);
    lemma_small_mod(0, g as nat);
    assert((x % g) * y == 0);
    assert(m % g == 0);
    assert((m % g) * t == 0) by (nonlinear_arith)
        requires
            m % g == 0,
    ;
    vstd::arithmetic::div_mod::lemma_sub_mod_noop(x * y, m * t, g);
    assert((x * y - m * t) == 1);
    assert(1int % g == 0);
    if g > 1 {
        lemma_small_mod(1, g as nat);
    }
}

/// The least common multiple is a multiple of both arguments.
pub proof fn lemma_lcm_multiple(a: nat, b: nat)
    requires
        a > 0,
        b > 0,
    ensures
        lcm(a, b) > 0,
        lcm(a, b) % a == 0,
        lcm(a, b) % b == 0,
{
    lemma_gcd_divides(a, b);
    let g = gcd(a, b) as int;
    let ai = a as int;
    let bi = b as int;
    lemma_fundamental_div_mod(ai, g);
    lemma_fundamental_div_mod(bi, g);
    let ka = ai / g;
    let kb = bi / g;
    assert(ai * bi == g * (ai * kb)) by (nonlinear_arith)
        requires
            bi == g * kb + 0,
    ;
    lemma_fundamental_div_mod_converse(ai * bi, g, ai * kb, 0);
    assert(ai * kb == ka * bi) by (nonlinear_arith)
        requires
            bi == g * kb + 0,
            ai == g * ka + 0,
    ;
    assert(kb > 0) by (nonlinear_arith)
        requires
            bi == g * kb + 0,
            bi > 0,
            g > 0,
    ;
    assert(ai * kb > 0) by (nonlinear_arith)
        requires
            ai > 0,
            kb > 0,
    ;
    vstd::arithmetic::div_mod::lemma_mod_multiples_basic(kb, ai);
    vstd::arithmetic::div_mod::lemma_mod_multiples_basic(ka, bi);
    lemma_mul_is_commutative(ai, kb);
}

/// Euler's congruence modulo a prime-square factor `f^2` of `n^2` carries
/// over from a nonce to its encryption.
proof fn lemma_ciphertext_euler_factor(n: int, f: int, g: int, x: int, r: int)
    requires
        f > 1,
        g > 0,
        n == f * g,
        euler_congruence(r, f * f, f * f - f),
    ensures
        euler_congruence(paillier_encrypt(n, x, r), f * f, f * f - f),
{
    let m = n * n;
    let m1 = f * f;
    let gg = g * g;
    assert(m1 > 1 && gg > 0 && m == m1 * gg && n > 0 && f * f - f > 0) by (nonlinear_arith)
        requires
            f > 1,
            g > 0,
            n == f * g,
            m == n * n,
            m1 == f * f,
            gg == g * g,
    ;
    let phi = (f * f - f) as nat;
    let xr = x % n;
    let a = 1 + xr * n;
    let pr = pow(r, n as nat);
    let big_f = a * pr;
    let c = paillier_encrypt(n, x, r);
    assert(c == big_f % m);
    // c and F agree modulo f^2
    lemma_mod_mod(big_f, m1, gg);
    lemma_pow_mod_noop(c, phi, m1);
    lemma_pow_mod_noop(big_f, phi, m1);
    lemma_pow_distributes(a, pr, phi);
    // the (1 + x n) part: (1 + x n)^phi = 1 + phi x n = 1 (mod f^2)
    lemma_binomial(n, xr, phi);
    lemma_mod_mod(pow(a, phi), m1, gg);
    lemma_mod_mod(1 + phi * xr * n, m1, gg);
    assert(1 + phi * xr * n == m1 * ((f - 1) * xr * g) + 1) by (nonlinear_arith)
        requires
            phi == f * f - f,
            n == f * g,
            m1 == f * f,
    ;
    lemma_mod_multiples_vanish((f - 1) * xr * g, 1, m1);
    lemma_small_mod(1, m1 as nat);
    assert(pow(a, phi) % m1 == 1);
    // the nonce part: (r^n)^phi = (r^phi)^n = 1 (mod f^2)
    lemma_pow_multiplies(r, n as nat, phi);
    lemma_pow_multiplies(r, phi, n as nat);
    assert((n as nat) * phi == phi * (n as nat)) by (nonlinear_arith);
    lemma_pow_mod_noop(pow(r, phi), n as nat, m1);
    lemma1_pow(n as nat);
    assert(pow(pr, phi) % m1 == 1);
    lemma_mul_mod_noop(pow(a, phi), pow(pr, phi), m1);
}

/// The nonce's contribution vanishes under decryption:
/// `r^(lambda N) = 1 (mod N^2)`.
proof fn lemma_nonce_power_vanishes(dk: DecryptionKey, r: int)
    requires
        dk.wf(),
        euler_congruence(r, dk.spec_p() * dk.spec_p(), dk.spec_p() * dk.spec_p() - dk.spec_p()),
        euler_congruence(r, dk.spec_q() * dk.spec_q(), dk.spec_q() * dk.spec_q() - dk.spec_q()),
    ensures
        pow(r, (dk.spec_lambda() * dk.spec_n()) as nat) % (dk.spec_n() * dk.spec_n()) == 1,
{
    dk.lemma_key_facts();
    let p = dk.spec_p();
    let q = dk.spec_q();
    let n = dk.spec_n();
    let lam = dk.spec_lambda();
    let e = (lam * n) as nat;
    let c = dk.spec_crt();
    assert(lam * n > 0) by (nonlinear_arith)
        requires
            lam > 0,
            n > 1,
    ;
    lemma_lcm_multiple(abs(p - 1), abs(q - 1));
    assert(abs(p - 1) == p - 1);
    assert(abs(q - 1) == q - 1);
    assert(lam == lcm(abs(p - 1), abs(q - 1)));
    assert(lam % (p - 1) == 0);
    assert(lam % (q - 1) == 0);
    let k1 = lam / (p - 1);
    let k2 = lam / (q - 1);
    lemma_fundamental_div_mod(lam, p - 1);
    lemma_fundamental_div_mod(lam, q - 1);
    assert(lam * n == (p * p - p) * (k1 * q)) by (nonlinear_arith)
        requires
            lam == (p - 1) * k1 + 0,
            n == p * q,
    ;
    assert(lam * n == (q * q - q) * (k2 * p)) by (nonlinear_arith)
        requires
            lam == (q - 1) * k2 + 0,
            n == p * q,
    ;
    assert(k1 * q >= 0 && k2 * p >= 0) by (nonlinear_arith)
        requires
            lam == (p - 1) * k1 + 0,
            lam == (q - 1) * k2 + 0,
            lam > 0,
            p > 1,
            q > 1,
    ;
    vstd::arithmetic::div_mod::lemma_mod_multiples_basic(k1 * q, p * p - p);
    vstd::arithmetic::div_mod::lemma_mod_multiples_basic(k2 * p, q * q - q);
    lemma_mul_is_commutative(p * p - p, k1 * q);
    lemma_mul_is_commutative(q * q - q, k2 * p);
    lemma_pow_reduce(r, e, (p * p - p) as nat, p * p);
    lemma_pow_reduce(r, e, (q * q - q) as nat, q * q);
    vstd::arithmetic::power::lemma_pow0(r);
    assert(p * p > 1 && q * q > 1) by (nonlinear_arith)
        requires
            p > 1,
            q > 1,
    ;
    lemma_small_mod(1, (p * p) as nat);
    lemma_small_mod(1, (q * q) as nat);
    // both residues are 1, so by the Chinese remainder theorem so is the power
    let y = pow(r, e) % (n * n);
    assert(n * n == (p * p) * (q * q)) by (nonlinear_arith)
        requires
            n == p * q,
    ;
    lemma_mod_bound(pow(r, e), n * n);
    lemma_mod_mod(pow(r, e), p * p, q * q);
    lemma_mul_is_commutative(p * p, q * q);
    lemma_mod_mod(pow(r, e), q * q, p * p);
    lemma_crt_unique(p * p, q * q, c.beta(), y, 1);
}

/// The encryption of a plaintext is a ciphertext in `Z*_{N^2}` whose power
/// `lambda N` is 1 (used to show it is co-prime to `N^2`).
proof fn lemma_ciphertext_in_group(dk: DecryptionKey, x: int, r: int)
    requires
        dk.wf(),
        euler_congruence(r, dk.spec_p() * dk.spec_p(), dk.spec_p() * dk.spec_p() - dk.spec_p()),
        euler_congruence(r, dk.spec_q() * dk.spec_q(), dk.spec_q() * dk.spec_q() - dk.spec_q()),
    ensures
        ({
            let c = paillier_encrypt(dk.spec_n(), x, r);
            &&& in_mult_group_spec(c, dk.spec_n() * dk.spec_n())
            &&& euler_congruence(c, dk.spec_p() * dk.spec_p(), dk.spec_p() * dk.spec_p() - dk.spec_p())
            &&& euler_congruence(c, dk.spec_q() * dk.spec_q(), dk.spec_q() * dk.spec_q() - dk.spec_q())
        }),
{
    dk.lemma_key_facts();
    let p = dk.spec_p();
    let q = dk.spec_q();
    let n = dk.spec_n();
    let m = n * n;
    let c = paillier_encrypt(n, x, r);
    lemma_ciphertext_euler_factor(n, p, q, x, r);
    lemma_mul_is_commutative(p, q);
    lemma_ciphertext_euler_factor(n, q, p, x, r);
    lemma_nonce_power_vanishes(dk, c);
    let e = (dk.spec_lambda() * n) as nat;
    assert(dk.spec_lambda() * n >= 1) by (nonlinear_arith)
        requires
            dk.spec_lambda() > 0,
            n > 1,
    ;
    let e1 = (e - 1) as nat;
    lemma_pow_adds(c, 1, e1);
    vstd::arithmetic::power::lemma_pow1(c);
    assert(1 + e1 == e);
    let y = pow(c, e1);
    assert((c * y) % m == 1);
    lemma_mod_bound((1 + (x % n) * n) * pow(r, n as nat), m);
    lemma_inverse_gives_coprime(c, y, m);
    if c == 0 {
        assert(c * y == 0) by (nonlinear_arith)
            requires
                c == 0,
        ;
        lemma_small_mod(0, m as nat);
    }
}

/// Decryption undoes encryption: `decrypt(encrypt_with(x, r)) = x` for every
/// plaintext `x` of the signed range, with the key's modulus odd as for two
/// odd primes. It needs Euler's congruence for the nonce modulo `p^2` and
/// `q^2`, which Euler's theorem gives for every nonce co-prime to `N` when
/// `p` and `q` are prime.
proof fn lemma_round_trip_euler(dk: DecryptionKey, x: int, r: int)
    requires
        dk.wf(),
        dk.spec_n() % 2 == 1,
        crate::encryption_key::in_signed_range(x, dk.spec_n()),
        euler_congruence(r, dk.spec_p() * dk.spec_p(), dk.spec_p() * dk.spec_p() - dk.spec_p()),
        euler_congruence(r, dk.spec_q() * dk.spec_q(), dk.spec_q() * dk.spec_q() - dk.spec_q()),
    ensures
        dk.decrypt_spec(paillier_encrypt(dk.spec_n(), x, r)) == Some(x),
{
    dk.lemma_key_facts();
    let n = dk.spec_n();
    let m = n * n;
    let lam = dk.spec_lambda();
    let mu = dk.spec_mu();
    let c = paillier_encrypt(n, x, r);
    lemma_ciphertext_in_group(dk, x, r);
    // a = c^lambda through the tables = c^lambda mod N^2 = Enc(lambda x, r^lambda)
    lemma_crt_power_is_pow(dk.spec_crt(), c, lam as nat);
    lemma_omul_encrypts_product(n, lam as nat, x, r);
    lemma_pow_multiplies(r, lam as nat, n as nat);
    lemma_nonce_power_vanishes(dk, r);
    let t = (lam * x) % n;
    let a = 1 + t * n;
    lemma_mod_bound(lam * x, n);
    lemma_mul_mod_noop_right(a, pow(r, (lam * n) as nat), m);
    assert(1 <= a < m) by (nonlinear_arith)
        requires
            0 <= t < n,
            a == 1 + t * n,
            m == n * n,
            n > 1,
    ;
    lemma_small_mod(a as nat, m as nat);
    assert(a * 1 == a);
    assert(dk.crt_pow(c, lam as nat) == a);
    // L(a) = t
    lemma_fundamental_div_mod_converse(a, n, t, 1);
    lemma_fundamental_div_mod_converse(a - 1, n, t, 0);
    // a is invertible modulo N^2: (1 + t n)(1 + (n - t) n) = 1 (mod N^2)
    let b = 1 + (n - t) * n;
    assert(a * b == m * (1 + t * (n - t)) + 1) by (nonlinear_arith)
        requires
            a == 1 + t * n,
            b == 1 + (n - t) * n,
            m == n * n,
    ;
    lemma_mod_multiples_vanish(1 + t * (n - t), 1, m);
    lemma_small_mod(1, m as nat);
    lemma_inverse_gives_coprime(a, b, m);
    // t mu = lambda x mu = x (mod N)
    lemma_mul_mod_noop_left(lam * x, mu, n);
    assert((lam * x) * mu == x * (lam * mu)) by (nonlinear_arith);
    lemma_mul_mod_noop_right(x, lam * mu, n);
    lemma_small_mod(1, n as nat);
    assert(x * 1 == x);
    assert((t * mu) % n == x % n);
    // back to the signed range
    if x >= 0 {
        lemma_fundamental_div_mod_converse(x, n, 0, x);
    } else {
        lemma_fundamental_div_mod_converse(x, n, -1, x + n);
    }
}

/// The signed representative of `v` modulo an odd `n > 1` lies in the signed
/// range and has the residue of `v`.
proof fn lemma_signed_residue(v: int, n: int)
    requires
        n > 1,
        n % 2 == 1,
    ensures
        crate::encryption_key::in_signed_range(to_signed(v % n, n), n),
        to_signed(v % n, n) % n == v % n,
{
    let w = v % n;
    lemma_mod_bound(v, n);
    lemma_mod_twice(v, n);
    if 2 * w >= n {
        lemma_fundamental_div_mod_converse(w - n, n, -1, w);
    } else {
        lemma_fundamental_div_mod_converse(w, n, 0, w);
    }
}

/// Encryption reads the plaintext modulo `n` only.
proof fn lemma_encrypt_residue(n: int, x: int, y: int, r: int)
    requires
        x % n == y % n,
    ensures
        paillier_encrypt(n, x, r) == paillier_encrypt(n, y, r),
{
}

/// Euler's congruence is kept by products and powers.
proof fn lemma_euler_mul(r1: int, r2: int, m: int, phi: int)
    requires
        m > 1,
        euler_congruence(r1, m, phi),
        euler_congruence(r2, m, phi),
    ensures
        euler_congruence(r1 * r2, m, phi),
{
    lemma_pow_distributes(r1, r2, phi as nat);
    lemma_mul_mod_noop(pow(r1, phi as nat), pow(r2, phi as nat), m);
    lemma_small_mod(1, m as nat);
}

proof fn lemma_euler_pow(r: int, k: nat, m: int, phi: int)
    requires
        m > 1,
        euler_congruence(r, m, phi),
    ensures
        euler_congruence(pow(r, k), m, phi),
{
    lemma_pow_multiplies(r, k, phi as nat);
    lemma_pow_multiplies(r, phi as nat, k);
    assert(k * (phi as nat) == (phi as nat) * k) by (nonlinear_arith);
    lemma_pow_mod_noop(pow(r, phi as nat), k, m);
    lemma_small_mod(1, m as nat);
    lemma1_pow(k);
}

proof fn lemma_euler_residue(r: int, m: int, m1: int, phi: int)
    requires
        m > 0,
        m1 > 1,
        m % m1 == 0,
        euler_congruence(r, m1, phi),
    ensures
        euler_congruence(r % m, m1, phi),
{
    lemma_fundamental_div_mod(m, m1);
    let k = m / m1;
    assert(m == m1 * k);
    assert(k > 0) by (nonlinear_arith)
        requires
            m == m1 * k,
            m > 0,
            m1 > 1,
    ;
    lemma_mod_mod(r, m1, k);
    lemma_pow_mod_noop(r % m, phi as nat, m1);
    lemma_pow_mod_noop(r, phi as nat, m1);
}

/// Both prime-square moduli divide `N^2`.
proof fn lemma_factor_squares(dk: DecryptionKey)
    requires
        dk.wf(),
    ensures
        (dk.spec_n() * dk.spec_n()) % (dk.spec_p() * dk.spec_p()) == 0,
        (dk.spec_n() * dk.spec_n()) % (dk.spec_q() * dk.spec_q()) == 0,
        dk.spec_p() * dk.spec_p() > 1,
        dk.spec_q() * dk.spec_q() > 1,
{
    dk.lemma_key_facts();
    let p = dk.spec_p();
    let q = dk.spec_q();
    assert(p * p > 1 && q * q > 1 && q * q > 0) by (nonlinear_arith)
        requires
            p > 1,
            q > 1,
    ;
    assert(dk.spec_n() * dk.spec_n() == (q * q) * (p * p)) by (nonlinear_arith)
        requires
            dk.spec_n() == p * q,
    ;
    vstd::arithmetic::div_mod::lemma_mod_multiples_basic(q * q, p * p);
    vstd::arithmetic::div_mod::lemma_mod_multiples_basic(p * p, q * q);
    lemma_mul_is_commutative(q * q, p * p);
}

/// A nonce with Euler's congruences has an inverse modulo `N^2` that has
/// them too.
proof fn lemma_nonce_inverse(dk: DecryptionKey, r: int) -> (s: int)
    requires
        dk.wf(),
        euler_congruence(r, dk.spec_p() * dk.spec_p(), dk.spec_p() * dk.spec_p() - dk.spec_p()),
        euler_congruence(r, dk.spec_q() * dk.spec_q(), dk.spec_q() * dk.spec_q() - dk.spec_q()),
    ensures
        is_inverse(r, s, dk.spec_n() * dk.spec_n()),
        euler_congruence(s, dk.spec_p() * dk.spec_p(), dk.spec_p() * dk.spec_p() - dk.spec_p()),
        euler_congruence(s, dk.spec_q() * dk.spec_q(), dk.spec_q() * dk.spec_q() - dk.spec_q()),
{
    dk.lemma_key_facts();
    lemma_factor_squares(dk);
    let n = dk.spec_n();
    let m = n * n;
    lemma_nonce_power_vanishes(dk, r);
    let e = (dk.spec_lambda() * n) as nat;
    assert(dk.spec_lambda() * n >= 1) by (nonlinear_arith)
        requires
            dk.spec_lambda() > 0,
            n > 1,
    ;
    let e1 = (e - 1) as nat;
    lemma_pow_adds(r, 1, e1);
    vstd::arithmetic::power::lemma_pow1(r);
    assert(1 + e1 == e);
    let s = pow(r, e1) % m;
    lemma_mod_bound(pow(r, e1), m);
    lemma_mul_mod_noop_right(r, pow(r, e1), m);
    lemma_small_mod(1, m as nat);
    let pp = dk.spec_p() * dk.spec_p();
    let qq = dk.spec_q() * dk.spec_q();
    lemma_euler_pow(r, e1, pp, pp - dk.spec_p());
    lemma_euler_pow(r, e1, qq, qq - dk.spec_q());
    lemma_euler_residue(pow(r, e1), m, pp, pp - dk.spec_p());
    lemma_euler_residue(pow(r, e1), m, qq, qq - dk.spec_q());
    s
}

/// Homomorphic addition through decryption: the sum of two encryptions
/// decrypts to `a + b` in the signed range modulo `N`. Hypotheses as for
/// `lemma_round_trip_euler`, for both nonces.
proof fn lemma_decrypt_oadd_euler(dk: DecryptionKey, a: int, b: int, r1: int, r2: int)
    requires
        dk.wf(),
        dk.spec_n() % 2 == 1,
        euler_congruence(r1, dk.spec_p() * dk.spec_p(), dk.spec_p() * dk.spec_p() - dk.spec_p()),
        euler_congruence(r1, dk.spec_q() * dk.spec_q(), dk.spec_q() * dk.spec_q() - dk.spec_q()),
        euler_congruence(r2, dk.spec_p() * dk.spec_p(), dk.spec_p() * dk.spec_p() - dk.spec_p()),
        euler_congruence(r2, dk.spec_q() * dk.spec_q(), dk.spec_q() * dk.spec_q() - dk.spec_q()),
    ensures
        dk.decrypt_spec(
            (paillier_encrypt(dk.spec_n(), a, r1) * paillier_encrypt(dk.spec_n(), b, r2)) % (dk.spec_n()
                * dk.spec_n()),
        ) == Some(to_signed((a + b) % dk.spec_n(), dk.spec_n())),
{
    dk.lemma_key_facts();
    lemma_factor_squares(dk);
    let n = dk.spec_n();
    let pp = dk.spec_p() * dk.spec_p();
    let qq = dk.spec_q() * dk.spec_q();
    lemma_oadd_encrypts_sum(n, a, b, r1, r2);
    lemma_euler_mul(r1, r2, pp, pp - dk.spec_p());
    lemma_euler_mul(r1, r2, qq, qq - dk.spec_q());
    let v = to_signed((a + b) % n, n);
    lemma_signed_residue(a + b, n);
    lemma_encrypt_residue(n, a + b, v, r1 * r2);
    lemma_round_trip_euler(dk, v, r1 * r2);
}

/// Homomorphic negation through decryption: the inverse of an encryption of
/// `a` decrypts to `-a` in the signed range modulo `N`, given Euler's
/// congruences for the nonce.
proof fn lemma_decrypt_oneg_euler(dk: DecryptionKey, a: int, r: int)
    requires
        dk.wf(),
        dk.spec_n() % 2 == 1,
        euler_congruence(r, dk.spec_p() * dk.spec_p(), dk.spec_p() * dk.spec_p() - dk.spec_p()),
        euler_congruence(r, dk.spec_q() * dk.spec_q(), dk.spec_q() * dk.spec_q() - dk.spec_q()),
    ensures
        dk.decrypt_spec(mod_inverse(paillier_encrypt(dk.spec_n(), a, r), dk.spec_n() * dk.spec_n()))
            == Some(to_signed((-a) % dk.spec_n(), dk.spec_n())),
{
    dk.lemma_key_facts();
    let n = dk.spec_n();
    let s = lemma_nonce_inverse(dk, r);
    lemma_oneg_encrypts_negation(n, a, r, s);
    let v = to_signed((-a) % n, n);
    lemma_signed_residue(-a, n);
    lemma_encrypt_residue(n, -a, v, s);
    lemma_round_trip_euler(dk, v, s);
}

/// Homomorphic subtraction through decryption: an encryption of `a` times
/// the inverse of an encryption of `b` decrypts to `a - b` in the signed
/// range modulo `N`, given Euler's congruences for both nonces.
proof fn lemma_decrypt_osub_euler(dk: DecryptionKey, a: int, b: int, r1: int, r2: int)
    requires
        dk.wf(),
        dk.spec_n() % 2 == 1,
        euler_congruence(r1, dk.spec_p() * dk.spec_p(), dk.spec_p() * dk.spec_p() - dk.spec_p()),
        euler_congruence(r1, dk.spec_q() * dk.spec_q(), dk.spec_q() * dk.spec_q() - dk.spec_q()),
        euler_congruence(r2, dk.spec_p() * dk.spec_p(), dk.spec_p() * dk.spec_p() - dk.spec_p()),
        euler_congruence(r2, dk.spec_q() * dk.spec_q(), dk.spec_q() * dk.spec_q() - dk.spec_q()),
    ensures
        dk.decrypt_spec(
            (paillier_encrypt(dk.spec_n(), a, r1) * mod_inverse(
                paillier_encrypt(dk.spec_n(), b, r2),
                dk.spec_n() * dk.spec_n(),
            )) % (dk.spec_n() * dk.spec_n()),
        ) == Some(to_signed((a - b) % dk.spec_n(), dk.spec_n())),
{
    dk.lemma_key_facts();
    lemma_factor_squares(dk);
    let n = dk.spec_n();
    let pp = dk.spec_p() * dk.spec_p();
    let qq = dk.spec_q() * dk.spec_q();
    let s2 = lemma_nonce_inverse(dk, r2);
    lemma_osub_encrypts_difference(n, a, b, r1, r2, s2);
    lemma_euler_mul(r1, s2, pp, pp - dk.spec_p());
    lemma_euler_mul(r1, s2, qq, qq - dk.spec_q());
    let v = to_signed((a - b) % n, n);
    lemma_signed_residue(a - b, n);
    lemma_encrypt_residue(n, a - b, v, r1 * s2);
    lemma_round_trip_euler(dk, v, r1 * s2);
}

/// Homomorphic scalar multiplication through decryption: an encryption of
/// `b` raised to `k` modulo `N^2` (a negative `k` raising the inverse, as
/// `omul` does) decrypts to `k * b` in the signed range modulo `N`, given
/// Euler's congruences for the nonce.
proof fn lemma_decrypt_omul_euler(dk: DecryptionKey, k: int, b: int, r: int)
    requires
        dk.wf(),
        dk.spec_n() % 2 == 1,
        euler_congruence(r, dk.spec_p() * dk.spec_p(), dk.spec_p() * dk.spec_p() - dk.spec_p()),
        euler_congruence(r, dk.spec_q() * dk.spec_q(), dk.spec_q() * dk.spec_q() - dk.spec_q()),
    ensures
        dk.decrypt_spec(
            crate::modular::pow_mod_signed(
                paillier_encrypt(dk.spec_n(), b, r),
                k,
                dk.spec_n() * dk.spec_n(),
            ),
        ) == Some(to_signed((k * b) % dk.spec_n(), dk.spec_n())),
{
    dk.lemma_key_facts();
    lemma_factor_squares(dk);
    let n = dk.spec_n();
    let pp = dk.spec_p() * dk.spec_p();
    let qq = dk.spec_q() * dk.spec_q();
    let v = to_signed((k * b) % n, n);
    lemma_signed_residue(k * b, n);
    if k >= 0 {
        lemma_omul_encrypts_product(n, k as nat, b, r);
        lemma_euler_pow(r, k as nat, pp, pp - dk.spec_p());
        lemma_euler_pow(r, k as nat, qq, qq - dk.spec_q());
        lemma_encrypt_residue(n, k * b, v, pow(r, k as nat));
        lemma_round_trip_euler(dk, v, pow(r, k as nat));
    } else {
        let s = lemma_nonce_inverse(dk, r);
        lemma_oneg_encrypts_negation(n, b, r, s);
        let j = (-k) as nat;
        lemma_omul_encrypts_product(n, j, -b, s);
        assert(j * (-b) == k * b) by (nonlinear_arith)
            requires
                j == -k,
        ;
        lemma_euler_pow(s, j, pp, pp - dk.spec_p());
        lemma_euler_pow(s, j, qq, qq - dk.spec_q());
        lemma_encrypt_residue(n, k * b, v, pow(s, j));
        lemma_round_trip_euler(dk, v, pow(s, j));
    }
}

/// Euler's congruences that Fermat's little theorem gives: modulo a prime
/// with exponent `p - 1`, and modulo its square with exponent `p^2 - p`.
proof fn lemma_prime_congruences(r: int, p: int)
    requires
        is_prime(p),
        r % p != 0,
    ensures
        euler_congruence(r, p, p - 1),
        euler_congruence(r, p * p, p * p - p),
{
    assert(p * p > 1 && p * p - p > 0) by (nonlinear_arith)
        requires
            p > 1,
    ;
    let a = r % (p * p);
    lemma_mod_bound(r, p * p);
    lemma_mod_mod(r, p, p);
    lemma_euler_prime_square(a as nat, p as nat);
    lemma_pow_mod_noop(r, (p * p - p) as nat, p * p);
    lemma_small_mod(1, (p * p) as nat);
    let b = r % p;
    lemma_mod_bound(r, p);
    lemma_mod_twice(r, p);
    lemma_fermat(b as nat, p as nat);
    lemma_pow_mod_noop(r, (p - 1) as nat, p);
    lemma_small_mod(1, p as nat);
}

/// A number co-prime to `n` is no multiple of a divisor `p > 1` of `n`.
proof fn lemma_coprime_not_multiple(r: int, n: int, p: int)
    requires
        p > 1,
        r >= 0,
        n > 0,
        gcd(r as nat, n as nat) == 1,
        n % p == 0,
    ensures
        r % p != 0,
{
    if r % p == 0 {
        let (u, v) = lemma_bezout(r as nat, n as nat);
        assert(u * r + v * n == 1);
        lemma_mul_mod_noop_right(u, r, p);
        lemma_mul_mod_noop_right(v, n, p);
        lemma_small_mod(0, p as nat);
        assert(u * 0 == 0 && v * 0 == 0);
        vstd::arithmetic::div_mod::lemma_add_mod_noop(u * r, v * n, p);
        lemma_small_mod(1, p as nat);
    }
}

/// A nonce of `Z*_N` has Euler's congruences modulo `p^2` and `q^2` when `p`
/// and `q` are prime.
proof fn lemma_nonce_congruences(dk: DecryptionKey, r: int)
    requires
        dk.wf(),
        is_prime(dk.spec_p()),
        is_prime(dk.spec_q()),
        in_mult_group_spec(r, dk.spec_n()),
    ensures
        euler_congruence(r, dk.spec_p() * dk.spec_p(), dk.spec_p() * dk.spec_p() - dk.spec_p()),
        euler_congruence(r, dk.spec_q() * dk.spec_q(), dk.spec_q() * dk.spec_q() - dk.spec_q()),
{
    dk.lemma_key_facts();
    let p = dk.spec_p();
    let q = dk.spec_q();
    lemma_mod_multiples_basic(q, p);
    lemma_mul_is_commutative(q, p);
    lemma_mod_multiples_basic(p, q);
    lemma_coprime_not_multiple(r, dk.spec_n(), p);
    lemma_coprime_not_multiple(r, dk.spec_n(), q);
    lemma_prime_congruences(r, p);
    lemma_prime_congruences(r, q);
}

/// Decryption undoes encryption: for a key of distinct odd primes `p`, `q`,
/// every plaintext `x` of the signed range and every nonce `r` of `Z*_N`,
/// `decrypt(encrypt_with(x, r)) = x`.
pub proof fn lemma_round_trip(dk: DecryptionKey, x: int, r: int)
    requires
        dk.wf(),
        is_prime(dk.spec_p()),
        is_prime(dk.spec_q()),
        dk.spec_n() % 2 == 1,
        crate::encryption_key::in_signed_range(x, dk.spec_n()),
        in_mult_group_spec(r, dk.spec_n()),
    ensures
        dk.decrypt_spec(paillier_encrypt(dk.spec_n(), x, r)) == Some(x),
{
    lemma_nonce_congruences(dk, r);
    lemma_round_trip_euler(dk, x, r);
}

/// The two encryption paths agree: for a key of primes `p`, `q` and a nonce
/// of `Z*_N`, the fast encryption of the decryption key is the encryption of
/// the public key.
pub proof fn lemma_encryption_paths_agree(dk: DecryptionKey, x: int, r: int)
    requires
        dk.wf(),
        is_prime(dk.spec_p()),
        is_prime(dk.spec_q()),
        in_mult_group_spec(r, dk.spec_n()),
    ensures
        dk.fast_encrypt_spec(x, r) == paillier_encrypt(dk.spec_n(), x, r),
{
    lemma_nonce_congruences(dk, r);
    lemma_encryption_paths_agree_euler(dk, x, r);
}

/// Homomorphic addition: for a key of distinct odd primes and nonces of
/// `Z*_N`, `oadd(Enc(a), Enc(b))` decrypts to `a + b` mapped to the signed
/// range modulo `N`.
pub proof fn lemma_decrypt_oadd(dk: DecryptionKey, a: int, b: int, r1: int, r2: int)
    requires
        dk.wf(),
        is_prime(dk.spec_p()),
        is_prime(dk.spec_q()),
        dk.spec_n() % 2 == 1,
        in_mult_group_spec(r1, dk.spec_n()),
        in_mult_group_spec(r2, dk.spec_n()),
    ensures
        dk.decrypt_spec(
            (paillier_encrypt(dk.spec_n(), a, r1) * paillier_encrypt(dk.spec_n(), b, r2)) % (dk.spec_n()
                * dk.spec_n()),
        ) == Some(to_signed((a + b) % dk.spec_n(), dk.spec_n())),
{
    lemma_nonce_congruences(dk, r1);
    lemma_nonce_congruences(dk, r2);
    lemma_decrypt_oadd_euler(dk, a, b, r1, r2);
}

/// Homomorphic subtraction: `osub(Enc(a), Enc(b))`, the product with the
/// inverse, decrypts to `a - b` mapped to the signed range modulo `N`.
pub proof fn lemma_decrypt_osub(dk: DecryptionKey, a: int, b: int, r1: int, r2: int)
    requires
        dk.wf(),
        is_prime(dk.spec_p()),
        is_prime(dk.spec_q()),
        dk.spec_n() % 2 == 1,
        in_mult_group_spec(r1, dk.spec_n()),
        in_mult_group_spec(r2, dk.spec_n()),
    ensures
        dk.decrypt_spec(
            (paillier_encrypt(dk.spec_n(), a, r1) * mod_inverse(
                paillier_encrypt(dk.spec_n(), b, r2),
                dk.spec_n() * dk.spec_n(),
            )) % (dk.spec_n() * dk.spec_n()),
        ) == Some(to_signed((a - b) % dk.spec_n(), dk.spec_n())),
{
    lemma_nonce_congruences(dk, r1);
    lemma_nonce_congruences(dk, r2);
    lemma_decrypt_osub_euler(dk, a, b, r1, r2);
}

/// Homomorphic negation: `oneg(Enc(a))`, the inverse, decrypts to `-a`
/// mapped to the signed range modulo `N`.
pub proof fn lemma_decrypt_oneg(dk: DecryptionKey, a: int, r: int)
    requires
        dk.wf(),
        is_prime(dk.spec_p()),
        is_prime(dk.spec_q()),
        dk.spec_n() % 2 == 1,
        in_mult_group_spec(r, dk.spec_n()),
    ensures
        dk.decrypt_spec(mod_inverse(paillier_encrypt(dk.spec_n(), a, r), dk.spec_n() * dk.spec_n()))
            == Some(to_signed((-a) % dk.spec_n(), dk.spec_n())),
{
    lemma_nonce_congruences(dk, r);
    lemma_decrypt_oneg_euler(dk, a, r);
}

/// Homomorphic scalar multiplication: `omul(k, Enc(b))`, the power `k`
/// (inverse first for a negative `k`), decrypts to `k * b` mapped to the
/// signed range modulo `N`; this holds for every scalar `k`.
pub proof fn lemma_decrypt_omul(dk: DecryptionKey, k: int, b: int, r: int)
    requires
        dk.wf(),
        is_prime(dk.spec_p()),
        is_prime(dk.spec_q()),
        dk.spec_n() % 2 == 1,
        in_mult_group_spec(r, dk.spec_n()),
    ensures
        dk.decrypt_spec(
            crate::modular::pow_mod_signed(
                paillier_encrypt(dk.spec_n(), b, r),
                k,
                dk.spec_n() * dk.spec_n(),
            ),
        ) == Some(to_signed((k * b) % dk.spec_n(), dk.spec_n())),
{
    lemma_nonce_congruences(dk, r);
    lemma_decrypt_omul_euler(dk, k, b, r);
}

/// What plain modular exponentiation gives for a signed exponent: `x^e mod n`,
/// and for a negative `e` the inverse of `x^|e| mod n`, where there is one.
pub open spec fn signed_pow_mod(x: int, e: int, n: int) -> Option<int> {
    let y = pow(x, abs(e)) % n;
    if e >= 0 {
        Some(y)
    } else if gcd(y as nat, n as nat) == 1 {
        Some(mod_inverse(y, n))
    } else {
        None
    }
}

/// CRT exponentiation modulo `n = p q` for primes `p != q`, tables as
/// [`CrtExp::build_n`] makes them: `exp(x, prepare(e)) = x^e mod n` for every
/// `x` of `[0, n)` co-prime to `n` and every exponent `e`.
pub proof fn lemma_crt_exp_mod_n(c: CrtExp, p: int, q: int, x: int, e: int, ex: Exponent)
    requires
        is_prime(p),
        is_prime(q),
        c.wf(),
        c.n1() == p,
        c.phi_n1() == p - 1,
        c.n2() == q,
        c.phi_n2() == q - 1,
        ex.e1() == abs(e) % (c.phi_n1() as nat),
        ex.e2() == abs(e) % (c.phi_n2() as nat),
        ex.negative() == (e < 0),
        0 <= x < p * q,
        gcd(x as nat, (p * q) as nat) == 1,
    ensures
        c.exp_spec(x, ex) == signed_pow_mod(x, e, p * q),
{
    lemma_mod_multiples_basic(q, p);
    lemma_mul_is_commutative(q, p);
    lemma_mod_multiples_basic(p, q);
    assert(p * q > 0) by (nonlinear_arith)
        requires
            p > 1,
            q > 1,
    ;
    lemma_coprime_not_multiple(x, p * q, p);
    lemma_coprime_not_multiple(x, p * q, q);
    lemma_prime_congruences(x, p);
    lemma_prime_congruences(x, q);
    lemma_crt_exp_matches_pow_euler(c, x, e, ex);
}

/// CRT exponentiation modulo `n = (p q)^2` for primes `p != q`, tables as
/// [`CrtExp::build_nn`] makes them: `exp(x, prepare(e)) = x^e mod n` for every
/// `x` of `[0, n)` co-prime to `p q` (equivalently to `n`) and every exponent `e`.
pub proof fn lemma_crt_exp_mod_nn(c: CrtExp, p: int, q: int, x: int, e: int, ex: Exponent)
    requires
        is_prime(p),
        is_prime(q),
        c.wf(),
        c.n1() == p * p,
        c.phi_n1() == p * p - p,
        c.n2() == q * q,
        c.phi_n2() == q * q - q,
        ex.e1() == abs(e) % (c.phi_n1() as nat),
        ex.e2() == abs(e) % (c.phi_n2() as nat),
        ex.negative() == (e < 0),
        0 <= x < c.modulus(),
        gcd(x as nat, (p * q) as nat) == 1,
    ensures
        c.exp_spec(x, ex) == signed_pow_mod(x, e, c.modulus()),
{
    lemma_mod_multiples_basic(q, p);
    lemma_mul_is_commutative(q, p);
    lemma_mod_multiples_basic(p, q);
    assert(p * q > 0) by (nonlinear_arith)
        requires
            p > 1,
            q > 1,
    ;
    lemma_coprime_not_multiple(x, p * q, p);
    lemma_coprime_not_multiple(x, p * q, q);
    lemma_prime_congruences(x, p);
    lemma_prime_congruences(x, q);
    lemma_crt_exp_matches_pow_euler(c, x, e, ex);
}

/// Every ciphertext decrypts: for a key of primes `p != q` and every `c` of
/// `Z*_{N^2}`, `a = c^lambda mod N^2` is `1 (mod N)`, lies in `Z*_{N^2}`, and
/// `decrypt(c)` is the signed form of `L(a) mu mod N`, `L(a) = (a - 1) / N`.
pub proof fn lemma_decrypt_defined(dk: DecryptionKey, c: int)
    requires
        dk.wf(),
        is_prime(dk.spec_p()),
        is_prime(dk.spec_q()),
        in_mult_group_spec(c, dk.spec_n() * dk.spec_n()),
    ensures
        ({
            let n = dk.spec_n();
            let a = pow(c, dk.spec_lambda() as nat) % (n * n);
            &&& a % n == 1
            &&& in_mult_group_spec(a, n * n)
            &&& dk.decrypt_spec(c) == Some(to_signed((((a - 1) / n) * dk.spec_mu()) % n, n))
        }),
{
    dk.lemma_key_facts();
    lemma_factor_squares(dk);
    let p = dk.spec_p();
    let q = dk.spec_q();
    let n = dk.spec_n();
    let m = n * n;
    let lam = dk.spec_lambda();
    // c is no multiple of p or q
    assert(m == p * (p * q * q) && m == q * (q * p * p) && m > 1) by (nonlinear_arith)
        requires
            n == p * q,
            m == n * n,
            p > 1,
            q > 1,
    ;
    lemma_mod_multiples_basic(p * q * q, p);
    lemma_mul_is_commutative(p * q * q, p);
    lemma_mod_multiples_basic(q * p * p, q);
    lemma_mul_is_commutative(q * p * p, q);
    lemma_coprime_not_multiple(c, m, p);
    lemma_coprime_not_multiple(c, m, q);
    lemma_prime_congruences(c, p);
    lemma_prime_congruences(c, q);
    // the tables compute c^lambda mod N^2
    lemma_crt_power_is_pow(dk.spec_crt(), c, lam as nat);
    let pw = pow(c, lam as nat);
    let a = pw % m;
    // c^lambda = 1 modulo p and modulo q, as p - 1 and q - 1 divide lambda
    lemma_lcm_multiple(abs(p - 1), abs(q - 1));
    assert(abs(p - 1) == p - 1 && abs(q - 1) == q - 1);
    assert(lam % (p - 1) == 0 && lam % (q - 1) == 0);
    lemma_pow_reduce(c, lam as nat, (p - 1) as nat, p);
    lemma_pow_reduce(c, lam as nat, (q - 1) as nat, q);
    vstd::arithmetic::power::lemma_pow0(c);
    lemma_small_mod(1, p as nat);
    lemma_small_mod(1, q as nat);
    assert(pw % p == 1 && pw % q == 1);
    // so N = p q divides c^lambda - 1
    lemma_mod_equivalence(pw, 1, p);
    lemma_mod_equivalence(pw, 1, q);
    let d = pw - 1;
    lemma_fundamental_div_mod(d, p);
    let k = d / p;
    assert(d == p * k);
    assert(p % q != 0) by {
        if p < q {
            lemma_small_mod(p as nat, q as nat);
        } else {
            assert(q < p);
        }
    }
    crate::fermat::lemma_euclid(p, k, q);
    lemma_fundamental_div_mod(k, q);
    let j = k / q;
    assert(d == n * j) by (nonlinear_arith)
        requires
            d == p * k,
            k == q * j + 0,
            n == p * q,
    ;
    assert(n > 1) by (nonlinear_arith)
        requires
            n == p * q,
            p > 1,
            q > 1,
    ;
    lemma_mod_multiples_basic(j, n);
    lemma_mul_is_commutative(j, n);
    lemma_mod_equivalence(pw, 1, n);
    lemma_small_mod(1, n as nat);
    lemma_mod_mod(pw, n, n);
    assert(a % n == 1);
    // a = 1 + t N, invertible modulo N^2 with inverse 1 + (N - t) N
    lemma_mod_bound(pw, m);
    lemma_fundamental_div_mod(a, n);
    let t = a / n;
    assert(a == n * t + 1);
    assert(t >= 0 && t < n) by (nonlinear_arith)
        requires
            a == n * t + 1,
            0 <= a < m,
            m == n * n,
            n > 1,
    ;
    let b = 1 + (n - t) * n;
    assert(a * b == m * (1 + t * (n - t)) + 1) by (nonlinear_arith)
        requires
            a == n * t + 1,
            b == 1 + (n - t) * n,
            m == n * n,
    ;
    lemma_mod_multiples_vanish(1 + t * (n - t), 1, m);
    lemma_small_mod(1, m as nat);
    lemma_inverse_gives_coprime(a, b, m);
    assert(dk.crt_pow(c, lam as nat) == a);
}

/// For a non-negative `c`, having an inverse modulo `m` (the domain of
/// `oneg`, and of the second operand of `osub`) is being co-prime to `m`.
pub proof fn lemma_invertible_iff_coprime(c: int, m: int)
    requires
        c >= 0,
        m > 0,
    ensures
        crate::modular::invertible(c, m) <==> gcd(c as nat, m as nat) == 1,
{
    let r = c % m;
    lemma_mod_bound(c, m);
    assert(gcd(c as nat, m as nat) == gcd(m as nat, (c as nat) % (m as nat)));
    if r == 0 {
        assert(gcd(0, m as nat) == gcd(m as nat, 0));
    } else {
        lemma_small_mod(r as nat, m as nat);
        assert(gcd(r as nat, m as nat) == gcd(m as nat, (r as nat) % (m as nat)));
    }
}

} // verus!
