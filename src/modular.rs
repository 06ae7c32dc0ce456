//! Modular-arithmetic vocabulary shared by the exponentiator and the keys,
//! with the lemmas that connect it to the computations.
use vstd::prelude::*;
use vstd::arithmetic::power::pow;
use vstd::arithmetic::div_mod::{
    lemma_fundamental_div_mod_converse, lemma_mod_bound,
    lemma_mul_mod_noop_left, lemma_mul_mod_noop_right, lemma_add_mod_noop,
    lemma_mod_twice, lemma_small_mod,
};
use vstd::arithmetic::mul::{lemma_mul_is_associative, lemma_mul_is_commutative};
use crate::bignum::{gcd, is_inverse};

verus! {

/// Membership of `Z*_n`: `1 <= x < n` and `x` co-prime to `n`.
pub open spec fn in_mult_group_spec(x: int, n: int) -> bool {
    &&& 1 <= x < n
    &&& gcd(x as nat, n as nat) == 1
}

/// `x` has an inverse modulo a positive `m`: its residue is co-prime to `m`.
pub open spec fn invertible(x: int, m: int) -> bool {
    &&& m > 0
    &&& gcd((x % m) as nat, m as nat) == 1
}

/// The inverse of `x` modulo `m`, taken in `[0, m)`; it is unique where it
/// exists (see `lemma_inverse_unique`).
pub open spec fn mod_inverse(x: int, m: int) -> int {
    choose|y: int| is_inverse(x, y, m)
}

/// `x^e mod m` for a signed exponent: a negative exponent raises the inverse.
pub open spec fn pow_mod_signed(x: int, e: int, m: int) -> int {
    if e >= 0 {
        pow(x, e as nat) % m
    } else {
        pow(mod_inverse(x, m), (-e) as nat) % m
    }
}

/// The Chinese-remainder recombination of residues `r1 (mod n1)` and
/// `r2 (mod n2)` with `beta` the inverse of `n1` modulo `n2`.
pub open spec fn crt_combine(n1: int, n2: int, beta: int, r1: int, r2: int) -> int {
    (((r2 - r1) * beta) % n2) * n1 + r1
}

pub proof fn lemma_inverse_unique(x: int, y1: int, y2: int, m: int)
    requires
        is_inverse(x, y1, m),
        is_inverse(x, y2, m),
    ensures
        y1 == y2,
{
    // y1 = y1 * (x * y2) = (x * y1) * y2 = y2   (mod m)
    lemma_mul_mod_noop_right(y1, x * y2, m);
    lemma_mul_mod_noop_left(x * y1, y2, m);
    lemma_mul_is_associative(y1, x, y2);
    lemma_mul_is_commutative(y1, x);
    if m == 1 {
    } else {
        lemma_small_mod(1, m as nat);
        lemma_small_mod(y1 as nat, m as nat);
        lemma_small_mod(y2 as nat, m as nat);
        assert(y1 * 1 == y1);
        assert(1 * y2 == y2);
    }
}

/// What the wrapper's inverse is: the one `mod_inverse` names.
pub proof fn lemma_is_mod_inverse(x: int, y: int, m: int)
    requires
        is_inverse(x, y, m),
    ensures
        mod_inverse(x, m) == y,
{
    let z = mod_inverse(x, m);
    assert(is_inverse(x, z, m));
    lemma_inverse_unique(x, y, z, m);
}

/// An inverse of the residue of `x` is an inverse of `x`.
pub proof fn lemma_inverse_of_residue(x: int, y: int, m: int)
    requires
        m > 0,
        is_inverse(x % m, y, m),
    ensures
        is_inverse(x, y, m),
{
    lemma_mul_mod_noop_left(x, y, m);
}

/// The recombined value lies in `[0, n1 * n2)` and has the two residues.
pub proof fn lemma_crt_combine(n1: int, n2: int, beta: int, r1: int, r2: int)
    requires
        n1 > 0,
        n2 > 0,
        is_inverse(n1, beta, n2),
        0 <= r1 < n1,
        0 <= r2 < n2,
    ensures
        0 <= crt_combine(n1, n2, beta, r1, r2) < n1 * n2,
        crt_combine(n1, n2, beta, r1, r2) % n1 == r1,
        crt_combine(n1, n2, beta, r1, r2) % n2 == r2,
{
    let t = ((r2 - r1) * beta) % n2;
    let y = t * n1 + r1;
    lemma_mod_bound((r2 - r1) * beta, n2);
    assert(0 <= y < n1 * n2) by (nonlinear_arith)
        requires
            0 <= t < n2,
            0 <= r1 < n1,
            y == t * n1 + r1,
    ;
    lemma_fundamental_div_mod_converse(y, n1, t, r1);
    // y = t * n1 + r1 = (r2 - r1) * beta * n1 + r1 = (r2 - r1) + r1   (mod n2)
    lemma_mul_mod_noop_left((r2 - r1) * beta, n1, n2);
    lemma_mul_is_associative(r2 - r1, beta, n1);
    lemma_mul_is_commutative(beta, n1);
    lemma_mul_mod_noop_right(r2 - r1, beta * n1, n2);
    assert((r2 - r1) * ((beta * n1) % n2) == (r2 - r1) * (1int % n2));
    lemma_add_mod_noop(t * n1, r1, n2);
    assert((t * n1) % n2 == (r2 - r1) % n2) by {
        if n2 == 1 {
            lemma_small_mod(0, 1);
        } else {
            lemma_small_mod(1, n2 as nat);
            assert((r2 - r1) * 1 == r2 - r1);
        }
    }
    lemma_add_mod_noop(r2 - r1, r1, n2);
    lemma_mod_twice(r2 - r1, n2);
    lemma_small_mod(r2 as nat, n2 as nat);
    assert(((r2 - r1) % n2 + r1 % n2) % n2 == (r2 - r1 + r1) % n2);
}

} // verus!
