//! Group membership, nonce sampling, safe-prime generation and exponentiation
//! by the Chinese remainder theorem.
use vstd::prelude::*;
use vstd::arithmetic::power::pow;
use vstd::arithmetic::power2::{pow2, lemma_pow2_unfold, lemma_pow2_pos};
use vstd::arithmetic::div_mod::lemma_fundamental_div_mod_converse;
use rug::rand::ThreadRandState;
use crate::bignum::{
    BigInt, BigUint, gcd, abs, bit, with_bit, is_inverse, passes_primality_test, nat_gcd, nat_cmp,
    nat_invert, nat_mod_u32, nat_pow_mod, nat_probably_prime, nat_random_below, nat_random_bits,
    nat_set_bit, nat_mul, nat_add, nat_div_rem,
};
use crate::modular::{in_mult_group_spec, crt_combine, lemma_crt_combine, mod_inverse, lemma_is_mod_inverse};
use core::cmp::Ordering;

verus! {

/// Rounds of the probabilistic primality test on each safe-prime candidate.
pub const PRIMALITY_REPS: u32 = 25;

/// How many small primes the sieve of [`generate_safe_prime`] tries.
pub const DEFAULT_SIEVE_SIZE: usize = 135;

/// Candidates that [`sieve_generate_safe_primes`] draws before it gives up.
pub const MAX_CANDIDATES: u64 = 0xffff_ffff_ffff_ffff;

/// Checks that `x` is in `Z*_n`.
pub fn in_mult_group(x: &BigInt, n: &BigInt) -> (r: bool)
    ensures
        r == in_mult_group_spec(x@, n@),
{
    let one = BigInt::from_u64(1);
    if !one.le(x) || !x.lt(n) {
        return false;
    }
    let g = nat_gcd(x.magnitude(), n.magnitude());
    matches!(nat_cmp(&g, &BigUint::from_u64(1)), Ordering::Equal)
}

/// Checks that `|x|` is co-prime to `n`.
pub fn in_mult_group_abs(x: &BigInt, n: &BigInt) -> (r: bool)
    ensures
        r == (gcd(abs(x@), abs(n@)) == 1),
{
    let g = nat_gcd(x.magnitude(), n.magnitude());
    matches!(nat_cmp(&g, &BigUint::from_u64(1)), Ordering::Equal)
}

/// Samples an element of `Z*_n` by drawing from `[0, n)` until a draw is in
/// the group. `None` where the group is empty (`n <= 1`), or once
/// [`MAX_CANDIDATES`] draws have all missed it.
pub fn sample_in_mult_group(rng: &mut ThreadRandState, n: &BigInt) -> (r: Option<BigInt>)
    ensures
        r matches Some(x) ==> in_mult_group_spec(x@, n@),
        n@ <= 1 ==> r.is_none(),
{
    let one = BigInt::from_u64(1);
    if !one.lt(n) {
        return None;
    }
    let mut tries: u64 = 0;
    while tries < MAX_CANDIDATES
        invariant
            n@ > 0,
        decreases MAX_CANDIDATES - tries,
    {
        let x = BigInt::from_biguint(nat_random_below(n.magnitude(), rng));
        if in_mult_group(&x, n) {
            return Some(x);
        }
        tries = tries + 1;
    }
    None
}

/// The first odd primes, the divisors that the safe-prime sieve tries.
#[verifier::opaque]
pub open spec fn small_primes_spec() -> Seq<u32> {
    seq![
        3, 5, 7, 11, 13, 17, 19, 23, 29, 31, 37, 41, 43, 47, 53, 59, 61, 67, 71, 73, 79, 83, 89,
        97, 101, 103, 107, 109, 113, 127, 131, 137, 139, 149, 151, 157, 163, 167, 173, 179, 181,
        191, 193, 197, 199, 211, 223, 227, 229, 233, 239, 241, 251, 257, 263, 269, 271, 277, 281,
        283, 293, 307, 311, 313, 317, 331, 337, 347, 349, 353, 359, 367, 373, 379, 383, 389, 397,
        401, 409, 419, 421, 431, 433, 439, 443, 449, 457, 461, 463, 467, 479, 487, 491, 499, 503,
        509, 521, 523, 541, 547, 557, 563, 569, 571, 577, 587, 593, 599, 601, 607, 613, 617, 619,
        631, 641, 643, 647, 653, 659, 661, 673, 677, 683, 691, 701, 709, 719, 727, 733, 739, 743,
        751, 757, 761, 769, 773, 787, 797, 809, 811, 821, 823, 827, 829, 839, 853, 857, 859, 863,
        877,
    ]
}

/// The table of [`small_primes_spec`].
pub fn small_primes() -> (r: Vec<u32>)
    ensures
        r@ == small_primes_spec(),
        r@.len() == 150,
        forall|i: int| 0 <= i < r@.len() ==> #[trigger] r@[i] >= 3,
{
    let r = vec![
        3, 5, 7, 11, 13, 17, 19, 23, 29, 31, 37, 41, 43, 47, 53, 59, 61, 67, 71, 73, 79, 83, 89,
        97, 101, 103, 107, 109, 113, 127, 131, 137, 139, 149, 151, 157, 163, 167, 173, 179, 181,
        191, 193, 197, 199, 211, 223, 227, 229, 233, 239, 241, 251, 257, 263, 269, 271, 277, 281,
        283, 293, 307, 311, 313, 317, 331, 337, 347, 349, 353, 359, 367, 373, 379, 383, 389, 397,
        401, 409, 419, 421, 431, 433, 439, 443, 449, 457, 461, 463, 467, 479, 487, 491, 499, 503,
        509, 521, 523, 541, 547, 557, 563, 569, 571, 577, 587, 593, 599, 601, 607, 613, 617, 619,
        631, 641, 643, 647, 653, 659, 661, 673, 677, 683, 691, 701, 709, 719, 727, 733, 739, 743,
        751, 757, 761, 769, 773, 787, 797, 809, 811, 821, 823, 827, 829, 839, 853, 857, 859, 863,
        877,
    ];
    proof {
        reveal(small_primes_spec);
        assert(r@ =~= small_primes_spec());
        assert forall|i: int| 0 <= i < r@.len() implies #[trigger] r@[i] >= 3 by {
            assert(small_primes_spec()[i] >= 3);
        }
    }
    r
}

/// Whether one of the first `amount` small primes `s` has `x mod s == (s-1)/2`,
/// which makes `s` divide `2x + 1`.
pub open spec fn sieve_rejects(x: nat, primes: Seq<u32>, amount: nat) -> bool {
    exists|i: int|
        0 <= i < amount && #[trigger] primes[i] > 0 && x % (primes[i] as nat) == ((primes[i] - 1) / 2) as nat
}

/// How many small primes a sieve of `amount` tries: the table has 150.
pub open spec fn sieve_size(amount: usize) -> nat {
    if amount < 150 {
        amount as nat
    } else {
        150
    }
}

/// The candidate made of random bits: bit `bits - 2` and bit 0 forced on.
pub open spec fn safe_prime_candidate(random: nat, bits: nat) -> nat {
    with_bit(with_bit(random, (bits - 2) as nat), 0)
}

/// Bits below `bits - 1` with bit `bits - 2` and bit 0 set give an odd number
/// of exactly `bits - 1` bits.
pub proof fn lemma_candidate_range(random: nat, bits: nat)
    requires
        bits >= 2,
        random < pow2((bits - 1) as nat),
    ensures
        pow2((bits - 2) as nat) <= safe_prime_candidate(random, bits) < pow2((bits - 1) as nat),
        safe_prime_candidate(random, bits) % 2 == 1,
{
    let k = (bits - 2) as nat;
    let p = pow2(k);
    lemma_pow2_unfold((bits - 1) as nat);
    lemma_pow2_pos(k);
    assert(pow2(0) == 1) by {
        vstd::arithmetic::power2::lemma2_to64();
    }
    let y = with_bit(random, k);
    if random < p {
        lemma_fundamental_div_mod_converse(random as int, p as int, 0, random as int);
        assert(y == random + p);
    } else {
        lemma_fundamental_div_mod_converse(random as int, p as int, 1, random - p);
        assert(y == random);
    }
    assert(p <= y < 2 * p);
    if k == 0 {
        assert(p == 1);
    } else {
        lemma_pow2_unfold(k);
    }
    assert((2 * p) % 2 == 0);
    let z = with_bit(y, 0);
    assert(y / 1 == y);
    if y % 2 == 1 {
        assert(z == y);
    } else {
        assert(z == y + 1);
    }
}

/// Checks one candidate for a safe prime of `bits` bits: `random` gets bit
/// `bits - 2` and bit 0 set, giving `x`; `x` must pass the sieve of the first
/// `amount` small primes and the primality test, and then `2x + 1` must pass
/// the primality test too. Returns `2x + 1` where all of that holds.
pub fn sieve_candidate(random: &BigUint, bits: u32, amount: usize) -> (r: Option<BigInt>)
    requires
        bits >= 2,
    ensures
        ({
            let x = safe_prime_candidate(random@, bits as nat);
            let a = sieve_size(amount);
            r.is_some() <==> (!sieve_rejects(x, small_primes_spec(), a) && passes_primality_test(x as int, PRIMALITY_REPS as nat)
                && passes_primality_test(2 * x + 1 as int, PRIMALITY_REPS as nat))
        }),
        r matches Some(q) ==> q@ == 2 * safe_prime_candidate(random@, bits as nat) + 1,
{
    let x0 = nat_set_bit(random, bits - 2);
    let x = nat_set_bit(&x0, 0);
    let ghost xv = safe_prime_candidate(random@, bits as nat);
    assert(x@ == xv);
    let table = small_primes();
    let limit: usize = if amount < table.len() { amount } else { table.len() };
    let mut i: usize = 0;
    while i < limit
        invariant
            limit <= table@.len(),
            x@ == xv,
            xv == safe_prime_candidate(random@, bits as nat),
            limit as nat == sieve_size(amount),
            table@ == small_primes_spec(),
            forall|i: int| 0 <= i < table@.len() ==> #[trigger] table@[i] >= 3,
            forall|j: int|
                0 <= j < i ==> !(#[trigger] table@[j] > 0 && xv % (table@[j] as nat) == ((table@[j] - 1) / 2) as nat),
        decreases limit - i,
    {
        let s = table[i];
        let rem = nat_mod_u32(&x, s);
        if rem == (s - 1) / 2 {
            assert(table@[i as int] > 0 && xv % (table@[i as int] as nat) == ((table@[i as int] - 1) / 2) as nat);
            assert(small_primes_spec()[i as int] == table@[i as int]);
            assert(sieve_rejects(xv, small_primes_spec(), limit as nat));
            return None;
        }
        i = i + 1;
    }
    if !nat_probably_prime(&x, PRIMALITY_REPS) {
        return None;
    }
    let q = nat_add(&nat_mul(&x, &BigUint::from_u64(2)), &BigUint::from_u64(1));
    if !nat_probably_prime(&q, PRIMALITY_REPS) {
        return None;
    }
    Some(BigInt::from_biguint(q))
}

/// Generates a random safe prime of exactly `bits` bits, trying the first
/// `amount` small primes (at most the table's 150) as a sieve before the
/// primality tests. A larger sieve pays off for longer primes.
///
/// `None` only once [`MAX_CANDIDATES`] candidates have all been rejected.
pub fn sieve_generate_safe_primes(rng: &mut ThreadRandState, bits: u32, amount: usize) -> (r: Option<BigInt>)
    requires
        bits >= 2,
    ensures
        r matches Some(q) ==> {
            &&& pow2((bits - 1) as nat) < q@ < pow2(bits as nat)
            &&& q@ % 2 == 1
            &&& passes_primality_test(q@, PRIMALITY_REPS as nat)
            &&& passes_primality_test((q@ - 1) / 2, PRIMALITY_REPS as nat)
            &&& ((q@ - 1) / 2) % 2 == 1
            &&& q@ % 4 == 3
            &&& !sieve_rejects(((q@ - 1) / 2) as nat, small_primes_spec(), sieve_size(amount))
        },
{
    let mut tries: u64 = 0;
    while tries < MAX_CANDIDATES
        invariant
            bits >= 2,
        decreases MAX_CANDIDATES - tries,
    {
        let random = nat_random_bits(bits - 1, rng);
        match sieve_candidate(&random, bits, amount) {
            Some(q) => {
                proof {
                    let x = safe_prime_candidate(random@, bits as nat);
                    lemma_candidate_range(random@, bits as nat);
                    lemma_pow2_unfold(bits as nat);
                    lemma_pow2_unfold((bits - 1) as nat);
                    assert((q@ - 1) / 2 == x);
                }
                return Some(q);
            },
            None => {},
        }
        tries = tries + 1;
    }
    None
}

/// Generates a random safe prime of exactly `bits` bits with the default sieve.
pub fn generate_safe_prime(rng: &mut ThreadRandState, bits: u32) -> (r: Option<BigInt>)
    requires
        bits >= 2,
    ensures
        r matches Some(q) ==> {
            &&& pow2((bits - 1) as nat) < q@ < pow2(bits as nat)
            &&& q@ % 2 == 1
            &&& passes_primality_test(q@, PRIMALITY_REPS as nat)
            &&& passes_primality_test((q@ - 1) / 2, PRIMALITY_REPS as nat)
            &&& ((q@ - 1) / 2) % 2 == 1
            &&& q@ % 4 == 3
            &&& !sieve_rejects(((q@ - 1) / 2) as nat, small_primes_spec(), sieve_size(DEFAULT_SIEVE_SIZE))
        },
{
    sieve_generate_safe_primes(rng, bits, DEFAULT_SIEVE_SIZE)
}

/// Tables for exponentiation modulo `n = n1 * n2` where `n1`, `n2` are
/// co-prime and `phi(n1)`, `phi(n2)` are known: an exponentiation then costs
/// two half-size exponentiations with half-size exponents. `n1` and `n2` need
/// not be primes.
pub struct CrtExp {
    n: BigInt,
    n1: BigInt,
    phi_n1: BigInt,
    n2: BigInt,
    phi_n2: BigInt,
    beta: BigInt,
}

/// An exponent prepared for [`CrtExp::exp`]: `|e|` reduced modulo `phi(n1)`
/// and `phi(n2)`, and the sign of `e`.
pub struct Exponent {
    e_mod_phi_pp: BigUint,
    e_mod_phi_qq: BigUint,
    is_negative: bool,
}

impl Clone for Exponent {
    fn clone(&self) -> (r: Exponent)
        ensures
            r.e1() == self.e1(),
            r.e2() == self.e2(),
            r.negative() == self.negative(),
    {
        Exponent {
            e_mod_phi_pp: self.e_mod_phi_pp.clone_value(),
            e_mod_phi_qq: self.e_mod_phi_qq.clone_value(),
            is_negative: self.is_negative,
        }
    }
}

impl Clone for CrtExp {
    fn clone(&self) -> (r: CrtExp)
        ensures
            r.modulus() == self.modulus(),
            r.n1() == self.n1(),
            r.phi_n1() == self.phi_n1(),
            r.n2() == self.n2(),
            r.phi_n2() == self.phi_n2(),
            r.beta() == self.beta(),
    {
        CrtExp {
            n: self.n.clone_value(),
            n1: self.n1.clone_value(),
            phi_n1: self.phi_n1.clone_value(),
            n2: self.n2.clone_value(),
            phi_n2: self.phi_n2.clone_value(),
            beta: self.beta.clone_value(),
        }
    }
}

impl Exponent {
    pub closed spec fn e1(&self) -> nat {
        self.e_mod_phi_pp@
    }

    pub closed spec fn e2(&self) -> nat {
        self.e_mod_phi_qq@
    }

    pub closed spec fn negative(&self) -> bool {
        self.is_negative
    }

    /// A fixed label: the exponent may be derived from secret values.
    pub fn label(&self) -> (r: &'static str)
        ensures
            r@ == "CrtExponent"@,
    {
        "CrtExponent"
    }
}

impl CrtExp {
    pub closed spec fn modulus(&self) -> int {
        self.n@
    }

    pub closed spec fn n1(&self) -> int {
        self.n1@
    }

    pub closed spec fn phi_n1(&self) -> int {
        self.phi_n1@
    }

    pub closed spec fn n2(&self) -> int {
        self.n2@
    }

    pub closed spec fn phi_n2(&self) -> int {
        self.phi_n2@
    }

    pub closed spec fn beta(&self) -> int {
        self.beta@
    }

    pub open spec fn wf(&self) -> bool {
        &&& self.modulus() == self.n1() * self.n2()
        &&& 0 < self.phi_n1() < self.n1()
        &&& 0 < self.phi_n2() < self.n2()
        &&& is_inverse(self.n1(), self.beta(), self.n2())
    }

    /// `x^|e| mod n` as the tables compute it: the residues
    /// `(x mod n1)^e1 mod n1` and `(x mod n2)^e2 mod n2`, recombined.
    pub open spec fn crt_power(&self, x: int, e1: nat, e2: nat) -> int {
        crt_combine(
            self.n1(),
            self.n2(),
            self.beta(),
            pow(x % self.n1(), e1) % self.n1(),
            pow(x % self.n2(), e2) % self.n2(),
        )
    }

    /// What [`CrtExp::exp`] yields for `x` and a prepared exponent.
    pub open spec fn exp_spec(&self, x: int, e: Exponent) -> Option<int> {
        let y = self.crt_power(x, e.e1(), e.e2());
        if !e.negative() {
            Some(y)
        } else if gcd(y as nat, self.modulus() as nat) == 1 {
            Some(mod_inverse(y, self.modulus()))
        } else {
            None
        }
    }

    /// Builds the tables for exponentiation modulo `n = n1 * n2`, given
    /// `phi_n1 = phi(n1)` and `phi_n2 = phi(n2)`. `None` unless every argument
    /// is positive, `phi_n1 < n1`, `phi_n2 < n2`, and `n1` has an inverse
    /// modulo `n2`.
    pub fn build(n1: BigInt, phi_n1: BigInt, n2: BigInt, phi_n2: BigInt) -> (r: Option<CrtExp>)
        ensures
            r.is_some() <==> {
                &&& n1@ > 0
                &&& n2@ > 0
                &&& phi_n1@ > 0
                &&& phi_n2@ > 0
                &&& phi_n1@ < n1@
                &&& phi_n2@ < n2@
                &&& gcd(n1@ as nat, n2@ as nat) == 1
            },
            r matches Some(c) ==> {
                &&& c.wf()
                &&& c.modulus() == n1@ * n2@
                &&& c.n1() == n1@
                &&& c.phi_n1() == phi_n1@
                &&& c.n2() == n2@
                &&& c.phi_n2() == phi_n2@
            },
    {
        let zero = BigInt::from_u64(0);
        if n1.le(&zero) || n2.le(&zero) || phi_n1.le(&zero) || phi_n2.le(&zero) || !phi_n1.lt(&n1)
            || !phi_n2.lt(&n2) {
            return None;
        }
        let beta = match nat_invert(n1.magnitude(), n2.magnitude()) {
            Some(b) => BigInt::from_biguint(b),
            None => {
                return None;
            },
        };
        let n = n1.mul(&n2);
        Some(CrtExp { n, n1, phi_n1, n2, phi_n2, beta })
    }

    /// Tables for exponentiation modulo `p * q`, with `phi(p) = p - 1` and
    /// `phi(q) = q - 1` as for primes `p`, `q`.
    pub fn build_n(p: &BigInt, q: &BigInt) -> (r: Option<CrtExp>)
        ensures
            r.is_some() <==> (p@ > 1 && q@ > 1 && gcd(p@ as nat, q@ as nat) == 1),
            r matches Some(c) ==> {
                &&& c.wf()
                &&& c.modulus() == p@ * q@
                &&& c.n1() == p@
                &&& c.phi_n1() == p@ - 1
                &&& c.n2() == q@
                &&& c.phi_n2() == q@ - 1
            },
    {
        let one = BigInt::from_u64(1);
        let phi_p = p.sub(&one);
        let phi_q = q.sub(&one);
        CrtExp::build(p.clone_value(), phi_p, q.clone_value(), phi_q)
    }

    /// Tables for exponentiation modulo `(p * q)^2`, with `phi(p^2) = p^2 - p`
    /// and `phi(q^2) = q^2 - q` as for primes `p`, `q`.
    pub fn build_nn(p: &BigInt, q: &BigInt) -> (r: Option<CrtExp>)
        ensures
            r.is_some() <==> (p@ > 1 && q@ > 1 && gcd((p@ * p@) as nat, (q@ * q@) as nat) == 1),
            r matches Some(c) ==> {
                &&& c.wf()
                &&& c.modulus() == (p@ * q@) * (p@ * q@)
                &&& c.n1() == p@ * p@
                &&& c.phi_n1() == p@ * p@ - p@
                &&& c.n2() == q@ * q@
                &&& c.phi_n2() == q@ * q@ - q@
            },
    {
        let pp = p.mul(p);
        let qq = q.mul(q);
        let phi_pp = pp.sub(p);
        let phi_qq = qq.sub(q);
        proof {
            lemma_square_conditions(p@);
            lemma_square_conditions(q@);
            assert((p@ * q@) * (p@ * q@) == (p@ * p@) * (q@ * q@)) by (nonlinear_arith);
        }
        CrtExp::build(pp, phi_pp, qq, phi_qq)
    }

    /// Prepares `e` for [`CrtExp::exp`].
    pub fn prepare_exponent(&self, e: &BigInt) -> (r: Exponent)
        requires
            self.wf(),
        ensures
            r.e1() == abs(e@) % (self.phi_n1() as nat),
            r.e2() == abs(e@) % (self.phi_n2() as nat),
            r.negative() == (e@ < 0),
    {
        let is_negative = e.is_negative();
        let (_, e1) = nat_div_rem(e.magnitude(), self.phi_n1.magnitude());
        let (_, e2) = nat_div_rem(e.magnitude(), self.phi_n2.magnitude());
        Exponent { e_mod_phi_pp: e1, e_mod_phi_qq: e2, is_negative }
    }

    /// `x^e mod n` for a prepared `e`; a negative exponent inverts the result,
    /// and gives `None` where that has no inverse.
    pub fn exp(&self, x: &BigInt, e: &Exponent) -> (r: Option<BigInt>)
        requires
            self.wf(),
        ensures
            r.is_some() == self.exp_spec(x@, *e).is_some(),
            r matches Some(z) ==> self.exp_spec(x@, *e) == Some(z@),
            r matches Some(z) ==> 0 <= z@ < self.modulus(),
    {
        let s1 = x.modulo(&self.n1);
        let s2 = x.modulo(&self.n2);
        let r1 = BigInt::from_biguint(nat_pow_mod(s1.magnitude(), &e.e_mod_phi_pp, self.n1.magnitude()));
        let r2 = BigInt::from_biguint(nat_pow_mod(s2.magnitude(), &e.e_mod_phi_qq, self.n2.magnitude()));
        let t = r2.sub(&r1).mul(&self.beta).modulo(&self.n2);
        let y = t.mul(&self.n1).add(&r1);
        proof {
            lemma_crt_combine(self.n1(), self.n2(), self.beta(), r1@, r2@);
            assert(y@ == self.crt_power(x@, e.e1(), e.e2()));
        }
        if e.is_negative {
            match nat_invert(y.magnitude(), self.n.magnitude()) {
                Some(z) => {
                    proof {
                        lemma_is_mod_inverse(y@, z@ as int, self.modulus());
                    }
                    Some(BigInt::from_biguint(z))
                },
                None => None,
            }
        } else {
            Some(y)
        }
    }

    /// A fixed label: the tables may hold a secret factorisation.
    pub fn label(&self) -> (r: &'static str)
        ensures
            r@ == "CrtExp"@,
    {
        "CrtExp"
    }
}

proof fn lemma_square_conditions(p: int)
    ensures
        (p * p > 0 && p * p - p > 0 && p * p - p < p * p) <==> p > 1,
{
    if p > 1 {
        assert(p * p > p) by (nonlinear_arith)
            requires
                p > 1,
        ;
    } else if p == 1 || p == 0 {
    } else {
        assert(p * p > 0) by (nonlinear_arith)
            requires
                p < 0,
        ;
    }
}

} // verus!
