//! The secret key: the factorisation `N = p * q` with `lambda`, `mu` and the
//! tables for exponentiation modulo `N^2` by the Chinese remainder theorem.
use vstd::prelude::*;
use vstd::arithmetic::div_mod::lemma_mul_mod_noop;
use rug::rand::ThreadRandState;
use crate::bignum::{BigInt, gcd, lcm, abs, is_inverse, bit_length, nat_invert, nat_lcm, nat_bit_length};
use crate::encryption_key::{EncryptionKey, in_signed_range};
use crate::modular::{in_mult_group_spec, mod_inverse};
use crate::utils::{CrtExp, Exponent, in_mult_group, in_mult_group_abs, generate_safe_prime, PRIMALITY_REPS};
use crate::bignum::passes_primality_test;
use vstd::arithmetic::power2::pow2;
use crate::{Error, Reason};

verus! {

/// Bit length of each prime of a generated key.
pub const PRIME_BITS: u32 = 1536;

/// Paillier decryption key
pub struct DecryptionKey {
    ek: EncryptionKey,
    /// `lcm(p-1, q-1)`
    lambda: BigInt,
    /// `lambda^-1 mod N`
    mu: BigInt,
    p: BigInt,
    q: BigInt,
    crt_mod_nn: CrtExp,
    /// Calculates `x ^ N mod N^2`. It's used for faster encryption
    exp_n: Exponent,
    /// Calculates `x ^ lambda mod N^2`. It's used for faster decryption
    exp_lambda: Exponent,
}

/// What [`DecryptionKey::generate`] promises of each prime: exactly
/// [`PRIME_BITS`] bits, and both it and `(q - 1) / 2` pass the primality test.
pub open spec fn is_generated_prime(q: int) -> bool {
    &&& pow2((PRIME_BITS - 1) as nat) < q < pow2(PRIME_BITS as nat)
    &&& passes_primality_test(q, PRIMALITY_REPS as nat)
    &&& passes_primality_test((q - 1) / 2, PRIMALITY_REPS as nat)
}

/// The signed representative in `[-n/2, n/2)` of a residue `m` in `[0, n)`.
pub open spec fn to_signed(m: int, n: int) -> int {
    if 2 * m >= n {
        m - n
    } else {
        m
    }
}

impl Clone for DecryptionKey {
    /// A deep copy: the same key, still well formed.
    fn clone(&self) -> (r: DecryptionKey)
        ensures
            self.wf() ==> r.wf(),
            r.spec_p() == self.spec_p(),
            r.spec_q() == self.spec_q(),
            r.spec_lambda() == self.spec_lambda(),
            r.spec_mu() == self.spec_mu(),
    {
        DecryptionKey {
            ek: self.ek.clone(),
            lambda: self.lambda.clone_value(),
            mu: self.mu.clone_value(),
            p: self.p.clone_value(),
            q: self.q.clone_value(),
            crt_mod_nn: self.crt_mod_nn.clone(),
            exp_n: self.exp_n.clone(),
            exp_lambda: self.exp_lambda.clone(),
        }
    }
}

impl DecryptionKey {
    /// The key's invariant, which [`DecryptionKey::from_primes`] establishes.
    pub closed spec fn wf(&self) -> bool {
        let n = self.p@ * self.q@;
        &&& self.p@ > 1
        &&& self.q@ > 1
        &&& self.p@ != self.q@
        &&& self.ek@ == n
        &&& self.lambda@ == lcm(abs(self.p@ - 1), abs(self.q@ - 1))
        &&& self.lambda@ > 0
        &&& is_inverse(self.lambda@, self.mu@, n)
        &&& self.crt_mod_nn.wf()
        &&& self.crt_mod_nn.modulus() == n * n
        &&& self.crt_mod_nn.n1() == self.p@ * self.p@
        &&& self.crt_mod_nn.phi_n1() == self.p@ * self.p@ - self.p@
        &&& self.crt_mod_nn.n2() == self.q@ * self.q@
        &&& self.crt_mod_nn.phi_n2() == self.q@ * self.q@ - self.q@
        &&& self.exp_n.e1() == n % self.crt_mod_nn.phi_n1()
        &&& self.exp_n.e2() == n % self.crt_mod_nn.phi_n2()
        &&& !self.exp_n.negative()
        &&& self.exp_lambda.e1() == self.lambda@ % self.crt_mod_nn.phi_n1()
        &&& self.exp_lambda.e2() == self.lambda@ % self.crt_mod_nn.phi_n2()
        &&& !self.exp_lambda.negative()
    }

    pub closed spec fn spec_p(&self) -> int {
        self.p@
    }

    pub closed spec fn spec_q(&self) -> int {
        self.q@
    }

    pub closed spec fn spec_lambda(&self) -> int {
        self.lambda@
    }

    pub closed spec fn spec_mu(&self) -> int {
        self.mu@
    }

    /// The tables for exponentiation modulo `N^2`.
    pub closed spec fn spec_crt(&self) -> CrtExp {
        self.crt_mod_nn
    }

    /// The modulus `N = p * q`.
    pub open spec fn spec_n(&self) -> int {
        self.spec_p() * self.spec_q()
    }

    /// `x^e mod N^2` as the key computes it: through the tables, with `e`
    /// reduced modulo `phi(p^2)` and `phi(q^2)`.
    pub open spec fn crt_pow(&self, x: int, e: nat) -> int {
        self.spec_crt().crt_power(
            x,
            e % (self.spec_crt().phi_n1() as nat),
            e % (self.spec_crt().phi_n2() as nat),
        )
    }

    /// What [`DecryptionKey::decrypt`] returns for `c`: `c^lambda` through
    /// the tables, then `L`, then `mu`, mapped to the signed range.
    pub open spec fn decrypt_spec(&self, c: int) -> Option<int> {
        let n = self.spec_n();
        let a = self.crt_pow(c, self.spec_lambda() as nat);
        if !in_mult_group_spec(c, n * n) {
            None
        } else if !(a % n == 1 && in_mult_group_spec(a, n * n)) {
            None
        } else {
            Some(to_signed((((a - 1) / n) * self.spec_mu()) % n, n))
        }
    }

    /// What the fast [`DecryptionKey::encrypt_with`] returns for accepted
    /// inputs: `(1 + (x mod N) * N) * nonce^N mod N^2`, the power through the
    /// tables.
    pub open spec fn fast_encrypt_spec(&self, x: int, nonce: int) -> int {
        let n = self.spec_n();
        ((1 + (x % n) * n) * self.crt_pow(nonce, n as nat)) % (n * n)
    }

    /// Well-formedness that callers can rely on.
    pub proof fn lemma_key_facts(&self)
        requires
            self.wf(),
        ensures
            self.spec_p() > 1,
            self.spec_q() > 1,
            self.spec_p() != self.spec_q(),
            self.spec_n() > 1,
            self.spec_n() * self.spec_n() > 1,
            self.spec_lambda() > 0,
            self.spec_lambda() == lcm(abs(self.spec_p() - 1), abs(self.spec_q() - 1)),
            self.spec_crt().wf(),
            self.spec_crt().modulus() == self.spec_n() * self.spec_n(),
            self.spec_crt().n1() == self.spec_p() * self.spec_p(),
            self.spec_crt().phi_n1() == self.spec_p() * self.spec_p() - self.spec_p(),
            self.spec_crt().n2() == self.spec_q() * self.spec_q(),
            self.spec_crt().phi_n2() == self.spec_q() * self.spec_q() - self.spec_q(),
            is_inverse(self.spec_lambda(), self.spec_mu(), self.spec_n()),
    {
        assert(self.p@ * self.q@ > 1) by (nonlinear_arith)
            requires
                self.p@ > 1,
                self.q@ > 1,
        ;
        assert(self.spec_n() * self.spec_n() > 1) by (nonlinear_arith)
            requires
                self.spec_n() > 1,
        ;
    }

    /// Generates a paillier key
    ///
    /// Samples two safe 1536-bits primes that meets 128 bits security level
    pub fn generate(rng: &mut ThreadRandState) -> (r: Result<DecryptionKey, Error>)
        ensures
            r matches Ok(k) ==> {
                &&& k.wf()
                &&& is_generated_prime(k.spec_p())
                &&& is_generated_prime(k.spec_q())
            },
            r matches Err(e) ==> e.0 == Reason::Exhausted || e.0 == Reason::InvalidPQ || e.0
                == Reason::BuildFastExp,
    {
        let p = match generate_safe_prime(rng, PRIME_BITS) {
            Some(p) => p,
            None => {
                return Err(Error(Reason::Exhausted));
            },
        };
        let q = match generate_safe_prime(rng, PRIME_BITS) {
            Some(q) => q,
            None => {
                return Err(Error(Reason::Exhausted));
            },
        };
        DecryptionKey::from_primes(p, q)
    }

    /// Constructs a paillier key from primes `p`, `q`
    ///
    /// `p` and `q` need to be safe primes sufficiently large to meet security level requirements.
    ///
    /// Returns error if `p` and `q` do not correspond to a valid paillier key.
    pub fn from_primes(p: BigInt, q: BigInt) -> (r: Result<DecryptionKey, Error>)
        ensures
            ({
                let n = p@ * q@;
                let lambda = lcm(abs(p@ - 1), abs(q@ - 1));
                let valid_pq = p@ != q@ && lambda != 0 && n != 0 && gcd(lambda, abs(n)) == 1;
                let tables = p@ > 1 && q@ > 1 && gcd((p@ * p@) as nat, (q@ * q@) as nat) == 1;
                &&& r.is_ok() <==> (valid_pq && tables)
                &&& !valid_pq ==> r == Err::<DecryptionKey, Error>(Error(Reason::InvalidPQ))
                &&& valid_pq && !tables ==> r == Err::<DecryptionKey, Error>(Error(Reason::BuildFastExp))
            }),
            r matches Ok(k) ==> {
                &&& k.wf()
                &&& k.spec_p() == p@
                &&& k.spec_q() == q@
                &&& k.spec_lambda() == lcm(abs(p@ - 1), abs(q@ - 1))
                &&& is_inverse(k.spec_lambda(), k.spec_mu(), p@ * q@)
            },
    {
        // Paillier doesn't work if p == q
        if p.equals(&q) {
            return Err(Error(Reason::InvalidPQ));
        }
        let one = BigInt::from_u64(1);
        let n = p.mul(&q);
        let lambda = BigInt::from_biguint(nat_lcm(p.sub(&one).magnitude(), q.sub(&one).magnitude()));
        let zero = BigInt::from_u64(0);
        if lambda.equals(&zero) {
            return Err(Error(Reason::InvalidPQ));
        }
        // mu = lambda^-1 mod N
        let mu = match nat_invert(lambda.magnitude(), n.magnitude()) {
            Some(m) => BigInt::from_biguint(m),
            None => {
                return Err(Error(Reason::InvalidPQ));
            },
        };
        let crt_mod_nn = match CrtExp::build_nn(&p, &q) {
            Some(c) => c,
            None => {
                return Err(Error(Reason::BuildFastExp));
            },
        };
        proof {
            assert(n@ > 0) by (nonlinear_arith)
                requires
                    p@ > 1,
                    q@ > 1,
                    n@ == p@ * q@,
            ;
        }
        let exp_n = crt_mod_nn.prepare_exponent(&n);
        let exp_lambda = crt_mod_nn.prepare_exponent(&lambda);
        let ek = EncryptionKey::from_n(n);
        Ok(DecryptionKey { ek, lambda, mu, p, q, crt_mod_nn, exp_n, exp_lambda })
    }

    /// Decrypts the ciphertext, returns plaintext in `{-N/2, .., N/2}`
    pub fn decrypt(&self, c: &BigInt) -> (r: Result<BigInt, Error>)
        requires
            self.wf(),
        ensures
            r.is_ok() <==> self.decrypt_spec(c@).is_some(),
            r matches Err(e) ==> e == Error(Reason::Decrypt),
            r matches Ok(m) ==> self.decrypt_spec(c@) == Some(m@),
    {
        proof {
            self.lemma_key_facts();
        }
        let nn = self.ek.nn();
        if !in_mult_group(c, nn) {
            return Err(Error(Reason::Decrypt));
        }
        // a = c^lambda mod N^2
        let a = match self.crt_mod_nn.exp(c, &self.exp_lambda) {
            Some(a) => a,
            None => {
                return Err(Error(Reason::Decrypt));
            },
        };
        // ell = L(a)
        let l = match self.ek.l(&a) {
            Some(l) => l,
            None => {
                return Err(Error(Reason::Decrypt));
            },
        };
        let n = self.ek.n();
        // m = L(c^lambda) * mu mod N
        let plaintext = l.mul(&self.mu).modulo(n);
        if plaintext.add(&plaintext).le(n) && !plaintext.add(&plaintext).equals(n) {
            Ok(plaintext)
        } else {
            Ok(plaintext.sub(n))
        }
    }

    /// Encrypts a plaintext `x` in `{-N/2, .., N/2}` with `nonce` from `Z*_n`
    ///
    /// It uses the fact that factorization of `N` is known to speed up encryption.
    ///
    /// Returns error if inputs are not in specified range
    pub fn encrypt_with(&self, x: &BigInt, nonce: &BigInt) -> (r: Result<BigInt, Error>)
        requires
            self.wf(),
        ensures
            r.is_ok() <==> (in_signed_range(x@, self.spec_n()) && in_mult_group_spec(nonce@, self.spec_n())),
            r matches Err(e) ==> e == Error(Reason::Encrypt),
            r matches Ok(c) ==> c@ == self.fast_encrypt_spec(x@, nonce@),
    {
        proof {
            self.lemma_key_facts();
        }
        let n = self.ek.n();
        let nn = self.ek.nn();
        if !self.ek.in_signed_group(x) || !in_mult_group(nonce, n) {
            return Err(Error(Reason::Encrypt));
        }
        let xr = self.ek.reduce_plaintext(x);
        // a = (1 + N)^x mod N^2 = (1 + xN) mod N^2
        let a = BigInt::from_u64(1).add(&xr.mul(n)).modulo(nn);
        // b = nonce^N mod N^2
        let b = match self.crt_mod_nn.exp(nonce, &self.exp_n) {
            Some(b) => b,
            None => {
                return Err(Error(Reason::Encrypt));
            },
        };
        proof {
            let m = self.spec_n();
            lemma_mul_mod_noop(1 + (x@ % m) * m, self.crt_pow(nonce@, m as nat), m * m);
            vstd::arithmetic::div_mod::lemma_small_mod(b@ as nat, (m * m) as nat);
        }
        Ok(a.mul(&b).modulo(nn))
    }

    /// Encrypts the plaintext `x` in `{-N/2, .., N_2}`
    ///
    /// It's uses the fact that factorization of `N` is known to speed up encryption.
    ///
    /// Nonce is sampled randomly using `rng`.
    ///
    /// Returns error if plaintext is not in specified range
    pub fn encrypt_with_random(&self, rng: &mut ThreadRandState, x: &BigInt) -> (r: Result<
        (BigInt, BigInt),
        Error,
    >)
        requires
            self.wf(),
        ensures
            !in_signed_range(x@, self.spec_n()) ==> r == Err::<(BigInt, BigInt), Error>(Error(Reason::Encrypt)),
            r matches Err(e) ==> e == Error(Reason::Encrypt),
            r matches Ok((c, nonce)) ==> {
                &&& in_mult_group_spec(nonce@, self.spec_n())
                &&& c@ == self.fast_encrypt_spec(x@, nonce@)
            },
    {
        let nonce = match crate::utils::sample_in_mult_group(rng, self.ek.n()) {
            Some(v) => v,
            None => {
                return Err(Error(Reason::Encrypt));
            },
        };
        match self.encrypt_with(x, &nonce) {
            Ok(c) => Ok((c, nonce)),
            Err(e) => Err(e),
        }
    }

    /// What the fast [`DecryptionKey::omul`] returns: `c^a mod N^2` through the
    /// tables, where a negative `a` inverts `c^|a|`; `None` where that has no
    /// inverse.
    pub open spec fn fast_omul_spec(&self, a: int, c: int) -> Option<int> {
        let m = self.spec_n() * self.spec_n();
        let y = self.crt_pow(c, abs(a));
        if a >= 0 {
            Some(y)
        } else if gcd(y as nat, m as nat) == 1 {
            Some(mod_inverse(y, m))
        } else {
            None
        }
    }

    /// Homomorphic multiplication of scalar at ciphertext
    ///
    /// It uses the fact that factorization of `N` is known to speed up an operation.
    ///
    /// ```text
    /// omul(a, Enc(c)) = Enc(a * c)
    /// ```
    pub fn omul(&self, scalar: &BigInt, ciphertext: &BigInt) -> (r: Result<BigInt, Error>)
        requires
            self.wf(),
        ensures
            r.is_ok() <==> {
                &&& gcd(abs(scalar@), abs(self.spec_n())) == 1
                &&& in_mult_group_spec(ciphertext@, self.spec_n() * self.spec_n())
                &&& self.fast_omul_spec(scalar@, ciphertext@).is_some()
            },
            r matches Err(e) ==> e == Error(Reason::Ops),
            r matches Ok(c) ==> self.fast_omul_spec(scalar@, ciphertext@) == Some(c@),
    {
        proof {
            self.lemma_key_facts();
        }
        if !in_mult_group_abs(scalar, self.ek.n()) || !in_mult_group(ciphertext, self.ek.nn()) {
            return Err(Error(Reason::Ops));
        }
        let e = self.crt_mod_nn.prepare_exponent(scalar);
        match self.crt_mod_nn.exp(ciphertext, &e) {
            Some(c) => Ok(c),
            None => Err(Error(Reason::Ops)),
        }
    }

    /// Returns a (public) encryption key corresponding to the (secret) decryption key
    pub fn encryption_key(&self) -> (r: &EncryptionKey)
        requires
            self.wf(),
        ensures
            r@ == self.spec_n(),
    {
        &self.ek
    }

    /// The Paillier modulus
    pub fn n(&self) -> (r: &BigInt)
        requires
            self.wf(),
        ensures
            r@ == self.spec_n(),
    {
        self.ek.n()
    }

    /// Returns `N^2`
    pub fn nn(&self) -> (r: &BigInt)
        requires
            self.wf(),
        ensures
            r@ == self.spec_n() * self.spec_n(),
    {
        self.ek.nn()
    }

    /// Returns `N/2`
    pub fn half_n(&self) -> (r: &BigInt)
        requires
            self.wf(),
        ensures
            r@ == self.spec_n() / 2,
    {
        self.ek.half_n()
    }

    /// The Paillier `lambda`
    pub fn lambda(&self) -> (r: &BigInt)
        ensures
            r@ == self.spec_lambda(),
    {
        &self.lambda
    }

    /// The Paillier `mu`
    pub fn mu(&self) -> (r: &BigInt)
        ensures
            r@ == self.spec_mu(),
    {
        &self.mu
    }

    /// Prime `p`
    pub fn p(&self) -> (r: &BigInt)
        ensures
            r@ == self.spec_p(),
    {
        &self.p
    }

    /// Prime `q`
    pub fn q(&self) -> (r: &BigInt)
        ensures
            r@ == self.spec_q(),
    {
        &self.q
    }

    /// Bits length of smaller prime (`p` or `q`)
    pub fn bits_length(&self) -> (r: u32)
        requires
            bit_length(abs(self.spec_p())) <= u32::MAX,
            bit_length(abs(self.spec_q())) <= u32::MAX,
        ensures
            r == if abs(self.spec_p()) <= abs(self.spec_q()) {
                bit_length(abs(self.spec_p()))
            } else {
                bit_length(abs(self.spec_q()))
            },
    {
        let bp = nat_bit_length(self.p.magnitude());
        let bq = nat_bit_length(self.q.magnitude());
        proof {
            if abs(self.spec_p()) <= abs(self.spec_q()) {
                lemma_bit_length_monotone(abs(self.spec_p()), abs(self.spec_q()));
            } else {
                lemma_bit_length_monotone(abs(self.spec_q()), abs(self.spec_p()));
            }
        }
        if bp <= bq {
            bp
        } else {
            bq
        }
    }

    /// Homomorphic addition, as [`EncryptionKey::oadd`].
    pub fn oadd(&self, c1: &BigInt, c2: &BigInt) -> (r: Result<BigInt, Error>)
        requires
            self.wf(),
        ensures
            r.is_ok() <==> (in_mult_group_spec(c1@, self.spec_n() * self.spec_n()) && in_mult_group_spec(
                c2@,
                self.spec_n() * self.spec_n(),
            )),
            r matches Err(e) ==> e == Error(Reason::Ops),
            r matches Ok(c) ==> c@ == (c1@ * c2@) % (self.spec_n() * self.spec_n()),
    {
        self.ek.oadd(c1, c2)
    }

    /// Homomorphic subtraction, as [`EncryptionKey::osub`].
    pub fn osub(&self, c1: &BigInt, c2: &BigInt) -> (r: Result<BigInt, Error>)
        requires
            self.wf(),
        ensures
            r.is_ok() <==> (in_mult_group_spec(c1@, self.spec_n() * self.spec_n())
                && crate::modular::invertible(c2@, self.spec_n() * self.spec_n())),
            r matches Err(e) ==> e == Error(Reason::Ops),
            r matches Ok(c) ==> c@ == (c1@ * mod_inverse(c2@, self.spec_n() * self.spec_n())) % (
            self.spec_n() * self.spec_n()),
    {
        self.ek.osub(c1, c2)
    }

    /// Homomorphic negation, as [`EncryptionKey::oneg`].
    pub fn oneg(&self, ciphertext: &BigInt) -> (r: Result<BigInt, Error>)
        requires
            self.wf(),
        ensures
            r.is_ok() <==> crate::modular::invertible(ciphertext@, self.spec_n() * self.spec_n()),
            r matches Err(e) ==> e == Error(Reason::Ops),
            r matches Ok(c) ==> c@ == mod_inverse(ciphertext@, self.spec_n() * self.spec_n()),
    {
        self.ek.oneg(ciphertext)
    }

    /// Checks whether `x` is `{-N/2, .., N/2}`
    pub fn in_signed_group(&self, x: &BigInt) -> (r: bool)
        requires
            self.wf(),
        ensures
            r == in_signed_range(x@, self.spec_n()),
    {
        self.ek.in_signed_group(x)
    }
}

/// A smaller number never has more bits.
pub proof fn lemma_bit_length_monotone(a: nat, b: nat)
    requires
        a <= b,
    ensures
        bit_length(a) <= bit_length(b),
    decreases b,
{
    if a > 0 {
        lemma_bit_length_monotone(a / 2, b / 2);
    }
}

} // verus!
