//! The public key: `N` with `N^2` and `N/2` precomputed.
use vstd::prelude::*;
use vstd::arithmetic::power::pow;
use vstd::arithmetic::div_mod::{
    lemma_fundamental_div_mod_converse, lemma_mul_mod_noop,
};
use rug::rand::ThreadRandState;
use crate::bignum::{BigInt, gcd, abs, is_inverse, nat_invert, nat_pow_mod};
use crate::modular::{
    in_mult_group_spec, invertible, mod_inverse, pow_mod_signed, lemma_inverse_of_residue,
    lemma_is_mod_inverse,
};
use crate::utils::{in_mult_group, in_mult_group_abs, sample_in_mult_group};
use crate::{Error, Reason};

verus! {

/// Whether `x` lies in the signed plaintext range `[-n/2, n/2]`.
pub open spec fn in_signed_range(x: int, n: int) -> bool {
    -(n / 2) <= x <= n / 2
}

/// The Paillier encryption of `x` with nonce `r` under modulus `n`:
/// `(1 + n)^x * r^n mod n^2`, where `(1 + n)^x = 1 + (x mod n) * n (mod n^2)`.
pub open spec fn paillier_encrypt(n: int, x: int, r: int) -> int {
    ((1 + (x % n) * n) * pow(r, n as nat)) % (n * n)
}

/// Paillier encryption key
#[derive(Debug)]
pub struct EncryptionKey {
    n: BigInt,
    nn: BigInt,
    half_n: BigInt,
    neg_half_n: BigInt,
}

impl View for EncryptionKey {
    type V = int;

    /// The modulus `N`.
    closed spec fn view(&self) -> int {
        self.n@
    }
}

impl Clone for EncryptionKey {
    fn clone(&self) -> (r: EncryptionKey)
        ensures
            r@ == self@,
    {
        proof {
            use_type_invariant(self);
        }
        EncryptionKey {
            n: self.n.clone_value(),
            nn: self.nn.clone_value(),
            half_n: self.half_n.clone_value(),
            neg_half_n: self.neg_half_n.clone_value(),
        }
    }
}

impl EncryptionKey {
    #[verifier::type_invariant]
    spec fn inv(&self) -> bool {
        &&& self.n@ > 0
        &&& self.nn@ == self.n@ * self.n@
        &&& self.nn@ > 0
        &&& self.half_n@ == self.n@ / 2
        &&& self.neg_half_n@ == -(self.n@ / 2)
    }

    /// Constructs an encryption key from `N`
    pub fn from_n(n: BigInt) -> (r: EncryptionKey)
        requires
            n@ > 0,
        ensures
            r@ == n@,
    {
        let nn = n.mul(&n);
        let half_n = n.div_floor(&BigInt::from_u64(2));
        let neg_half_n = half_n.neg();
        proof {
            assert(n@ * n@ > 0) by (nonlinear_arith)
                requires
                    n@ > 0,
            ;
        }
        EncryptionKey { n, nn, half_n, neg_half_n }
    }

    /// Returns `N`
    pub fn n(&self) -> (r: &BigInt)
        ensures
            r@ == self@,
            self@ > 0,
    {
        proof {
            use_type_invariant(self);
        }
        &self.n
    }

    /// Returns `N^2`
    pub fn nn(&self) -> (r: &BigInt)
        ensures
            r@ == self@ * self@,
    {
        proof {
            use_type_invariant(self);
        }
        &self.nn
    }

    /// Returns `N/2`
    pub fn half_n(&self) -> (r: &BigInt)
        ensures
            r@ == self@ / 2,
    {
        proof {
            use_type_invariant(self);
        }
        &self.half_n
    }

    /// `l(x) = (x - 1) / N`, defined for `x` in `Z*_{N^2}` with `x = 1 (mod N)`.
    pub fn l(&self, x: &BigInt) -> (r: Option<BigInt>)
        ensures
            r.is_some() <==> (x@ % self@ == 1 && in_mult_group_spec(x@, self@ * self@)),
            r matches Some(v) ==> v@ == (x@ - 1) / self@,
    {
        proof {
            use_type_invariant(self);
        }
        let one = BigInt::from_u64(1);
        if !x.modulo(&self.n).equals(&one) {
            return None;
        }
        if !in_mult_group(x, &self.nn) {
            return None;
        }
        Some(x.sub(&one).div_floor(&self.n))
    }

    /// Encrypts the plaintext `x` in `{-N/2, .., N/2}` with `nonce` in `Z*_N`
    ///
    /// Returns error if inputs are not in specified range
    pub fn encrypt_with(&self, x: &BigInt, nonce: &BigInt) -> (r: Result<BigInt, Error>)
        ensures
            r.is_ok() <==> (in_signed_range(x@, self@) && in_mult_group_spec(nonce@, self@)),
            r matches Err(e) ==> e == Error(Reason::Encrypt),
            r matches Ok(c) ==> c@ == paillier_encrypt(self@, x@, nonce@),
    {
        proof {
            use_type_invariant(self);
        }
        if !self.in_signed_group(x) || !in_mult_group(nonce, &self.n) {
            return Err(Error(Reason::Encrypt));
        }
        let xr = self.reduce_plaintext(x);
        // a = (1 + N)^x mod N^2 = (1 + xN) mod N^2
        let a = BigInt::from_u64(1).add(&xr.mul(&self.n)).modulo(&self.nn);
        // b = nonce^N mod N^2
        let b = BigInt::from_biguint(nat_pow_mod(nonce.magnitude(), self.n.magnitude(), self.nn.magnitude()));
        let c = a.mul(&b).modulo(&self.nn);
        proof {
            lemma_mul_mod_noop(1 + (x@ % self@) * self@, pow(nonce@, self@ as nat), self@ * self@);
        }
        Ok(c)
    }

    /// `x mod N` for a plaintext in the signed range: `x`, or `x + N` when
    /// `x` is negative.
    pub(crate) fn reduce_plaintext(&self, x: &BigInt) -> (r: BigInt)
        requires
            in_signed_range(x@, self@),
        ensures
            r@ == x@ % self@,
            0 <= r@ < self@,
    {
        proof {
            use_type_invariant(self);
        }
        if x.is_negative() {
            proof {
                lemma_fundamental_div_mod_converse(x@, self@, -1, x@ + self@);
            }
            x.add(&self.n)
        } else {
            proof {
                lemma_fundamental_div_mod_converse(x@, self@, 0, x@);
            }
            x.clone_value()
        }
    }

    /// Encrypts the plaintext `x` in `{-N/2, .., N/2}`
    ///
    /// Nonce is sampled randomly using `rng`.
    ///
    /// Returns error if plaintext is not in specified range
    pub fn encrypt_with_random(&self, rng: &mut ThreadRandState, x: &BigInt) -> (r: Result<
        (BigInt, BigInt),
        Error,
    >)
        ensures
            !in_signed_range(x@, self@) ==> r == Err::<(BigInt, BigInt), Error>(Error(Reason::Encrypt)),
            r matches Err(e) ==> e == Error(Reason::Encrypt),
            r matches Ok((c, nonce)) ==> {
                &&& in_mult_group_spec(nonce@, self@)
                &&& c@ == paillier_encrypt(self@, x@, nonce@)
            },
    {
        let nonce = match sample_in_mult_group(rng, &self.n) {
            Some(v) => v,
            None => {
                return Err(Error(Reason::Encrypt));
            },
        };
        match self.encrypt_with(x, &nonce) {
            Ok(c) => Ok((c, nonce)),
            Err(e) => Err(e),
        }
    }

    /// Homomorphic addition of two ciphertexts
    ///
    /// ```text
    /// oadd(Enc(a1), Enc(a2)) = Enc(a1 + a2)
    /// ```
    pub fn oadd(&self, c1: &BigInt, c2: &BigInt) -> (r: Result<BigInt, Error>)
        ensures
            r.is_ok() <==> (in_mult_group_spec(c1@, self@ * self@) && in_mult_group_spec(
                c2@,
                self@ * self@,
            )),
            r matches Err(e) ==> e == Error(Reason::Ops),
            r matches Ok(c) ==> c@ == (c1@ * c2@) % (self@ * self@),
    {
        proof {
            use_type_invariant(self);
        }
        if !in_mult_group(c1, &self.nn) || !in_mult_group(c2, &self.nn) {
            return Err(Error(Reason::Ops));
        }
        Ok(c1.mul(c2).modulo(&self.nn))
    }

    /// Homomorphic subtraction of two ciphertexts
    ///
    /// ```text
    /// osub(Enc(a1), Enc(a2)) = Enc(a1 - a2)
    /// ```
    pub fn osub(&self, c1: &BigInt, c2: &BigInt) -> (r: Result<BigInt, Error>)
        ensures
            r.is_ok() <==> (in_mult_group_spec(c1@, self@ * self@) && invertible(c2@, self@ * self@)),
            r matches Err(e) ==> e == Error(Reason::Ops),
            r matches Ok(c) ==> c@ == (c1@ * mod_inverse(c2@, self@ * self@)) % (self@ * self@),
    {
        proof {
            use_type_invariant(self);
        }
        if !in_mult_group(c1, &self.nn) {
            return Err(Error(Reason::Ops));
        }
        let c2 = self.oneg(c2)?;
        Ok(c1.mul(&c2).modulo(&self.nn))
    }

    /// Homomorphic multiplication of scalar at ciphertext
    ///
    /// ```text
    /// omul(a, Enc(c)) = Enc(a * c)
    /// ```
    pub fn omul(&self, scalar: &BigInt, ciphertext: &BigInt) -> (r: Result<BigInt, Error>)
        ensures
            r.is_ok() <==> (gcd(abs(scalar@), abs(self@)) == 1 && in_mult_group_spec(
                ciphertext@,
                self@ * self@,
            )),
            r matches Err(e) ==> e == Error(Reason::Ops),
            r matches Ok(c) ==> c@ == pow_mod_signed(ciphertext@, scalar@, self@ * self@),
    {
        proof {
            use_type_invariant(self);
        }
        if !in_mult_group_abs(scalar, &self.n) || !in_mult_group(ciphertext, &self.nn) {
            return Err(Error(Reason::Ops));
        }
        if !scalar.is_negative() {
            Ok(BigInt::from_biguint(nat_pow_mod(ciphertext.magnitude(), scalar.magnitude(), self.nn.magnitude())))
        } else {
            // a negative power raises the inverse
            match nat_invert(ciphertext.magnitude(), self.nn.magnitude()) {
                Some(inv) => {
                    proof {
                        lemma_is_mod_inverse(ciphertext@, inv@ as int, self@ * self@);
                    }
                    Ok(BigInt::from_biguint(nat_pow_mod(&inv, scalar.magnitude(), self.nn.magnitude())))
                },
                None => Err(Error(Reason::Ops)),
            }
        }
    }

    /// Homomorphic negation of a ciphertext
    ///
    /// ```text
    /// oneg(Enc(a)) = Enc(-a)
    /// ```
    pub fn oneg(&self, ciphertext: &BigInt) -> (r: Result<BigInt, Error>)
        ensures
            r.is_ok() <==> invertible(ciphertext@, self@ * self@),
            r matches Err(e) ==> e == Error(Reason::Ops),
            r matches Ok(c) ==> c@ == mod_inverse(ciphertext@, self@ * self@),
            r matches Ok(c) ==> is_inverse(ciphertext@, c@, self@ * self@),
    {
        proof {
            use_type_invariant(self);
            assert(self@ * self@ > 0) by (nonlinear_arith)
                requires
                    self@ > 0,
            ;
        }
        let residue = ciphertext.modulo(&self.nn);
        match nat_invert(residue.magnitude(), self.nn.magnitude()) {
            Some(y) => {
                proof {
                    lemma_inverse_of_residue(ciphertext@, y@ as int, self@ * self@);
                    lemma_is_mod_inverse(ciphertext@, y@ as int, self@ * self@);
                }
                Ok(BigInt::from_biguint(y))
            },
            None => Err(Error(Reason::Ops)),
        }
    }

    /// Checks whether `x` is `{-N/2, .., N/2}`
    pub fn in_signed_group(&self, x: &BigInt) -> (r: bool)
        ensures
            r == in_signed_range(x@, self@),
    {
        proof {
            use_type_invariant(self);
        }
        self.neg_half_n.le(x) && x.le(&self.half_n)
    }
}

} // verus!
