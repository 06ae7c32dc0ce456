//! Paillier additively homomorphic encryption over safe-prime moduli.
//!
//! Plaintexts are integers in the signed range `[-N/2, N/2]`; ciphertexts are
//! elements of `Z*_{N^2}`. A [`DecryptionKey`] knows the factorisation
//! `N = p * q` and uses it to encrypt, decrypt and multiply by scalars through
//! the Chinese remainder theorem.
use vstd::prelude::*;

pub mod bignum;
pub mod modular;
pub mod utils;
pub mod laws;
pub mod fermat;
mod encryption_key;
mod decryption_key;
mod sealed;

pub use crate::bignum::{BigInt, BigUint};
pub use crate::encryption_key::EncryptionKey;
pub use crate::decryption_key::DecryptionKey;
pub use crate::encryption_key::{in_signed_range, paillier_encrypt};
pub use crate::decryption_key::{to_signed, is_generated_prime, PRIME_BITS};
use crate::modular::{in_mult_group_spec, invertible, mod_inverse, pow_mod_signed};
use crate::bignum::{gcd, abs};
use rug::rand::ThreadRandState;

verus! {

pub type Ciphertext = BigInt;

pub type Plaintext = BigInt;

pub type Nonce = BigInt;

/// Why an operation failed.
#[derive(Debug, Clone, Copy, PartialEq, Eq, Structural)]
pub enum Reason {
    /// `p`, `q` do not make a Paillier key: `p == q`, `lambda == 0`, or
    /// `lambda` has no inverse modulo `N`.
    InvalidPQ,
    /// The plaintext is outside `[-N/2, N/2]` or the nonce outside `Z*_N`.
    Encrypt,
    /// The ciphertext is outside `Z*_{N^2}`, or `L` is undefined on `c^lambda`.
    Decrypt,
    /// An operand of a homomorphic operation is outside its domain.
    Ops,
    /// The tables for exponentiation by the Chinese remainder theorem could
    /// not be built.
    BuildFastExp,
    /// The prime search drew its whole budget of candidates without success.
    Exhausted,
}

/// The error of every fallible operation of this crate.
#[derive(Debug, Clone, Copy, PartialEq, Eq, Structural)]
pub struct Error(pub Reason);

impl Error {
    pub fn reason(&self) -> (r: Reason)
        ensures
            r == self.0,
    {
        self.0
    }
}

/// Any key capable of encryption
///
/// Both encryption and decryption keys can be used to carry out encryption. Moreover, encryption
/// using decryption key is faster.
pub trait AnyEncryptionKey: sealed::Sealed {
    /// The key's invariant.
    spec fn key_wf(&self) -> bool;

    /// The modulus `N`.
    spec fn key_n(&self) -> int;

    /// The ciphertext that [`AnyEncryptionKey::encrypt_with`] returns for
    /// accepted inputs.
    spec fn encrypt_value(&self, x: int, nonce: int) -> int;

    /// The ciphertext that [`AnyEncryptionKey::omul`] returns, if any.
    spec fn omul_value(&self, scalar: int, ciphertext: int) -> Option<int>;

    /// Returns `N`
    fn n(&self) -> (r: &BigInt)
        requires
            self.key_wf(),
        ensures
            r@ == self.key_n(),
    ;

    /// Returns `N^2`
    fn nn(&self) -> (r: &BigInt)
        requires
            self.key_wf(),
        ensures
            r@ == self.key_n() * self.key_n(),
    ;

    /// Returns `N/2`
    fn half_n(&self) -> (r: &BigInt)
        requires
            self.key_wf(),
        ensures
            r@ == self.key_n() / 2,
    ;

    /// Encrypts the plaintext `x` in `{-N/2, .., N_2}` with `nonce` in `Z*_n`
    ///
    /// Returns error if inputs are not in specified range
    fn encrypt_with(&self, x: &BigInt, nonce: &BigInt) -> (r: Result<BigInt, Error>)
        requires
            self.key_wf(),
        ensures
            r.is_ok() <==> (in_signed_range(x@, self.key_n()) && in_mult_group_spec(nonce@, self.key_n())),
            r matches Err(e) ==> e == Error(Reason::Encrypt),
            r matches Ok(c) ==> c@ == self.encrypt_value(x@, nonce@),
    ;

    /// Homomorphic addition of two ciphertexts
    ///
    /// ```text
    /// oadd(Enc(a1), Enc(a2)) = Enc(a1 + a2)
    /// ```
    fn oadd(&self, c1: &BigInt, c2: &BigInt) -> (r: Result<BigInt, Error>)
        requires
            self.key_wf(),
        ensures
            r.is_ok() <==> (in_mult_group_spec(c1@, self.key_n() * self.key_n()) && in_mult_group_spec(
                c2@,
                self.key_n() * self.key_n(),
            )),
            r matches Err(e) ==> e == Error(Reason::Ops),
            r matches Ok(c) ==> c@ == (c1@ * c2@) % (self.key_n() * self.key_n()),
    ;

    /// Homomorphic subtraction of two ciphertexts
    ///
    /// ```text
    /// osub(Enc(a1), Enc(a2)) = Enc(a1 - a2)
    /// ```
    fn osub(&self, c1: &BigInt, c2: &BigInt) -> (r: Result<BigInt, Error>)
        requires
            self.key_wf(),
        ensures
            r.is_ok() <==> (in_mult_group_spec(c1@, self.key_n() * self.key_n()) && invertible(
                c2@,
                self.key_n() * self.key_n(),
            )),
            r matches Err(e) ==> e == Error(Reason::Ops),
            r matches Ok(c) ==> c@ == (c1@ * mod_inverse(c2@, self.key_n() * self.key_n())) % (self.key_n()
                * self.key_n()),
    ;

    /// Homomorphic multiplication of scalar at ciphertext
    ///
    /// ```text
    /// omul(a, Enc(c)) = Enc(a * c)
    /// ```
    fn omul(&self, scalar: &BigInt, ciphertext: &BigInt) -> (r: Result<BigInt, Error>)
        requires
            self.key_wf(),
        ensures
            r.is_ok() <==> (gcd(abs(scalar@), abs(self.key_n())) == 1 && in_mult_group_spec(
                ciphertext@,
                self.key_n() * self.key_n(),
            ) && self.omul_value(scalar@, ciphertext@).is_some()),
            r matches Err(e) ==> e == Error(Reason::Ops),
            r matches Ok(c) ==> self.omul_value(scalar@, ciphertext@) == Some(c@),
    ;

    /// Homomorphic negation of a ciphertext
    ///
    /// ```text
    /// oneg(Enc(a)) = Enc(-a)
    /// ```
    fn oneg(&self, ciphertext: &BigInt) -> (r: Result<BigInt, Error>)
        requires
            self.key_wf(),
        ensures
            r.is_ok() <==> invertible(ciphertext@, self.key_n() * self.key_n()),
            r matches Err(e) ==> e == Error(Reason::Ops),
            r matches Ok(c) ==> c@ == mod_inverse(ciphertext@, self.key_n() * self.key_n()),
    ;

    /// Checks whether `x` is `{-N/2, .., N/2}`
    fn in_signed_group(&self, x: &BigInt) -> (r: bool)
        requires
            self.key_wf(),
        ensures
            r == in_signed_range(x@, self.key_n()),
    ;
}

/// Additional functionality implemented for [AnyEncryptionKey]
pub trait AnyEncryptionKeyExt: AnyEncryptionKey {
    /// Encrypts the plaintext `x` in `{-N/2, .., N_2}`
    ///
    /// Nonce is sampled randomly using `rng`.
    ///
    /// Returns error if plaintext is not in specified range
    fn encrypt_with_random(&self, rng: &mut ThreadRandState, x: &BigInt) -> (r: Result<(BigInt, BigInt), Error>)
        requires
            self.key_wf(),
        ensures
            !in_signed_range(x@, self.key_n()) ==> r == Err::<(BigInt, BigInt), Error>(Error(Reason::Encrypt)),
            r matches Err(e) ==> e == Error(Reason::Encrypt),
            r matches Ok((c, nonce)) ==> {
                &&& in_mult_group_spec(nonce@, self.key_n())
                &&& c@ == self.encrypt_value(x@, nonce@)
            },
    ;
}

impl<E: AnyEncryptionKey> AnyEncryptionKeyExt for E {
    fn encrypt_with_random(&self, rng: &mut ThreadRandState, x: &BigInt) -> (r: Result<(BigInt, BigInt), Error>) {
        let nonce = match utils::sample_in_mult_group(rng, self.n()) {
            Some(v) => v,
            None => {
                return Err(Error(Reason::Encrypt));
            },
        };
        match self.encrypt_with(x, &nonce) {
            Ok(c) => Ok((c, nonce)),
            Err(e) => Err(e),
        }
    }
}

impl AnyEncryptionKey for EncryptionKey {
    open spec fn key_wf(&self) -> bool {
        true
    }

    open spec fn key_n(&self) -> int {
        self@
    }

    open spec fn encrypt_value(&self, x: int, nonce: int) -> int {
        paillier_encrypt(self@, x, nonce)
    }

    open spec fn omul_value(&self, scalar: int, ciphertext: int) -> Option<int> {
        Some(pow_mod_signed(ciphertext, scalar, self@ * self@))
    }

    fn n(&self) -> (r: &BigInt) {
        EncryptionKey::n(self)
    }

    fn nn(&self) -> (r: &BigInt) {
        EncryptionKey::nn(self)
    }

    fn half_n(&self) -> (r: &BigInt) {
        EncryptionKey::half_n(self)
    }

    fn encrypt_with(&self, x: &BigInt, nonce: &BigInt) -> (r: Result<BigInt, Error>) {
        EncryptionKey::encrypt_with(self, x, nonce)
    }

    fn oadd(&self, c1: &BigInt, c2: &BigInt) -> (r: Result<BigInt, Error>) {
        EncryptionKey::oadd(self, c1, c2)
    }

    fn osub(&self, c1: &BigInt, c2: &BigInt) -> (r: Result<BigInt, Error>) {
        EncryptionKey::osub(self, c1, c2)
    }

    fn omul(&self, scalar: &BigInt, ciphertext: &BigInt) -> (r: Result<BigInt, Error>) {
        EncryptionKey::omul(self, scalar, ciphertext)
    }

    fn oneg(&self, ciphertext: &BigInt) -> (r: Result<BigInt, Error>) {
        EncryptionKey::oneg(self, ciphertext)
    }

    fn in_signed_group(&self, x: &BigInt) -> (r: bool) {
        EncryptionKey::in_signed_group(self, x)
    }
}

impl AnyEncryptionKey for DecryptionKey {
    open spec fn key_wf(&self) -> bool {
        self.wf()
    }

    open spec fn key_n(&self) -> int {
        self.spec_n()
    }

    open spec fn encrypt_value(&self, x: int, nonce: int) -> int {
        self.fast_encrypt_spec(x, nonce)
    }

    open spec fn omul_value(&self, scalar: int, ciphertext: int) -> Option<int> {
        self.fast_omul_spec(scalar, ciphertext)
    }

    fn n(&self) -> (r: &BigInt) {
        DecryptionKey::n(self)
    }

    fn nn(&self) -> (r: &BigInt) {
        DecryptionKey::nn(self)
    }

    fn half_n(&self) -> (r: &BigInt) {
        DecryptionKey::half_n(self)
    }

    fn encrypt_with(&self, x: &BigInt, nonce: &BigInt) -> (r: Result<BigInt, Error>) {
        DecryptionKey::encrypt_with(self, x, nonce)
    }

    fn oadd(&self, c1: &BigInt, c2: &BigInt) -> (r: Result<BigInt, Error>) {
        DecryptionKey::oadd(self, c1, c2)
    }

    fn osub(&self, c1: &BigInt, c2: &BigInt) -> (r: Result<BigInt, Error>) {
        DecryptionKey::osub(self, c1, c2)
    }

    fn omul(&self, scalar: &BigInt, ciphertext: &BigInt) -> (r: Result<BigInt, Error>) {
        DecryptionKey::omul(self, scalar, ciphertext)
    }

    fn oneg(&self, ciphertext: &BigInt) -> (r: Result<BigInt, Error>) {
        DecryptionKey::oneg(self, ciphertext)
    }

    fn in_signed_group(&self, x: &BigInt) -> (r: bool) {
        DecryptionKey::in_signed_group(self, x)
    }
}

} // verus!
