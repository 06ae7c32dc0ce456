use fast_paillier::utils::{self, CrtExp};
use fast_paillier::{AnyEncryptionKey, AnyEncryptionKeyExt};
use fast_paillier::{BigInt, BigUint, DecryptionKey, EncryptionKey, Error, Reason};
use rand_core::{RngCore, SeedableRng};
use rug::integer::{IsPrime, Order};
use rug::rand::{ThreadRandGen, ThreadRandState};
use rug::{Complete, Integer};

/// Safe 1536-bit prime, hex.
const P: &str = "e84f454a8dd9e923fc85be8ca09278e28c5a3d9419cf118ef56912910f364c5\
                 29d999dba2837e55d413827ccf97a4b6c49addd56f079032164d487fbd22d5e\
                 a9ff0c8fdc6bce1b878a7109f33061874f310ae35ac75db3ac3fd5f49d8b85b\
                 8823f05fc288602abf6a4ef641a3766a44d7ecbceebe3bf144a582639b55658\
                 e93cc57445715ce83c0e7088ec701ded2bcbd2e91a68cb26b1aaddadf99aeef\
                 927fb82459a3805c232e36162cbea024a2fe7485b96eeb278d45016c622261b\
                 3d3aa3";
/// Safe 1536-bit prime, hex.
const Q: &str = "9461f6a273f4bdf08ce0b1071253e0688d622d6b714b407200fa709d964034c\
                 1b84b97057a8dd48904a99e83f1cb4c94d6927ac6424b8028eefe6503336e03\
                 1ff0d7379932b1f6fa457d8a1e4d9436c42df8ba86ad54cc83a708cd6385d4d\
                 5cbf0c62f9f692f04e500726d5d41224e2ec88d48bd3d04c004c9a8e6ce23ee\
                 fb54995d7b4473c021f8a72c06fe3ce6488e6b1b8ad51b635a853121f4285c0\
                 c364aab061aea672cb6dd86cee08b63a5b3f1fc78f1712e1a333b2552471e5a\
                 d8403f";

struct Source<'a>(&'a mut rand_dev::DevRng);

impl ThreadRandGen for Source<'_> {
    fn gen(&mut self) -> u32 {
        self.0.next_u32()
    }
}

fn big(x: &Integer) -> BigInt {
    let limbs = x.to_digits::<u64>(Order::Lsf);
    BigInt::from_sign_magnitude(*x < 0, BigUint::from_limbs(limbs))
}

fn to_rug(x: &BigInt) -> Integer {
    let m = Integer::from_digits(&x.magnitude().to_limbs(), Order::Lsf);
    if x.is_negative() {
        -m
    } else {
        m
    }
}

fn bench_key() -> DecryptionKey {
    let p = Integer::from_str_radix(P, 16).unwrap();
    let q = Integer::from_str_radix(Q, 16).unwrap();
    DecryptionKey::from_primes(big(&p), big(&q)).unwrap()
}

fn small(v: i64) -> BigInt {
    BigInt::from_i64(v)
}

#[test]
fn bench_key_round_trip() {
    let mut dev = rand_dev::DevRng::new();
    let mut source = Source(&mut dev);
    let mut rng = ThreadRandState::new_custom(&mut source);
    let dk = bench_key();
    let ek = dk.encryption_key();
    assert_eq!(dk.bits_length(), 1536);

    let (c, _) = ek.encrypt_with_random(&mut rng, &small(42)).unwrap();
    assert_eq!(dk.decrypt(&c).unwrap(), small(42));

    let low = ek.half_n().neg();
    let (c, _) = ek.encrypt_with_random(&mut rng, &low).unwrap();
    assert_eq!(dk.decrypt(&c).unwrap(), low);
}

#[test]
fn signed_wrap_on_addition() {
    let mut dev = rand_dev::DevRng::new();
    let mut source = Source(&mut dev);
    let mut rng = ThreadRandState::new_custom(&mut source);
    let dk = bench_key();
    let ek = dk.encryption_key();
    let a = ek.half_n().clone_value();
    let (ca, _) = ek.encrypt_with_random(&mut rng, &a).unwrap();
    let (cb, _) = ek.encrypt_with_random(&mut rng, &small(1)).unwrap();
    let sum = dk.decrypt(&ek.oadd(&ca, &cb).unwrap()).unwrap();
    assert_eq!(sum, ek.half_n().neg());
}

#[test]
fn scalar_minus_one_negates() {
    let mut dev = rand_dev::DevRng::new();
    let mut source = Source(&mut dev);
    let mut rng = ThreadRandState::new_custom(&mut source);
    let dk = bench_key();
    let ek = dk.encryption_key();
    for x in [small(0), small(1), small(-77), small(123456789)] {
        let (c, _) = ek.encrypt_with_random(&mut rng, &x).unwrap();
        let public = ek.omul(&small(-1), &c).unwrap();
        assert_eq!(dk.decrypt(&public).unwrap(), x.neg());
        let private = dk.omul(&small(-1), &c).unwrap();
        assert_eq!(private, public);
    }
}

#[test]
fn crt_matches_pow_mod_for_small_primes() {
    let p = small(11);
    let q = small(13);
    let crt = CrtExp::build_nn(&p, &q).unwrap();
    let nn = Integer::from(143 * 143);
    let mut x = 1i64;
    while x < 143 * 143 {
        if x % 11 != 0 && x % 13 != 0 {
            let mut e = -10000i64;
            while e <= 10000 {
                let prepared = crt.prepare_exponent(&small(e));
                let actual = crt.exp(&small(x), &prepared).unwrap();
                let expected: Integer = Integer::from(x).pow_mod_ref(&Integer::from(e), &nn).unwrap().into();
                assert_eq!(to_rug(&actual), expected, "x = {x}, e = {e}");
                e += 997;
            }
        }
        x += 7;
    }
}

#[test]
fn crt_exp_modulo_pq() {
    let crt = CrtExp::build_n(&small(11), &small(23)).unwrap();
    // 2^10 = 1024 = 1024 - 4 * 253 = 12 (mod 253)
    let e = crt.prepare_exponent(&small(10));
    assert_eq!(crt.exp(&small(2), &e).unwrap(), small(12));
    // 12 * 21 = 252 = -1, so 12^-1 = -21 = 232 (mod 253)
    let e = crt.prepare_exponent(&small(-10));
    assert_eq!(crt.exp(&small(2), &e).unwrap(), small(232));
    // 11^3 is a multiple of 11, so it has no inverse modulo 253
    let e = crt.prepare_exponent(&small(-3));
    assert!(crt.exp(&small(11), &e).is_none());
}

#[test]
fn crt_build_rejections() {
    assert!(CrtExp::build(small(0), small(1), small(5), small(4)).is_none());
    assert!(CrtExp::build(small(7), small(7), small(5), small(4)).is_none());
    assert!(CrtExp::build(small(6), small(2), small(9), small(6)).is_none());
    assert!(CrtExp::build(small(7), small(6), small(9), small(6)).is_some());
    assert!(CrtExp::build_n(&small(1), &small(5)).is_none());
    assert!(CrtExp::build_nn(&small(-3), &small(5)).is_none());
}

fn is_safe_prime(q: &Integer) -> bool {
    let half = (q - 1u8).complete() / 2u8;
    q.is_probably_prime(40) != IsPrime::No && half.is_probably_prime(40) != IsPrime::No
}

#[test]
fn sieve_and_plain_search_agree() {
    let mut dev = rand_dev::DevRng::new();
    let mut source = Source(&mut dev);
    let mut rng = ThreadRandState::new_custom(&mut source);
    for amount in [0usize, 135] {
        let q = utils::sieve_generate_safe_primes(&mut rng, 512, amount).unwrap();
        let q = to_rug(&q);
        assert_eq!(q.significant_bits(), 512);
        assert!(is_safe_prime(&q));
        assert_eq!(q.mod_u(4), 3);
        // no sieved prime divides q
        for &s in &utils::small_primes()[0..amount] {
            assert_ne!(q.mod_u(s), 0);
        }
    }
}

#[test]
fn cloned_key_decrypts() {
    let dk = DecryptionKey::from_primes(small(7), small(23)).unwrap();
    let copy = dk.clone();
    drop(dk);
    let c = copy.encrypt_with(&small(-31), &small(5)).unwrap();
    assert_eq!(copy.decrypt(&c).unwrap(), small(-31));
    assert_eq!(copy.p(), &small(7));
    assert_eq!(copy.q(), &small(23));
}

#[test]
fn sieve_candidate_forces_bits() {
    // 0 with bits 2 and 0 set is 5; 5 and 11 are prime
    let r = utils::sieve_candidate(&BigUint::from_u64(0), 4, 2).unwrap();
    assert_eq!(r, small(11));
    // 3 becomes 7, and 7 mod 3 = 1 = (3 - 1) / 2, so 15 is sieved out
    assert!(utils::sieve_candidate(&BigUint::from_u64(3), 4, 1).is_none());
    // without a sieve 7 is prime but 15 is not
    assert!(utils::sieve_candidate(&BigUint::from_u64(3), 4, 0).is_none());
}

#[test]
fn invalid_primes_are_rejected() {
    let e = DecryptionKey::from_primes(small(23), small(23)).err().unwrap();
    assert_eq!(e, Error(Reason::InvalidPQ));
    // lambda = lcm(2, 6) = 6 shares 3 with N = 21
    let e = DecryptionKey::from_primes(small(3), small(7)).err().unwrap();
    assert_eq!(e.reason(), Reason::InvalidPQ);
    // lambda = lcm(0, 4) = 0
    let e = DecryptionKey::from_primes(small(1), small(5)).err().unwrap();
    assert_eq!(e.reason(), Reason::InvalidPQ);
    // a negative prime passes the lambda test but gives no tables
    let e = DecryptionKey::from_primes(small(-3), small(5)).err().unwrap();
    assert_eq!(e.reason(), Reason::BuildFastExp);
    // lambda = lcm(2, 4) = 4 is invertible modulo 15
    assert!(DecryptionKey::from_primes(small(3), small(5)).is_ok());
}

#[test]
fn small_key_values() {
    // p = 7, q = 23: N = 161, lambda = lcm(6, 22) = 66, mu = 66^-1 mod 161
    let dk = DecryptionKey::from_primes(small(7), small(23)).unwrap();
    assert_eq!(dk.n(), &small(161));
    assert_eq!(dk.nn(), &small(161 * 161));
    assert_eq!(dk.half_n(), &small(80));
    assert_eq!(dk.lambda(), &small(66));
    let mu = to_rug(dk.mu());
    assert_eq!(mu.clone() * 66u32 % 161u32, 1);
    assert!(mu < 161);
    assert_eq!(dk.p(), &small(7));
    assert_eq!(dk.q(), &small(23));
    assert_eq!(dk.bits_length(), 3);
}

#[test]
fn small_key_exact_ciphertexts() {
    // N = 15, N^2 = 225: Enc(2, r = 2) = (1 + 2 * 15) * 2^15 mod 225 = 31 * 143 mod 225 = 158
    let ek = EncryptionKey::from_n(small(15));
    assert_eq!(ek.encrypt_with(&small(2), &small(2)).unwrap(), small(158));
    // Enc(-2, 2): -2 mod 15 = 13, (1 + 195) * 143 mod 225 = 196 * 143 mod 225 = 128
    assert_eq!(ek.encrypt_with(&small(-2), &small(2)).unwrap(), small(128));
    let dk = DecryptionKey::from_primes(small(3), small(5)).unwrap();
    assert_eq!(dk.encrypt_with(&small(2), &small(2)).unwrap(), small(158));
    assert_eq!(dk.decrypt(&small(158)).unwrap(), small(2));
    assert_eq!(dk.decrypt(&small(128)).unwrap(), small(-2));
    // homomorphic operations on these values
    assert_eq!(ek.oadd(&small(158), &small(128)).unwrap(), small(158 * 128 % 225));
    assert_eq!(dk.decrypt(&ek.oadd(&small(158), &small(128)).unwrap()).unwrap(), small(0));
    assert_eq!(dk.decrypt(&ek.osub(&small(158), &small(128)).unwrap()).unwrap(), small(4));
    assert_eq!(dk.decrypt(&ek.oneg(&small(158)).unwrap()).unwrap(), small(-2));
    assert_eq!(dk.decrypt(&ek.omul(&small(7), &small(158)).unwrap()).unwrap(), small(-1));
    assert_eq!(dk.decrypt(&dk.omul(&small(7), &small(158)).unwrap()).unwrap(), small(-1));
}

#[test]
fn l_function() {
    let ek = EncryptionKey::from_n(small(15));
    // 31 = 1 + 2 * 15
    assert_eq!(ek.l(&small(31)).unwrap(), small(2));
    assert!(ek.l(&small(32)).is_none());
    // 211 = 1 + 14 * 15
    assert_eq!(ek.l(&small(211)).unwrap(), small(14));
    // 226 is outside Z*_225
    assert!(ek.l(&small(226)).is_none());
}

#[test]
fn error_variants() {
    let ek = EncryptionKey::from_n(small(15));
    let dk = DecryptionKey::from_primes(small(3), small(5)).unwrap();
    // plaintext out of range, nonce not co-prime, nonce too large
    assert_eq!(ek.encrypt_with(&small(8), &small(2)).err().unwrap(), Error(Reason::Encrypt));
    assert_eq!(ek.encrypt_with(&small(-8), &small(2)).err().unwrap(), Error(Reason::Encrypt));
    assert_eq!(ek.encrypt_with(&small(7), &small(3)).err().unwrap(), Error(Reason::Encrypt));
    assert_eq!(ek.encrypt_with(&small(7), &small(16)).err().unwrap(), Error(Reason::Encrypt));
    assert_eq!(dk.encrypt_with(&small(7), &small(0)).err().unwrap(), Error(Reason::Encrypt));
    // ciphertexts outside Z*_225
    assert_eq!(dk.decrypt(&small(0)).err().unwrap(), Error(Reason::Decrypt));
    assert_eq!(dk.decrypt(&small(15)).err().unwrap(), Error(Reason::Decrypt));
    assert_eq!(dk.decrypt(&small(226)).err().unwrap(), Error(Reason::Decrypt));
    assert_eq!(ek.oadd(&small(158), &small(0)).err().unwrap(), Error(Reason::Ops));
    assert_eq!(ek.osub(&small(225), &small(158)).err().unwrap(), Error(Reason::Ops));
    assert_eq!(ek.oneg(&small(45)).err().unwrap(), Error(Reason::Ops));
    assert_eq!(ek.omul(&small(3), &small(158)).err().unwrap(), Error(Reason::Ops));
    assert_eq!(dk.omul(&small(5), &small(158)).err().unwrap(), Error(Reason::Ops));
    assert_eq!(ek.omul(&small(2), &small(45)).err().unwrap(), Error(Reason::Ops));
}

#[test]
fn signed_group_bounds() {
    let ek = EncryptionKey::from_n(small(15));
    assert!(ek.in_signed_group(&small(7)));
    assert!(ek.in_signed_group(&small(-7)));
    assert!(!ek.in_signed_group(&small(8)));
    assert!(!ek.in_signed_group(&small(-8)));
}

#[test]
fn membership_checks() {
    assert!(utils::in_mult_group(&small(2), &small(15)));
    assert!(!utils::in_mult_group(&small(3), &small(15)));
    assert!(!utils::in_mult_group(&small(0), &small(15)));
    assert!(!utils::in_mult_group(&small(16), &small(15)));
    assert!(!utils::in_mult_group(&small(-2), &small(15)));
    assert!(utils::in_mult_group_abs(&small(-2), &small(15)));
    assert!(!utils::in_mult_group_abs(&small(-5), &small(15)));
}

#[test]
fn sampled_nonce_is_in_group() {
    let mut dev = rand_dev::DevRng::new();
    let mut source = Source(&mut dev);
    let mut rng = ThreadRandState::new_custom(&mut source);
    for _ in 0..50 {
        let r = utils::sample_in_mult_group(&mut rng, &small(15)).unwrap();
        assert!(utils::in_mult_group(&r, &small(15)));
    }
    assert!(utils::sample_in_mult_group(&mut rng, &small(1)).is_none());
}

#[test]
fn any_key_dispatch() {
    let mut dev = rand_dev::DevRng::new();
    let mut source = Source(&mut dev);
    let mut rng = ThreadRandState::new_custom(&mut source);
    let dk = DecryptionKey::from_primes(small(7), small(23)).unwrap();
    let ek = dk.encryption_key().clone();
    let keys: [&dyn AnyEncryptionKey; 2] = [&ek, &dk];
    let nonce = small(5);
    let c0 = keys[0].encrypt_with(&small(50), &nonce).unwrap();
    let c1 = keys[1].encrypt_with(&small(50), &nonce).unwrap();
    assert_eq!(c0, c1);
    assert_eq!(keys[0].n(), keys[1].n());
    let (c, _) = dk.encrypt_with_random(&mut rng, &small(-9)).unwrap();
    assert_eq!(dk.decrypt(&c).unwrap(), small(-9));
    let (c, _) = AnyEncryptionKeyExt::encrypt_with_random(&ek, &mut rng, &small(9)).unwrap();
    assert_eq!(dk.decrypt(&c).unwrap(), small(9));
}

#[test]
fn bigint_arithmetic() {
    let a = big(&Integer::from_str_radix("123456789abcdef0123456789abcdef", 16).unwrap());
    let b = small(-987654321);
    assert_eq!(to_rug(&a.add(&b)), to_rug(&a) + to_rug(&b));
    assert_eq!(to_rug(&a.sub(&b)), to_rug(&a) - to_rug(&b));
    assert_eq!(to_rug(&a.mul(&b)), to_rug(&a) * to_rug(&b));
    assert_eq!(to_rug(&b.modulo(&small(1000))), Integer::from(679));
    assert_eq!(to_rug(&a.div_floor(&small(16))), to_rug(&a) >> 4);
    assert!(b.lt(&a));
    assert!(!a.le(&b));
    assert_eq!(BigInt::from_i64(-5), BigInt::from_sign_magnitude(true, BigUint::from_u64(5)));
    assert_eq!(BigInt::from_i64(0), BigInt::from_sign_magnitude(true, BigUint::from_u64(0)));
}

#[test]
fn sieve_search_1024_bits() {
    // a fixed seed keeps the running time of this longer search steady
    let mut dev = rand_dev::DevRng::seed_from_u64(1024);
    let mut source = Source(&mut dev);
    let mut rng = ThreadRandState::new_custom(&mut source);
    let q = utils::generate_safe_prime(&mut rng, 1024).unwrap();
    let q = to_rug(&q);
    assert_eq!(q.significant_bits(), 1024);
    assert!(is_safe_prime(&q));
}
