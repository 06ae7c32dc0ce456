use fast_paillier::utils;
use fast_paillier::{BigInt, BigUint, DecryptionKey, Error};
use rand_core::RngCore;
use rug::integer::Order;
use rug::rand::{ThreadRandGen, ThreadRandState};
use rug::{Complete, Integer};

struct Source<'a>(&'a mut rand_dev::DevRng);

impl ThreadRandGen for Source<'_> {
    fn gen(&mut self) -> u32 {
        self.0.next_u32()
    }
}

fn big(x: &Integer) -> BigInt {
    let limbs = x.to_digits::<u64>(Order::Lsf);
    BigInt::from_sign_magnitude(*x < 0, BigUint::from_limbs(limbs))
}

fn to_rug(x: &BigInt) -> Integer {
    let m = Integer::from_digits(&x.magnitude().to_limbs(), Order::Lsf);
    if x.is_negative() {
        -m
    } else {
        m
    }
}

#[test]
fn encrypt_decrypt() {
    let mut dev = rand_dev::DevRng::new();
    let mut source = Source(&mut dev);
    let mut rng = ThreadRandState::new_custom(&mut source);
    let dk = random_key_for_tests(&mut rng);
    let ek = dk.encryption_key();
    let n = to_rug(ek.n());

    for _ in 0..50 {
        // Generate plaintext in [-N/2; N/2)
        let plaintext = n.clone().random_below(&mut rng);
        let plaintext = plaintext - (&n / 2u8).complete();
        println!("Plaintext: {plaintext}");

        // Encrypt and decrypt
        let (ciphertext, nonce) = ek.encrypt_with_random(&mut rng, &big(&plaintext)).unwrap();
        println!("Ciphertext: {}", to_rug(&ciphertext));
        println!("Nonce: {}", to_rug(&nonce));

        let decrypted = to_rug(&dk.decrypt(&ciphertext).unwrap());
        println!("Decrypted: {decrypted}");

        assert_eq!(plaintext, decrypted);
        println!();
    }

    // Check corner cases

    let lower_bound = -(&n / 2u8).complete();
    let upper_bound = (&n / 2u8).complete();

    let corner_cases = [
        lower_bound.clone(),
        lower_bound.clone() + 1,
        upper_bound.clone() - 1,
        upper_bound.clone(),
    ];
    for (i, plaintext) in corner_cases.into_iter().enumerate() {
        println!("Corner case {i}");
        let (ciphertext, _nonce) = ek.encrypt_with_random(&mut rng, &big(&plaintext)).unwrap();
        let decrypted = to_rug(&dk.decrypt(&ciphertext).unwrap());
        assert_eq!(plaintext, decrypted);
    }
}

#[test]
fn doesnt_encrypt_plaintext_out_of_bounds() {
    let mut dev = rand_dev::DevRng::new();
    let mut source = Source(&mut dev);
    let mut rng = ThreadRandState::new_custom(&mut source);
    let dk = random_key_for_tests(&mut rng);
    let ek = dk.encryption_key();
    let n = to_rug(ek.n());

    let lower_bound = -(&n / 2u8).complete();
    let upper_bound = (&n / 2u8).complete();

    let cases = [
        lower_bound.clone() - 1,
        lower_bound.clone() - 2,
        upper_bound.clone() + 1,
        upper_bound.clone() + 2,
    ];
    for (i, plaintext) in cases.into_iter().enumerate() {
        println!("Case {i}");
        let _: Error = ek.encrypt_with_random(&mut rng, &big(&plaintext)).unwrap_err();
    }
}

#[test]
fn homorphic_ops() {
    let mut dev = rand_dev::DevRng::new();
    let mut source = Source(&mut dev);
    let mut rng = ThreadRandState::new_custom(&mut source);
    let dk = random_key_for_tests(&mut rng);
    let ek = dk.encryption_key();
    let n = to_rug(ek.n());

    for _ in 0..100 {
        let a = n.clone().random_below(&mut rng);
        let b = n.clone().random_below(&mut rng);
        let a = a - (&n / 2u8).complete();
        let b = b - (&n / 2u8).complete();
        println!("a: {a}");
        println!("b: {b}");

        let (enc_a, _nonce) = ek.encrypt_with_random(&mut rng, &big(&a)).unwrap();
        let (enc_b, _nonce) = ek.encrypt_with_random(&mut rng, &big(&b)).unwrap();

        // Addition
        {
            let enc_a_plus_b = ek.oadd(&enc_a, &enc_b).unwrap();
            let a_plus_b = to_rug(&dk.decrypt(&enc_a_plus_b).unwrap());
            assert_eq!(a_plus_b, signed_modulo(&(&a + &b).complete(), &n));
        }

        // Subtraction
        {
            let enc_a_minus_b = ek.osub(&enc_a, &enc_b).unwrap();
            let a_minus_b = to_rug(&dk.decrypt(&enc_a_minus_b).unwrap());
            assert_eq!(a_minus_b, signed_modulo(&(&a - &b).complete(), &n));
        }

        // Negation
        {
            let enc_neg_a = ek.oneg(&enc_a).unwrap();
            let neg_a = to_rug(&dk.decrypt(&enc_neg_a).unwrap());
            assert_eq!(neg_a, signed_modulo(&(-&a).complete(), &n));
        }

        // Multiplication
        {
            let enc_a_at_b = ek.omul(&big(&a), &enc_b).unwrap();
            let a_at_b = to_rug(&dk.decrypt(&enc_a_at_b).unwrap());
            assert_eq!(a_at_b, signed_modulo(&(&a * &b).complete(), &n));
        }
    }
}

#[test]
fn encryption_with_known_factorization() {
    let mut dev = rand_dev::DevRng::new();
    let mut source = Source(&mut dev);
    let mut rng = ThreadRandState::new_custom(&mut source);
    let dk = random_key_for_tests(&mut rng);
    let ek = dk.encryption_key();
    let n = to_rug(ek.n());

    for i in 0..100 {
        println!("Iteration {i}");
        let x = n.clone().random_below(&mut rng);
        let x = big(&(x - to_rug(ek.half_n())));

        let nonce = utils::sample_in_mult_group(&mut rng, ek.n()).unwrap();

        let enc_x1 = ek.encrypt_with(&x, &nonce).unwrap();
        let enc_x2 = dk.encrypt_with(&x, &nonce).unwrap();

        assert_eq!(enc_x1, enc_x2);
    }
}

#[test]
fn factorized_exp_mod_n() {
    let mut dev = rand_dev::DevRng::new();
    let mut source = Source(&mut dev);
    let mut rng = ThreadRandState::new_custom(&mut source);

    let p = utils::generate_safe_prime(&mut rng, 512).unwrap();
    let q = utils::generate_safe_prime(&mut rng, 512).unwrap();
    let n = (to_rug(&p) * to_rug(&q));
    println!("n: {n}");

    let crt = utils::CrtExp::build_n(&p, &q).unwrap();

    for _ in 0..100 {
        let x: Integer = n.random_below_ref(&mut rng).into();
        let mut e: Integer = Integer::random_bits(1024, &mut rng).into();
        if Integer::from(Integer::random_bits(1, &mut rng)) == 1 {
            e = -e
        }
        let crt_e = crt.prepare_exponent(&big(&e));

        println!();
        println!("x: {x}");
        println!("e: {e}");

        let expected: Integer = x.pow_mod_ref(&e, &n).unwrap().into();
        let actual = crt.exp(&big(&x), &crt_e).unwrap();
        assert_eq!(expected, to_rug(&actual));
    }
}

#[test]
fn factorized_exp_mod_nn() {
    let mut dev = rand_dev::DevRng::new();
    let mut source = Source(&mut dev);
    let mut rng = ThreadRandState::new_custom(&mut source);

    let p = utils::generate_safe_prime(&mut rng, 512).unwrap();
    let q = utils::generate_safe_prime(&mut rng, 512).unwrap();
    let nn = (to_rug(&p) * to_rug(&q)).square();
    println!("nn: {nn}");

    let crt = utils::CrtExp::build_nn(&p, &q).unwrap();

    for _ in 0..100 {
        let x: Integer = nn.random_below_ref(&mut rng).into();
        let mut e: Integer = Integer::random_bits(1024, &mut rng).into();
        if Integer::from(Integer::random_bits(1, &mut rng)) == 1 {
            e = -e
        }
        let crt_e = crt.prepare_exponent(&big(&e));

        println!();
        println!("x: {x}");
        println!("e: {e}");

        let expected: Integer = x.pow_mod_ref(&e, &nn).unwrap().into();
        let actual = crt.exp(&big(&x), &crt_e).unwrap();
        assert_eq!(expected, to_rug(&actual));
    }
}

/// Takes `x mod n` and maps result to `{-N/2, .., N/2}`
fn signed_modulo(x: &Integer, n: &Integer) -> Integer {
    let x = <(Integer, Integer)>::from(x.div_rem_euc_ref(n)).1;
    unsigned_mod_to_signed(x, n)
}

/// Maps `{0, .., N-1}` to `{-N/2, .., N/2}`
fn unsigned_mod_to_signed(x: Integer, n: &Integer) -> Integer {
    if (2u8 * &x).complete() >= *n {
        x - n
    } else {
        x
    }
}

fn random_key_for_tests(rng: &mut ThreadRandState) -> DecryptionKey {
    let p = utils::generate_safe_prime(rng, 512).unwrap();
    let q = utils::generate_safe_prime(rng, 512).unwrap();
    DecryptionKey::from_primes(p, q).unwrap()
}
