//! Arbitrary-precision integers, with the arithmetic done by GMP through `rug`.
//!
//! [`BigUint`] holds a magnitude as little-endian 64-bit limbs and is the type
//! that crosses into `rug`; [`BigInt`] adds a sign on top of it.
use vstd::prelude::*;
use vstd::arithmetic::power::pow;
use vstd::arithmetic::power2::pow2;
use vstd::arithmetic::div_mod::{lemma_fundamental_div_mod, lemma_fundamental_div_mod_converse};
use core::cmp::Ordering;
use rug::integer::{IsPrime, Order};
use rug::rand::ThreadRandState;
use rug::{Complete, Integer};

verus! {

// ---------------------------------------------------------------------------
// Mathematical vocabulary
// ---------------------------------------------------------------------------

/// Value of a little-endian sequence of 64-bit limbs.
pub open spec fn limbs_value(s: Seq<u64>) -> nat
    decreases s.len(),
{
    if s.len() == 0 {
        0
    } else {
        s[0] as nat + pow2(64) * limbs_value(s.drop_first())
    }
}

/// Greatest common divisor, by Euclid's recursion; `gcd(a, 0) == a`.
pub open spec fn gcd(a: nat, b: nat) -> nat
    decreases b,
{
    if b == 0 {
        a
    } else {
        gcd(b, a % b)
    }
}

/// Least common multiple; zero when either argument is zero.
pub open spec fn lcm(a: nat, b: nat) -> nat {
    if a == 0 || b == 0 {
        0
    } else {
        (a * b / gcd(a, b)) as nat
    }
}

pub open spec fn abs(x: int) -> nat {
    if x < 0 {
        (-x) as nat
    } else {
        x as nat
    }
}

pub open spec fn is_prime(x: int) -> bool {
    &&& x > 1
    &&& forall|d: int| 1 < d < x ==> #[trigger] (x % d) != 0
}

/// Bit `k` of a non-negative integer.
pub open spec fn bit(x: nat, k: nat) -> bool {
    (x / pow2(k)) % 2 == 1
}

/// `x` with bit `k` set.
pub open spec fn with_bit(x: nat, k: nat) -> nat {
    if bit(x, k) {
        x
    } else {
        x + pow2(k)
    }
}

/// Number of binary digits of `x`; zero for zero.
pub open spec fn bit_length(x: nat) -> nat
    decreases x,
{
    if x == 0 {
        0
    } else {
        1 + bit_length(x / 2)
    }
}

/// Whether `y` is an inverse of `x` modulo `m`, taken in `[0, m)`.
pub open spec fn is_inverse(x: int, y: int, m: int) -> bool {
    &&& 0 <= y < m
    &&& (x * y) % m == 1int % m
}

/// The outcome of GMP's probabilistic primality test on `x` with `reps`
/// rounds: `true` unless the test found `x` composite.
pub uninterp spec fn passes_primality_test(x: int, reps: nat) -> bool;

// ---------------------------------------------------------------------------
// Magnitudes
// ---------------------------------------------------------------------------

/// A non-negative integer held as little-endian 64-bit limbs.
#[derive(Clone, Debug)]
pub struct BigUint {
    limbs: Vec<u64>,
}

impl View for BigUint {
    type V = nat;

    closed spec fn view(&self) -> nat {
        limbs_value(self.limbs@)
    }
}

impl BigUint {
    pub fn from_u64(v: u64) -> (r: BigUint)
        ensures
            r@ == v,
    {
        let mut limbs: Vec<u64> = Vec::new();
        if v != 0 {
            limbs.push(v);
        }
        proof {
            reveal_with_fuel(limbs_value, 2);
        }
        BigUint { limbs }
    }

    /// The magnitude whose little-endian 64-bit limbs are `limbs`.
    pub fn from_limbs(limbs: Vec<u64>) -> (r: BigUint)
        ensures
            r@ == limbs_value(limbs@),
    {
        BigUint { limbs }
    }

    /// Little-endian 64-bit limbs of this magnitude.
    pub fn to_limbs(&self) -> (r: Vec<u64>)
        ensures
            limbs_value(r@) == self@,
    {
        let mut r: Vec<u64> = Vec::new();
        let mut i: usize = 0;
        while i < self.limbs.len()
            invariant
                i <= self.limbs.len(),
                r@ == self.limbs@.subrange(0, i as int),
            decreases self.limbs.len() - i,
        {
            r.push(self.limbs[i]);
            i = i + 1;
        }
        proof {
            assert(r@ =~= self.limbs@);
        }
        r
    }
}

/// Relies on rug's `&Integer + &Integer`: the exact sum.
#[verifier::external_body]
pub(crate) fn nat_add(a: &BigUint, b: &BigUint) -> (r: BigUint)
    ensures
        r@ == a@ + b@,
{
    let x = Integer::from_digits(&a.limbs, Order::Lsf);
    let y = Integer::from_digits(&b.limbs, Order::Lsf);
    BigUint { limbs: (&x + &y).complete().to_digits(Order::Lsf) }
}

/// Relies on rug's `&Integer - &Integer`: the exact difference.
#[verifier::external_body]
pub(crate) fn nat_sub(a: &BigUint, b: &BigUint) -> (r: BigUint)
    requires
        a@ >= b@,
    ensures
        r@ == a@ - b@,
{
    let x = Integer::from_digits(&a.limbs, Order::Lsf);
    let y = Integer::from_digits(&b.limbs, Order::Lsf);
    BigUint { limbs: (&x - &y).complete().to_digits(Order::Lsf) }
}

/// Relies on rug's `&Integer * &Integer`: the exact product.
#[verifier::external_body]
pub(crate) fn nat_mul(a: &BigUint, b: &BigUint) -> (r: BigUint)
    ensures
        r@ == a@ * b@,
{
    let x = Integer::from_digits(&a.limbs, Order::Lsf);
    let y = Integer::from_digits(&b.limbs, Order::Lsf);
    BigUint { limbs: (&x * &y).complete().to_digits(Order::Lsf) }
}

/// Relies on rug's `Integer::div_rem_ref`: quotient and remainder, which for
/// non-negative operands are the floor quotient and the non-negative remainder.
#[verifier::external_body]
pub(crate) fn nat_div_rem(a: &BigUint, b: &BigUint) -> (r: (BigUint, BigUint))
    requires
        b@ > 0,
    ensures
        r.0@ == a@ / b@,
        r.1@ == a@ % b@,
{
    let x = Integer::from_digits(&a.limbs, Order::Lsf);
    let y = Integer::from_digits(&b.limbs, Order::Lsf);
    let (q, m) = x.div_rem_ref(&y).complete();
    (BigUint { limbs: q.to_digits(Order::Lsf) }, BigUint { limbs: m.to_digits(Order::Lsf) })
}

/// Relies on rug's `Ord for Integer`: numeric comparison.
#[verifier::external_body]
pub(crate) fn nat_cmp(a: &BigUint, b: &BigUint) -> (r: Ordering)
    ensures
        (r == Ordering::Less) <==> a@ < b@,
        (r == Ordering::Equal) <==> a@ == b@,
        (r == Ordering::Greater) <==> a@ > b@,
{
    let x = Integer::from_digits(&a.limbs, Order::Lsf);
    let y = Integer::from_digits(&b.limbs, Order::Lsf);
    x.cmp(&y)
}

/// Relies on rug's `Integer::pow_mod_ref`: for a non-negative exponent and a
/// positive modulus the power always exists and lies in `[0, m)`.
#[verifier::external_body]
pub(crate) fn nat_pow_mod(x: &BigUint, e: &BigUint, m: &BigUint) -> (r: BigUint)
    requires
        m@ > 0,
    ensures
        r@ == pow(x@ as int, e@) % (m@ as int),
{
    let b = Integer::from_digits(&x.limbs, Order::Lsf);
    let e = Integer::from_digits(&e.limbs, Order::Lsf);
    let m = Integer::from_digits(&m.limbs, Order::Lsf);
    let p = Integer::from(b.pow_mod_ref(&e, &m).unwrap());
    BigUint { limbs: p.to_digits(Order::Lsf) }
}

/// Relies on rug's `Integer::invert_ref`: an inverse exists exactly when the
/// modulus is non-zero and co-prime to `x`; it is then normalised into `[0, m)`.
#[verifier::external_body]
pub(crate) fn nat_invert(x: &BigUint, m: &BigUint) -> (r: Option<BigUint>)
    ensures
        r.is_some() <==> (m@ != 0 && gcd(x@, m@) == 1),
        r matches Some(y) ==> is_inverse(x@ as int, y@ as int, m@ as int),
{
    let a = Integer::from_digits(&x.limbs, Order::Lsf);
    let m = Integer::from_digits(&m.limbs, Order::Lsf);
    a.invert_ref(&m).map(|y| BigUint { limbs: Integer::from(y).to_digits(Order::Lsf) })
}

/// Relies on rug's `Integer::gcd_ref`.
#[verifier::external_body]
pub(crate) fn nat_gcd(a: &BigUint, b: &BigUint) -> (r: BigUint)
    ensures
        r@ == gcd(a@, b@),
{
    let x = Integer::from_digits(&a.limbs, Order::Lsf);
    let y = Integer::from_digits(&b.limbs, Order::Lsf);
    BigUint { limbs: x.gcd_ref(&y).complete().to_digits(Order::Lsf) }
}

/// Relies on rug's `Integer::lcm_ref`: positive unless an operand is zero.
#[verifier::external_body]
pub(crate) fn nat_lcm(a: &BigUint, b: &BigUint) -> (r: BigUint)
    ensures
        r@ == lcm(a@, b@),
{
    let x = Integer::from_digits(&a.limbs, Order::Lsf);
    let y = Integer::from_digits(&b.limbs, Order::Lsf);
    BigUint { limbs: x.lcm_ref(&y).complete().to_digits(Order::Lsf) }
}

/// Relies on rug's `Integer::set_bit` with `val == true`.
#[verifier::external_body]
pub(crate) fn nat_set_bit(x: &BigUint, index: u32) -> (r: BigUint)
    ensures
        r@ == with_bit(x@, index as nat),
{
    let mut a = Integer::from_digits(&x.limbs, Order::Lsf);
    a.set_bit(index, true);
    BigUint { limbs: a.to_digits(Order::Lsf) }
}

/// Relies on rug's `Integer::mod_u`, which panics on a zero modulus.
#[verifier::external_body]
pub(crate) fn nat_mod_u32(x: &BigUint, m: u32) -> (r: u32)
    requires
        m > 0,
    ensures
        r == x@ % (m as nat),
{
    Integer::from_digits(&x.limbs, Order::Lsf).mod_u(m)
}

/// Relies on rug's `Integer::significant_bits`: zero for zero. rug panics
/// where the count does not fit a `u32`.
#[verifier::external_body]
pub(crate) fn nat_bit_length(x: &BigUint) -> (r: u32)
    requires
        bit_length(x@) <= u32::MAX,
    ensures
        r == bit_length(x@),
{
    Integer::from_digits(&x.limbs, Order::Lsf).significant_bits()
}

/// Relies on rug's `Integer::is_probably_prime` (GMP's `mpz_probab_prime_p`).
/// GMP seeds the test's bases itself, so the outcome depends on `x` and `reps`
/// alone; a `No` means that `x` is certainly not prime. rug panics on a
/// `reps` that does not fit a C `int`.
#[verifier::external_body]
pub(crate) fn nat_probably_prime(x: &BigUint, reps: u32) -> (r: bool)
    requires
        reps <= 0x7fff_ffff,
    ensures
        r == passes_primality_test(x@ as int, reps as nat),
        !r ==> !is_prime(x@ as int),
{
    match Integer::from_digits(&x.limbs, Order::Lsf).is_probably_prime(reps) {
        IsPrime::No => false,
        IsPrime::Probably => true,
        IsPrime::Yes => true,
    }
}

/// Relies on rug's `Integer::random_bits`: a value below `2^bits`.
#[verifier::external_body]
pub(crate) fn nat_random_bits(bits: u32, rng: &mut ThreadRandState) -> (r: BigUint)
    ensures
        r@ < pow2(bits as nat),
{
    let x = Integer::from(Integer::random_bits(bits, rng));
    BigUint { limbs: x.to_digits(Order::Lsf) }
}

/// Relies on rug's `Integer::random_below_ref`, which panics on a bound that
/// is not positive: a value in `[0, bound)`.
#[verifier::external_body]
pub(crate) fn nat_random_below(bound: &BigUint, rng: &mut ThreadRandState) -> (r: BigUint)
    requires
        bound@ > 0,
    ensures
        r@ < bound@,
{
    let b = Integer::from_digits(&bound.limbs, Order::Lsf);
    BigUint { limbs: Integer::from(b.random_below_ref(rng)).to_digits(Order::Lsf) }
}


// ---------------------------------------------------------------------------
// Signed integers
// ---------------------------------------------------------------------------

/// A signed integer: a sign and a magnitude. Zero may carry either sign.
#[derive(Clone, Debug)]
pub struct BigInt {
    negative: bool,
    magnitude: BigUint,
}

impl View for BigInt {
    type V = int;

    closed spec fn view(&self) -> int {
        if self.negative {
            -(self.magnitude@ as int)
        } else {
            self.magnitude@ as int
        }
    }
}

proof fn lemma_neg_mod(k: int, m: int)
    requires
        k >= 0,
        m > 0,
    ensures
        (-k) % m == (if k % m == 0 { 0 } else { m - k % m }),
{
    lemma_fundamental_div_mod(k, m);
    let q = k / m;
    let r = k % m;
    if r == 0 {
        assert(-k == (-q) * m + 0) by (nonlinear_arith)
            requires
                k == m * q + r,
                r == 0,
        ;
        lemma_fundamental_div_mod_converse(-k, m, -q, 0);
    } else {
        assert(-k == (-q - 1) * m + (m - r)) by (nonlinear_arith)
            requires
                k == m * q + r,
        ;
        lemma_fundamental_div_mod_converse(-k, m, -q - 1, m - r);
    }
}

impl BigInt {
    pub fn from_u64(v: u64) -> (r: BigInt)
        ensures
            r@ == v,
    {
        BigInt { negative: false, magnitude: BigUint::from_u64(v) }
    }

    pub fn from_i64(v: i64) -> (r: BigInt)
        ensures
            r@ == v,
    {
        if v < 0 {
            let m: u64 = (-(v as i128)) as u64;
            BigInt { negative: true, magnitude: BigUint::from_u64(m) }
        } else {
            BigInt { negative: false, magnitude: BigUint::from_u64(v as u64) }
        }
    }

    /// The non-negative integer `m`.
    pub fn from_biguint(m: BigUint) -> (r: BigInt)
        ensures
            r@ == m@,
    {
        BigInt { negative: false, magnitude: m }
    }

    /// The integer with the given sign and magnitude.
    pub fn from_sign_magnitude(negative: bool, m: BigUint) -> (r: BigInt)
        ensures
            r@ == (if negative { -(m@ as int) } else { m@ as int }),
    {
        BigInt { negative, magnitude: m }
    }

    /// The magnitude `|self|`.
    pub fn magnitude(&self) -> (r: &BigUint)
        ensures
            r@ == abs(self@),
    {
        &self.magnitude
    }

    pub fn is_negative(&self) -> (r: bool)
        ensures
            r == (self@ < 0),
    {
        if self.negative {
            let z = BigUint::from_u64(0);
            matches!(nat_cmp(&self.magnitude, &z), Ordering::Greater)
        } else {
            false
        }
    }

    pub fn neg(&self) -> (r: BigInt)
        ensures
            r@ == -self@,
    {
        BigInt { negative: !self.negative, magnitude: self.magnitude.clone_value() }
    }

    pub fn add(&self, o: &BigInt) -> (r: BigInt)
        ensures
            r@ == self@ + o@,
    {
        if self.negative == o.negative {
            BigInt { negative: self.negative, magnitude: nat_add(&self.magnitude, &o.magnitude) }
        } else if !matches!(nat_cmp(&self.magnitude, &o.magnitude), Ordering::Less) {
            BigInt { negative: self.negative, magnitude: nat_sub(&self.magnitude, &o.magnitude) }
        } else {
            BigInt { negative: o.negative, magnitude: nat_sub(&o.magnitude, &self.magnitude) }
        }
    }

    pub fn sub(&self, o: &BigInt) -> (r: BigInt)
        ensures
            r@ == self@ - o@,
    {
        self.add(&o.neg())
    }

    pub fn mul(&self, o: &BigInt) -> (r: BigInt)
        ensures
            r@ == self@ * o@,
    {
        let m = nat_mul(&self.magnitude, &o.magnitude);
        proof {
            let a = self.magnitude@ as int;
            let b = o.magnitude@ as int;
            assert((-a) * b == -(a * b)) by (nonlinear_arith);
            assert(a * (-b) == -(a * b)) by (nonlinear_arith);
            assert((-a) * (-b) == a * b) by (nonlinear_arith);
        }
        BigInt { negative: self.negative != o.negative, magnitude: m }
    }

    /// Numeric comparison.
    pub fn compare(&self, o: &BigInt) -> (r: Ordering)
        ensures
            (r == Ordering::Less) <==> self@ < o@,
            (r == Ordering::Equal) <==> self@ == o@,
            (r == Ordering::Greater) <==> self@ > o@,
    {
        let d = self.sub(o);
        if d.negative {
            let z = BigUint::from_u64(0);
            if matches!(nat_cmp(&d.magnitude, &z), Ordering::Equal) {
                Ordering::Equal
            } else {
                Ordering::Less
            }
        } else {
            let z = BigUint::from_u64(0);
            if matches!(nat_cmp(&d.magnitude, &z), Ordering::Equal) {
                Ordering::Equal
            } else {
                Ordering::Greater
            }
        }
    }

    pub fn lt(&self, o: &BigInt) -> (r: bool)
        ensures
            r == (self@ < o@),
    {
        matches!(self.compare(o), Ordering::Less)
    }

    pub fn le(&self, o: &BigInt) -> (r: bool)
        ensures
            r == (self@ <= o@),
    {
        !matches!(self.compare(o), Ordering::Greater)
    }

    pub fn equals(&self, o: &BigInt) -> (r: bool)
        ensures
            r == (self@ == o@),
    {
        matches!(self.compare(o), Ordering::Equal)
    }

    /// The Euclidean residue of `self` modulo a positive `m`, in `[0, m)`.
    pub fn modulo(&self, m: &BigInt) -> (r: BigInt)
        requires
            m@ > 0,
        ensures
            r@ == self@ % m@,
            0 <= r@ < m@,
    {
        let (_, rem) = nat_div_rem(&self.magnitude, &m.magnitude);
        let z = BigUint::from_u64(0);
        if !self.negative || matches!(nat_cmp(&rem, &z), Ordering::Equal) {
            proof {
                if self.negative {
                    lemma_neg_mod(self.magnitude@ as int, m@);
                }
            }
            BigInt { negative: false, magnitude: rem }
        } else {
            proof {
                lemma_neg_mod(self.magnitude@ as int, m@);
            }
            BigInt { negative: false, magnitude: nat_sub(&m.magnitude, &rem) }
        }
    }

    /// Floor quotient of a non-negative `self` by a positive `m`.
    pub fn div_floor(&self, m: &BigInt) -> (r: BigInt)
        requires
            self@ >= 0,
            m@ > 0,
        ensures
            r@ == self@ / m@,
    {
        let (q, _) = nat_div_rem(&self.magnitude, &m.magnitude);
        BigInt { negative: false, magnitude: q }
    }
}

impl BigUint {
    /// A copy with the same value.
    pub fn clone_value(&self) -> (r: BigUint)
        ensures
            r@ == self@,
    {
        BigUint { limbs: self.to_limbs() }
    }
}

impl BigInt {
    /// A copy with the same value.
    pub fn clone_value(&self) -> (r: BigInt)
        ensures
            r@ == self@,
    {
        BigInt { negative: self.negative, magnitude: self.magnitude.clone_value() }
    }
}

impl PartialEq for BigInt {
    fn eq(&self, o: &BigInt) -> (r: bool) {
        self.equals(o)
    }
}

impl vstd::std_specs::cmp::PartialEqSpecImpl for BigInt {
    open spec fn obeys_eq_spec() -> bool {
        true
    }

    open spec fn eq_spec(&self, o: &BigInt) -> bool {
        self@ == o@
    }
}

/// rug's random state (`rug::rand::ThreadRandState`), which the random
/// wrappers draw from; opaque here.
#[verifier::external_type_specification]
#[verifier::external_body]
pub struct ExThreadRandState<'a>(ThreadRandState<'a>);

} // verus!
