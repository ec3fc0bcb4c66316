//! Prime fields and their elements.

use core::marker::PhantomData;

use vstd::arithmetic::div_mod::*;
use vstd::arithmetic::power::pow;
use vstd::arithmetic::power2::pow2;
use vstd::prelude::*;

use crate::natural::{
    bit_length, bit_of, decimal_value, is_canonical_decimal, is_decimal_text, strip_leading_plus, Natural,
};
use crate::primes::is_prime;

verus! {

/// A prime order field.
pub trait Field: Sized {
    /// The order of this field.
    spec fn modulus() -> nat;

    /// The (prime) order of this field, which must exceed 1 and have at most `u32::MAX` bits.
    fn order() -> (r: Natural)
        ensures
            r@ == Self::modulus(),
            r@ > 1,
            bit_length(r@) <= u32::MAX,
    ;
}

/// The scalar field of the BN128 curve.
#[derive(Debug)]
pub struct Bn128 {}

/// The order of the BN128 scalar field.
pub open spec fn bn128_order() -> nat {
    21888242871839275222246405745257275088548364400416034343698204186575808495617nat
}

impl Field for Bn128 {
    open spec fn modulus() -> nat {
        bn128_order()
    }

    fn order() -> (r: Natural) {
        let digits: Vec<u32> = vec![
            4026531841u32,
            1138881939u32,
            2042196113u32,
            674490440u32,
            2172737629u32,
            3092268470u32,
            3778125865u32,
            811880050u32,
        ];
        proof {
            assert(crate::natural::digits_value(digits@) == bn128_order()) by {
                reveal_with_fuel(crate::natural::digits_value, 9);
            }
            lemma_pow2_256();
            lemma_bit_length_bound(bn128_order(), 256);
        }
        Natural::from_digits(digits)
    }
}

/// The scalar field of the BLS12-381 curve.
#[derive(Debug)]
pub struct Bls12_381 {}

/// The order of the BLS12-381 scalar field.
pub open spec fn bls12_381_order() -> nat {
    52435875175126190479447740508185965837690552500527637822603658699938581184513nat
}

impl Field for Bls12_381 {
    open spec fn modulus() -> nat {
        bls12_381_order()
    }

    fn order() -> (r: Natural) {
        let digits: Vec<u32> = vec![
            1u32,
            4294967295u32,
            4294859774u32,
            1404937218u32,
            161601541u32,
            859428872u32,
            698187080u32,
            1944954707u32,
        ];
        proof {
            assert(crate::natural::digits_value(digits@) == bls12_381_order()) by {
                reveal_with_fuel(crate::natural::digits_value, 9);
            }
            lemma_pow2_256();
            lemma_bit_length_bound(bls12_381_order(), 256);
        }
        Natural::from_digits(digits)
    }
}

/// The value of `2^256`.
pub proof fn lemma_pow2_256()
    ensures
        pow2(256) == 115792089237316195423570985008687907853269984665640564039457584007913129639936nat,
{
    vstd::arithmetic::power2::lemma2_to64();
    vstd::arithmetic::power2::lemma_pow2_adds(64, 64);
    assert(pow2(128) == 340282366920938463463374607431768211456nat);
    vstd::arithmetic::power2::lemma_pow2_adds(128, 128);
}

/// A value below `2^k` has at most `k` bits.
pub proof fn lemma_bit_length_bound(n: nat, k: nat)
    requires
        n < pow2(k),
    ensures
        bit_length(n) <= k,
    decreases n,
{
    if n > 0 {
        if k == 0 {
            vstd::arithmetic::power2::lemma2_to64();
        } else {
            vstd::arithmetic::power2::lemma_pow2_unfold(k);
            lemma_bit_length_bound(n / 2, (k - 1) as nat);
        }
    }
}

/// `bit_length` is monotonic.
pub proof fn lemma_bit_length_monotonic(a: nat, b: nat)
    requires
        a <= b,
    ensures
        bit_length(a) <= bit_length(b),
    decreases b,
{
    if a > 0 {
        lemma_bit_length_monotonic(a / 2, b / 2);
    }
}


/// `(a + b) mod p`.
pub open spec fn field_add(a: nat, b: nat, p: nat) -> nat {
    (a + b) % p
}

/// `(a - b) mod p`, as a value in `[0, p)`.
pub open spec fn field_sub(a: nat, b: nat, p: nat) -> nat {
    ((a - b) % (p as int)) as nat
}

/// `-a mod p`, as a value in `[0, p)`.
pub open spec fn field_neg(a: nat, p: nat) -> nat {
    field_sub(0, a, p)
}

/// `(a * b) mod p`.
pub open spec fn field_mul(a: nat, b: nat, p: nat) -> nat {
    (a * b) % p
}

/// `a^e mod p`.
pub open spec fn field_pow(a: nat, e: nat, p: nat) -> nat {
    (pow(a as int, e) % (p as int)) as nat
}

/// `(a * i) * b = a` when `b * i = 1`.
pub proof fn lemma_quotient_times_divisor(a: nat, b: nat, i: nat, p: nat)
    requires
        p > 1,
        a < p,
        field_mul(b, i, p) == 1,
    ensures
        field_mul(field_mul(a, i, p), b, p) == a,
{
    let pi = p as int;
    lemma_mul_mod_noop_left((a * i) as int, b as int, pi);
    assert((a * i) * b == a * (b * i)) by (nonlinear_arith);
    lemma_mul_mod_noop_right(a as int, (b * i) as int, pi);
    assert(a * 1 == a);
    lemma_small_mod(a, p);
}

/// The greatest common divisor, by the Euclidean algorithm.
pub open spec fn spec_gcd(a: nat, b: nat) -> nat
    decreases b,
{
    if b == 0 {
        a
    } else {
        spec_gcd(b, a % b)
    }
}

/// For `0 <= a < p`, `-a mod p` is `0` when `a` is zero and `p - a` otherwise.
pub proof fn lemma_neg_value(a: nat, p: nat)
    requires
        a < p,
    ensures
        field_neg(a, p) == if a == 0 { 0 } else { (p - a) as nat },
{
    if a == 0 {
        lemma_small_mod(0, p);
    } else {
        lemma_small_mod((p - a) as nat, p);
        lemma_mod_add_multiples_vanish(-(a as int), p as int);
    }
}

/// `(a + b) - a = b` in `F_p`.
pub proof fn lemma_add_sub_cancel(a: nat, b: nat, p: nat)
    requires
        0 < p,
        a < p,
        b < p,
    ensures
        field_sub(field_add(a, b, p), a, p) == b,
        field_sub(field_add(a, b, p), b, p) == a,
{
    vstd::arithmetic::div_mod::lemma_sub_mod_noop((a + b) as int, a as int, p as int);
    vstd::arithmetic::div_mod::lemma_sub_mod_noop((a + b) as int, b as int, p as int);
    vstd::arithmetic::div_mod::lemma_small_mod(a, p);
    vstd::arithmetic::div_mod::lemma_small_mod(b, p);
}

/// Subtraction is addition of the negation.
pub proof fn lemma_sub_is_add_neg(a: nat, b: nat, p: nat)
    requires
        p > 0,
    ensures
        field_add(a, field_neg(b, p), p) == field_sub(a, b, p),
{
    let n = (0 - b) % (p as int);
    lemma_mod_bound(0 - b, p as int);
    lemma_add_mod_noop(a as int, 0 - b, p as int);
    lemma_mod_twice(0 - b, p as int);
    lemma_add_mod_noop(a as int, n, p as int);
}

/// An element of a prime field, held as its canonical representative in `[0, |F|)`.
#[derive(Debug)]
pub struct Element<F: Field> {
    n: Natural,
    phantom: PhantomData<F>,
}

impl<F: Field> View for Element<F> {
    type V = nat;

    closed spec fn view(&self) -> nat {
        self.n@
    }
}

impl<F: Field> Element<F> {
    /// Every element is below the field order, which exceeds 1.
    #[verifier::type_invariant]
    pub open spec fn inv(&self) -> bool {
        1 < F::modulus() && self@ < F::modulus()
    }

    /// The element with the given value, which must be below the field order.
    pub fn from_natural(n: Natural) -> (r: Self)
        requires
            n@ < F::modulus(),
        ensures
            r@ == n@,
    {
        let _ = F::order();
        Element { n, phantom: PhantomData }
    }

    pub fn from_u128(n: u128) -> (r: Self)
        requires
            n < F::modulus(),
        ensures
            r@ == n,
    {
        Self::from_natural(Natural::from_u128(n))
    }

    pub fn from_usize(n: usize) -> (r: Self)
        requires
            n < F::modulus(),
        ensures
            r@ == n,
    {
        Self::from_u128(n as u128)
    }

    pub fn from_bool(b: bool) -> (r: Self)
        ensures
            r@ == if b { 1nat } else { 0nat },
    {
        let _ = F::order();
        Self::from_u128(if b { 1 } else { 0 })
    }

    /// Parses a decimal value, which must be below the field order (`None` otherwise, or when
    /// the text is not decimal).
    pub fn from_str(s: &str) -> (r: Option<Self>)
        ensures
            r is Some <==> is_decimal_text(strip_leading_plus(s@))
                && decimal_value(strip_leading_plus(s@)) < F::modulus(),
            r matches Some(e) ==> e@ == decimal_value(strip_leading_plus(s@)),
    {
        match Natural::from_decimal(s) {
            Some(n) => {
                let p = F::order();
                if n.lt(&p) {
                    Some(Self::from_natural(n))
                } else {
                    None
                }
            },
            None => None,
        }
    }

    pub fn zero() -> (r: Self)
        ensures
            r@ == 0,
    {
        let _ = F::order();
        Self::from_natural(Natural::zero())
    }

    pub fn one() -> (r: Self)
        ensures
            r@ == 1,
    {
        let _ = F::order();
        Self::from_u128(1)
    }

    /// The largest element, `|F| - 1`.
    pub fn largest_element() -> (r: Self)
        ensures
            r@ == F::modulus() - 1,
    {
        let p = F::order();
        let one = Natural::from_u128(1);
        Self::from_natural(p.sub(&one))
    }

    /// The element's value in decimal, as it is printed.
    pub fn to_decimal(&self) -> (r: String)
        ensures
            is_canonical_decimal(r@),
            decimal_value(r@) == self@,
    {
        self.n.to_decimal()
    }

    /// The value as a natural number.
    pub fn to_biguint(&self) -> (r: &Natural)
        ensures
            r@ == self@,
    {
        &self.n
    }

    pub fn copy(&self) -> (r: Self)
        ensures
            r@ == self@,
    {
        proof {
            use_type_invariant(self);
        }
        Element { n: self.n.copy(), phantom: PhantomData }
    }

    pub fn is_zero(&self) -> (r: bool)
        ensures
            r == (self@ == 0),
    {
        self.n.is_zero()
    }

    pub fn is_nonzero(&self) -> (r: bool)
        ensures
            r == (self@ != 0),
    {
        !self.n.is_zero()
    }

    pub fn is_one(&self) -> (r: bool)
        ensures
            r == (self@ == 1),
    {
        let one = Natural::from_u128(1);
        self.n.equals(&one)
    }

    /// Value equality.
    pub fn equals(&self, rhs: &Self) -> (r: bool)
        ensures
            r == (self@ == rhs@),
    {
        self.n.equals(&rhs.n)
    }

    /// The order of the canonical representatives.
    pub fn lt(&self, rhs: &Self) -> (r: bool)
        ensures
            r == (self@ < rhs@),
    {
        self.n.lt(&rhs.n)
    }

    pub fn le(&self, rhs: &Self) -> (r: bool)
        ensures
            r == (self@ <= rhs@),
    {
        self.n.le(&rhs.n)
    }

    pub fn add(&self, rhs: &Self) -> (r: Self)
        ensures
            r@ == field_add(self@, rhs@, F::modulus()),
    {
        let p = F::order();
        let sum = self.n.add(&rhs.n);
        let reduced = sum.rem(&p);
        proof {
            lemma_mod_bound((self@ + rhs@) as int, F::modulus() as int);
        }
        Self::from_natural(reduced)
    }

    pub fn neg(&self) -> (r: Self)
        ensures
            r@ == field_neg(self@, F::modulus()),
    {
        proof {
            use_type_invariant(self);
            lemma_neg_value(self@, F::modulus());
        }
        if self.is_zero() {
            Self::zero()
        } else {
            let p = F::order();
            Self::from_natural(p.sub(&self.n))
        }
    }

    pub fn sub(&self, rhs: &Self) -> (r: Self)
        ensures
            r@ == field_sub(self@, rhs@, F::modulus()),
    {
        let n = rhs.neg();
        proof {
            use_type_invariant(rhs);
            lemma_sub_is_add_neg(self@, rhs@, F::modulus());
        }
        self.add(&n)
    }

    pub fn mul(&self, rhs: &Self) -> (r: Self)
        ensures
            r@ == field_mul(self@, rhs@, F::modulus()),
    {
        let p = F::order();
        let prod = self.n.mul(&rhs.n);
        let reduced = prod.rem(&p);
        proof {
            lemma_mod_bound((self@ * rhs@) as int, F::modulus() as int);
        }
        Self::from_natural(reduced)
    }

    /// `self^power`, where the exponent is the canonical representative of `power`.
    pub fn exponentiation(&self, power: &Self) -> (r: Self)
        ensures
            r@ == field_pow(self@, power@, F::modulus()),
    {
        let p = F::order();
        let result = self.n.modpow(&power.n, &p);
        proof {
            lemma_mod_bound(pow(self@ as int, power@), F::modulus() as int);
        }
        Self::from_natural(result)
    }

    /// `self^(|F| - 2)`, which by Fermat's little theorem is the multiplicative inverse of a
    /// non-zero element of a prime field. Zero has no inverse.
    pub fn multiplicative_inverse(&self) -> (r: Self)
        requires
            self@ != 0,
        ensures
            r@ == field_pow(self@, (F::modulus() - 2) as nat, F::modulus()),
            is_prime(F::modulus()) ==> field_mul(self@, r@, F::modulus()) == 1,
    {
        let p = F::order();
        let two = Natural::from_u128(2);
        let exponent = p.sub(&two);
        let result = self.n.modpow(&exponent, &p);
        proof {
            lemma_mod_bound(pow(self@ as int, exponent@), F::modulus() as int);
            use_type_invariant(self);
            if is_prime(F::modulus()) {
                crate::fermat::lemma_inverse(F::modulus(), self@);
            }
        }
        Self::from_natural(result)
    }

    /// Like `multiplicative_inverse`, except that zero is mapped to itself.
    pub fn multiplicative_inverse_or_zero(&self) -> (r: Self)
        ensures
            self@ == 0 ==> r@ == 0,
            self@ != 0 ==> r@ == field_pow(self@, (F::modulus() - 2) as nat, F::modulus()),
            self@ != 0 && is_prime(F::modulus()) ==> field_mul(self@, r@, F::modulus()) == 1,
    {
        if self.is_zero() {
            Self::zero()
        } else {
            self.multiplicative_inverse()
        }
    }

    /// Division by a non-zero element, i.e. multiplication by its inverse.
    pub fn div(&self, rhs: &Self) -> (r: Self)
        requires
            rhs@ != 0,
        ensures
            r@ == field_mul(
                self@,
                field_pow(rhs@, (F::modulus() - 2) as nat, F::modulus()),
                F::modulus(),
            ),
            is_prime(F::modulus()) ==> field_mul(r@, rhs@, F::modulus()) == self@,
    {
        let inv = rhs.multiplicative_inverse();
        let r = self.mul(&inv);
        proof {
            use_type_invariant(self);
            if is_prime(F::modulus()) {
                lemma_quotient_times_divisor(self@, rhs@, inv@, F::modulus());
            }
        }
        r
    }

    /// Floor division of the canonical representatives, by a non-zero divisor.
    pub fn integer_division(&self, rhs: &Self) -> (r: Self)
        requires
            rhs@ != 0,
        ensures
            r@ == self@ / rhs@,
    {
        proof {
            use_type_invariant(self);
        }
        let q = self.n.div(&rhs.n);
        proof {
            lemma_div_is_ordered_by_denominator(self@ as int, 1, rhs@ as int);
        }
        Self::from_natural(q)
    }

    /// The remainder of the canonical representatives, by a non-zero divisor.
    pub fn integer_modulus(&self, rhs: &Self) -> (r: Self)
        requires
            rhs@ != 0,
        ensures
            r@ == self@ % rhs@,
    {
        proof {
            use_type_invariant(self);
            use_type_invariant(rhs);
            lemma_mod_bound(self@ as int, rhs@ as int);
        }
        Self::from_natural(self.n.rem(&rhs.n))
    }

    /// The greatest common divisor of the canonical representatives, by the Euclidean algorithm.
    pub fn gcd(&self, rhs: &Self) -> (r: Self)
        ensures
            r@ == spec_gcd(self@, rhs@),
        decreases rhs@,
    {
        if rhs.is_zero() {
            self.copy()
        } else {
            let m = self.integer_modulus(rhs);
            proof {
                lemma_mod_bound(self@ as int, rhs@ as int);
            }
            rhs.gcd(&m)
        }
    }

    /// The number of bits needed to encode every element of `F`.
    pub fn max_bits() -> (r: usize)
        ensures
            r == bit_length((F::modulus() - 1) as nat),
            1 < F::modulus(),
    {
        let l = Self::largest_element();
        proof {
            use_type_invariant(&l);
        }
        l.bits()
    }

    /// The number of bits needed to encode this element.
    pub fn bits(&self) -> (r: usize)
        ensures
            r == bit_length(self@),
    {
        let p = F::order();
        proof {
            use_type_invariant(self);
            lemma_bit_length_monotonic(self@, F::modulus());
        }
        self.n.bits() as usize
    }

    /// The `i`th least significant bit; `false` past the most significant bit.
    pub fn bit(&self, i: usize) -> (r: bool)
        ensures
            r == bit_of(self@, i as nat),
    {
        self.n.bit(i as u64)
    }

    /// `self * 2^i`, which must be below the field order.
    pub fn shl(&self, i: usize) -> (r: Self)
        requires
            self@ * pow2(i as nat) < F::modulus(),
        ensures
            r@ == self@ * pow2(i as nat),
    {
        Self::from_natural(self.n.shl(i))
    }
}

impl<F: Field> Clone for Element<F> {
    fn clone(&self) -> (r: Self)
        ensures
            r@ == self@,
    {
        self.copy()
    }
}

impl<F: Field> PartialEq for Element<F> {
    fn eq(&self, other: &Self) -> (r: bool) {
        self.equals(other)
    }
}

impl<F: Field> vstd::std_specs::cmp::PartialEqSpecImpl for Element<F> {
    open spec fn obeys_eq_spec() -> bool {
        true
    }

    open spec fn eq_spec(&self, other: &Self) -> bool {
        self@ == other@
    }
}

impl<F: Field> Eq for Element<F> {}

} // verus!
