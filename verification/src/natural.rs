//! Arbitrary-precision natural numbers, held as base-2^32 digits (least significant first).
//!
//! The arithmetic itself is done by `num::BigUint`; each call goes through a small trusted
//! wrapper that converts digit vectors to and from `BigUint`.

use num::BigUint;
use num::Num;
use vstd::arithmetic::power::pow;
use vstd::arithmetic::power2::pow2;
use vstd::prelude::*;

verus! {

/// The value of a little-endian sequence of base-2^32 digits.
pub open spec fn digits_value(d: Seq<u32>) -> nat
    decreases d.len(),
{
    if d.len() == 0 {
        0
    } else {
        d[0] as nat + 4294967296 * digits_value(d.drop_first())
    }
}

/// A digit sequence is canonical when it has no most-significant zero digit.
pub open spec fn is_canonical(d: Seq<u32>) -> bool {
    d.len() == 0 || d.last() != 0
}

/// The number of bits needed to write `n` in binary (0 for 0).
pub open spec fn bit_length(n: nat) -> nat
    decreases n,
{
    if n == 0 {
        0
    } else {
        1 + bit_length(n / 2)
    }
}

/// Bit `i` of `n`, counting from the least significant bit.
pub open spec fn bit_of(n: nat, i: nat) -> bool {
    (n / pow2(i)) % 2 == 1
}

/// The value of a decimal digit character.
pub open spec fn decimal_digit(c: char) -> nat {
    (c as nat - '0' as nat) as nat
}

/// The text that `BigUint::from_str` reads after an optional single leading `+`.
pub open spec fn strip_leading_plus(s: Seq<char>) -> Seq<char> {
    if s.len() > 0 && s[0] == '+' && !(s.len() > 1 && s[1] == '+') {
        s.drop_first()
    } else {
        s
    }
}

/// Decimal text accepted by `BigUint::from_str`: non-empty, not starting with `_`, and made of
/// the digits 0-9 and `_` separators.
pub open spec fn is_decimal_text(t: Seq<char>) -> bool {
    &&& t.len() > 0
    &&& t[0] != '_'
    &&& forall|i: int| 0 <= i < t.len() ==> ('0' <= #[trigger] t[i] <= '9' || t[i] == '_')
}

/// The value of decimal text, ignoring `_` separators.
pub open spec fn decimal_value(t: Seq<char>) -> nat
    decreases t.len(),
{
    if t.len() == 0 {
        0
    } else if t.last() == '_' {
        decimal_value(t.drop_last())
    } else {
        decimal_value(t.drop_last()) * 10 + decimal_digit(t.last())
    }
}

/// Converts a digit slice into a `BigUint`, runs `num`'s addition, and converts back.
///
/// Trusted: `BigUint + BigUint` returns the exact sum, and `to_u32_digits` returns the
/// normalized little-endian digits, with no most-significant zero.
#[verifier::external_body]
fn digits_add(a: &[u32], b: &[u32]) -> (r: Vec<u32>)
    ensures
        digits_value(r@) == digits_value(a@) + digits_value(b@),
        is_canonical(r@),
{
    (BigUint::from_slice(a) + BigUint::from_slice(b)).to_u32_digits()
}

/// `BigUint` subtraction. Trusted: exact difference, normalized digits. `num` panics when the
/// result would be negative, which `requires` excludes.
#[verifier::external_body]
fn digits_sub(a: &[u32], b: &[u32]) -> (r: Vec<u32>)
    requires
        digits_value(a@) >= digits_value(b@),
    ensures
        digits_value(r@) == digits_value(a@) - digits_value(b@),
        is_canonical(r@),
{
    (BigUint::from_slice(a) - BigUint::from_slice(b)).to_u32_digits()
}

/// `BigUint` multiplication. Trusted: exact product, normalized digits.
#[verifier::external_body]
fn digits_mul(a: &[u32], b: &[u32]) -> (r: Vec<u32>)
    ensures
        digits_value(r@) == digits_value(a@) * digits_value(b@),
        is_canonical(r@),
{
    (BigUint::from_slice(a) * BigUint::from_slice(b)).to_u32_digits()
}

/// `BigUint` floor division. Trusted: the floor quotient, normalized digits. `num` panics on a
/// zero divisor, which `requires` excludes.
#[verifier::external_body]
fn digits_div(a: &[u32], b: &[u32]) -> (r: Vec<u32>)
    requires
        digits_value(b@) > 0,
    ensures
        digits_value(r@) == digits_value(a@) / digits_value(b@),
        is_canonical(r@),
{
    (BigUint::from_slice(a) / BigUint::from_slice(b)).to_u32_digits()
}

/// `BigUint` remainder. Trusted: the remainder of floor division, normalized digits. `num`
/// panics on a zero divisor, which `requires` excludes.
#[verifier::external_body]
fn digits_rem(a: &[u32], b: &[u32]) -> (r: Vec<u32>)
    requires
        digits_value(b@) > 0,
    ensures
        digits_value(r@) == digits_value(a@) % digits_value(b@),
        is_canonical(r@),
{
    (BigUint::from_slice(a) % BigUint::from_slice(b)).to_u32_digits()
}

/// `BigUint::modpow`. Trusted: `(base ^ exponent) % modulus`, normalized digits. `num` panics
/// on a zero modulus, which `requires` excludes.
#[verifier::external_body]
fn digits_modpow(base: &[u32], exponent: &[u32], modulus: &[u32]) -> (r: Vec<u32>)
    requires
        digits_value(modulus@) > 0,
    ensures
        digits_value(r@) == pow(digits_value(base@) as int, digits_value(exponent@)) % (
        digits_value(modulus@) as int),
        is_canonical(r@),
{
    BigUint::from_slice(base).modpow(&BigUint::from_slice(exponent), &BigUint::from_slice(
        modulus,
    )).to_u32_digits()
}

/// `BigUint < BigUint`. Trusted: the numeric order of the two values.
#[verifier::external_body]
fn digits_lt(a: &[u32], b: &[u32]) -> (r: bool)
    ensures
        r == (digits_value(a@) < digits_value(b@)),
{
    BigUint::from_slice(a) < BigUint::from_slice(b)
}

/// `BigUint::bits`. Trusted: the fewest bits that express the value (0 for zero).
#[verifier::external_body]
fn digits_bits(a: &[u32]) -> (r: u64)
    ensures
        r as nat == bit_length(digits_value(a@)),
{
    BigUint::from_slice(a).bits()
}

/// `BigUint::bit`. Trusted: whether bit `i` (from the least significant end) is set; bits past
/// the end are unset.
#[verifier::external_body]
fn digits_bit(a: &[u32], i: u64) -> (r: bool)
    ensures
        r == bit_of(digits_value(a@), i as nat),
{
    BigUint::from_slice(a).bit(i)
}

/// `BigUint << usize`. Trusted: multiplication by `2^i`, normalized digits.
#[verifier::external_body]
fn digits_shl(a: &[u32], i: usize) -> (r: Vec<u32>)
    ensures
        digits_value(r@) == digits_value(a@) * pow2(i as nat),
        is_canonical(r@),
{
    (BigUint::from_slice(a) << i).to_u32_digits()
}

/// `BigUint::from(u128)`. Trusted: the same value, normalized digits.
#[verifier::external_body]
fn digits_from_u128(n: u128) -> (r: Vec<u32>)
    ensures
        digits_value(r@) == n as nat,
        is_canonical(r@),
{
    BigUint::from(n).to_u32_digits()
}

/// `BigUint::new(Vec<u32>)`. Trusted: the value that the digits denote, normalized.
#[verifier::external_body]
fn digits_normalize(d: Vec<u32>) -> (r: Vec<u32>)
    ensures
        digits_value(r@) == digits_value(d@),
        is_canonical(r@),
{
    BigUint::new(d).to_u32_digits()
}

/// `BigUint::from_str_radix(s, 10)`. Trusted: it accepts exactly the decimal text described by
/// `is_decimal_text` after one optional leading `+`, and yields its value, normalized.
#[verifier::external_body]
fn digits_from_decimal(s: &str) -> (r: Option<Vec<u32>>)
    ensures
        r is Some <==> is_decimal_text(strip_leading_plus(s@)),
        r matches Some(d) ==> digits_value(d@) == decimal_value(strip_leading_plus(s@))
            && is_canonical(d@),
{
    match BigUint::from_str_radix(s, 10) {
        Ok(n) => Some(n.to_u32_digits()),
        Err(_) => None,
    }
}

/// Decimal text in canonical form: one or more digits 0-9, with no leading zero unless the text
/// is "0".
pub open spec fn is_canonical_decimal(t: Seq<char>) -> bool {
    &&& t.len() > 0
    &&& forall|i: int| 0 <= i < t.len() ==> '0' <= #[trigger] t[i] <= '9'
    &&& t.len() > 1 ==> t[0] != '0'
}

/// `BigUint::to_str_radix(10)`. Trusted: the canonical decimal text of the value.
#[verifier::external_body]
fn digits_to_decimal(a: &[u32]) -> (r: String)
    ensures
        is_canonical_decimal(r@),
        decimal_value(r@) == digits_value(a@),
{
    BigUint::from_slice(a).to_str_radix(10)
}

/// The value of a little-endian sequence of bytes.
pub open spec fn le_bytes_value(b: Seq<u8>) -> nat
    decreases b.len(),
{
    if b.len() == 0 {
        0
    } else {
        le_bytes_value(b.drop_last()) + (b.last() as nat) * pow2((8 * (b.len() - 1)) as nat)
    }
}

/// `BigUint::to_bytes_le`. Trusted: the little-endian bytes of the value, at least one, and with
/// no most-significant zero byte except for zero itself, which is `[0]`.
#[verifier::external_body]
fn digits_to_bytes_le(a: &[u32]) -> (r: Vec<u8>)
    ensures
        le_bytes_value(r@) == digits_value(a@),
        r@.len() >= 1,
        r@.len() > 1 ==> r@.last() != 0,
{
    BigUint::from_slice(a).to_bytes_le()
}

/// A natural number of any size.
#[derive(Debug)]
pub struct Natural {
    digits: Vec<u32>,
}

impl View for Natural {
    type V = nat;

    closed spec fn view(&self) -> nat {
        digits_value(self.digits@)
    }
}

impl Natural {
    /// The digits are canonical, so that equal values have equal representations.
    #[verifier::type_invariant]
    closed spec fn inv(&self) -> bool {
        is_canonical(self.digits@)
    }

    /// The little-endian base-2^32 digits.
    pub closed spec fn spec_digits(&self) -> Seq<u32> {
        self.digits@
    }

    pub fn zero() -> (r: Natural)
        ensures
            r@ == 0,
    {
        Natural { digits: Vec::new() }
    }

    pub fn from_u128(n: u128) -> (r: Natural)
        ensures
            r@ == n as nat,
    {
        Natural { digits: digits_from_u128(n) }
    }

    /// Builds a natural number from little-endian base-2^32 digits, which need not be canonical.
    pub fn from_digits(digits: Vec<u32>) -> (r: Natural)
        ensures
            r@ == digits_value(digits@),
    {
        Natural { digits: digits_normalize(digits) }
    }

    /// Parses decimal text the way `BigUint::from_str` does.
    pub fn from_decimal(s: &str) -> (r: Option<Natural>)
        ensures
            r is Some <==> is_decimal_text(strip_leading_plus(s@)),
            r matches Some(n) ==> n@ == decimal_value(strip_leading_plus(s@)),
    {
        match digits_from_decimal(s) {
            Some(d) => Some(Natural { digits: d }),
            None => None,
        }
    }

    /// The value in decimal, as `BigUint` prints it.
    pub fn to_decimal(&self) -> (r: String)
        ensures
            is_canonical_decimal(r@),
            decimal_value(r@) == self@,
    {
        digits_to_decimal(self.digits.as_slice())
    }

    /// The little-endian bytes: at least one, and no most-significant zero byte except for zero
    /// itself.
    pub fn to_bytes_le(&self) -> (r: Vec<u8>)
        ensures
            le_bytes_value(r@) == self@,
            r@.len() >= 1,
            r@.len() > 1 ==> r@.last() != 0,
    {
        digits_to_bytes_le(self.digits.as_slice())
    }

    /// The little-endian base-2^32 digits, canonical.
    pub fn digits(&self) -> (r: &Vec<u32>)
        ensures
            digits_value(r@) == self@,
            is_canonical(r@),
    {
        proof {
            use_type_invariant(self);
        }
        &self.digits
    }

    pub fn add(&self, rhs: &Natural) -> (r: Natural)
        ensures
            r@ == self@ + rhs@,
    {
        Natural { digits: digits_add(self.digits.as_slice(), rhs.digits.as_slice()) }
    }

    pub fn sub(&self, rhs: &Natural) -> (r: Natural)
        requires
            self@ >= rhs@,
        ensures
            r@ == self@ - rhs@,
    {
        Natural { digits: digits_sub(self.digits.as_slice(), rhs.digits.as_slice()) }
    }

    pub fn mul(&self, rhs: &Natural) -> (r: Natural)
        ensures
            r@ == self@ * rhs@,
    {
        Natural { digits: digits_mul(self.digits.as_slice(), rhs.digits.as_slice()) }
    }

    pub fn div(&self, rhs: &Natural) -> (r: Natural)
        requires
            rhs@ > 0,
        ensures
            r@ == self@ / rhs@,
    {
        Natural { digits: digits_div(self.digits.as_slice(), rhs.digits.as_slice()) }
    }

    pub fn rem(&self, rhs: &Natural) -> (r: Natural)
        requires
            rhs@ > 0,
        ensures
            r@ == self@ % rhs@,
    {
        Natural { digits: digits_rem(self.digits.as_slice(), rhs.digits.as_slice()) }
    }

    /// `(self ^ exponent) % modulus`.
    pub fn modpow(&self, exponent: &Natural, modulus: &Natural) -> (r: Natural)
        requires
            modulus@ > 0,
        ensures
            r@ == pow(self@ as int, exponent@) % (modulus@ as int),
    {
        Natural {
            digits: digits_modpow(
                self.digits.as_slice(),
                exponent.digits.as_slice(),
                modulus.digits.as_slice(),
            ),
        }
    }

    pub fn lt(&self, rhs: &Natural) -> (r: bool)
        ensures
            r == (self@ < rhs@),
    {
        digits_lt(self.digits.as_slice(), rhs.digits.as_slice())
    }

    pub fn le(&self, rhs: &Natural) -> (r: bool)
        ensures
            r == (self@ <= rhs@),
    {
        !digits_lt(rhs.digits.as_slice(), self.digits.as_slice())
    }

    pub fn equals(&self, rhs: &Natural) -> (r: bool)
        ensures
            r == (self@ == rhs@),
    {
        !digits_lt(self.digits.as_slice(), rhs.digits.as_slice()) && !digits_lt(
            rhs.digits.as_slice(),
            self.digits.as_slice(),
        )
    }

    pub fn is_zero(&self) -> (r: bool)
        ensures
            r == (self@ == 0),
    {
        proof {
            use_type_invariant(self);
            lemma_canonical_zero(self.digits@);
        }
        self.digits.len() == 0
    }

    /// The fewest bits that express this number.
    pub fn bits(&self) -> (r: u64)
        ensures
            r as nat == bit_length(self@),
    {
        digits_bits(self.digits.as_slice())
    }

    /// Bit `i`, counting from the least significant bit.
    pub fn bit(&self, i: u64) -> (r: bool)
        ensures
            r == bit_of(self@, i as nat),
    {
        digits_bit(self.digits.as_slice(), i)
    }

    /// `self * 2^i`.
    pub fn shl(&self, i: usize) -> (r: Natural)
        ensures
            r@ == self@ * pow2(i as nat),
    {
        Natural { digits: digits_shl(self.digits.as_slice(), i) }
    }

    pub fn copy(&self) -> (r: Natural)
        ensures
            r@ == self@,
            r.spec_digits() == self.spec_digits(),
    {
        proof {
            use_type_invariant(self);
        }
        let d = self.digits.clone();
        assert(d@ =~= self.digits@);
        Natural { digits: d }
    }
}

/// A canonical digit sequence is empty exactly when its value is zero.
pub proof fn lemma_canonical_zero(d: Seq<u32>)
    requires
        is_canonical(d),
    ensures
        (digits_value(d) == 0) <==> (d.len() == 0),
    decreases d.len(),
{
    if d.len() > 0 {
        let t = d.drop_first();
        if t.len() > 0 {
            assert(t.last() == d.last());
            lemma_canonical_zero(t);
        } else {
            assert(d[0] == d.last());
        }
    }
}

} // verus!
