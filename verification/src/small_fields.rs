//! Small prime fields, in which gadgets are easy to follow by hand.

use vstd::prelude::*;

use crate::comparisons::{best_chunk_upto, comparable, compare_cost};
use crate::field::Field;
use crate::natural::bit_length;
use crate::primes::is_prime;
use crate::splitting::field_bits;
use crate::natural::Natural;

verus! {

/// The field of order 7.
#[derive(Debug)]
pub struct F7 {}

/// The field of order 11.
#[derive(Debug)]
pub struct F11 {}

/// The field of order 257, a Fermat prime.
#[derive(Debug)]
pub struct F257 {}

impl Field for F7 {
    open spec fn modulus() -> nat {
        7
    }

    fn order() -> (r: Natural) {
        proof {
            vstd::arithmetic::power2::lemma2_to64();
            crate::field::lemma_bit_length_bound(Self::modulus(), 9);
        }
        Natural::from_u128(7)
    }
}

impl Field for F11 {
    open spec fn modulus() -> nat {
        11
    }

    fn order() -> (r: Natural) {
        proof {
            vstd::arithmetic::power2::lemma2_to64();
            crate::field::lemma_bit_length_bound(Self::modulus(), 9);
        }
        Natural::from_u128(11)
    }
}

impl Field for F257 {
    open spec fn modulus() -> nat {
        257
    }

    fn order() -> (r: Natural) {
        proof {
            vstd::arithmetic::power2::lemma2_to64();
            crate::field::lemma_bit_length_bound(Self::modulus(), 9);
        }
        Natural::from_u128(257)
    }
}


/// No number in `2..=k` divides `p`, checked one candidate at a time.
proof fn lemma_no_small_divisor(p: nat, k: nat)
    requires
        forall|d: nat| 1 < d <= k ==> #[trigger] (p % d) != 0,
        (k + 1) * (k + 1) > p,
        p > 1,
    ensures
        is_prime(p),
{
    assert forall|d: nat| 1 < d < p implies #[trigger] (p % d) != 0 by {
        if p % d == 0 && d > k {
            let q = p / d;
            vstd::arithmetic::div_mod::lemma_fundamental_div_mod(p as int, d as int);
            assert(p == d * q);
            assert(q >= 1) by (nonlinear_arith)
                requires
                    p == d * q,
                    p > 1,
            ;
            assert(q > 1) by (nonlinear_arith)
                requires
                    p == d * q,
                    d < p,
                    q >= 1,
            ;
            assert(q <= k) by (nonlinear_arith)
                requires
                    p == d * q,
                    d > k,
                    (k + 1) * (k + 1) > p,
                    q >= 1,
            ;
            vstd::arithmetic::div_mod::lemma_mod_multiples_basic(d as int, q as int);
            assert((d * q) % q == 0) by {
                vstd::arithmetic::mul::lemma_mul_is_commutative(d as int, q as int);
            }
            assert(p % q == 0);
        }
    }
}

/// 7 is prime.
pub proof fn lemma_f7_prime()
    ensures
        is_prime(F7::modulus()),
{
    assert forall|d: nat| 1 < d <= 2 implies #[trigger] (7nat % d) != 0 by {
        assert(d == 2);
    }
    assert((2nat + 1) * (2nat + 1) > 7) by (nonlinear_arith);
    lemma_no_small_divisor(7, 2);
}

/// 11 is prime.
pub proof fn lemma_f11_prime()
    ensures
        is_prime(F11::modulus()),
{
    assert forall|d: nat| 1 < d <= 3 implies #[trigger] (11nat % d) != 0 by {
        assert(d == 2 || d == 3);
    }
    assert((3nat + 1) * (3nat + 1) > 11) by (nonlinear_arith);
    lemma_no_small_divisor(11, 3);
}

/// 257 is prime.
pub proof fn lemma_f257_prime()
    ensures
        is_prime(F257::modulus()),
{
    assert forall|d: nat| 1 < d <= 16 implies #[trigger] (257nat % d) != 0 by {
        assert(d == 2 || d == 3 || d == 4 || d == 5 || d == 6 || d == 7 || d == 8 || d == 9 || d == 10
            || d == 11 || d == 12 || d == 13 || d == 14 || d == 15 || d == 16);
    }
    assert((16nat + 1) * (16nat + 1) > 257) by (nonlinear_arith);
    lemma_no_small_divisor(257, 16);
}

/// F11's elements can be compared: its order is not a power of two, and the comparison gadget's
/// chunks fit.
pub proof fn lemma_f11_comparable()
    ensures
        comparable::<F11>(),
{
    reveal_with_fuel(bit_length, 6);
    reveal_with_fuel(best_chunk_upto, 4);
    assert(bit_length(11) == 4);
    assert(bit_length(10) == 4);
    assert(field_bits::<F11>() == 4);
    assert(compare_cost(4, 1) == 15);
    assert(compare_cost(4, 2) == 10);
    assert(compare_cost(4, 3) == 11);
    assert(best_chunk_upto(4, 3).0 == 2);
}

/// F257's elements can be compared: its order is not a power of two, and the comparison
/// gadget's chunks fit.
pub proof fn lemma_f257_comparable()
    ensures
        comparable::<F257>(),
{
    reveal_with_fuel(bit_length, 11);
    reveal_with_fuel(best_chunk_upto, 9);
    assert(bit_length(257) == 9);
    assert(bit_length(256) == 9);
    assert(field_bits::<F257>() == 9);
    assert(compare_cost(9, 1) == 30);
    assert(compare_cost(9, 2) == 19);
    assert(compare_cost(9, 3) == 14);
    assert(compare_cost(9, 4) == 15);
    assert(compare_cost(9, 5) == 13);
    assert(compare_cost(9, 6) == 14);
    assert(compare_cost(9, 7) == 15);
    assert(compare_cost(9, 8) == 16);
    assert(best_chunk_upto(9, 8).0 == 5);
}

} // verus!
