//! Random field elements drawn from ChaCha20.

use num::bigint::RandBigInt;
use rand::SeedableRng;
use rand_chacha::ChaCha20Rng;
use vstd::arithmetic::power2::pow2;
use vstd::prelude::*;

use crate::field::{Element, Field};
use crate::natural::{digits_value, Natural};

verus! {

/// The ChaCha20 generator of `rand_chacha`, carried through opaquely.
#[verifier::external_type_specification]
#[verifier::external_body]
pub struct ExChaCha20Rng(ChaCha20Rng);

/// `ChaCha20Rng::seed_from_u64`: a generator seeded with `seed`. Nothing is stated of its state.
#[verifier::external_body]
pub fn chacha20_seeded(seed: u64) -> (r: ChaCha20Rng) {
    ChaCha20Rng::seed_from_u64(seed)
}

/// `RandBigInt::gen_biguint` on a ChaCha20 generator, returned as base-2^32 digits. Trusted: the
/// number has at most `bits` bits (num fills `bits` random bits and clears the rest); which number
/// comes out depends on the generator's state, of which nothing is stated.
#[verifier::external_body]
fn chacha20_gen_biguint(rng: &mut ChaCha20Rng, bits: u64) -> (r: Vec<u32>)
    ensures
        digits_value(r@) < pow2(bits as nat),
{
    rng.gen_biguint(bits).to_u32_digits()
}

/// The number of draws after which `random` gives up. Each draw is below the field order with
/// probability above one half, so giving up has probability below `2^-256`.
pub const RANDOM_ATTEMPTS: u32 = 256;

impl<F: Field> Element<F> {
    /// The element that one draw gives, from its base-2^32 digits (least significant first):
    /// `Some` exactly when the drawn number is below the field order.
    pub fn from_draw(digits: Vec<u32>) -> (r: Option<Self>)
        ensures
            r is Some <==> digits_value(digits@) < F::modulus(),
            r matches Some(e) ==> e@ == digits_value(digits@),
    {
        let order = F::order();
        let n = Natural::from_digits(digits);
        if n.lt(&order) {
            Some(Self::from_natural(n))
        } else {
            None
        }
    }

    /// A random field element, uniformly distributed in `[0, |F|)`, drawn by rejection sampling
    /// from numbers of `max_bits()` bits. `None` when `RANDOM_ATTEMPTS` draws all fail.
    pub fn random(rng: &mut ChaCha20Rng) -> (r: Option<Self>)
        ensures
            r is Some ==> r->Some_0@ < F::modulus(),
    {
        let bits = Self::max_bits();
        let mut attempts: u32 = 0;
        while attempts < RANDOM_ATTEMPTS
            decreases RANDOM_ATTEMPTS - attempts,
        {
            match Self::from_draw(chacha20_gen_biguint(rng, bits as u64)) {
                Some(e) => {
                    return Some(e);
                },
                None => {},
            }
            attempts += 1;
        }
        None
    }
}

} // verus!
