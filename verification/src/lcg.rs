//! A linear congruential generator for (not cryptographically secure) random data.

use vstd::arithmetic::power2::*;
use vstd::prelude::*;

use crate::field::{Element, Field};
use crate::natural::{bit_length, digits_value, Natural};

verus! {

/// One step of the generator: `s * 1664525 + 1013904223`, wrapping at `2^32`.
#[verifier::opaque]
pub open spec fn lcg_step(s: u32) -> u32 {
    vstd::wrapping::u32_specs::wrapping_add(
        vstd::wrapping::u32_specs::wrapping_mul(s, 1664525),
        1013904223,
    )
}

/// The state after `k` steps from `s`.
pub open spec fn lcg_advance(s: u32, k: nat) -> u32
    decreases k,
{
    if k == 0 {
        s
    } else {
        lcg_advance(lcg_step(s), (k - 1) as nat)
    }
}

/// The next `k` outputs from state `s`.
pub open spec fn lcg_outputs(s: u32, k: nat) -> Seq<u32>
    decreases k,
{
    if k == 0 {
        Seq::empty()
    } else {
        seq![lcg_step(s)] + lcg_outputs(lcg_step(s), (k - 1) as nat)
    }
}

/// The digits that `next_biguint_bits(bits)` reads from state `s`: one output per full 32-bit
/// chunk, then, for a partial chunk, one more output reduced to its low bits.
pub open spec fn random_digits(s: u32, bits: nat) -> Seq<u32> {
    let full = bits / 32;
    let rem = bits % 32;
    if rem > 0 {
        lcg_outputs(s, full).push(
            (lcg_advance(lcg_step(s), full) as nat % pow2(rem)) as u32,
        )
    } else {
        lcg_outputs(s, full)
    }
}

/// The number of outputs that `next_biguint_bits(bits)` consumes.
pub open spec fn random_digits_len(bits: nat) -> nat {
    bits / 32 + if bits % 32 > 0 {
        1nat
    } else {
        0nat
    }
}

/// Taking `k` more outputs after `k0` appends them.
pub proof fn lemma_lcg_outputs_push(s: u32, k: nat)
    ensures
        lcg_outputs(s, k + 1) == lcg_outputs(s, k).push(lcg_advance(s, k + 1)),
        lcg_advance(s, k + 1) == lcg_step(lcg_advance(s, k)),
    decreases k,
{
    reveal_with_fuel(lcg_outputs, 2);
    reveal_with_fuel(lcg_advance, 2);
    if k > 0 {
        lemma_lcg_outputs_push(lcg_step(s), (k - 1) as nat);
        assert(lcg_outputs(s, k + 1) =~= lcg_outputs(s, k).push(lcg_advance(s, k + 1)));
    } else {
        assert(lcg_outputs(s, 1) =~= Seq::<u32>::empty().push(lcg_advance(s, 1)));
    }
}

/// The `k`-th candidate of `bits` bits that rejection sampling draws from state `s`.
#[verifier::opaque]
pub open spec fn lcg_candidate(s: u32, bits: nat, k: nat) -> nat {
    digits_value(random_digits(lcg_advance(s, k * random_digits_len(bits)), bits))
}

/// Candidate `j` is the first of those drawn from state `s` that is below `limit`.
pub open spec fn first_below(s: u32, bits: nat, limit: nat, j: nat) -> bool {
    &&& lcg_candidate(s, bits, j) < limit
    &&& forall|k: nat| k < j ==> #[trigger] lcg_candidate(s, bits, k) >= limit
}

/// Drawing candidate `j` from the state after `j` draws gives that candidate and leaves the
/// state after `j + 1` draws.
proof fn lemma_candidate_step(s: u32, bits: nat, j: nat, value: nat, after: u32)
    requires
        value == digits_value(random_digits(lcg_advance(s, j * random_digits_len(bits)), bits)),
        after == lcg_advance(
            lcg_advance(s, j * random_digits_len(bits)),
            random_digits_len(bits),
        ),
    ensures
        value == lcg_candidate(s, bits, j),
        after == lcg_advance(s, (j + 1) * random_digits_len(bits)),
{
    reveal(lcg_candidate);
    let len = random_digits_len(bits);
    lemma_advance_add(s, j * len, len);
    assert(j * len + len == (j + 1) * len) by (nonlinear_arith);
}

/// Advancing `a` steps and then `b` steps is advancing `a + b` steps.
pub proof fn lemma_advance_add(s: u32, a: nat, b: nat)
    ensures
        lcg_advance(lcg_advance(s, a), b) == lcg_advance(s, a + b),
    decreases a,
{
    if a > 0 {
        lemma_advance_add(lcg_step(s), (a - 1) as nat, b);
        assert((a - 1) as nat + b == (a + b - 1) as nat);
    }
}

/// A simple linear congruential generator, with parameters taken from Numerical Recipes.
pub struct LCG {
    state: u32,
}

impl LCG {
    /// The current state.
    pub closed spec fn spec_state(&self) -> u32 {
        self.state
    }

    pub fn new() -> (r: Self)
        ensures
            r.spec_state() == 0,
    {
        LCG { state: 0 }
    }

    /// Advances the generator and returns its new state.
    pub fn next_u32(&mut self) -> (r: u32)
        ensures
            r == lcg_step(old(self).spec_state()),
            final(self).spec_state() == r,
    {
        self.state = self.state.wrapping_mul(1664525).wrapping_add(1013904223);
        proof {
            reveal(lcg_step);
        }
        self.state
    }

    /// A random element of `F`, drawn by rejection sampling. `None` only when no candidate within
    /// one full period of the generator is an element, in which case the sampling would never end.
    pub fn next_element<F: Field>(&mut self) -> (r: Option<Element<F>>)
        ensures
            match r {
                Some(e) => exists|j: nat|
                    #![trigger lcg_candidate(old(self).spec_state(), bit_length((F::modulus() - 1) as nat), j)]
                    j < 4294967296 && first_below(
                        old(self).spec_state(),
                        bit_length((F::modulus() - 1) as nat),
                        F::modulus(),
                        j,
                    ) && e@ == lcg_candidate(
                        old(self).spec_state(),
                        bit_length((F::modulus() - 1) as nat),
                        j,
                    ) && final(self).spec_state() == lcg_advance(
                        old(self).spec_state(),
                        (j + 1) * random_digits_len(bit_length((F::modulus() - 1) as nat)),
                    ),
                None => forall|k: nat|
                    k < 4294967296 ==> #[trigger] lcg_candidate(
                        old(self).spec_state(),
                        bit_length((F::modulus() - 1) as nat),
                        k,
                    ) >= F::modulus(),
            },
    {
        let order = F::order();
        proof {
            crate::field::lemma_bit_length_monotonic((order@ - 1) as nat, order@);
        }
        match self.next_biguint(&order) {
            Some(n) => Some(Element::from_natural(n)),
            None => None,
        }
    }

    /// A random natural number below `limit_exclusive`, drawn by rejection sampling: candidates
    /// have as many bits as `limit_exclusive - 1`, and the first one below the limit is returned.
    /// The generator's state repeats after `2^32` candidates, so `None` means that no candidate
    /// will ever be below the limit.
    pub fn next_biguint(&mut self, limit_exclusive: &Natural) -> (r: Option<Natural>)
        requires
            limit_exclusive@ >= 1,
            bit_length((limit_exclusive@ - 1) as nat) <= usize::MAX,
        ensures
            match r {
                Some(n) => exists|j: nat|
                    #![trigger lcg_candidate(old(self).spec_state(), bit_length((limit_exclusive@ - 1) as nat), j)]
                    j < 4294967296 && first_below(
                        old(self).spec_state(),
                        bit_length((limit_exclusive@ - 1) as nat),
                        limit_exclusive@,
                        j,
                    ) && n@ == lcg_candidate(
                        old(self).spec_state(),
                        bit_length((limit_exclusive@ - 1) as nat),
                        j,
                    ) && final(self).spec_state() == lcg_advance(
                        old(self).spec_state(),
                        (j + 1) * random_digits_len(bit_length((limit_exclusive@ - 1) as nat)),
                    ),
                None => forall|k: nat|
                    k < 4294967296 ==> #[trigger] lcg_candidate(
                        old(self).spec_state(),
                        bit_length((limit_exclusive@ - 1) as nat),
                        k,
                    ) >= limit_exclusive@,
            },
    {
        let ghost s = self.state;
        let one = Natural::from_u128(1);
        let bits = limit_exclusive.sub(&one).bits() as usize;
        let ghost b = bit_length((limit_exclusive@ - 1) as nat);
        let ghost len = random_digits_len(b);
        let mut attempts: u64 = 0;
        proof {
            assert(bits as nat == b);
            assert(0 * len == 0) by (nonlinear_arith);
        }
        while attempts < 4294967296
            invariant
                limit_exclusive@ >= 1,
                s == old(self).spec_state(),
                bits as nat == b,
                len == random_digits_len(b),
                b == bit_length((limit_exclusive@ - 1) as nat),
                attempts <= 4294967296,
                self.state == lcg_advance(s, (attempts as nat) * len),
                forall|k: nat| k < attempts ==> #[trigger] lcg_candidate(s, b, k) >= limit_exclusive@,
            decreases 4294967296 - attempts,
        {
            let ghost j = attempts as nat;
            let n = self.next_biguint_bits(bits);
            proof {
                lemma_candidate_step(s, b, j, n@, self.state);
            }
            if n.lt(limit_exclusive) {
                proof {
                    assert(first_below(s, b, limit_exclusive@, j));
                    assert(s == old(self).spec_state());
                    assert(j < 4294967296 && first_below(
                        old(self).spec_state(),
                        bit_length((limit_exclusive@ - 1) as nat),
                        limit_exclusive@,
                        j,
                    ) && n@ == lcg_candidate(
                        old(self).spec_state(),
                        bit_length((limit_exclusive@ - 1) as nat),
                        j,
                    ) && self.state == lcg_advance(
                        old(self).spec_state(),
                        (j + 1) * random_digits_len(bit_length((limit_exclusive@ - 1) as nat)),
                    ));
                }
                return Some(n);
            }
            proof {
                assert forall|k: nat| k < j + 1 implies #[trigger] lcg_candidate(s, b, k)
                    >= limit_exclusive@ by {
                    if k < j {
                        assert(lcg_candidate(s, b, k) >= limit_exclusive@);
                    }
                }
            }
            attempts += 1;
        }
        None
    }

    /// A random number of at most `bits` bits, built from the next outputs of the generator, least
    /// significant 32-bit chunk first; the last, partial chunk keeps only its low bits.
    pub fn next_biguint_bits(&mut self, bits: usize) -> (r: Natural)
        ensures
            r@ == digits_value(random_digits(old(self).spec_state(), bits as nat)),
            final(self).spec_state() == lcg_advance(
                old(self).spec_state(),
                random_digits_len(bits as nat),
            ),
    {
        let ghost s = self.state;
        let full_chunks = bits / 32;
        let remaining_bits = bits % 32;
        let partial_chunk = remaining_bits > 0;

        let mut chunk_data: Vec<u32> = Vec::new();
        let mut i: usize = 0;
        proof {
            assert(lcg_outputs(s, 0) =~= Seq::<u32>::empty());
        }
        while i < full_chunks
            invariant
                i <= full_chunks,
                chunk_data@ == lcg_outputs(s, i as nat),
                self.state == lcg_advance(s, i as nat),
            decreases full_chunks - i,
        {
            let v = self.next_u32();
            proof {
                lemma_lcg_outputs_push(s, i as nat);
            }
            chunk_data.push(v);
            i += 1;
        }
        if partial_chunk {
            let v = self.next_u32();
            let modulus = two_to(remaining_bits);
            proof {
                lemma_lcg_outputs_push(s, full_chunks as nat);
                lemma_advance_shift(s, full_chunks as nat);
            }
            chunk_data.push(v % modulus);
        }
        proof {
            if !partial_chunk {
                assert(random_digits_len(bits as nat) == full_chunks);
            }
        }
        Natural::from_digits(chunk_data)
    }
}

/// `2^e`, for `e < 32`.
fn two_to(e: usize) -> (r: u32)
    requires
        e < 32,
    ensures
        r as nat == pow2(e as nat),
        r > 0,
{
    let mut r: u32 = 1;
    let mut i: usize = 0;
    proof {
        lemma2_to64();
    }
    while i < e
        invariant
            i <= e < 32,
            r as nat == pow2(i as nat),
        decreases e - i,
    {
        proof {
            lemma_pow2_unfold((i + 1) as nat);
            if i < 30 {
                lemma_pow2_strictly_increases((i + 1) as nat, 31);
            }
            lemma2_to64();
        }
        r = r * 2;
        i += 1;
    }
    proof {
        lemma_pow2_pos(e as nat);
    }
    r
}

/// Advancing `k + 1` steps is one step followed by `k`.
pub proof fn lemma_advance_shift(s: u32, k: nat)
    ensures
        lcg_advance(s, k + 1) == lcg_advance(lcg_step(s), k),
{
    reveal_with_fuel(lcg_advance, 2);
}

} // verus!
