//! Permutations of single field elements.

use vstd::prelude::*;

use crate::expression::Expression;
use crate::field::{field_mul, field_pow, spec_gcd, Element, Field};
use crate::primes::is_prime;
use crate::gadget_builder::{lemma_extends_trans, lemma_satisfied_prefix, valid_assignment, GadgetBuilder};
use crate::gadget_traits::Permutation;
use crate::natural::Natural;
use crate::splitting::field_bits;
use crate::witness_generator::{Generate, WitnessGenerator};

verus! {

/// The permutation `1 / x`, with zero being mapped to itself.
pub struct InversePermutation {}

impl<F: Field> Permutation<F> for InversePermutation {
    open spec fn permutation_wires(&self) -> nat {
        3
    }

    /// Zero, and only zero, maps to zero; in a prime field a non-zero `x` maps to its inverse.
    open spec fn maps_to(&self, x: nat, y: nat) -> bool {
        &&& x == 0 <==> y == 0
        &&& is_prime(F::modulus()) && x != 0 ==> field_mul(x, y, F::modulus()) == 1
    }

    fn permute(&self, builder: &mut GadgetBuilder<F>, x: &Expression<F>) -> (r: Expression<F>) {
        builder.inverse_or_zero(x)
    }

    fn inverse(&self, builder: &mut GadgetBuilder<F>, x: &Expression<F>) -> (r: Expression<F>) {
        let r = builder.inverse_or_zero(x);
        proof {
            assert forall|vals: Map<u32, nat>| #![trigger builder.satisfied(vals)]
                builder.satisfied(vals) && valid_assignment(vals, F::modulus()) implies <InversePermutation as Permutation<F>>::maps_to(
                self,
                r.eval(vals),
                x.eval(vals),
            ) by {
                let p = F::modulus();
                if is_prime(p) && x.eval(vals) != 0 {
                    vstd::arithmetic::mul::lemma_mul_is_commutative(x.eval(vals) as int, r.eval(vals) as int);
                }
            }
        }
        r
    }
}

/// Inverting undoes inverting: in a prime field, the only element that `1 / x` maps to the same
/// image as `x` is `x` itself.
pub proof fn lemma_inverse_permutation_undoes<F: Field>(x: nat, y: nat, z: nat)
    requires
        is_prime(F::modulus()),
        x < F::modulus(),
        y < F::modulus(),
        z < F::modulus(),
        <InversePermutation as Permutation<F>>::maps_to(&InversePermutation {}, x, y),
        <InversePermutation as Permutation<F>>::maps_to(&InversePermutation {}, z, y),
    ensures
        z == x,
{
    let p = F::modulus();
    if y != 0 {
        vstd::arithmetic::mul::lemma_mul_is_commutative(x as int, y as int);
        vstd::arithmetic::mul::lemma_mul_is_commutative(z as int, y as int);
        crate::curve::lemma_fraction_unique(1, y, x, p);
        crate::curve::lemma_fraction_unique(1, y, z, p);
    }
}

/// Powers with an exponent `n` that has a root exponent are injective in a prime field: `x^n`
/// determines `x`, so the root that `MonomialPermutation::inverse` finds is the element that
/// `permute` was applied to.
pub proof fn lemma_monomial_injective(p: nat, n: nat, x: nat, z: nat)
    requires
        is_prime(p),
        has_root_exponent(p, n),
        x < p,
        z < p,
        crate::field::field_pow(x, n, p) == crate::field::field_pow(z, n, p),
    ensures
        x == z,
{
    let k = choose|k: nat| 1 <= k < n && #[trigger] (root_candidate(p, k) % n) == 0;
    let c = root_candidate(p, k);
    let e = c / n;
    vstd::arithmetic::div_mod::lemma_fundamental_div_mod(c as int, n as int);
    assert(n * e == c);
    let pi = p as int;
    vstd::arithmetic::power::lemma_pow_mod_noop(vstd::arithmetic::power::pow(x as int, n), e, pi);
    vstd::arithmetic::power::lemma_pow_mod_noop(vstd::arithmetic::power::pow(z as int, n), e, pi);
    vstd::arithmetic::power::lemma_pow_multiplies(x as int, n, e);
    vstd::arithmetic::power::lemma_pow_multiplies(z as int, n, e);
    crate::fermat::lemma_pow_period(p, x, k);
    crate::fermat::lemma_pow_period(p, z, k);
}

/// An exponent `e` with `n * e = 1 (mod p - 1)` inverts `x^n`: in a prime field, `(x^e)^n = x`
/// for every element `x`.
pub proof fn lemma_root_exponent_inverts(p: nat, n: nat, e: nat, x: nat)
    requires
        is_prime(p),
        x < p,
        (n * e) % ((p - 1) as nat) == 1,
    ensures
        field_pow(field_pow(x, e, p), n, p) == x,
{
    let q = (p - 1) as nat;
    let pi = p as int;
    let m = (n * e) / q;
    vstd::arithmetic::div_mod::lemma_fundamental_div_mod((n * e) as int, q as int);
    assert(n * e == q * m + 1);
    vstd::arithmetic::power::lemma_pow_mod_noop(vstd::arithmetic::power::pow(x as int, e), n, pi);
    vstd::arithmetic::power::lemma_pow_multiplies(x as int, e, n);
    assert(e * n == n * e) by (nonlinear_arith);
    if m == 0 {
        vstd::arithmetic::mul::lemma_mul_basics(q as int);
        assert(n * e == 1);
        vstd::arithmetic::power::lemma_pow1(x as int);
        vstd::arithmetic::div_mod::lemma_small_mod(x, p);
    } else {
        assert(n * e == p + ((m - 1) as nat) * q) by (nonlinear_arith)
            requires
                n * e == q * m + 1,
                q == p - 1,
                m >= 1,
        ;
        crate::fermat::lemma_pow_period(p, x, (m - 1) as nat);
    }
    vstd::arithmetic::div_mod::lemma_mod_bound(vstd::arithmetic::power::pow(x as int, e), pi);
}

/// Some `k` in `[1, n)` makes `p + k * (p - 1)` a multiple of `n`, so that
/// `(p + k * (p - 1)) / n` is an exponent that inverts `x^n`.
pub open spec fn has_root_exponent(p: nat, n: nat) -> bool {
    exists|k: nat| 1 <= k < n && #[trigger] (root_candidate(p, k) % n) == 0
}

/// `p + k * (p - 1)`.
pub open spec fn root_candidate(p: nat, k: nat) -> nat {
    p + k * ((p - 1) as nat)
}

/// The permutation `x^n`.
pub struct MonomialPermutation<F: Field> {
    n: Element<F>,
    root_exponent: Element<F>,
}

impl<F: Field> MonomialPermutation<F> {
    /// The exponent `n`.
    pub closed spec fn spec_n(&self) -> nat {
        self.n@
    }

    /// The exponent of the inverse permutation.
    pub closed spec fn spec_root_exponent(&self) -> nat {
        self.root_exponent@
    }

    /// Creates a new monomial permutation given the given exponent.
    ///
    /// `x^n` must be a permutation of `F`; it is well known that
    /// this holds iff gcd(n, q - 1) = 1 (see, for example, Theorem 1.14 in "Permutation
    /// Polynomials of Finite Fields" [Shallue 12]). The exponent of the inverse permutation is
    /// found by a search over exponents when inverting, which ends only when
    /// `has_root_exponent` holds.
    pub fn new(n: Element<F>) -> (r: Self)
        requires
            spec_gcd((F::modulus() - 1) as nat, n@) == 1,
            has_root_exponent(F::modulus(), n@),
        ensures
            r.spec_n() == n@,
            (r.spec_n() * r.spec_root_exponent()) % ((F::modulus() - 1) as nat) == 1,
            is_prime(F::modulus()) ==> forall|x: nat|
                x < F::modulus() ==> #[trigger] field_pow(
                    field_pow(x, r.spec_root_exponent(), F::modulus()),
                    r.spec_n(),
                    F::modulus(),
                ) == x,
    {
        // By Fermat's little theorem, x^p = x mod p, so if n divides p, then x^(p / n)^n = x mod p.
        // Further, since x^(p - 1) = 1 mod p, x^((p + (p - 1)*k) / n)^n = x mod p for any positive
        // k, provided that n divides p + (p - 1)*k. Thus we start with p, and repeatedly add
        // p - 1 until we find an exponent divisible by n.
        let order = F::order();
        let one = Natural::from_u128(1);
        let step = order.sub(&one);
        let divisor = n.to_biguint();
        let ghost p = F::modulus();
        let ghost witness = choose|k: nat| 1 <= k < n@ && #[trigger] (root_candidate(p, k) % n@) == 0;
        let mut exponent_times_n = order.add(&step);
        let ghost mut k: nat = 1;
        proof {
            use_type_invariant(&n);
            assert(exponent_times_n@ == root_candidate(p, 1));
        }
        while !exponent_times_n.rem(divisor).is_zero()
            invariant
                p == F::modulus(),
                1 < p,
                n@ < p,
                divisor@ == n@,
                step@ == p - 1,
                1 <= witness < n@,
                root_candidate(p, witness) % n@ == 0,
                1 <= k <= witness,
                exponent_times_n@ == root_candidate(p, k),
            decreases witness - k,
        {
            proof {
                if k == witness {
                    assert(false);
                }
            }
            exponent_times_n = exponent_times_n.add(&step);
            proof {
                k = k + 1;
                let q = (p - 1) as int;
                let kk = k as int;
                assert((kk - 1) * q + q == kk * q) by (nonlinear_arith);
            }
        }
        let exponent_natural = exponent_times_n.div(divisor);
        proof {
            let e = exponent_times_n@ as int;
            let nn = n@ as int;
            let pp = p as int;
            let kk = k as int;
            assert(e <= pp + (nn - 1) * (pp - 1)) by (nonlinear_arith)
                requires
                    e == pp + kk * (pp - 1),
                    kk <= nn - 1,
                    pp > 1,
            ;
            assert(e / nn < pp) by (nonlinear_arith)
                requires
                    e <= pp + (nn - 1) * (pp - 1),
                    nn >= 2,
                    pp > 1,
            {
                vstd::arithmetic::div_mod::lemma_fundamental_div_mod(e, nn);
                vstd::arithmetic::div_mod::lemma_mod_bound(e, nn);
            }
        }
        let root_exponent = Element::from_natural(exponent_natural);
        proof {
            let e = exponent_natural@;
            let nn = n@;
            let q = (p - 1) as nat;
            vstd::arithmetic::div_mod::lemma_fundamental_div_mod(exponent_times_n@ as int, nn as int);
            assert(nn * e == exponent_times_n@);
            assert(nn * e == 1 + (k + 1) * q) by (nonlinear_arith)
                requires
                    nn * e == p + k * q,
                    q == p - 1,
            ;
            assert(q >= 2);
            vstd::arithmetic::div_mod::lemma_mod_multiples_vanish((k + 1) as int, 1, q as int);
            vstd::arithmetic::div_mod::lemma_small_mod(1, q);
            vstd::arithmetic::mul::lemma_mul_is_commutative((k + 1) as int, q as int);
            assert((nn * e) % q == 1);
            assert forall|x: nat| x < p && is_prime(p) implies #[trigger] field_pow(field_pow(x, e, p), nn, p) == x by {
                lemma_root_exponent_inverts(p, nn, e, x);
            }
        }
        MonomialPermutation { n, root_exponent }
    }
}

impl<F: Field> Permutation<F> for MonomialPermutation<F> {
    open spec fn permutation_wires(&self) -> nat {
        2 * field_bits::<F>() + 1
    }

    open spec fn maps_to(&self, x: nat, y: nat) -> bool {
        y == crate::field::field_pow(x, self.spec_n(), F::modulus())
    }

    fn permute(&self, builder: &mut GadgetBuilder<F>, x: &Expression<F>) -> (r: Expression<F>) {
        builder.exp(x, &self.n)
    }

    fn inverse(&self, builder: &mut GadgetBuilder<F>, x: &Expression<F>) -> (r: Expression<F>) {
        let ghost start = *builder;
        let root_wire = builder.wire();
        let root = Expression::from_wire(root_wire);
        let ghost s1 = *builder;
        let exponentiation = builder.exp(&root, &self.n);
        let ghost s2 = *builder;
        builder.assert_equal(&exponentiation, x);
        let ghost s3 = *builder;
        let gen = WitnessGenerator::new(
            x.dependencies(),
            Generate::Power { x: x.copy(), exponent: self.root_exponent.copy(), output: root_wire },
        );
        let ghost g = gen;
        builder.generator(gen);
        proof {
            crate::comparisons::lemma_generator_extends(*builder, s3, g);
            lemma_extends_trans(*builder, s3, s2);
            lemma_extends_trans(*builder, s2, s1);
            lemma_extends_trans(*builder, s1, start);
            assert forall|vals: Map<u32, nat>| #![trigger builder.satisfied(vals)]
                builder.satisfied(vals) && valid_assignment(vals, F::modulus()) implies self.maps_to(
                root.eval(vals),
                x.eval(vals),
            ) by {
                lemma_satisfied_prefix(*builder, s3, vals);
                lemma_satisfied_prefix(s3, s2, vals);
            }
        }
        root
    }
}

} // verus!
