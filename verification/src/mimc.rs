//! The MiMC block cipher and permutation.

use vstd::arithmetic::div_mod::*;
use vstd::arithmetic::mul::*;
use vstd::arithmetic::power::*;
use vstd::prelude::*;

use crate::expression::Expression;
use crate::field::{field_add, field_mul, field_pow, field_sub, Element, Field};
use crate::gadget_builder::{
    lemma_eval_bound, lemma_extends_trans, lemma_satisfied_prefix, valid_assignment, GadgetBuilder,
};
use crate::gadget_traits::{BlockCipher, Permutation};
use crate::primes::is_prime;
use crate::natural::{bit_length, Natural};
use crate::splitting::field_bits;
use crate::witness_generator::{Generate, WitnessGenerator};

verus! {

/// `v^3` in `F_p`.
pub open spec fn cube(v: nat, p: nat) -> nat {
    field_mul(v, field_mul(v, v, p), p)
}

/// The rest of a MiMC encryption from state `t`, before the round with constant `consts[j]`: each
/// remaining round adds the key and its constant and cubes; the key is added at the end.
pub open spec fn mimc_from(t: nat, j: nat, key: nat, consts: Seq<nat>, p: nat) -> nat
    decreases consts.len() - j,
{
    if j >= consts.len() {
        field_add(t, key, p)
    } else {
        mimc_from(
            cube(field_add(t, field_add(key, consts[j as int], p), p), p),
            j + 1,
            key,
            consts,
            p,
        )
    }
}

/// MiMC encryption of `x` under `key`: the first round adds the key and cubes, with no constant.
pub open spec fn mimc_value(x: nat, key: nat, consts: Seq<nat>, p: nat) -> nat {
    mimc_from(cube(field_add(x, key, p), p), 0, key, consts, p)
}

/// `n` field elements of `F_p`.
pub open spec fn field_constants(consts: Seq<nat>, n: nat, p: nat) -> bool {
    &&& consts.len() == n
    &&& forall|i: int| 0 <= i < consts.len() ==> #[trigger] consts[i] < p
}

/// The values of several elements.
pub open spec fn element_values<F: Field>(v: Seq<Element<F>>) -> Seq<nat> {
    v.map_values(|e: Element<F>| e@)
}

/// MiMC can be used in `F_p`: cubing is a permutation, i.e. `3` does not divide `p - 1`, and `3`
/// is an element.
pub open spec fn mimc_compatible(p: nat) -> bool {
    3 < p && (p - 1) as nat % 3 != 0
}

/// `x^3` is `x * (x * x)` in `F_p`.
pub proof fn lemma_pow3(x: nat, p: nat)
    requires
        p > 0,
    ensures
        field_pow(x, 3, p) == cube(x, p),
{
    reveal_with_fuel(pow, 4);
    lemma_mul_mod_noop_right(x as int, (x * x) as int, p as int);
    lemma_mul_is_associative(x as int, x as int, x as int);
    assert(pow(x as int, 3) == x * (x * x));
}

/// Raising a cube to the power `(2p - 1) / 3` gives back the element, when `p` is a prime with
/// `3` not dividing `p - 1`.
pub proof fn lemma_cube_root_power(x: nat, p: nat)
    requires
        is_prime(p),
        mimc_compatible(p),
        x < p,
    ensures
        field_pow(cube(x, p), ((2 * p - 1) as nat / 3) as nat, p) == x,
{
    let e = ((2 * p - 1) as nat / 3) as nat;
    // p is 2 modulo 3: it is not 0 (p is a prime above 3) and not 1 (3 does not divide p - 1).
    assert(p % 3 == 2) by {
        lemma_fundamental_div_mod(p as int, 3);
        lemma_fundamental_div_mod((p - 1) as int, 3);
        if p % 3 == 0 {
            assert(p % (3 as nat) == 0);
        }
    }
    assert(3 * e == 2 * p - 1) by (nonlinear_arith)
        requires
            p % 3 == 2,
            e == (2 * p - 1) as nat / 3,
    {
        lemma_fundamental_div_mod((2 * p - 1) as int, 3);
        lemma_fundamental_div_mod(p as int, 3);
    }
    lemma_pow3(x, p);
    lemma_pow_mod_noop(pow(x as int, 3), e, p as int);
    lemma_pow_multiplies(x as int, 3, e);
    // x^(2p - 1) = x^p * x^(p - 1) = x * 1.
    lemma_pow_adds(x as int, p, (p - 1) as nat);
    assert(p + (p - 1) as nat == 3 * e);
    crate::fermat::lemma_fermat_power(p, x);
    lemma_small_mod(x, p);
    if x == 0 {
        lemma0_pow(3 * e);
        lemma_small_mod(0, p);
    } else {
        crate::fermat::lemma_fermat(p, x);
        lemma_mul_mod_noop_general(pow(x as int, p), pow(x as int, (p - 1) as nat), p as int);
        assert(x * 1 == x);
    }
}

/// Cubing is injective in a prime field where `3` does not divide `p - 1`.
pub proof fn lemma_cube_injective(x: nat, y: nat, p: nat)
    requires
        is_prime(p),
        mimc_compatible(p),
        x < p,
        y < p,
        cube(x, p) == cube(y, p),
    ensures
        x == y,
{
    lemma_cube_root_power(x, p);
    lemma_cube_root_power(y, p);
}

/// The rest of a MiMC encryption is injective in the state it starts from.
proof fn lemma_mimc_from_injective(t1: nat, t2: nat, j: nat, key: nat, consts: Seq<nat>, p: nat)
    requires
        is_prime(p),
        mimc_compatible(p),
        t1 < p,
        t2 < p,
        key < p,
        mimc_from(t1, j, key, consts, p) == mimc_from(t2, j, key, consts, p),
    ensures
        t1 == t2,
    decreases consts.len() - j,
{
    if j >= consts.len() {
        lemma_add_injective(t1, t2, key, p);
    } else {
        let k = field_add(key, consts[j as int], p);
        let u1 = field_add(t1, k, p);
        let u2 = field_add(t2, k, p);
        lemma_mod_bound((u1 * field_mul(u1, u1, p)) as int, p as int);
        lemma_mod_bound((u2 * field_mul(u2, u2, p)) as int, p as int);
        lemma_mimc_from_injective(cube(u1, p), cube(u2, p), j + 1, key, consts, p);
        lemma_mod_bound((u1 as int), p as int);
        lemma_mod_bound((t1 + k) as int, p as int);
        lemma_mod_bound((t2 + k) as int, p as int);
        lemma_cube_injective(u1, u2, p);
        lemma_mod_bound((key + consts[j as int]) as int, p as int);
        lemma_add_injective(t1, t2, k, p);
    }
}

/// Adding a field element is injective.
proof fn lemma_add_injective(t1: nat, t2: nat, k: nat, p: nat)
    requires
        p > 0,
        t1 < p,
        t2 < p,
        k < p,
        field_add(t1, k, p) == field_add(t2, k, p),
    ensures
        t1 == t2,
{
    let a = (t1 + k) as int;
    let b = (t2 + k) as int;
    let pi = p as int;
    lemma_fundamental_div_mod(a, pi);
    lemma_fundamental_div_mod(b, pi);
    let q1 = a / pi;
    let q2 = b / pi;
    assert(t1 == t2) by (nonlinear_arith)
        requires
            a == pi * q1 + a % pi,
            b == pi * q2 + b % pi,
            a % pi == b % pi,
            a == t1 + k,
            b == t2 + k,
            0 <= t1 < pi,
            0 <= t2 < pi,
    {
        assert(t1 - t2 == pi * (q1 - q2));
        if q1 > q2 {
            assert(pi * (q1 - q2) >= pi);
        } else if q1 < q2 {
            assert(pi * (q2 - q1) >= pi);
        }
    }
}

/// Decryption recovers the plaintext: MiMC encryption under a fixed key is injective on field
/// elements, so the value whose encryption a decryption finds is the value that was encrypted.
pub proof fn lemma_mimc_decrypts(x: nat, y: nat, key: nat, consts: Seq<nat>, p: nat)
    requires
        is_prime(p),
        mimc_compatible(p),
        x < p,
        y < p,
        key < p,
        mimc_value(x, key, consts, p) == mimc_value(y, key, consts, p),
    ensures
        x == y,
{
    let u1 = field_add(x, key, p);
    let u2 = field_add(y, key, p);
    lemma_mod_bound((x + key) as int, p as int);
    lemma_mod_bound((y + key) as int, p as int);
    lemma_mod_bound((u1 * field_mul(u1, u1, p)) as int, p as int);
    lemma_mod_bound((u2 * field_mul(u2, u2, p)) as int, p as int);
    lemma_mimc_from_injective(cube(u1, p), cube(u2, p), 0, key, consts, p);
    lemma_cube_injective(u1, u2, p);
    lemma_add_injective(x, y, key, p);
}

/// Undoing an addition: `(u - s) + s = u` in `F_p`.
pub proof fn lemma_sub_add(u: nat, s: nat, p: nat)
    requires
        p > 0,
        u < p,
        s < p,
    ensures
        field_add(field_sub(u, s, p), s, p) == u,
{
    lemma_add_mod_noop(u - s, s as int, p as int);
    lemma_small_mod(s, p);
    lemma_small_mod(u, p);
    lemma_mod_bound(u - s, p as int);
}

/// The exponent `(2p - 1) / 3` whose power is a cube root in `F_p`, by Fermat's little theorem.
fn cube_root_exponent<F: Field>() -> (r: Element<F>)
    requires
        mimc_compatible(F::modulus()),
    ensures
        r@ == (2 * F::modulus() - 1) / 3,
{
    let order = F::order();
    let two = Natural::from_u128(2);
    let one = Natural::from_u128(1);
    let three = Natural::from_u128(3);
    let twice = order.mul(&two);
    let numerator = twice.sub(&one);
    let e = numerator.div(&three);
    proof {
        let p = F::modulus();
        assert((2 * p - 1) / 3 < p) by (nonlinear_arith)
            requires
                p > 3,
        {
            lemma_fundamental_div_mod((2 * p - 1) as int, 3);
        }
    }
    Element::from_natural(e)
}

impl<F: Field> GadgetBuilder<F> {
    /// A cube root of `x`: a new wire `r` with `r * (r * r) = x`. The field must be one where
    /// cubing is a permutation.
    pub fn cube_root(&mut self, x: &Expression<F>) -> (r: Expression<F>)
        requires
            mimc_compatible(F::modulus()),
            old(self).has_room(2),
        ensures
            final(self).extends(*old(self)),
            final(self).next_index() <= old(self).next_index() + 2,
            forall|vals: Map<u32, nat>|
                #![trigger final(self).satisfied(vals)]
                final(self).satisfied(vals) && valid_assignment(vals, F::modulus()) ==> cube(
                    r.eval(vals),
                    F::modulus(),
                ) == x.eval(vals),
    {
        let exponent = cube_root_exponent::<F>();
        self.cube_root_with_exponent(x, &exponent)
    }

    /// A cube root of `x`, whose witness is computed as `x^exponent`.
    pub(crate) fn cube_root_with_exponent(&mut self, x: &Expression<F>, exponent: &Element<F>) -> (r: Expression<F>)
        requires
            old(self).has_room(2),
        ensures
            final(self).extends(*old(self)),
            final(self).next_index() <= old(self).next_index() + 2,
            forall|vals: Map<u32, nat>|
                #![trigger final(self).satisfied(vals)]
                final(self).satisfied(vals) && valid_assignment(vals, F::modulus()) ==> cube(
                    r.eval(vals),
                    F::modulus(),
                ) == x.eval(vals),
    {
        let ghost start = *self;
        let root_wire = self.wire();
        let root = Expression::from_wire(root_wire);
        let ghost s1 = *self;
        let root_squared = self.product(&root, &root);
        let ghost s2 = *self;
        self.assert_product(&root, &root_squared, x);
        let ghost s3 = *self;
        let gen = WitnessGenerator::new(
            x.dependencies(),
            Generate::Power { x: x.copy(), exponent: exponent.copy(), output: root_wire },
        );
        let ghost g = gen;
        self.generator(gen);
        proof {
            crate::comparisons::lemma_generator_extends(*self, s3, g);
            lemma_extends_trans(*self, s3, s2);
            lemma_extends_trans(*self, s2, s1);
            lemma_extends_trans(*self, s1, start);
            assert forall|vals: Map<u32, nat>| #![trigger self.satisfied(vals)]
                self.satisfied(vals) && valid_assignment(vals, F::modulus()) implies cube(
                root.eval(vals),
                F::modulus(),
            ) == x.eval(vals) by {
                lemma_satisfied_prefix(*self, s3, vals);
                lemma_satisfied_prefix(s3, s2, vals);
                assert(s3.satisfied(vals));
                assert(s2.satisfied(vals));
            }
        }
        root
    }

    /// The MiMC block cipher with the given round constants; it uses `round_constants.len() + 1`
    /// rounds, since the first round has no constant.
    pub fn mimc(&mut self, key: &Expression<F>, input: &Expression<F>, round_constants: &[Element<F>]) -> (r:
        Expression<F>)
        requires
            mimc_compatible(F::modulus()),
            old(self).has_room(mimc_wires::<F>(round_constants@.len() as nat)),
        ensures
            final(self).extends(*old(self)),
            final(self).next_index() <= old(self).next_index() + mimc_wires::<F>(
                round_constants@.len() as nat,
            ),
            forall|vals: Map<u32, nat>|
                #![trigger final(self).satisfied(vals)]
                final(self).satisfied(vals) && valid_assignment(vals, F::modulus()) ==> r.eval(vals)
                    == mimc_value(
                    input.eval(vals),
                    key.eval(vals),
                    element_values(round_constants@),
                    F::modulus(),
                ),
    {
        let three = Element::<F>::from_u128(3);
        self.mimc_encrypt(key, input, round_constants, &three)
    }

    /// The MiMC block cipher, using the recommended number of rounds, and using ChaCha20 (seeded
    /// with 0) as the source of randomness; `None` when drawing a round constant fails (see
    /// `Element::random`).
    pub fn mimc_chacha20(&mut self, key: &Expression<F>, input: &Expression<F>) -> (r: Option<
        Expression<F>,
    >)
        requires
            mimc_compatible(F::modulus()),
            old(self).has_room(mimc_wires::<F>(recommended_rounds(field_bits::<F>()))),
        ensures
            final(self).extends(*old(self)),
            r is None ==> *final(self) == *old(self),
            r matches Some(out) ==> exists|consts: Seq<nat>|
                #![trigger field_constants(consts, recommended_rounds(field_bits::<F>()), F::modulus())]
                field_constants(consts, recommended_rounds(field_bits::<F>()), F::modulus()) && forall|
                    vals: Map<u32, nat>,
                |
                    #![trigger final(self).satisfied(vals)]
                    final(self).satisfied(vals) && valid_assignment(vals, F::modulus()) ==> out.eval(
                        vals,
                    ) == mimc_value(input.eval(vals), key.eval(vals), consts, F::modulus()),
    {
        proof {
            crate::field_arithmetic::lemma_extends_refl(*self);
        }
        match mimc_chacha20_constants::<F>() {
            Some(round_constants) => {
                let out = self.mimc(key, input, round_constants.as_slice());
                proof {
                    let consts = element_values(round_constants@);
                    assert(field_constants(consts, recommended_rounds(field_bits::<F>()), F::modulus()));
                }
                Some(out)
            },
            None => None,
        }
    }

    /// The recommended number of rounds to use in MiMC, based on the paper: the least `r` with
    /// `3^r >= 2^n`, i.e. `ceil(n / log2(3))`, where `n` is the field's bit count.
    pub fn mimc_recommended_rounds() -> (r: usize)
        ensures
            r == recommended_rounds(field_bits::<F>()),
    {
        let n = Element::<F>::max_bits();
        recommended_rounds_exec(n)
    }

    /// MiMC encryption, cubing by `exp` with the given exponent 3.
    fn mimc_encrypt(
        &mut self,
        key: &Expression<F>,
        input: &Expression<F>,
        round_constants: &[Element<F>],
        three: &Element<F>,
    ) -> (r: Expression<F>)
        requires
            three@ == 3,
            old(self).has_room(mimc_wires::<F>(round_constants@.len() as nat)),
        ensures
            final(self).extends(*old(self)),
            final(self).next_index() <= old(self).next_index() + mimc_wires::<F>(
                round_constants@.len() as nat,
            ),
            forall|vals: Map<u32, nat>|
                #![trigger final(self).satisfied(vals)]
                final(self).satisfied(vals) && valid_assignment(vals, F::modulus()) ==> r.eval(vals)
                    == mimc_value(
                    input.eval(vals),
                    key.eval(vals),
                    element_values(round_constants@),
                    F::modulus(),
                ),
    {
        let ghost start = *self;
        let ghost p = F::modulus();
        let ghost consts = element_values(round_constants@);
        let ghost w = 2 * field_bits::<F>() + 2;
        proof {
            use_type_invariant(three);
            let m = round_constants@.len();
            assert((m + 1) * w >= w) by (nonlinear_arith)
                requires
                    w >= 0,
            ;
        }
        // In the first round, there is no round constant, so just add the key.
        let first = input.add(key);
        // Cube the current value.
        let mut current = self.exp(&first, three);
        proof {
            assert forall|vals: Map<u32, nat>| #![trigger self.satisfied(vals)]
                self.satisfied(vals) && valid_assignment(vals, p) implies mimc_from(
                current.eval(vals),
                0,
                key.eval(vals),
                consts,
                p,
            ) == mimc_value(input.eval(vals), key.eval(vals), consts, p) by {
                lemma_pow3(first.eval(vals), p);
            }
        }
        let mut j: usize = 0;
        while j < round_constants.len()
            invariant
                p == F::modulus(),
                1 < p,
                consts == element_values(round_constants@),
                j <= round_constants@.len(),
                self.extends(start),
                self.next_index() <= start.next_index() + (j + 1) * w,
                start.next_index() + (round_constants@.len() + 1) * w <= u32::MAX,
                w == 2 * field_bits::<F>() + 2,
                three@ == 3,
                forall|vals: Map<u32, nat>|
                    #![trigger self.satisfied(vals)]
                    self.satisfied(vals) && valid_assignment(vals, p) ==> mimc_from(
                        current.eval(vals),
                        j as nat,
                        key.eval(vals),
                        consts,
                        p,
                    ) == mimc_value(input.eval(vals), key.eval(vals), consts, p),
            decreases round_constants@.len() - j,
        {
            // Add the key and the random round constant.
            let c_ref = &round_constants[j];
            proof {
                use_type_invariant(c_ref);
            }
            let constant = Expression::from_element(c_ref);
            let shift = key.add(&constant);
            let shifted = current.add(&shift);
            let ghost before = *self;
            proof {
                assert((j + 2) * w == (j + 1) * w + w) by (nonlinear_arith);
                assert((j + 2) * w <= (round_constants@.len() + 1) * w) by (nonlinear_arith)
                    requires
                        j + 1 <= round_constants@.len(),
                ;
            }
            // Cube the current value.
            let next = self.exp(&shifted, three);
            proof {
                lemma_extends_trans(*self, before, start);
                assert forall|vals: Map<u32, nat>| #![trigger self.satisfied(vals)]
                    self.satisfied(vals) && valid_assignment(vals, p) implies mimc_from(
                    next.eval(vals),
                    (j + 1) as nat,
                    key.eval(vals),
                    consts,
                    p,
                ) == mimc_value(input.eval(vals), key.eval(vals), consts, p) by {
                    lemma_satisfied_prefix(*self, before, vals);
                    lemma_pow3(shifted.eval(vals), p);
                    let c = round_constants@[j as int];
                    assert(consts.len() == round_constants@.len());
                    assert(consts[j as int] == c@);
                    crate::field_arithmetic::lemma_element_eval::<F>(constant@, c@, vals);
                    assert(shift.eval(vals) == field_add(key.eval(vals), c@, p));
                    assert(shifted.eval(vals) == field_add(current.eval(vals), shift.eval(vals), p));
                    assert(next.eval(vals) == field_pow(shifted.eval(vals), 3, p));
                    assert(mimc_from(current.eval(vals), j as nat, key.eval(vals), consts, p)
                        == mimc_from(
                        cube(field_add(current.eval(vals), field_add(key.eval(vals), consts[j as int], p), p), p),
                        (j + 1) as nat,
                        key.eval(vals),
                        consts,
                        p,
                    ));
                }
            }
            current = next;
            j += 1;
        }
        // Final key addition, as per the spec.
        current.add(key)
    }

    /// MiMC decryption: undoes each round by taking a cube root and subtracting the key and the
    /// round constant.
    fn mimc_decrypt(
        &mut self,
        key: &Expression<F>,
        output: &Expression<F>,
        round_constants: &[Element<F>],
        root_exponent: &Element<F>,
    ) -> (r: Expression<F>)
        requires
            old(self).has_room(2 * (round_constants@.len() + 1)),
        ensures
            final(self).extends(*old(self)),
            final(self).next_index() <= old(self).next_index() + 2 * (round_constants@.len() + 1),
            forall|vals: Map<u32, nat>|
                #![trigger final(self).satisfied(vals)]
                final(self).satisfied(vals) && valid_assignment(vals, F::modulus()) ==> mimc_value(
                    r.eval(vals),
                    key.eval(vals),
                    element_values(round_constants@),
                    F::modulus(),
                ) == output.eval(vals),
    {
        let ghost start = *self;
        let ghost p = F::modulus();
        let ghost consts = element_values(round_constants@);
        let m = round_constants.len();
        // Undo final key addition.
        let mut current = output.sub(key);
        proof {
            use_type_invariant(output);
            crate::field_arithmetic::lemma_extends_refl(*self);
            assert forall|vals: Map<u32, nat>| #![trigger self.satisfied(vals)]
                self.satisfied(vals) && valid_assignment(vals, p) implies mimc_from(
                current.eval(vals),
                m as nat,
                key.eval(vals),
                consts,
                p,
            ) == output.eval(vals) by {
                lemma_eval_bound::<F>(output, vals);
                lemma_eval_bound::<F>(key, vals);
                lemma_sub_add(output.eval(vals), key.eval(vals), p);
            }
        }
        let mut j: usize = m;
        while j > 0
            invariant
                p == F::modulus(),
                1 < p,
                m == round_constants@.len(),
                consts == element_values(round_constants@),
                j <= m,
                self.extends(start),
                self.next_index() <= start.next_index() + 2 * (m - j),
                start.next_index() + 2 * (m + 1) <= u32::MAX,
                forall|vals: Map<u32, nat>|
                    #![trigger self.satisfied(vals)]
                    self.satisfied(vals) && valid_assignment(vals, p) ==> mimc_from(
                        current.eval(vals),
                        j as nat,
                        key.eval(vals),
                        consts,
                        p,
                    ) == output.eval(vals),
            decreases j,
        {
            j -= 1;
            let ghost before = *self;
            // Undo the cubing permutation.
            let root = self.cube_root_with_exponent(&current, root_exponent);
            // Undo the key and random round constant additions.
            let c_ref = &round_constants[j];
            proof {
                use_type_invariant(c_ref);
            }
            let constant = Expression::from_element(c_ref);
            let shift = key.add(&constant);
            let next = root.sub(&shift);
            proof {
                lemma_extends_trans(*self, before, start);
                assert forall|vals: Map<u32, nat>| #![trigger self.satisfied(vals)]
                    self.satisfied(vals) && valid_assignment(vals, p) implies mimc_from(
                    next.eval(vals),
                    j as nat,
                    key.eval(vals),
                    consts,
                    p,
                ) == output.eval(vals) by {
                    lemma_satisfied_prefix(*self, before, vals);
                    let c = round_constants@[j as int];
                    assert(consts[j as int] == c@);
                    crate::field_arithmetic::lemma_element_eval::<F>(constant@, c@, vals);
                    lemma_eval_bound::<F>(&root, vals);
                    lemma_eval_bound::<F>(&shift, vals);
                    lemma_sub_add(root.eval(vals), shift.eval(vals), p);
                }
            }
            current = next;
        }
        // Undo the first round cubing and key addition. (There is no constant in the first round.)
        let ghost before = *self;
        let root = self.cube_root_with_exponent(&current, root_exponent);
        let r = root.sub(key);
        proof {
            lemma_extends_trans(*self, before, start);
            assert forall|vals: Map<u32, nat>| #![trigger self.satisfied(vals)]
                self.satisfied(vals) && valid_assignment(vals, p) implies mimc_value(
                r.eval(vals),
                key.eval(vals),
                consts,
                p,
            ) == output.eval(vals) by {
                lemma_satisfied_prefix(*self, before, vals);
                lemma_eval_bound::<F>(&root, vals);
                lemma_eval_bound::<F>(key, vals);
                lemma_sub_add(root.eval(vals), key.eval(vals), p);
            }
        }
        r
    }
}

/// An upper bound on the wires of a MiMC encryption with `m` round constants.
pub open spec fn mimc_wires<F: Field>(m: nat) -> nat {
    (m + 1) * (2 * field_bits::<F>() + 2)
}

/// The least `r` with `3^r >= 2^n`.
pub open spec fn recommended_rounds(n: nat) -> nat
    decreases n,
{
    recommended_rounds_from(n, 0)
}

/// The least `r >= s` with `3^r >= 2^n`, searching upwards from `s`; `3^n >= 2^n` ends the
/// search by `n`.
pub open spec fn recommended_rounds_from(n: nat, s: nat) -> nat
    decreases n - s,
{
    if s >= n || pow(3, s) >= vstd::arithmetic::power2::pow2(n) {
        s
    } else {
        recommended_rounds_from(n, s + 1)
    }
}

fn recommended_rounds_exec(n: usize) -> (r: usize)
    ensures
        r == recommended_rounds(n as nat),
{
    let two_to_n = Natural::from_u128(1).shl(n);
    let three = Natural::from_u128(3);
    let mut power = Natural::from_u128(1);
    let mut r: usize = 0;
    proof {
        reveal_with_fuel(pow, 1);
        assert(pow(3, 0) == 1) by {
            lemma_pow0(3);
        }
    }
    while r < n && power.lt(&two_to_n)
        invariant
            r <= n,
            two_to_n@ == vstd::arithmetic::power2::pow2(n as nat),
            three@ == 3,
            power@ == pow(3, r as nat),
            recommended_rounds_from(n as nat, r as nat) == recommended_rounds(n as nat),
        decreases n - r,
    {
        power = power.mul(&three);
        proof {
            reveal_with_fuel(pow, 2);
            lemma_pow_adds(3, r as nat, 1);
            lemma_pow1(3);
        }
        r += 1;
    }
    r
}

/// The round constants for the recommended number of rounds, drawn from ChaCha20 seeded with 0.
pub fn mimc_chacha20_constants<F: Field>() -> (r: Option<Vec<Element<F>>>)
    ensures
        r matches Some(v) ==> field_constants(
            element_values(v@),
            recommended_rounds(field_bits::<F>()),
            F::modulus(),
        ),
{
    let mut rng = crate::random::chacha20_seeded(0);
    let rounds = GadgetBuilder::<F>::mimc_recommended_rounds();
    let mut round_constants: Vec<Element<F>> = Vec::new();
    let mut i: usize = 0;
    while i < rounds
        invariant
            i <= rounds,
            round_constants@.len() == i,
            forall|k: int| 0 <= k < i ==> #[trigger] round_constants@[k]@ < F::modulus(),
        decreases rounds - i,
    {
        match Element::random(&mut rng) {
            Some(e) => round_constants.push(e),
            None => return None,
        }
        i += 1;
    }
    Some(round_constants)
}

/// The MiMC block cipher. This will use a number of rounds equal to `round_constants.len() + 1`,
/// since the first round has no random constant.
pub struct MiMCBlockCipher<F: Field> {
    round_constants: Vec<Element<F>>,
    three: Element<F>,
    root_exponent: Element<F>,
}

impl<F: Field> MiMCBlockCipher<F> {
    /// The round constants.
    pub closed spec fn spec_round_constants(&self) -> Seq<nat> {
        element_values(self.round_constants@)
    }

    /// The cubing exponent is 3.
    #[verifier::type_invariant]
    spec fn inv(&self) -> bool {
        self.three@ == 3
    }

    /// A cipher with the given round constants. MiMC requires a field with gcd(3, p − 1) = 1.
    pub fn new(round_constants: &[Element<F>]) -> (r: Self)
        requires
            mimc_compatible(F::modulus()),
        ensures
            r.spec_round_constants() == element_values(round_constants@),
    {
        let mut constants: Vec<Element<F>> = Vec::new();
        let mut i: usize = 0;
        while i < round_constants.len()
            invariant
                i <= round_constants@.len(),
                constants@.len() == i,
                forall|k: int| 0 <= k < i ==> #[trigger] constants@[k]@ == round_constants@[k]@,
            decreases round_constants@.len() - i,
        {
            constants.push(round_constants[i].copy());
            i += 1;
        }
        proof {
            assert(element_values(constants@) =~= element_values(round_constants@));
        }
        MiMCBlockCipher {
            round_constants: constants,
            three: Element::from_u128(3),
            root_exponent: cube_root_exponent(),
        }
    }

    /// Configures MiMC with the number of rounds recommended in the paper. Uses ChaCha20 (seeded
    /// with 0) as the source of randomness for these constants; `None` when drawing one fails (see
    /// `Element::random`).
    pub fn new_default() -> (r: Option<Self>)
        requires
            mimc_compatible(F::modulus()),
        ensures
            r matches Some(c) ==> field_constants(
                c.spec_round_constants(),
                recommended_rounds(field_bits::<F>()),
                F::modulus(),
            ),
    {
        match mimc_chacha20_constants::<F>() {
            Some(constants) => Some(Self::new(constants.as_slice())),
            None => None,
        }
    }
}

impl<F: Field> BlockCipher<F> for MiMCBlockCipher<F> {
    open spec fn cipher_wires(&self) -> nat {
        mimc_wires::<F>(self.spec_round_constants().len())
    }

    open spec fn encrypt_value(&self, key: nat, input: nat) -> nat {
        mimc_value(input, key, self.spec_round_constants(), F::modulus())
    }

    fn encrypt(&self, builder: &mut GadgetBuilder<F>, key: &Expression<F>, input: &Expression<F>) -> (r:
        Expression<F>) {
        proof {
            use_type_invariant(self);
            assert(self.round_constants@.len() == self.spec_round_constants().len());
        }
        builder.mimc_encrypt(key, input, self.round_constants.as_slice(), &self.three)
    }

    fn decrypt(&self, builder: &mut GadgetBuilder<F>, key: &Expression<F>, output: &Expression<F>) -> (r:
        Expression<F>) {
        proof {
            assert(self.round_constants@.len() == self.spec_round_constants().len());
            use_type_invariant(self);
            use_type_invariant(&self.three);
            crate::comparisons::lemma_field_bits_positive::<F>();
            assert(2 * (self.round_constants@.len() + 1) <= mimc_wires::<F>(
                self.spec_round_constants().len(),
            )) by (nonlinear_arith)
                requires
                    field_bits::<F>() >= 1,
            ;
        }
        builder.mimc_decrypt(key, output, self.round_constants.as_slice(), &self.root_exponent)
    }
}

/// Decrypting an encryption gives back the plaintext: two elements that encrypt to the same
/// value under one key are equal, so the element that `decrypt` finds for `encrypt(x)` is `x`.
pub proof fn lemma_mimc_cipher_decrypts<F: Field>(cipher: MiMCBlockCipher<F>, key: nat, x: nat, z: nat)
    requires
        is_prime(F::modulus()),
        mimc_compatible(F::modulus()),
        key < F::modulus(),
        x < F::modulus(),
        z < F::modulus(),
        cipher.encrypt_value(key, x) == cipher.encrypt_value(key, z),
    ensures
        x == z,
{
    lemma_mimc_decrypts(x, z, key, cipher.spec_round_constants(), F::modulus());
}

/// The MiMC permutation is injective: the element that `inverse` finds is the one that `permute`
/// was applied to.
pub proof fn lemma_mimc_permutation_undoes<F: Field>(perm: MiMCPermutation<F>, x: nat, y: nat, z: nat)
    requires
        is_prime(F::modulus()),
        mimc_compatible(F::modulus()),
        x < F::modulus(),
        z < F::modulus(),
        perm.maps_to(x, y),
        perm.maps_to(z, y),
    ensures
        x == z,
{
    lemma_mimc_decrypts(x, z, 0, perm.cipher.spec_round_constants(), F::modulus());
}

/// The MiMC permutation, which is equivalent to MiMC encryption with a key of zero.
pub struct MiMCPermutation<F: Field> {
    pub cipher: MiMCBlockCipher<F>,
}

impl<F: Field> Permutation<F> for MiMCPermutation<F> {
    open spec fn permutation_wires(&self) -> nat {
        self.cipher.cipher_wires()
    }

    open spec fn maps_to(&self, x: nat, y: nat) -> bool {
        y == self.cipher.encrypt_value(0, x)
    }

    fn permute(&self, builder: &mut GadgetBuilder<F>, x: &Expression<F>) -> (r: Expression<F>) {
        // As per the paper, we just use a key of zero.
        let zero = Expression::zero();
        let r = self.cipher.encrypt(builder, &zero, x);
        proof {
            assert forall|vals: Map<u32, nat>| #![trigger builder.satisfied(vals)]
                builder.satisfied(vals) && valid_assignment(vals, F::modulus()) implies self.maps_to(
                x.eval(vals),
                r.eval(vals),
            ) by {
                crate::gadget_builder::lemma_zero_eval(zero@, vals, F::modulus());
            }
        }
        r
    }

    fn inverse(&self, builder: &mut GadgetBuilder<F>, x: &Expression<F>) -> (r: Expression<F>) {
        let zero = Expression::zero();
        let r = self.cipher.decrypt(builder, &zero, x);
        proof {
            assert forall|vals: Map<u32, nat>| #![trigger builder.satisfied(vals)]
                builder.satisfied(vals) && valid_assignment(vals, F::modulus()) implies self.maps_to(
                r.eval(vals),
                x.eval(vals),
            ) by {
                crate::gadget_builder::lemma_zero_eval(zero@, vals, F::modulus());
            }
        }
        r
    }
}

} // verus!
