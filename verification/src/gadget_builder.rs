//! A utility for building gadgets, one wire and one constraint at a time.

use vstd::prelude::*;

use crate::binary_expression::{BinaryExpression, BooleanExpression};
use crate::constraint::{all_hold, rank1_holds, Constraint};
use crate::expression::{
    assigns_all, eval_terms, lemma_coefficient_absent, lemma_coefficient_wf, raw_value, Expression,
};
use crate::field::{field_add, field_mul, field_pow, field_sub, Field};
use crate::gadget::Gadget;
use crate::primes::{is_prime, lemma_boolean_root, lemma_nonzero_exact, lemma_sub_zero, lemma_zero_exact};
use crate::wire::{BinaryWire, BooleanWire, Wire, ONE_WIRE_INDEX};
use crate::witness_generator::{Generate, WitnessGenerator};

verus! {

/// An assignment as a `WireValues` holds it: the constant-1 wire carries 1, and every value is
/// an element of `F_p`.
pub open spec fn valid_assignment(vals: Map<u32, nat>, p: nat) -> bool {
    &&& vals.contains_key(ONE_WIRE_INDEX)
    &&& vals[ONE_WIRE_INDEX] == 1
    &&& forall|w: u32| vals.contains_key(w) ==> #[trigger] vals[w] < p
}

pub struct GadgetBuilder<F: Field> {
    next_wire_index: u32,
    constraints: Vec<Constraint<F>>,
    witness_generators: Vec<WitnessGenerator<F>>,
}

/// A utility for building `Gadget`s. See the readme for examples.
impl<F: Field> GadgetBuilder<F> {
    /// The index of the next wire to be created.
    pub closed spec fn next_index(&self) -> nat {
        self.next_wire_index as nat
    }

    /// The constraints added so far.
    pub closed spec fn constraint_seq(&self) -> Seq<Constraint<F>> {
        self.constraints@
    }

    /// The witness generators added so far.
    pub closed spec fn generator_seq(&self) -> Seq<WitnessGenerator<F>> {
        self.witness_generators@
    }

    /// Every constraint added so far holds under the assignment.
    pub open spec fn satisfied(&self, vals: Map<u32, nat>) -> bool {
        all_hold(self.constraint_seq(), vals)
    }

    /// At least `n` more wires can be created (wire indices are `u32`).
    pub open spec fn has_room(&self, n: nat) -> bool {
        self.next_index() + n <= u32::MAX
    }

    /// This builder was obtained from `earlier` by adding wires, constraints and generators only.
    pub open spec fn extends(&self, earlier: Self) -> bool {
        &&& earlier.constraint_seq().is_prefix_of(self.constraint_seq())
        &&& earlier.generator_seq().is_prefix_of(self.generator_seq())
        &&& earlier.next_index() <= self.next_index()
    }

    pub fn new() -> (r: Self)
        ensures
            r.next_index() == 1,
            r.constraint_seq() == Seq::<Constraint<F>>::empty(),
            r.generator_seq() == Seq::<WitnessGenerator<F>>::empty(),
    {
        GadgetBuilder { next_wire_index: 1, constraints: Vec::new(), witness_generators: Vec::new() }
    }

    /// Add a wire to the gadget. It will start with no generator and no associated constraints.
    pub fn wire(&mut self) -> (r: Wire)
        requires
            old(self).has_room(1),
        ensures
            r.index == old(self).next_index(),
            final(self).next_index() == old(self).next_index() + 1,
            final(self).constraint_seq() == old(self).constraint_seq(),
            final(self).generator_seq() == old(self).generator_seq(),
    {
        let index = self.next_wire_index;
        self.next_wire_index = self.next_wire_index + 1;
        Wire { index }
    }

    /// Add a wire to the gadget, whose value is constrained to equal 0 or 1.
    pub fn boolean_wire(&mut self) -> (r: BooleanWire)
        requires
            old(self).has_room(1),
        ensures
            r.spec_wire().index == old(self).next_index(),
            final(self).next_index() == old(self).next_index() + 1,
            final(self).extends(*old(self)),
            final(self).generator_seq() == old(self).generator_seq(),
            forall|vals: Map<u32, nat>|
                #![trigger final(self).satisfied(vals)]
                final(self).satisfied(vals) && valid_assignment(vals, F::modulus()) ==> vals.contains_key(
                    r.spec_wire().index,
                ) && field_mul(
                    vals[r.spec_wire().index],
                    field_sub(vals[r.spec_wire().index], 1, F::modulus()),
                    F::modulus(),
                ) == 0,
            forall|vals: Map<u32, nat>|
                #![trigger added_hold(*final(self), *old(self), vals)]
                valid_assignment(vals, F::modulus()) && vals.contains_key(r.spec_wire().index) && (
                vals[r.spec_wire().index] == 0 || vals[r.spec_wire().index] == 1) ==> added_hold(
                    *final(self),
                    *old(self),
                    vals,
                ),
    {
        let ghost start = *self;
        let w = self.wire();
        let ghost mid = *self;
        let x = Expression::from_wire(w);
        let _ = self.assert_boolean(&x);
        proof {
            let p = F::modulus();
            assert forall|vals: Map<u32, nat>| #![trigger added_hold(*self, start, vals)]
                valid_assignment(vals, p) && vals.contains_key(w.index) && (vals[w.index] == 0
                    || vals[w.index] == 1) implies added_hold(*self, start, vals) by {
                assert(x@[0].0 == w.index);
                lemma_single_wire_eval(x@, w.index, vals, p);
                assert(added_hold(*self, mid, vals));
            }
            assert forall|vals: Map<u32, nat>| #![trigger self.satisfied(vals)]
                self.satisfied(vals) && valid_assignment(vals, F::modulus()) implies vals.contains_key(w.index)
                && field_mul(vals[w.index], field_sub(vals[w.index], 1, p), p) == 0 by {
                assert(x@[0].0 == w.index);
                lemma_single_wire_eval(x@, w.index, vals, p);
            }
        }
        BooleanWire::new_unsafe(w)
    }

    /// Add `n` wires to the gadget. They will start with no generator and no associated
    /// constraints.
    pub fn wires(&mut self, n: usize) -> (r: Vec<Wire>)
        requires
            old(self).has_room(n as nat),
        ensures
            r@.len() == n,
            forall|i: int| 0 <= i < n ==> #[trigger] r@[i].index == old(self).next_index() + i,
            final(self).next_index() == old(self).next_index() + n,
            final(self).constraint_seq() == old(self).constraint_seq(),
            final(self).generator_seq() == old(self).generator_seq(),
    {
        let mut out: Vec<Wire> = Vec::new();
        let mut i: usize = 0;
        while i < n
            invariant
                i <= n,
                out@.len() == i,
                self.next_index() == old(self).next_index() + i,
                old(self).next_index() + n <= u32::MAX,
                forall|k: int| 0 <= k < i ==> #[trigger] out@[k].index == old(self).next_index() + k,
                self.constraint_seq() == old(self).constraint_seq(),
                self.generator_seq() == old(self).generator_seq(),
            decreases n - i,
        {
            out.push(self.wire());
            i += 1;
        }
        out
    }

    /// Add a binary wire comprised of `n` bits to the gadget.
    pub fn binary_wire(&mut self, n: usize) -> (r: BinaryWire)
        requires
            old(self).has_room(n as nat),
        ensures
            r.bits@.len() == n,
            forall|i: int|
                0 <= i < n ==> #[trigger] r.bits@[i].spec_wire().index == old(self).next_index() + i,
            final(self).next_index() == old(self).next_index() + n,
            final(self).extends(*old(self)),
            final(self).generator_seq() == old(self).generator_seq(),
            forall|vals: Map<u32, nat>|
                #![trigger final(self).satisfied(vals)]
                final(self).satisfied(vals) && valid_assignment(vals, F::modulus()) ==> forall|i: int|
                    0 <= i < n ==> vals.contains_key(#[trigger] r.bits@[i].spec_wire().index)
                        && field_mul(
                        vals[r.bits@[i].spec_wire().index],
                        field_sub(vals[r.bits@[i].spec_wire().index], 1, F::modulus()),
                        F::modulus(),
                    ) == 0,
            forall|vals: Map<u32, nat>|
                #![trigger added_hold(*final(self), *old(self), vals)]
                valid_assignment(vals, F::modulus()) && (forall|i: int|
                    0 <= i < n ==> vals.contains_key(#[trigger] r.bits@[i].spec_wire().index) && (
                    vals[r.bits@[i].spec_wire().index] == 0 || vals[r.bits@[i].spec_wire().index] == 1))
                    ==> added_hold(*final(self), *old(self), vals),
    {
        let mut bits: Vec<BooleanWire> = Vec::new();
        let mut i: usize = 0;
        while i < n
            invariant
                i <= n,
                bits@.len() == i,
                self.next_index() == old(self).next_index() + i,
                old(self).next_index() + n <= u32::MAX,
                forall|k: int|
                    0 <= k < i ==> #[trigger] bits@[k].spec_wire().index == old(self).next_index()
                        + k,
                self.extends(*old(self)),
                self.generator_seq() == old(self).generator_seq(),
                forall|vals: Map<u32, nat>|
                    #![trigger self.satisfied(vals)]
                    self.satisfied(vals) && valid_assignment(vals, F::modulus()) ==> forall|k: int|
                        0 <= k < i ==> vals.contains_key(#[trigger] bits@[k].spec_wire().index)
                            && field_mul(
                            vals[bits@[k].spec_wire().index],
                            field_sub(vals[bits@[k].spec_wire().index], 1, F::modulus()),
                            F::modulus(),
                        ) == 0,
                forall|vals: Map<u32, nat>|
                    #![trigger added_hold(*self, *old(self), vals)]
                    valid_assignment(vals, F::modulus()) && (forall|k: int|
                        0 <= k < i ==> vals.contains_key(#[trigger] bits@[k].spec_wire().index) && (
                        vals[bits@[k].spec_wire().index] == 0 || vals[bits@[k].spec_wire().index] == 1))
                        ==> added_hold(*self, *old(self), vals),
            decreases n - i,
        {
            let ghost before = *self;
            let b = self.boolean_wire();
            proof {
                lemma_extends_trans(*self, before, *old(self));
                assert forall|vals: Map<u32, nat>| #![trigger self.satisfied(vals)]
                    self.satisfied(vals) && valid_assignment(vals, F::modulus()) implies forall|k: int|
                    0 <= k < i + 1 ==> vals.contains_key(
                        #[trigger] bits@.push(b)[k].spec_wire().index,
                    ) && field_mul(
                        vals[bits@.push(b)[k].spec_wire().index],
                        field_sub(vals[bits@.push(b)[k].spec_wire().index], 1, F::modulus()),
                        F::modulus(),
                    ) == 0 by {
                    lemma_satisfied_prefix(*self, before, vals);
                    assert forall|k: int| 0 <= k < i + 1 implies vals.contains_key(
                        #[trigger] bits@.push(b)[k].spec_wire().index,
                    ) && field_mul(
                        vals[bits@.push(b)[k].spec_wire().index],
                        field_sub(vals[bits@.push(b)[k].spec_wire().index], 1, F::modulus()),
                        F::modulus(),
                    ) == 0 by {
                        if k < i {
                            assert(bits@.push(b)[k] == bits@[k]);
                        }
                    }
                }
            }
            proof {
                assert forall|vals: Map<u32, nat>| #![trigger added_hold(*self, *old(self), vals)]
                    valid_assignment(vals, F::modulus()) && (forall|k: int|
                        0 <= k < i + 1 ==> vals.contains_key(#[trigger] bits@.push(b)[k].spec_wire().index) && (
                        vals[bits@.push(b)[k].spec_wire().index] == 0 || vals[bits@.push(b)[k].spec_wire().index] == 1))
                    implies added_hold(*self, *old(self), vals) by {
                    assert forall|k: int| 0 <= k < i implies vals.contains_key(#[trigger] bits@[k].spec_wire().index) && (
                        vals[bits@[k].spec_wire().index] == 0 || vals[bits@[k].spec_wire().index] == 1) by {
                        assert(bits@.push(b)[k] == bits@[k]);
                    }
                    assert(bits@.push(b)[i as int] == b);
                    assert(added_hold(before, *old(self), vals));
                    assert(added_hold(*self, before, vals));
                    lemma_added_hold_trans(*self, before, *old(self), vals);
                }
            }
            bits.push(b);
            i += 1;
        }
        BinaryWire { bits }
    }

    /// Add a witness generator, which assigns some wires once its inputs are assigned.
    pub fn generator(&mut self, generator: WitnessGenerator<F>)
        ensures
            final(self).next_index() == old(self).next_index(),
            final(self).constraint_seq() == old(self).constraint_seq(),
            final(self).generator_seq() == old(self).generator_seq().push(generator),
    {
        self.witness_generators.push(generator);
    }

    /// Assert that x * y = z;
    pub fn assert_product(&mut self, x: &Expression<F>, y: &Expression<F>, z: &Expression<F>)
        ensures
            final(self).next_index() == old(self).next_index(),
            final(self).generator_seq() == old(self).generator_seq(),
            final(self).constraint_seq().len() == old(self).constraint_seq().len() + 1,
            final(self).extends(*old(self)),
            final(self).constraint_seq().last().a@ == x@,
            final(self).constraint_seq().last().b@ == y@,
            final(self).constraint_seq().last().c@ == z@,
            forall|vals: Map<u32, nat>|
                #![trigger final(self).satisfied(vals)]
                final(self).satisfied(vals) ==> rank1_holds(x@, y@, z@, vals, F::modulus()),
            forall|vals: Map<u32, nat>|
                #![trigger added_hold(*final(self), *old(self), vals)]
                rank1_holds(x@, y@, z@, vals, F::modulus()) ==> added_hold(*final(self), *old(self), vals),
    {
        self.constraints.push(Constraint { a: x.copy(), b: y.copy(), c: z.copy() });
        proof {
            assert(old(self).constraint_seq().is_prefix_of(self.constraint_seq())) by {
                assert(self.constraints@.subrange(0, old(self).constraints@.len() as int)
                    =~= old(self).constraints@);
            }
            assert forall|vals: Map<u32, nat>| #![trigger self.satisfied(vals)]
                self.satisfied(vals) implies rank1_holds(x@, y@, z@, vals, F::modulus()) by {
                assert(self.constraints@[self.constraints@.len() - 1].holds(vals));
            }
            assert forall|vals: Map<u32, nat>| #![trigger added_hold(*self, *old(self), vals)]
                rank1_holds(x@, y@, z@, vals, F::modulus()) implies added_hold(*self, *old(self), vals) by {
                let t = self.constraint_seq().skip(old(self).constraint_seq().len() as int);
                assert(t.len() == 1);
                assert(t[0] == self.constraint_seq().last());
            }
        }
    }

    /// Assert that the given quantity is in [0, 1], and return it as a boolean expression.
    pub fn assert_boolean(&mut self, x: &Expression<F>) -> (r: BooleanExpression<F>)
        ensures
            r@ == x@,
            final(self).next_index() == old(self).next_index(),
            final(self).generator_seq() == old(self).generator_seq(),
            final(self).extends(*old(self)),
            forall|vals: Map<u32, nat>|
                #![trigger final(self).satisfied(vals)]
                final(self).satisfied(vals) && valid_assignment(vals, F::modulus()) ==> assigns_all(
                    x@,
                    vals,
                ) && field_mul(
                    x.eval(vals),
                    field_sub(x.eval(vals), 1, F::modulus()),
                    F::modulus(),
                ) == 0,
            forall|vals: Map<u32, nat>|
                #![trigger final(self).satisfied(vals)]
                final(self).satisfied(vals) && valid_assignment(vals, F::modulus()) && is_prime(
                    F::modulus(),
                ) ==> x.eval(vals) == 0 || x.eval(vals) == 1,
            forall|vals: Map<u32, nat>|
                #![trigger added_hold(*final(self), *old(self), vals)]
                valid_assignment(vals, F::modulus()) && assigns_all(x@, vals) && (x.eval(vals) == 0
                    || x.eval(vals) == 1) ==> added_hold(*final(self), *old(self), vals),
    {
        let one = Expression::one();
        let x_minus_one = x.sub(&one);
        let zero = Expression::zero();
        self.assert_product(x, &x_minus_one, &zero);
        proof {
            let p = F::modulus();
            use_type_invariant(&x_minus_one);
            use_type_invariant(x);
            assert forall|vals: Map<u32, nat>| #![trigger added_hold(*self, *old(self), vals)]
                valid_assignment(vals, p) && assigns_all(x@, vals) && (x.eval(vals) == 0 || x.eval(vals)
                    == 1) implies added_hold(*self, *old(self), vals) by {
                lemma_one_eval::<F>(one@, vals);
                lemma_zero_eval(zero@, vals, p);
                assert(x_minus_one.eval(vals) == field_sub(x.eval(vals), one.eval(vals), p));
                assert forall|i: int| 0 <= i < x_minus_one@.len() implies vals.contains_key(
                    #[trigger] x_minus_one@[i].0,
                ) by {
                    let w = x_minus_one@[i].0;
                    lemma_coefficient_wf(x_minus_one@, p, w);
                    if w != ONE_WIRE_INDEX {
                        if forall|k: int| 0 <= k < x@.len() ==> #[trigger] x@[k].0 != w {
                            lemma_coefficient_absent(x@, w);
                            lemma_coefficient_absent(one@, w);
                            vstd::arithmetic::div_mod::lemma_small_mod(0, p);
                            assert(false);
                        } else {
                            let k = choose|k: int| 0 <= k < x@.len() && #[trigger] x@[k].0 == w;
                            assert(vals.contains_key(x@[k].0));
                        }
                    }
                }
                if x.eval(vals) == 1 {
                    vstd::arithmetic::div_mod::lemma_small_mod(0, p);
                    assert(field_sub(1, 1, p) == 0);
                    assert(1 * 0 == 0);
                } else {
                    assert(0 * field_sub(0, 1, p) == 0);
                    vstd::arithmetic::div_mod::lemma_small_mod(0, p);
                }
                assert(rank1_holds(x@, x_minus_one@, zero@, vals, p));
            }
            assert forall|vals: Map<u32, nat>| #![trigger self.satisfied(vals)]
                self.satisfied(vals) && valid_assignment(vals, F::modulus()) implies assigns_all(x@, vals)
                && field_mul(x.eval(vals), field_sub(x.eval(vals), 1, p), p) == 0 by {
                lemma_one_eval::<F>(one@, vals);
                lemma_zero_eval(zero@, vals, p);
                assert(x_minus_one.eval(vals) == field_sub(x.eval(vals), one.eval(vals), p));
                assert(rank1_holds(x@, x_minus_one@, zero@, vals, p));
            }
            assert forall|vals: Map<u32, nat>| #![trigger self.satisfied(vals)]
                self.satisfied(vals) && valid_assignment(vals, p) && is_prime(p) implies x.eval(vals)
                == 0 || x.eval(vals) == 1 by {
                lemma_eval_bound::<F>(x, vals);
                lemma_boolean_root(x.eval(vals), p);
            }
        }
        BooleanExpression::new_unsafe(x.copy())
    }

    /// Assert that x == y.
    pub fn assert_equal(&mut self, x: &Expression<F>, y: &Expression<F>)
        ensures
            final(self).next_index() == old(self).next_index(),
            final(self).generator_seq() == old(self).generator_seq(),
            final(self).extends(*old(self)),
            forall|vals: Map<u32, nat>|
                #![trigger final(self).satisfied(vals)]
                final(self).satisfied(vals) && valid_assignment(vals, F::modulus()) ==> x.eval(vals) == y.eval(vals),
            forall|vals: Map<u32, nat>|
                #![trigger added_hold(*final(self), *old(self), vals)]
                valid_assignment(vals, F::modulus()) && assigns_all(x@, vals) && assigns_all(y@, vals)
                    && x.eval(vals) == y.eval(vals) ==> added_hold(*final(self), *old(self), vals),
    {
        let one = Expression::one();
        self.assert_product(x, &one, y);
        proof {
            assert forall|vals: Map<u32, nat>| #![trigger added_hold(*self, *old(self), vals)]
                valid_assignment(vals, F::modulus()) && assigns_all(x@, vals) && assigns_all(y@, vals)
                    && x.eval(vals) == y.eval(vals) implies added_hold(*self, *old(self), vals) by {
                lemma_one_eval::<F>(one@, vals);
                lemma_eval_bound::<F>(x, vals);
                assert(x.eval(vals) * 1 == x.eval(vals));
                vstd::arithmetic::div_mod::lemma_small_mod(x.eval(vals), F::modulus());
                assert(rank1_holds(x@, one@, y@, vals, F::modulus()));
            }
            assert forall|vals: Map<u32, nat>| #![trigger self.satisfied(vals)]
                self.satisfied(vals) && valid_assignment(vals, F::modulus()) implies x.eval(vals) == y.eval(vals) by {
                lemma_one_eval::<F>(one@, vals);
                lemma_eval_bound::<F>(x, vals);
                assert(rank1_holds(x@, one@, y@, vals, F::modulus()));
                assert(x.eval(vals) * 1 == x.eval(vals));
                vstd::arithmetic::div_mod::lemma_small_mod(x.eval(vals), F::modulus());
            }
        }
    }

    /// Assert that x == 0.
    pub fn assert_zero(&mut self, x: &Expression<F>)
        ensures
            final(self).next_index() == old(self).next_index(),
            final(self).generator_seq() == old(self).generator_seq(),
            final(self).extends(*old(self)),
            forall|vals: Map<u32, nat>|
                #![trigger final(self).satisfied(vals)]
                final(self).satisfied(vals) && valid_assignment(vals, F::modulus()) ==> x.eval(vals) == 0,
            forall|vals: Map<u32, nat>|
                #![trigger added_hold(*final(self), *old(self), vals)]
                valid_assignment(vals, F::modulus()) && assigns_all(x@, vals) && x.eval(vals) == 0
                    ==> added_hold(*final(self), *old(self), vals),
    {
        let zero = Expression::zero();
        self.assert_equal(x, &zero);
        proof {
            assert forall|vals: Map<u32, nat>| #![trigger added_hold(*self, *old(self), vals)]
                valid_assignment(vals, F::modulus()) && assigns_all(x@, vals) && x.eval(vals) == 0
                implies added_hold(*self, *old(self), vals) by {
                lemma_zero_eval(zero@, vals, F::modulus());
            }
            assert forall|vals: Map<u32, nat>| #![trigger self.satisfied(vals)]
                self.satisfied(vals) && valid_assignment(vals, F::modulus()) implies x.eval(vals) == 0 by {
                lemma_zero_eval(zero@, vals, F::modulus());
            }
        }
    }

    /// Assert that x == 1.
    pub fn assert_true(&mut self, x: &BooleanExpression<F>)
        ensures
            final(self).next_index() == old(self).next_index(),
            final(self).generator_seq() == old(self).generator_seq(),
            final(self).extends(*old(self)),
            forall|vals: Map<u32, nat>|
                #![trigger final(self).satisfied(vals)]
                final(self).satisfied(vals) && valid_assignment(vals, F::modulus()) ==> x.eval(vals) == 1,
    {
        let one = Expression::one();
        self.assert_equal(x.expression(), &one);
        proof {
            assert forall|vals: Map<u32, nat>| #![trigger self.satisfied(vals)]
                self.satisfied(vals) && valid_assignment(vals, F::modulus()) implies x.eval(vals) == 1 by {
                lemma_one_eval::<F>(one@, vals);
            }
        }
    }

    /// Assert that x == 0.
    pub fn assert_false(&mut self, x: &BooleanExpression<F>)
        ensures
            final(self).next_index() == old(self).next_index(),
            final(self).generator_seq() == old(self).generator_seq(),
            final(self).extends(*old(self)),
            forall|vals: Map<u32, nat>|
                #![trigger final(self).satisfied(vals)]
                final(self).satisfied(vals) && valid_assignment(vals, F::modulus()) ==> x.eval(vals) == 0,
    {
        self.assert_zero(x.expression());
    }

    /// The gadget built so far.
    pub fn build(self) -> (r: Gadget<F>)
        ensures
            r.constraints@ == self.constraint_seq(),
            r.witness_generators@ == self.generator_seq(),
    {
        Gadget { constraints: self.constraints, witness_generators: self.witness_generators }
    }
}

impl<F: Field> GadgetBuilder<F> {
    /// x != 0, as a bit. When the field order is prime, the constraints force the bit to be 1
    /// exactly when `x` is non-zero: they state `x = 0 => bit = 0` and `(1 - bit) * x = 0`.
    pub fn nonzero(&mut self, x: &Expression<F>) -> (r: BooleanExpression<F>)
        requires
            old(self).has_room(2),
        ensures
            final(self).extends(*old(self)),
            final(self).next_index() == old(self).next_index() + 2,
            forall|vals: Map<u32, nat>|
                #![trigger final(self).satisfied(vals)]
                final(self).satisfied(vals) && valid_assignment(vals, F::modulus()) ==> (x.eval(vals)
                    == 0 ==> r.eval(vals) == 0) && field_mul(
                    field_sub(1, r.eval(vals), F::modulus()),
                    x.eval(vals),
                    F::modulus(),
                ) == 0,
            forall|vals: Map<u32, nat>|
                #![trigger final(self).satisfied(vals)]
                final(self).satisfied(vals) && valid_assignment(vals, F::modulus()) && is_prime(
                    F::modulus(),
                ) ==> r.eval(vals) == if x.eval(vals) == 0 {
                    0nat
                } else {
                    1nat
                },
            final(self).generator_seq().len() == old(self).generator_seq().len() + 1,
            forall|before: Map<u32, nat>, after: Map<u32, nat>|
                #![trigger final(self).generator_seq().last().generated(before, after)]
                final(self).generator_seq().last().generated(before, after) && valid_assignment(
                    before,
                    F::modulus(),
                ) && is_prime(F::modulus()) && assigns_all(x@, before) && 0 < old(self).next_index()
                    && wires_below(x@, old(self).next_index()) ==> all_hold(
                    final(self).constraint_seq().skip(old(self).constraint_seq().len() as int),
                    after,
                ) && valid_assignment(after, F::modulus()) && r.eval(after) == if x.eval(before)
                    == 0 {
                    0nat
                } else {
                    1nat
                },
    {
        // See the Pinocchio paper for an explanation.
        let ghost start = *self;
        let y = self.wire();
        let m = self.wire();
        let y_exp = Expression::from_wire(y);
        let m_exp = Expression::from_wire(m);
        self.assert_product(x, &m_exp, &y_exp);
        let ghost mid = *self;
        let one = Expression::one();
        let one_minus_y = one.sub(&y_exp);
        let zero = Expression::zero();
        self.assert_product(&one_minus_y, x, &zero);
        let ghost mid2 = *self;
        let gen = WitnessGenerator::new(
            x.dependencies(),
            Generate::Nonzero { x: x.copy(), indicator: y, witness: m },
        );
        let ghost gg = gen;
        self.generator(gen);
        proof {
            let p = F::modulus();
            let n0 = start.constraint_seq().len() as int;
            let cs = self.constraint_seq();
            use_type_invariant(x);
            use_type_invariant(&one_minus_y);
            assert(self.generator_seq().last() == gg);
            assert(mid2.constraint_seq().is_prefix_of(cs));
            assert(cs.skip(n0).len() == 2);
            assert(cs.skip(n0)[0] == mid.constraint_seq().last());
            assert(cs.skip(n0)[1] == mid2.constraint_seq().last());
            assert forall|before: Map<u32, nat>, after: Map<u32, nat>|
                #![trigger self.generator_seq().last().generated(before, after)]
                self.generator_seq().last().generated(before, after) && valid_assignment(before, p)
                    && is_prime(p) && assigns_all(x@, before) && 0 < start.next_index() && wires_below(
                    x@,
                    start.next_index(),
                ) implies all_hold(cs.skip(n0), after) && valid_assignment(after, p) && y_exp.eval(after)
                == if x.eval(before) == 0 {
                0nat
            } else {
                1nat
            } by {
                let xv = x.eval(before);
                let mi = m.index;
                let yi = y.index;
                let mv: nat = if xv != 0 {
                    field_mul(1, field_pow(xv, (p - 2) as nat, p), p)
                } else if 42 < p {
                    42
                } else {
                    0
                };
                let yv: nat = if xv != 0 { 1 } else { 0 };
                let b1 = before.insert(mi, mv);
                assert(after == b1.insert(yi, yv));
                assert forall|i: int| 0 <= i < x@.len() implies #[trigger] x@[i].0 != mi by {
                    assert(x@[i].0 < start.next_index());
                }
                assert forall|i: int| 0 <= i < x@.len() implies #[trigger] x@[i].0 != yi by {
                    assert(x@[i].0 < start.next_index());
                }
                lemma_insert_unused(x@, before, mi, mv);
                lemma_insert_unused(x@, b1, yi, yv);
                assert(x.eval(after) == xv);
                assert(assigns_all(x@, after));
                vstd::arithmetic::div_mod::lemma_mod_bound(
                    vstd::arithmetic::power::pow(xv as int, (p - 2) as nat),
                    p as int,
                );
                vstd::arithmetic::div_mod::lemma_mod_bound(field_pow(xv, (p - 2) as nat, p) as int, p as int);
                assert(mv < p);
                assert(after.contains_key(mi) && after[mi] == mv);
                assert(after.contains_key(yi) && after[yi] == yv);
                lemma_single_wire_eval(m_exp@, mi, after, p);
                lemma_single_wire_eval(y_exp@, yi, after, p);
                lemma_eval_bound::<F>(x, before);
                if xv != 0 {
                    crate::fermat::lemma_inverse(p, xv);
                    let fp = field_pow(xv, (p - 2) as nat, p);
                    assert(1 * fp == fp);
                    vstd::arithmetic::div_mod::lemma_small_mod(fp, p);
                    assert(mv == fp);
                } else {
                    assert(0 * mv == 0);
                    vstd::arithmetic::div_mod::lemma_small_mod(0, p);
                }
                assert(rank1_holds(x@, m_exp@, y_exp@, after, p));
                // The constant 1 and the zero expression.
                assert(after.contains_key(ONE_WIRE_INDEX) && after[ONE_WIRE_INDEX] == 1);
                lemma_one_eval::<F>(one@, after);
                lemma_zero_eval(zero@, after, p);
                assert(assigns_all(one_minus_y@, after)) by {
                    assert forall|i: int| 0 <= i < one_minus_y@.len() implies after.contains_key(
                        #[trigger] one_minus_y@[i].0,
                    ) by {
                        let w = one_minus_y@[i].0;
                        lemma_coefficient_wf(one_minus_y@, p, w);
                        if w != ONE_WIRE_INDEX && w != yi {
                            lemma_coefficient_absent(one@, w);
                            lemma_coefficient_absent(y_exp@, w);
                            vstd::arithmetic::div_mod::lemma_small_mod(0, p);
                        }
                    }
                }
                assert(one_minus_y.eval(after) == field_sub(one.eval(after), y_exp.eval(after), p));
                if xv != 0 {
                    assert(field_sub(1, 1, p) == 0) by {
                        vstd::arithmetic::div_mod::lemma_small_mod(0, p);
                    }
                    assert(0 * xv == 0);
                } else {
                    assert(field_sub(1, 0, p) * 0 == 0);
                }
                vstd::arithmetic::div_mod::lemma_small_mod(0, p);
                assert(rank1_holds(one_minus_y@, x@, zero@, after, p));
                assert forall|i: int| 0 <= i < cs.skip(n0).len() implies #[trigger] cs.skip(n0)[i].holds(after) by {
                    if i == 0 {
                        assert(cs.skip(n0)[0].a@ == x@);
                    } else {
                        assert(cs.skip(n0)[1].a@ == one_minus_y@);
                    }
                }
            }
            assert(self.extends(mid2)) by {
                assert(mid2.generator_seq() =~= self.generator_seq().subrange(
                    0,
                    mid2.generator_seq().len() as int,
                ));
                assert(mid2.constraint_seq() =~= self.constraint_seq().subrange(
                    0,
                    mid2.constraint_seq().len() as int,
                ));
            }
            lemma_extends_trans(*self, mid2, mid);
            lemma_extends_trans(*self, mid, start);
            assert forall|vals: Map<u32, nat>| #![trigger self.satisfied(vals)]
                self.satisfied(vals) && valid_assignment(vals, p) implies (x.eval(vals) == 0
                ==> y_exp.eval(vals) == 0) && field_mul(
                field_sub(1, y_exp.eval(vals), p),
                x.eval(vals),
                p,
            ) == 0 by {
                lemma_satisfied_prefix(*self, mid2, vals);
                lemma_satisfied_prefix(mid2, mid, vals);
                assert(rank1_holds(x@, m_exp@, y_exp@, vals, p));
                assert(rank1_holds(one_minus_y@, x@, zero@, vals, p));
                lemma_one_eval::<F>(one@, vals);
                lemma_zero_eval(zero@, vals, p);
                assert(one_minus_y.eval(vals) == field_sub(one.eval(vals), y_exp.eval(vals), p));
                if x.eval(vals) == 0 {
                    assert(0 * m_exp.eval(vals) == 0);
                    vstd::arithmetic::div_mod::lemma_small_mod(0, p);
                }
            }
            assert forall|vals: Map<u32, nat>| #![trigger self.satisfied(vals)]
                self.satisfied(vals) && valid_assignment(vals, p) && is_prime(p) implies y_exp.eval(vals)
                == if x.eval(vals) == 0 {
                0nat
            } else {
                1nat
            } by {
                lemma_eval_bound::<F>(x, vals);
                lemma_eval_bound::<F>(&y_exp, vals);
                lemma_nonzero_exact(x.eval(vals), y_exp.eval(vals), p);
            }
        }
        BooleanExpression::new_unsafe(y_exp)
    }

    /// x == 0, as a bit: `1 - nonzero(x)`.
    pub fn zero(&mut self, x: &Expression<F>) -> (r: BooleanExpression<F>)
        requires
            old(self).has_room(2),
        ensures
            final(self).extends(*old(self)),
            final(self).next_index() == old(self).next_index() + 2,
            forall|vals: Map<u32, nat>|
                #![trigger final(self).satisfied(vals)]
                final(self).satisfied(vals) && valid_assignment(vals, F::modulus()) ==> (x.eval(vals)
                    == 0 ==> r.eval(vals) == 1) && field_mul(r.eval(vals), x.eval(vals), F::modulus())
                    == 0,
            forall|vals: Map<u32, nat>|
                #![trigger final(self).satisfied(vals)]
                final(self).satisfied(vals) && valid_assignment(vals, F::modulus()) && is_prime(
                    F::modulus(),
                ) ==> r.eval(vals) == if x.eval(vals) == 0 {
                    1nat
                } else {
                    0nat
                },
            final(self).generator_seq().len() == old(self).generator_seq().len() + 1,
            forall|before: Map<u32, nat>, after: Map<u32, nat>|
                #![trigger final(self).generator_seq().last().generated(before, after)]
                final(self).generator_seq().last().generated(before, after) && valid_assignment(
                    before,
                    F::modulus(),
                ) && is_prime(F::modulus()) && assigns_all(x@, before) && 0 < old(self).next_index()
                    && wires_below(x@, old(self).next_index()) ==> all_hold(
                    final(self).constraint_seq().skip(old(self).constraint_seq().len() as int),
                    after,
                ) && valid_assignment(after, F::modulus()) && r.eval(after) == if x.eval(before)
                    == 0 {
                    1nat
                } else {
                    0nat
                },
    {
        let nonzero = self.nonzero(x);
        let r = self.not(&nonzero);
        proof {
            let p = F::modulus();
            assert forall|before: Map<u32, nat>, after: Map<u32, nat>|
                #![trigger self.generator_seq().last().generated(before, after)]
                self.generator_seq().last().generated(before, after) && valid_assignment(before, p)
                    && is_prime(p) && assigns_all(x@, before) && 0 < old(self).next_index()
                    && wires_below(x@, old(self).next_index()) implies r.eval(after) == if x.eval(before)
                == 0 {
                1nat
            } else {
                0nat
            } by {
                assert(nonzero.eval(after) == if x.eval(before) == 0 { 0nat } else { 1nat });
                vstd::arithmetic::div_mod::lemma_small_mod(1, p);
                vstd::arithmetic::div_mod::lemma_small_mod(0, p);
            }
        }
        proof {
            let p = F::modulus();
            assert forall|vals: Map<u32, nat>| #![trigger self.satisfied(vals)]
                self.satisfied(vals) && valid_assignment(vals, p) implies (x.eval(vals) == 0
                ==> r.eval(vals) == 1) && field_mul(r.eval(vals), x.eval(vals), p) == 0 by {
                if x.eval(vals) == 0 {
                    assert(nonzero.eval(vals) == 0);
                    vstd::arithmetic::div_mod::lemma_small_mod(1, p);
                }
            }
            assert forall|vals: Map<u32, nat>| #![trigger self.satisfied(vals)]
                self.satisfied(vals) && valid_assignment(vals, p) && is_prime(p) implies r.eval(vals)
                == if x.eval(vals) == 0 {
                1nat
            } else {
                0nat
            } by {
                lemma_eval_bound::<F>(x, vals);
                lemma_terms_bound(r@, vals, p);
                lemma_zero_exact(x.eval(vals), r.eval(vals), p);
            }
        }
        r
    }

    /// x == y, as a bit: `zero(x - y)`.
    pub fn equal(&mut self, x: &Expression<F>, y: &Expression<F>) -> (r: BooleanExpression<F>)
        requires
            old(self).has_room(2),
        ensures
            final(self).extends(*old(self)),
            final(self).next_index() == old(self).next_index() + 2,
            forall|vals: Map<u32, nat>|
                #![trigger final(self).satisfied(vals)]
                final(self).satisfied(vals) && valid_assignment(vals, F::modulus()) ==> (x.eval(vals)
                    == y.eval(vals) ==> r.eval(vals) == 1) && field_mul(
                    r.eval(vals),
                    field_sub(x.eval(vals), y.eval(vals), F::modulus()),
                    F::modulus(),
                ) == 0,
            forall|vals: Map<u32, nat>|
                #![trigger final(self).satisfied(vals)]
                final(self).satisfied(vals) && valid_assignment(vals, F::modulus()) && is_prime(
                    F::modulus(),
                ) ==> r.eval(vals) == if x.eval(vals) == y.eval(vals) {
                    1nat
                } else {
                    0nat
                },
            final(self).generator_seq().len() == old(self).generator_seq().len() + 1,
            forall|before: Map<u32, nat>, after: Map<u32, nat>|
                #![trigger final(self).generator_seq().last().generated(before, after)]
                final(self).generator_seq().last().generated(before, after) && valid_assignment(
                    before,
                    F::modulus(),
                ) && is_prime(F::modulus()) && assigns_all(x@, before) && assigns_all(y@, before) && 0
                    < old(self).next_index() && wires_below(x@, old(self).next_index()) && wires_below(
                    y@,
                    old(self).next_index(),
                ) ==> all_hold(
                    final(self).constraint_seq().skip(old(self).constraint_seq().len() as int),
                    after,
                ) && valid_assignment(after, F::modulus()) && r.eval(after) == if x.eval(before)
                    == y.eval(before) {
                    1nat
                } else {
                    0nat
                },
    {
        let difference = x.sub(y);
        let r = self.zero(&difference);
        proof {
            let p = F::modulus();
            use_type_invariant(&difference);
            assert forall|before: Map<u32, nat>, after: Map<u32, nat>|
                #![trigger self.generator_seq().last().generated(before, after)]
                self.generator_seq().last().generated(before, after) && valid_assignment(before, p)
                    && is_prime(p) && assigns_all(x@, before) && assigns_all(y@, before) && 0 < old(
                    self,
                ).next_index() && wires_below(x@, old(self).next_index()) && wires_below(
                    y@,
                    old(self).next_index(),
                ) implies all_hold(
                self.constraint_seq().skip(old(self).constraint_seq().len() as int),
                after,
            ) && valid_assignment(after, p) && r.eval(after) == if x.eval(before) == y.eval(before) {
                1nat
            } else {
                0nat
            } by {
                let d = difference@;
                assert forall|i: int| 0 <= i < d.len() implies before.contains_key(#[trigger] d[i].0)
                    && d[i].0 < old(self).next_index() by {
                    let w = d[i].0;
                    lemma_coefficient_wf(d, p, w);
                    if forall|k: int| 0 <= k < x@.len() ==> #[trigger] x@[k].0 != w {
                        if forall|k: int| 0 <= k < y@.len() ==> #[trigger] y@[k].0 != w {
                            lemma_coefficient_absent(x@, w);
                            lemma_coefficient_absent(y@, w);
                            vstd::arithmetic::div_mod::lemma_small_mod(0, p);
                            assert(false);
                        } else {
                            let k = choose|k: int| 0 <= k < y@.len() && #[trigger] y@[k].0 == w;
                            assert(before.contains_key(y@[k].0));
                        }
                    } else {
                        let k = choose|k: int| 0 <= k < x@.len() && #[trigger] x@[k].0 == w;
                        assert(before.contains_key(x@[k].0));
                    }
                }
                assert(difference.eval(before) == field_sub(x.eval(before), y.eval(before), p));
                lemma_eval_bound::<F>(x, before);
                lemma_eval_bound::<F>(y, before);
                if x.eval(before) != y.eval(before) {
                    if difference.eval(before) == 0 {
                        crate::primes::lemma_sub_zero(x.eval(before), y.eval(before), p);
                    }
                } else {
                    vstd::arithmetic::div_mod::lemma_small_mod(0, p);
                }
            }
            assert forall|vals: Map<u32, nat>| #![trigger self.satisfied(vals)]
                self.satisfied(vals) && valid_assignment(vals, p) implies (x.eval(vals) == y.eval(
                vals,
            ) ==> r.eval(vals) == 1) && field_mul(
                r.eval(vals),
                field_sub(x.eval(vals), y.eval(vals), p),
                p,
            ) == 0 by {
                assert(difference.eval(vals) == field_sub(x.eval(vals), y.eval(vals), p));
                if x.eval(vals) == y.eval(vals) {
                    vstd::arithmetic::div_mod::lemma_small_mod(0, p);
                }
            }
            assert forall|vals: Map<u32, nat>| #![trigger self.satisfied(vals)]
                self.satisfied(vals) && valid_assignment(vals, p) && is_prime(p) implies r.eval(vals)
                == if x.eval(vals) == y.eval(vals) {
                1nat
            } else {
                0nat
            } by {
                lemma_eval_bound::<F>(x, vals);
                lemma_eval_bound::<F>(y, vals);
                assert(difference.eval(vals) == field_sub(x.eval(vals), y.eval(vals), p));
                lemma_sub_zero(x.eval(vals), y.eval(vals), p);
            }
        }
        r
    }

    /// if c { x } else { y }. Assumes c is binary.
    pub fn selection(
        &mut self,
        c: &BooleanExpression<F>,
        x: &Expression<F>,
        y: &Expression<F>,
    ) -> (r: Expression<F>)
        requires
            old(self).has_room(1),
        ensures
            final(self).extends(*old(self)),
            final(self).next_index() <= old(self).next_index() + 1,
            forall|vals: Map<u32, nat>|
                #![trigger final(self).satisfied(vals)]
                final(self).satisfied(vals) && valid_assignment(vals, F::modulus()) ==> {
                    &&& c.eval(vals) == 1 ==> r.eval(vals) == x.eval(vals)
                    &&& c.eval(vals) == 0 ==> r.eval(vals) == y.eval(vals)
                },
    {
        let difference = x.sub(y);
        let chosen = self.product(c.expression(), &difference);
        let r = y.add(&chosen);
        proof {
            let p = F::modulus();
            assert forall|vals: Map<u32, nat>| #![trigger self.satisfied(vals)]
                self.satisfied(vals) && valid_assignment(vals, p) implies {
                &&& c.eval(vals) == 1 ==> r.eval(vals) == x.eval(vals)
                &&& c.eval(vals) == 0 ==> r.eval(vals) == y.eval(vals)
            } by {
                let (xv, yv) = (x.eval(vals), y.eval(vals));
                lemma_eval_bound::<F>(x, vals);
                lemma_eval_bound::<F>(y, vals);
                assert(difference.eval(vals) == field_sub(xv, yv, p));
                assert(chosen.eval(vals) == field_mul(c.eval(vals), difference.eval(vals), p));
                assert(r.eval(vals) == (yv + chosen.eval(vals)) % p);
                if c.eval(vals) == 1 {
                    let d = field_sub(xv, yv, p);
                    vstd::arithmetic::div_mod::lemma_mod_bound(xv - yv, p as int);
                    assert(1 * d == d);
                    vstd::arithmetic::div_mod::lemma_small_mod(d, p);
                    vstd::arithmetic::div_mod::lemma_add_mod_noop(yv as int, xv - yv, p as int);
                    vstd::arithmetic::div_mod::lemma_mod_twice(xv - yv, p as int);
                    vstd::arithmetic::div_mod::lemma_small_mod(yv, p);
                    vstd::arithmetic::div_mod::lemma_small_mod(xv, p);
                }
                if c.eval(vals) == 0 {
                    assert(0 * difference.eval(vals) == 0);
                    vstd::arithmetic::div_mod::lemma_small_mod(0, p);
                    vstd::arithmetic::div_mod::lemma_small_mod(yv, p);
                }
            }
        }
        r
    }

    /// Assert that x != 0.
    pub fn assert_nonzero(&mut self, x: &Expression<F>)
        requires
            old(self).has_room(1),
        ensures
            final(self).extends(*old(self)),
            final(self).next_index() == old(self).next_index() + 1,
            forall|vals: Map<u32, nat>|
                #![trigger final(self).satisfied(vals)]
                final(self).satisfied(vals) && valid_assignment(vals, F::modulus()) ==> x.eval(vals)
                    != 0,
    {
        // A field element is non-zero iff it has a multiplicative inverse.
        // We don't care what the inverse is, but calling inverse(x) will require that it exists.
        let _ = self.inverse(x);
    }

    /// Assert that x != y.
    pub fn assert_nonequal(&mut self, x: &Expression<F>, y: &Expression<F>)
        requires
            old(self).has_room(1),
        ensures
            final(self).extends(*old(self)),
            final(self).next_index() == old(self).next_index() + 1,
            forall|vals: Map<u32, nat>|
                #![trigger final(self).satisfied(vals)]
                final(self).satisfied(vals) && valid_assignment(vals, F::modulus()) ==> x.eval(vals)
                    != y.eval(vals),
    {
        let difference = x.sub(y);
        self.assert_nonzero(&difference);
        proof {
            let p = F::modulus();
            assert forall|vals: Map<u32, nat>| #![trigger self.satisfied(vals)]
                self.satisfied(vals) && valid_assignment(vals, p) implies x.eval(vals) != y.eval(
                vals,
            ) by {
                assert(difference.eval(vals) == field_sub(x.eval(vals), y.eval(vals), p));
                if x.eval(vals) == y.eval(vals) {
                    vstd::arithmetic::div_mod::lemma_small_mod(0, p);
                }
            }
        }
    }
}

/// Extending is transitive.
pub proof fn lemma_extends_trans<F: Field>(
    c: GadgetBuilder<F>,
    b: GadgetBuilder<F>,
    a: GadgetBuilder<F>,
)
    requires
        c.extends(b),
        b.extends(a),
    ensures
        c.extends(a),
{
    assert(a.constraint_seq().is_prefix_of(c.constraint_seq())) by {
        assert forall|i: int| 0 <= i < a.constraint_seq().len() implies a.constraint_seq()[i]
            == c.constraint_seq()[i] by {
            assert(a.constraint_seq()[i] == b.constraint_seq()[i]);
        }
    }
    assert(a.generator_seq().is_prefix_of(c.generator_seq())) by {
        assert forall|i: int| 0 <= i < a.generator_seq().len() implies a.generator_seq()[i]
            == c.generator_seq()[i] by {
            assert(a.generator_seq()[i] == b.generator_seq()[i]);
        }
    }
}

/// Constraints are only ever added: an assignment that satisfies a builder satisfies every
/// builder it extends.
pub proof fn lemma_satisfied_prefix<F: Field>(
    later: GadgetBuilder<F>,
    earlier: GadgetBuilder<F>,
    vals: Map<u32, nat>,
)
    requires
        later.extends(earlier),
        later.satisfied(vals),
    ensures
        earlier.satisfied(vals),
{
    assert forall|i: int| 0 <= i < earlier.constraint_seq().len() implies #[trigger] earlier.constraint_seq()[i].holds(
        vals,
    ) by {
        assert(earlier.constraint_seq()[i] == later.constraint_seq()[i]);
    }
}

/// The constant 1 evaluates to 1 when the constant-1 wire carries 1.
pub proof fn lemma_one_eval<F: Field>(s: Seq<(u32, nat)>, vals: Map<u32, nat>)
    requires
        s == seq![(ONE_WIRE_INDEX, 1nat)],
        valid_assignment(vals, F::modulus()),
        1 < F::modulus(),
    ensures
        eval_terms(s, vals, F::modulus()) == 1,
        crate::expression::assigns_all(s, vals),
{
    assert(s.drop_last() =~= Seq::<(u32, nat)>::empty());
    assert(crate::expression::raw_value(s.drop_last(), vals) == 0);
    assert(crate::expression::raw_value(s, vals) == 1);
    vstd::arithmetic::div_mod::lemma_small_mod(1, F::modulus());
}

/// The empty expression evaluates to 0.
pub proof fn lemma_zero_eval(s: Seq<(u32, nat)>, vals: Map<u32, nat>, p: nat)
    requires
        s == Seq::<(u32, nat)>::empty(),
        p > 0,
    ensures
        eval_terms(s, vals, p) == 0,
        crate::expression::assigns_all(s, vals),
{
    vstd::arithmetic::div_mod::lemma_small_mod(0, p);
}

/// A single wire with coefficient 1 evaluates to that wire's value.
pub proof fn lemma_single_wire_eval(s: Seq<(u32, nat)>, w: u32, vals: Map<u32, nat>, p: nat)
    requires
        s == seq![(w, 1nat)],
        vals.contains_key(w),
        vals[w] < p,
    ensures
        eval_terms(s, vals, p) == vals[w],
{
    assert(s.drop_last() =~= Seq::<(u32, nat)>::empty());
    assert(crate::expression::raw_value(s.drop_last(), vals) == 0);
    assert(crate::expression::raw_value(s, vals) == vals[w]);
    vstd::arithmetic::div_mod::lemma_small_mod(vals[w], p);
}

/// An expression's value is a field element.
/// The constraints that `later` added after `earlier` all hold under `vals`.
pub open spec fn added_hold<F: Field>(later: GadgetBuilder<F>, earlier: GadgetBuilder<F>, vals: Map<u32, nat>) -> bool {
    all_hold(later.constraint_seq().skip(earlier.constraint_seq().len() as int), vals)
}

/// Constraints added in two steps hold if those of each step do.
pub proof fn lemma_added_hold_trans<F: Field>(
    c: GadgetBuilder<F>,
    b: GadgetBuilder<F>,
    a: GadgetBuilder<F>,
    vals: Map<u32, nat>,
)
    requires
        c.extends(b),
        b.extends(a),
        added_hold(b, a, vals),
        added_hold(c, b, vals),
    ensures
        added_hold(c, a, vals),
{
    let na = a.constraint_seq().len() as int;
    let nb = b.constraint_seq().len() as int;
    let cs = c.constraint_seq();
    assert forall|i: int| 0 <= i < cs.skip(na).len() implies #[trigger] cs.skip(na)[i].holds(vals) by {
        if na + i < nb {
            assert(cs[na + i] == b.constraint_seq()[na + i]);
            assert(b.constraint_seq().skip(na)[i] == b.constraint_seq()[na + i]);
        } else {
            assert(cs.skip(nb)[na + i - nb] == cs[na + i]);
        }
    }
}

/// A builder that added no constraint adds none that fail.
pub proof fn lemma_added_hold_same<F: Field>(b: GadgetBuilder<F>, a: GadgetBuilder<F>, vals: Map<u32, nat>)
    requires
        b.constraint_seq() == a.constraint_seq(),
    ensures
        added_hold(b, a, vals),
{
}

/// Every one of the wires is below `n`, i.e. was created before wire `n`.
pub open spec fn wires_listed_below(ws: Seq<Wire>, n: nat) -> bool {
    forall|k: int| 0 <= k < ws.len() ==> #[trigger] ws[k].index < n
}

/// Every wire that the terms mention is below `n`, i.e. was created before wire `n`.
pub open spec fn wires_below(s: Seq<(u32, nat)>, n: nat) -> bool {
    forall|i: int| 0 <= i < s.len() ==> #[trigger] s[i].0 < n
}

/// Assigning a wire that the terms do not mention leaves their value, and what they need
/// assigned, as it was.
pub proof fn lemma_insert_unused(s: Seq<(u32, nat)>, vals: Map<u32, nat>, w: u32, v: nat)
    requires
        forall|i: int| 0 <= i < s.len() ==> #[trigger] s[i].0 != w,
    ensures
        raw_value(s, vals.insert(w, v)) == raw_value(s, vals),
        assigns_all(s, vals) ==> assigns_all(s, vals.insert(w, v)),
    decreases s.len(),
{
    if s.len() > 0 {
        let t = s.drop_last();
        assert forall|i: int| 0 <= i < t.len() implies #[trigger] t[i].0 != w by {
            assert(t[i] == s[i]);
        }
        lemma_insert_unused(t, vals, w, v);
        assert(s.last().0 != w);
    }
}

/// Terms whose wires keep their values under a new assignment keep their value and stay
/// assigned.
pub proof fn lemma_terms_unchanged(s: Seq<(u32, nat)>, v1: Map<u32, nat>, v2: Map<u32, nat>)
    requires
        assigns_all(s, v1),
        forall|i: int| #![trigger s[i]] 0 <= i < s.len() ==> v2.contains_key(s[i].0) && v2[s[i].0] == v1[s[i].0],
    ensures
        raw_value(s, v2) == raw_value(s, v1),
        assigns_all(s, v2),
    decreases s.len(),
{
    if s.len() > 0 {
        let t = s.drop_last();
        assert forall|i: int| #![trigger t[i]] 0 <= i < t.len() implies v2.contains_key(t[i].0) && v2[t[i].0]
            == v1[t[i].0] by {
            assert(t[i] == s[i]);
        }
        assert forall|i: int| 0 <= i < t.len() implies v1.contains_key(#[trigger] t[i].0) by {
            assert(t[i] == s[i]);
        }
        lemma_terms_unchanged(t, v1, v2);
        assert(s.last() == s[s.len() - 1]);
        let w = s.last().0;
        assert(v2.contains_key(s[s.len() - 1].0) && v2[s[s.len() - 1].0] == v1[s[s.len() - 1].0]);
        assert(v2[w] == v1[w]);
        assert(raw_value(s, v2) == raw_value(t, v2) + s.last().1 * v2[w]);
        assert(raw_value(s, v1) == raw_value(t, v1) + s.last().1 * v1[w]);
    }
}

pub proof fn lemma_eval_bound<F: Field>(e: &Expression<F>, vals: Map<u32, nat>)
    requires
        1 < F::modulus(),
    ensures
        e.eval(vals) < F::modulus(),
{
    vstd::arithmetic::div_mod::lemma_mod_bound(
        crate::expression::raw_value(e@, vals),
        F::modulus() as int,
    );
}

/// The value of any terms is a field element.
pub proof fn lemma_terms_bound(s: Seq<(u32, nat)>, vals: Map<u32, nat>, p: nat)
    requires
        p > 0,
    ensures
        eval_terms(s, vals, p) < p,
{
    vstd::arithmetic::div_mod::lemma_mod_bound(crate::expression::raw_value(s, vals), p as int);
}

} // verus!
