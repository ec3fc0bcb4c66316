//! A gadget for randomly accessing lists.

use vstd::prelude::*;

use crate::expression::Expression;
use crate::field::Field;
use crate::field::field_mul;
use crate::gadget_builder::{
    lemma_eval_bound, lemma_extends_trans, lemma_satisfied_prefix, valid_assignment, GadgetBuilder,
};
use crate::primes::is_prime;

verus! {

impl<F: Field> GadgetBuilder<F> {
    /// Access the `i`th element of `items`, where `i` may be a dynamic expression. Assumes
    /// `i < items.len()`; the result is zero otherwise. Every position must be a field element
    ///. The result is exact when the field order is prime.
    pub fn random_access(&mut self, items: Vec<Expression<F>>, index: &Expression<F>) -> (r:
        Expression<F>)
        requires
            items@.len() <= F::modulus(),
            old(self).has_room(3 * items@.len()),
        ensures
            final(self).extends(*old(self)),
            final(self).next_index() <= old(self).next_index() + 3 * items@.len(),
            forall|vals: Map<u32, nat>|
                #![trigger final(self).satisfied(vals)]
                final(self).satisfied(vals) && valid_assignment(vals, F::modulus()) && is_prime(
                    F::modulus(),
                ) ==> r.eval(vals) == if index.eval(vals) < items@.len() {
                    items@[index.eval(vals) as int].eval(vals)
                } else {
                    0nat
                },
    {
        let ghost start = *self;
        let mut result = Expression::zero();
        let mut i: usize = 0;
        proof {
            crate::field_arithmetic::lemma_extends_refl(*self);
            assert forall|vals: Map<u32, nat>| #![trigger self.satisfied(vals)]
                self.satisfied(vals) && valid_assignment(vals, F::modulus()) && is_prime(F::modulus())
                implies result.eval(vals) == if index.eval(vals) < 0 {
                items@[index.eval(vals) as int].eval(vals)
            } else {
                0nat
            } by {
                crate::gadget_builder::lemma_zero_eval(result@, vals, F::modulus());
            }
        }
        while i < items.len()
            invariant
                i <= items@.len(),
                items@.len() <= F::modulus(),
                self.extends(start),
                self.next_index() <= start.next_index() + 3 * i,
                start.next_index() + 3 * items@.len() <= u32::MAX,
                forall|vals: Map<u32, nat>|
                    #![trigger self.satisfied(vals)]
                    self.satisfied(vals) && valid_assignment(vals, F::modulus()) && is_prime(
                        F::modulus(),
                    ) ==> result.eval(vals) == if index.eval(vals) < i {
                        items@[index.eval(vals) as int].eval(vals)
                    } else {
                        0nat
                    },
            decreases items@.len() - i,
        {
            let ghost before = *self;
            let position = Expression::from_u128(i as u128);
            let selected = self.equal(index, &position);
            let ghost mid = *self;
            let term = self.product(selected.expression(), &items[i]);
            let next = result.add(&term);
            proof {
                lemma_extends_trans(*self, mid, before);
                lemma_extends_trans(*self, before, start);
                let p = F::modulus();
                assert forall|vals: Map<u32, nat>| #![trigger self.satisfied(vals)]
                    self.satisfied(vals) && valid_assignment(vals, p) && is_prime(p) implies next.eval(
                    vals,
                ) == if index.eval(vals) < i + 1 {
                    items@[index.eval(vals) as int].eval(vals)
                } else {
                    0nat
                } by {
                    lemma_satisfied_prefix(*self, mid, vals);
                    lemma_satisfied_prefix(*self, before, vals);
                    crate::field_arithmetic::lemma_element_eval::<F>(position@, i as nat, vals);
                    lemma_eval_bound::<F>(&items@[i as int], vals);
                    lemma_eval_bound::<F>(&result, vals);
                    let item = items@[i as int].eval(vals);
                    let sel = selected.eval(vals);
                    assert(term.eval(vals) == field_mul(sel, item, p));
                    vstd::arithmetic::div_mod::lemma_small_mod(item, p);
                    vstd::arithmetic::div_mod::lemma_small_mod(0, p);
                    vstd::arithmetic::div_mod::lemma_small_mod(result.eval(vals), p);
                    assert(1 * item == item);
                    assert(0 * item == 0);
                }
            }
            result = next;
            i += 1;
        }
        result
    }
}

} // verus!
