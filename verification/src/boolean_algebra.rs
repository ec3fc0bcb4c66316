//! Gadgets for boolean algebra.

use vstd::prelude::*;

use crate::binary_expression::BooleanExpression;
use crate::expression::Expression;
use crate::field::{field_add, field_mul, field_sub, Field};
use crate::gadget_builder::{lemma_one_eval, valid_assignment, GadgetBuilder};

verus! {

impl<F: Field> GadgetBuilder<F> {
    /// The negation of a boolean value, `1 - x`.
    pub fn not(&mut self, x: &BooleanExpression<F>) -> (r: BooleanExpression<F>)
        ensures
            *final(self) == *old(self),
            forall|vals: Map<u32, nat>|
                #![trigger r.eval(vals)]
                valid_assignment(vals, F::modulus()) ==> r.eval(vals) == field_sub(
                    1,
                    x.eval(vals),
                    F::modulus(),
                ),
    {
        let one = Expression::one();
        let e = one.sub(x.expression());
        let r = BooleanExpression::new_unsafe(e);
        proof {
            assert forall|vals: Map<u32, nat>| #![trigger r.eval(vals)] valid_assignment(
                vals,
                F::modulus(),
            ) implies r.eval(vals) == field_sub(1, x.eval(vals), F::modulus()) by {
                assert(r.eval(vals) == e.eval(vals));
                lemma_one_eval::<F>(one@, vals);
            }
        }
        r
    }

    /// The conjunction of two boolean values, `x * y`.
    pub fn and(&mut self, x: &BooleanExpression<F>, y: &BooleanExpression<F>) -> (r:
        BooleanExpression<F>)
        requires
            old(self).has_room(1),
        ensures
            final(self).extends(*old(self)),
            final(self).next_index() <= old(self).next_index() + 1,
            forall|vals: Map<u32, nat>|
                #![trigger final(self).satisfied(vals)]
                final(self).satisfied(vals) && valid_assignment(vals, F::modulus()) ==> r.eval(vals)
                    == field_mul(x.eval(vals), y.eval(vals), F::modulus()),
    {
        BooleanExpression::new_unsafe(self.product(x.expression(), y.expression()))
    }

    /// The disjunction of two boolean values, `x + y - x * y`.
    pub fn or(&mut self, x: &BooleanExpression<F>, y: &BooleanExpression<F>) -> (r:
        BooleanExpression<F>)
        requires
            old(self).has_room(1),
        ensures
            final(self).extends(*old(self)),
            final(self).next_index() <= old(self).next_index() + 1,
            forall|vals: Map<u32, nat>|
                #![trigger final(self).satisfied(vals)]
                final(self).satisfied(vals) && valid_assignment(vals, F::modulus()) ==> r.eval(vals)
                    == field_sub(
                    field_add(x.eval(vals), y.eval(vals), F::modulus()),
                    field_mul(x.eval(vals), y.eval(vals), F::modulus()),
                    F::modulus(),
                ),
    {
        let x_exp = x.expression();
        let y_exp = y.expression();
        let sum = x_exp.add(y_exp);
        let prod = self.product(x_exp, y_exp);
        let e = sum.sub(&prod);
        let r = BooleanExpression::new_unsafe(e);
        proof {
            assert forall|vals: Map<u32, nat>| #![trigger self.satisfied(vals)]
                self.satisfied(vals) && valid_assignment(vals, F::modulus()) implies r.eval(vals)
                == field_sub(
                field_add(x.eval(vals), y.eval(vals), F::modulus()),
                field_mul(x.eval(vals), y.eval(vals), F::modulus()),
                F::modulus(),
            ) by {
                assert(r.eval(vals) == e.eval(vals));
                assert(e.eval(vals) == field_sub(sum.eval(vals), prod.eval(vals), F::modulus()));
                assert(sum.eval(vals) == field_add(x.eval(vals), y.eval(vals), F::modulus()));
            }
        }
        r
    }

    /// The exclusive disjunction of two boolean values, `x + y - 2 * x * y`.
    pub fn xor(&mut self, x: &BooleanExpression<F>, y: &BooleanExpression<F>) -> (r:
        BooleanExpression<F>)
        requires
            old(self).has_room(1),
            2 < F::modulus(),
        ensures
            final(self).extends(*old(self)),
            final(self).next_index() <= old(self).next_index() + 1,
            forall|vals: Map<u32, nat>|
                #![trigger final(self).satisfied(vals)]
                final(self).satisfied(vals) && valid_assignment(vals, F::modulus()) ==> r.eval(vals)
                    == field_sub(
                    field_add(x.eval(vals), y.eval(vals), F::modulus()),
                    (2 * field_mul(x.eval(vals), y.eval(vals), F::modulus())) % F::modulus(),
                    F::modulus(),
                ),
    {
        let x_exp = x.expression();
        let y_exp = y.expression();
        let sum = x_exp.add(y_exp);
        let prod = self.product(x_exp, y_exp);
        let twice = prod.mul_u128(2);
        let e = sum.sub(&twice);
        let r = BooleanExpression::new_unsafe(e);
        proof {
            assert forall|vals: Map<u32, nat>| #![trigger self.satisfied(vals)]
                self.satisfied(vals) && valid_assignment(vals, F::modulus()) implies r.eval(vals)
                == field_sub(
                field_add(x.eval(vals), y.eval(vals), F::modulus()),
                (2 * field_mul(x.eval(vals), y.eval(vals), F::modulus())) % F::modulus(),
                F::modulus(),
            ) by {
                assert(r.eval(vals) == e.eval(vals));
                assert(e.eval(vals) == field_sub(sum.eval(vals), twice.eval(vals), F::modulus()));
                assert(sum.eval(vals) == field_add(x.eval(vals), y.eval(vals), F::modulus()));
                assert(twice.eval(vals) == (2 * prod.eval(vals)) % F::modulus());
            }
        }
        r
    }
}

} // verus!
