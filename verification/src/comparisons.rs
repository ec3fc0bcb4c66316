//! Gadgets for comparing native field elements.

use vstd::arithmetic::power2::*;
use vstd::prelude::*;

use crate::binary_expression::{BinaryExpression, BooleanExpression};
use crate::expression::{distinct_wires, eval_terms, raw_value, wire_sum, Expression};
use crate::binary_expression::weighted_sum;
use crate::chunk_order::{
    chunk_count, chunk_of, int_sum, is_bit_seq, lemma_bits_subrange, lemma_chunk_order, lemma_chunk_start,
    lemma_equal_high_parts, lemma_int_sum_step,
    lemma_mask_select, lemma_weighted_sum_bound, lemma_weighted_sum_top, masked_sum,
};
use crate::field::{field_add, field_mul, field_neg, field_sub, Element, Field};
use crate::constraint::rank1_holds;
use crate::gadget_builder::{lemma_satisfied_prefix, lemma_single_wire_eval, valid_assignment};
use crate::primes::is_prime;
use crate::splitting::lemma_constrained_bits;
use crate::gadget_builder::{lemma_extends_trans, GadgetBuilder};
use crate::natural::{bit_length, bit_of, Natural};
use crate::splitting::{field_bits, lemma_top_bit};
use crate::wire::Wire;
use crate::witness_generator::{Generate, WitnessGenerator};

verus! {

/// The number of constraints used by `compare_binary`, given a certain chunk size.
pub open spec fn compare_cost(operand_bits: nat, chunk_bits: nat) -> nat {
    3 * ((operand_bits + chunk_bits - 1) as nat / chunk_bits) + 2 + chunk_bits
}

/// The cheapest chunk size in `1..=c`, with its cost; ties go to the smaller size.
pub open spec fn best_chunk_upto(operand_bits: nat, c: nat) -> (nat, nat)
    decreases c,
{
    if c <= 1 {
        (1, compare_cost(operand_bits, 1))
    } else {
        let prev = best_chunk_upto(operand_bits, (c - 1) as nat);
        if compare_cost(operand_bits, c) < prev.1 {
            (c, compare_cost(operand_bits, c))
        } else {
            prev
        }
    }
}

/// The chunk size that `compare_binary` uses: the cheapest below the field's bit count.
pub open spec fn chunk_bits_for(operand_bits: nat, max_bits: nat) -> nat {
    if max_bits <= 2 {
        1
    } else {
        best_chunk_upto(operand_bits, (max_bits - 1) as nat).0
    }
}

/// The chunk size chosen is between 1 and `c`.
pub proof fn lemma_best_chunk_range(operand_bits: nat, c: nat)
    ensures
        1 <= best_chunk_upto(operand_bits, c).0,
        best_chunk_upto(operand_bits, c).0 <= if c < 1 {
            1
        } else {
            c
        },
    decreases c,
{
    if c > 1 {
        lemma_best_chunk_range(operand_bits, (c - 1) as nat);
    }
}

/// An upper bound on the wires that `compare_binary` creates for operands of `n` bits.
pub open spec fn compare_binary_wires<F: Field>(n: nat) -> nat {
    2 * n + 2 + field_bits::<F>()
}

/// An upper bound on the wires that `split` creates.
pub open spec fn split_wires<F: Field>() -> nat {
    4 * field_bits::<F>() + 2
}

/// An upper bound on the wires that comparing two field elements creates.
pub open spec fn compare_wires<F: Field>() -> nat {
    11 * field_bits::<F>() + 6
}

/// `compare_binary` can handle operands of `n` bits: its chunk size leaves room for a carry bit.
pub open spec fn chunkable<F: Field>(n: nat) -> bool {
    chunk_bits_for(n, field_bits::<F>()) + 1 < field_bits::<F>()
}

/// Field elements can be compared: their canonical encoding has as many bits as the field order
/// minus one (that is, the order is not a power of two), and `compare_binary` can handle that many
/// bits.
pub open spec fn comparable<F: Field>() -> bool {
    &&& bit_length(F::modulus()) == field_bits::<F>()
    &&& chunkable::<F>(field_bits::<F>())
}

impl<F: Field> GadgetBuilder<F> {
    /// Split an arbitrary field element `x` into its canonical binary representation.
    pub fn split(&mut self, x: &Expression<F>) -> (r: BinaryExpression<F>)
        requires
            comparable::<F>(),
            old(self).has_room(split_wires::<F>()),
        ensures
            r@.len() == field_bits::<F>(),
            final(self).extends(*old(self)),
            final(self).next_index() <= old(self).next_index() + split_wires::<F>(),
            forall|vals: Map<u32, nat>|
                #![trigger final(self).satisfied(vals)]
                final(self).satisfied(vals) && crate::gadget_builder::valid_assignment(
                    vals,
                    F::modulus(),
                ) ==> x.eval(vals) == crate::binary_expression::weighted_sum(r.bit_values(vals))
                    % F::modulus() && crate::splitting::bits_constrained(&r, vals),
            forall|vals: Map<u32, nat>|
                #![trigger final(self).satisfied(vals)]
                final(self).satisfied(vals) && valid_assignment(vals, F::modulus()) && is_prime(
                    F::modulus(),
                ) ==> is_bit_seq(r.bit_values(vals)) && weighted_sum(r.bit_values(vals))
                    < F::modulus() && x.eval(vals) == weighted_sum(r.bit_values(vals)),
    {
        let ghost start = *self;
        let bits = Element::<F>::max_bits();
        let result = self.split_without_range_check(x, bits);
        let ghost mid = *self;
        let order = F::order();
        let order_bits = BinaryExpression::from_natural(&order);
        self.assert_lt_binary(&result, &order_bits);
        proof {
            lemma_extends_trans(*self, mid, start);
            assert forall|vals: Map<u32, nat>| #![trigger self.satisfied(vals)]
                self.satisfied(vals) && crate::gadget_builder::valid_assignment(vals, F::modulus())
                implies x.eval(vals) == crate::binary_expression::weighted_sum(
                result.bit_values(vals),
            ) % F::modulus() && crate::splitting::bits_constrained(&result, vals) by {
                crate::gadget_builder::lemma_satisfied_prefix(*self, mid, vals);
            }
            let p = F::modulus();
            crate::splitting::lemma_bit_length_le((p - 1) as nat);
            assert forall|vals: Map<u32, nat>| #![trigger self.satisfied(vals)]
                self.satisfied(vals) && valid_assignment(vals, p) && is_prime(p) implies is_bit_seq(
                result.bit_values(vals),
            ) && weighted_sum(result.bit_values(vals)) < p && x.eval(vals) == weighted_sum(
                result.bit_values(vals),
            ) by {
                crate::gadget_builder::lemma_satisfied_prefix(*self, mid, vals);
                lemma_constrained_bits(&result, vals);
                lemma_constant_bits(&order_bits, p, vals);
                assert(binary_operands(&result, &order_bits, vals));
                vstd::arithmetic::div_mod::lemma_small_mod(weighted_sum(result.bit_values(vals)), p);
            }
        }
        result
    }

    /// Assert that `x < y`.
    pub fn assert_lt(&mut self, x: &Expression<F>, y: &Expression<F>)
        requires
            comparable::<F>(),
            old(self).has_room(compare_wires::<F>()),
        ensures
            final(self).extends(*old(self)),
            final(self).next_index() <= old(self).next_index() + compare_wires::<F>(),
            forall|vals: Map<u32, nat>|
                #![trigger final(self).satisfied(vals)]
                final(self).satisfied(vals) && valid_assignment(vals, F::modulus()) && is_prime(
                    F::modulus(),
                ) ==> x.eval(vals) < y.eval(vals),
    {
        let ghost start = *self;
        let lt = self.lt(x, y);
        let ghost mid = *self;
        self.assert_true(&lt);
        proof {
            lemma_extends_trans(*self, mid, start);
            assert forall|vals: Map<u32, nat>| #![trigger self.satisfied(vals)]
                self.satisfied(vals) && valid_assignment(vals, F::modulus()) && is_prime(F::modulus())
                implies x.eval(vals) < y.eval(vals) by {
                lemma_satisfied_prefix(*self, mid, vals);
            }
        }
    }

    /// Assert that `x <= y`.
    pub fn assert_le(&mut self, x: &Expression<F>, y: &Expression<F>)
        requires
            comparable::<F>(),
            old(self).has_room(compare_wires::<F>()),
        ensures
            final(self).extends(*old(self)),
            final(self).next_index() <= old(self).next_index() + compare_wires::<F>(),
            forall|vals: Map<u32, nat>|
                #![trigger final(self).satisfied(vals)]
                final(self).satisfied(vals) && valid_assignment(vals, F::modulus()) && is_prime(
                    F::modulus(),
                ) ==> x.eval(vals) <= y.eval(vals),
    {
        let ghost start = *self;
        let le = self.le(x, y);
        let ghost mid = *self;
        self.assert_true(&le);
        proof {
            lemma_extends_trans(*self, mid, start);
            assert forall|vals: Map<u32, nat>| #![trigger self.satisfied(vals)]
                self.satisfied(vals) && valid_assignment(vals, F::modulus()) && is_prime(F::modulus()) implies x.eval(vals) <= y.eval(vals) by {
                lemma_satisfied_prefix(*self, mid, vals);
            }
        }
    }

    /// Assert that `x > y`.
    pub fn assert_gt(&mut self, x: &Expression<F>, y: &Expression<F>)
        requires
            comparable::<F>(),
            old(self).has_room(compare_wires::<F>()),
        ensures
            final(self).extends(*old(self)),
            final(self).next_index() <= old(self).next_index() + compare_wires::<F>(),
            forall|vals: Map<u32, nat>|
                #![trigger final(self).satisfied(vals)]
                final(self).satisfied(vals) && valid_assignment(vals, F::modulus()) && is_prime(
                    F::modulus(),
                ) ==> x.eval(vals) > y.eval(vals),
    {
        let ghost start = *self;
        let gt = self.gt(x, y);
        let ghost mid = *self;
        self.assert_true(&gt);
        proof {
            lemma_extends_trans(*self, mid, start);
            assert forall|vals: Map<u32, nat>| #![trigger self.satisfied(vals)]
                self.satisfied(vals) && valid_assignment(vals, F::modulus()) && is_prime(F::modulus())
                implies x.eval(vals) > y.eval(vals) by {
                lemma_satisfied_prefix(*self, mid, vals);
            }
        }
    }

    /// Assert that `x >= y`.
    pub fn assert_ge(&mut self, x: &Expression<F>, y: &Expression<F>)
        requires
            comparable::<F>(),
            old(self).has_room(compare_wires::<F>()),
        ensures
            final(self).extends(*old(self)),
            final(self).next_index() <= old(self).next_index() + compare_wires::<F>(),
            forall|vals: Map<u32, nat>|
                #![trigger final(self).satisfied(vals)]
                final(self).satisfied(vals) && valid_assignment(vals, F::modulus()) && is_prime(
                    F::modulus(),
                ) ==> x.eval(vals) >= y.eval(vals),
    {
        let ghost start = *self;
        let ge = self.ge(x, y);
        let ghost mid = *self;
        self.assert_true(&ge);
        proof {
            lemma_extends_trans(*self, mid, start);
            assert forall|vals: Map<u32, nat>| #![trigger self.satisfied(vals)]
                self.satisfied(vals) && valid_assignment(vals, F::modulus()) && is_prime(F::modulus()) implies x.eval(vals) >= y.eval(vals) by {
                lemma_satisfied_prefix(*self, mid, vals);
            }
        }
    }

    /// Assert that `x < y`.
    pub fn assert_lt_binary(&mut self, x: &BinaryExpression<F>, y: &BinaryExpression<F>)
        requires
            x@.len() == y@.len(),
            x@.len() > 0,
            chunkable::<F>(x@.len()),
            old(self).has_room(compare_binary_wires::<F>(x@.len())),
        ensures
            final(self).extends(*old(self)),
            final(self).next_index() <= old(self).next_index() + compare_binary_wires::<F>(x@.len()),
            forall|vals: Map<u32, nat>|
                #![trigger final(self).satisfied(vals)]
                final(self).satisfied(vals) && binary_operands(x, y, vals) ==> weighted_sum(x.bit_values(vals)) < weighted_sum(y.bit_values(vals)),
    {
        let ghost start = *self;
        let lt = self.lt_binary(x, y);
        let ghost mid = *self;
        self.assert_true(&lt);
        proof {
            lemma_extends_trans(*self, mid, start);
            assert forall|vals: Map<u32, nat>| #![trigger self.satisfied(vals)]
                self.satisfied(vals) && binary_operands(x, y, vals) implies weighted_sum(
                x.bit_values(vals),
            ) < weighted_sum(y.bit_values(vals)) by {
                lemma_satisfied_prefix(*self, mid, vals);
            }
        }
    }

    /// Assert that `x <= y`.
    pub fn assert_le_binary(&mut self, x: &BinaryExpression<F>, y: &BinaryExpression<F>)
        requires
            x@.len() == y@.len(),
            x@.len() > 0,
            chunkable::<F>(x@.len()),
            old(self).has_room(compare_binary_wires::<F>(x@.len())),
        ensures
            final(self).extends(*old(self)),
            final(self).next_index() <= old(self).next_index() + compare_binary_wires::<F>(x@.len()),
            forall|vals: Map<u32, nat>|
                #![trigger final(self).satisfied(vals)]
                final(self).satisfied(vals) && binary_operands(x, y, vals) ==> weighted_sum(x.bit_values(vals)) <= weighted_sum(y.bit_values(vals)),
    {
        let ghost start = *self;
        let le = self.le_binary(x, y);
        let ghost mid = *self;
        self.assert_true(&le);
        proof {
            lemma_extends_trans(*self, mid, start);
            assert forall|vals: Map<u32, nat>| #![trigger self.satisfied(vals)]
                self.satisfied(vals) && binary_operands(x, y, vals) implies weighted_sum(x.bit_values(vals)) <= weighted_sum(y.bit_values(vals)) by {
                lemma_satisfied_prefix(*self, mid, vals);
            }
        }
    }

    /// Assert that `x > y`.
    pub fn assert_gt_binary(&mut self, x: &BinaryExpression<F>, y: &BinaryExpression<F>)
        requires
            x@.len() == y@.len(),
            x@.len() > 0,
            chunkable::<F>(x@.len()),
            old(self).has_room(compare_binary_wires::<F>(x@.len())),
        ensures
            final(self).extends(*old(self)),
            final(self).next_index() <= old(self).next_index() + compare_binary_wires::<F>(x@.len()),
            forall|vals: Map<u32, nat>|
                #![trigger final(self).satisfied(vals)]
                final(self).satisfied(vals) && binary_operands(x, y, vals) ==> weighted_sum(x.bit_values(vals)) > weighted_sum(y.bit_values(vals)),
    {
        let ghost start = *self;
        let gt = self.gt_binary(x, y);
        let ghost mid = *self;
        self.assert_true(&gt);
        proof {
            lemma_extends_trans(*self, mid, start);
            assert forall|vals: Map<u32, nat>| #![trigger self.satisfied(vals)]
                self.satisfied(vals) && binary_operands(x, y, vals) implies weighted_sum(
                x.bit_values(vals),
            ) > weighted_sum(y.bit_values(vals)) by {
                lemma_satisfied_prefix(*self, mid, vals);
            }
        }
    }

    /// Assert that `x >= y`.
    pub fn assert_ge_binary(&mut self, x: &BinaryExpression<F>, y: &BinaryExpression<F>)
        requires
            x@.len() == y@.len(),
            x@.len() > 0,
            chunkable::<F>(x@.len()),
            old(self).has_room(compare_binary_wires::<F>(x@.len())),
        ensures
            final(self).extends(*old(self)),
            final(self).next_index() <= old(self).next_index() + compare_binary_wires::<F>(x@.len()),
            forall|vals: Map<u32, nat>|
                #![trigger final(self).satisfied(vals)]
                final(self).satisfied(vals) && binary_operands(x, y, vals) ==> weighted_sum(x.bit_values(vals)) >= weighted_sum(y.bit_values(vals)),
    {
        let ghost start = *self;
        let ge = self.ge_binary(x, y);
        let ghost mid = *self;
        self.assert_true(&ge);
        proof {
            lemma_extends_trans(*self, mid, start);
            assert forall|vals: Map<u32, nat>| #![trigger self.satisfied(vals)]
                self.satisfied(vals) && binary_operands(x, y, vals) implies weighted_sum(x.bit_values(vals)) >= weighted_sum(y.bit_values(vals)) by {
                lemma_satisfied_prefix(*self, mid, vals);
            }
        }
    }

    /// Returns `x < y`.
    pub fn lt(&mut self, x: &Expression<F>, y: &Expression<F>) -> (r: BooleanExpression<F>)
        requires
            comparable::<F>(),
            old(self).has_room(compare_wires::<F>()),
        ensures
            final(self).extends(*old(self)),
            final(self).next_index() <= old(self).next_index() + compare_wires::<F>(),
            forall|vals: Map<u32, nat>|
                #![trigger final(self).satisfied(vals)]
                final(self).satisfied(vals) && valid_assignment(vals, F::modulus()) && is_prime(
                    F::modulus(),
                ) ==> r.eval(vals) == if x.eval(vals) < y.eval(vals) {
                    1nat
                } else {
                    0nat
                },
    {
        self.compare(x, y, true, true)
    }

    /// Returns `x <= y`.
    pub fn le(&mut self, x: &Expression<F>, y: &Expression<F>) -> (r: BooleanExpression<F>)
        requires
            comparable::<F>(),
            old(self).has_room(compare_wires::<F>()),
        ensures
            final(self).extends(*old(self)),
            final(self).next_index() <= old(self).next_index() + compare_wires::<F>(),
            forall|vals: Map<u32, nat>|
                #![trigger final(self).satisfied(vals)]
                final(self).satisfied(vals) && valid_assignment(vals, F::modulus()) && is_prime(
                    F::modulus(),
                ) ==> r.eval(vals) == if x.eval(vals) <= y.eval(vals) {
                    1nat
                } else {
                    0nat
                },
    {
        self.compare(x, y, true, false)
    }

    /// Returns `x > y`.
    pub fn gt(&mut self, x: &Expression<F>, y: &Expression<F>) -> (r: BooleanExpression<F>)
        requires
            comparable::<F>(),
            old(self).has_room(compare_wires::<F>()),
        ensures
            final(self).extends(*old(self)),
            final(self).next_index() <= old(self).next_index() + compare_wires::<F>(),
            forall|vals: Map<u32, nat>|
                #![trigger final(self).satisfied(vals)]
                final(self).satisfied(vals) && valid_assignment(vals, F::modulus()) && is_prime(
                    F::modulus(),
                ) ==> r.eval(vals) == if x.eval(vals) > y.eval(vals) {
                    1nat
                } else {
                    0nat
                },
    {
        self.compare(x, y, false, true)
    }

    /// Returns `x >= y`.
    pub fn ge(&mut self, x: &Expression<F>, y: &Expression<F>) -> (r: BooleanExpression<F>)
        requires
            comparable::<F>(),
            old(self).has_room(compare_wires::<F>()),
        ensures
            final(self).extends(*old(self)),
            final(self).next_index() <= old(self).next_index() + compare_wires::<F>(),
            forall|vals: Map<u32, nat>|
                #![trigger final(self).satisfied(vals)]
                final(self).satisfied(vals) && valid_assignment(vals, F::modulus()) && is_prime(
                    F::modulus(),
                ) ==> r.eval(vals) == if x.eval(vals) >= y.eval(vals) {
                    1nat
                } else {
                    0nat
                },
    {
        self.compare(x, y, false, false)
    }

    /// Returns `x < y`.
    pub fn lt_binary(&mut self, x: &BinaryExpression<F>, y: &BinaryExpression<F>) -> (r:
        BooleanExpression<F>)
        requires
            x@.len() == y@.len(),
            x@.len() > 0,
            chunkable::<F>(x@.len()),
            old(self).has_room(compare_binary_wires::<F>(x@.len())),
        ensures
            final(self).extends(*old(self)),
            final(self).next_index() <= old(self).next_index() + compare_binary_wires::<F>(x@.len()),
            forall|vals: Map<u32, nat>|
                #![trigger final(self).satisfied(vals)]
                final(self).satisfied(vals) && binary_operands(x, y, vals) ==> compare_exact(
                    weighted_sum(x.bit_values(vals)),
                    weighted_sum(y.bit_values(vals)),
                    true,
                    true,
                    r.eval(vals),
                ),
    {
        self.compare_binary(x, y, true, true)
    }

    /// Returns `x <= y`.
    pub fn le_binary(&mut self, x: &BinaryExpression<F>, y: &BinaryExpression<F>) -> (r:
        BooleanExpression<F>)
        requires
            x@.len() == y@.len(),
            x@.len() > 0,
            chunkable::<F>(x@.len()),
            old(self).has_room(compare_binary_wires::<F>(x@.len())),
        ensures
            final(self).extends(*old(self)),
            final(self).next_index() <= old(self).next_index() + compare_binary_wires::<F>(x@.len()),
            forall|vals: Map<u32, nat>|
                #![trigger final(self).satisfied(vals)]
                final(self).satisfied(vals) && binary_operands(x, y, vals) ==> compare_exact(
                    weighted_sum(x.bit_values(vals)),
                    weighted_sum(y.bit_values(vals)),
                    true,
                    false,
                    r.eval(vals),
                ),
    {
        self.compare_binary(x, y, true, false)
    }

    /// Returns `x > y`.
    pub fn gt_binary(&mut self, x: &BinaryExpression<F>, y: &BinaryExpression<F>) -> (r:
        BooleanExpression<F>)
        requires
            x@.len() == y@.len(),
            x@.len() > 0,
            chunkable::<F>(x@.len()),
            old(self).has_room(compare_binary_wires::<F>(x@.len())),
        ensures
            final(self).extends(*old(self)),
            final(self).next_index() <= old(self).next_index() + compare_binary_wires::<F>(x@.len()),
            forall|vals: Map<u32, nat>|
                #![trigger final(self).satisfied(vals)]
                final(self).satisfied(vals) && binary_operands(x, y, vals) ==> compare_exact(
                    weighted_sum(x.bit_values(vals)),
                    weighted_sum(y.bit_values(vals)),
                    false,
                    true,
                    r.eval(vals),
                ),
    {
        self.compare_binary(x, y, false, true)
    }

    /// Returns `x >= y`.
    pub fn ge_binary(&mut self, x: &BinaryExpression<F>, y: &BinaryExpression<F>) -> (r:
        BooleanExpression<F>)
        requires
            x@.len() == y@.len(),
            x@.len() > 0,
            chunkable::<F>(x@.len()),
            old(self).has_room(compare_binary_wires::<F>(x@.len())),
        ensures
            final(self).extends(*old(self)),
            final(self).next_index() <= old(self).next_index() + compare_binary_wires::<F>(x@.len()),
            forall|vals: Map<u32, nat>|
                #![trigger final(self).satisfied(vals)]
                final(self).satisfied(vals) && binary_operands(x, y, vals) ==> compare_exact(
                    weighted_sum(x.bit_values(vals)),
                    weighted_sum(y.bit_values(vals)),
                    false,
                    false,
                    r.eval(vals),
                ),
    {
        self.compare_binary(x, y, false, false)
    }

    fn compare(&mut self, x: &Expression<F>, y: &Expression<F>, less: bool, strict: bool) -> (r:
        BooleanExpression<F>)
        requires
            comparable::<F>(),
            old(self).has_room(compare_wires::<F>()),
        ensures
            final(self).extends(*old(self)),
            final(self).next_index() <= old(self).next_index() + compare_wires::<F>(),
            forall|vals: Map<u32, nat>|
                #![trigger final(self).satisfied(vals)]
                final(self).satisfied(vals) && valid_assignment(vals, F::modulus()) && is_prime(
                    F::modulus(),
                ) ==> compare_exact(x.eval(vals), y.eval(vals), less, strict, r.eval(vals)),
    {
        let ghost start = *self;
        proof {
            lemma_field_bits_positive::<F>();
            crate::splitting::lemma_bit_length_le((F::modulus() - 1) as nat);
        }
        // Both operands are split canonically, so that their bits encode exactly their values.
        let x_bin = self.split(x);
        let ghost s1 = *self;
        let y_bin = self.split(y);
        let ghost s2 = *self;
        let r = self.compare_binary(&x_bin, &y_bin, less, strict);
        proof {
            lemma_extends_trans(s2, s1, start);
            lemma_extends_trans(*self, s2, start);
            assert forall|vals: Map<u32, nat>| #![trigger self.satisfied(vals)]
                self.satisfied(vals) && valid_assignment(vals, F::modulus()) && is_prime(F::modulus())
                implies compare_exact(x.eval(vals), y.eval(vals), less, strict, r.eval(vals)) by {
                lemma_satisfied_prefix(*self, s2, vals);
                lemma_satisfied_prefix(s2, s1, vals);
            }
        }
        r
    }

    fn compare_binary(
        &mut self,
        x_bits: &BinaryExpression<F>,
        y_bits: &BinaryExpression<F>,
        less: bool,
        strict: bool,
    ) -> (r: BooleanExpression<F>)
        requires
            x_bits@.len() == y_bits@.len(),
            x_bits@.len() > 0,
            chunkable::<F>(x_bits@.len()),
            old(self).has_room(compare_binary_wires::<F>(x_bits@.len())),
        ensures
            final(self).extends(*old(self)),
            final(self).next_index() <= old(self).next_index() + compare_binary_wires::<F>(
                x_bits@.len(),
            ),
            forall|vals: Map<u32, nat>|
                #![trigger final(self).satisfied(vals)]
                final(self).satisfied(vals) && valid_assignment(vals, F::modulus()) && is_prime(
                    F::modulus(),
                ) && is_bit_seq(x_bits.bit_values(vals)) && is_bit_seq(y_bits.bit_values(vals))
                    && x_bits@.len() < F::modulus() ==> compare_exact(
                    weighted_sum(x_bits.bit_values(vals)),
                    weighted_sum(y_bits.bit_values(vals)),
                    less,
                    strict,
                    r.eval(vals),
                ),
    {
        let ghost start = *self;
        let ghost mb = field_bits::<F>();
        let ghost p = F::modulus();
        let operand_bits = x_bits.len();

        // We will chunk both bit vectors, then have the prover supply a mask which identifies the
        // first pair of chunks to differ. Credit to Ahmed Kosba who described this technique.
        let chunk_bits = Self::compare_chunk_bits(operand_bits);
        proof {
            lemma_chunk_weights::<F>(chunk_bits as nat);
        }
        let x_pieces = x_bits.chunks(chunk_bits);
        let y_pieces = y_bits.chunks(chunk_bits);
        let x_chunks = join_chunks(&x_pieces, chunk_bits);
        let y_chunks = join_chunks(&y_pieces, chunk_bits);
        let chunks = x_chunks.len();
        proof {
            let n = operand_bits as int;
            let c = chunk_bits as int;
            assert(chunks == (n + c - 1) / c);
            assert(chunks <= n && chunks >= 1) by (nonlinear_arith)
                requires
                    chunks == (n + c - 1) / c,
                    n >= 1,
                    c >= 1,
            {
                vstd::arithmetic::div_mod::lemma_fundamental_div_mod(n + c - 1, c);
            }
        }

        // Create a mask bit for each chunk index. masks[i] must equal 1 iff i is the first index
        // where the chunks differ, otherwise 0. If no chunks differ, all masks must equal 0.
        let mask = self.wires(chunks);
        proof {
            assert(distinct_wires(mask@));
        }
        let ghost after_wires = *self;
        proof {
            crate::field_arithmetic::lemma_extends_refl(*self);
        }
        // Each mask bit wire must equal 0 or 1.
        let mut i: usize = 0;
        while i < chunks
            invariant
                i <= chunks,
                mask@.len() == chunks,
                p == F::modulus(),
                1 < p,
                self.extends(start),
                self.extends(after_wires),
                self.next_index() == start.next_index() + chunks,
                forall|vals: Map<u32, nat>|
                    #![trigger self.satisfied(vals)]
                    self.satisfied(vals) && valid_assignment(vals, p) ==> forall|k: int|
                        0 <= k < i ==> #[trigger] vals.contains_key(mask@[k].index),
                forall|vals: Map<u32, nat>|
                    #![trigger self.satisfied(vals)]
                    self.satisfied(vals) && valid_assignment(vals, p) && is_prime(p) ==> forall|k: int|
                        0 <= k < i ==> #[trigger] vals[mask@[k].index] == 0 || vals[mask@[k].index]
                            == 1,
            decreases chunks - i,
        {
            let ghost before = *self;
            let m = Expression::from_wire(mask[i]);
            let _ = self.assert_boolean(&m);
            proof {
                lemma_extends_trans(*self, before, start);
                lemma_extends_trans(*self, before, after_wires);
                assert forall|vals: Map<u32, nat>| #![trigger self.satisfied(vals)]
                    self.satisfied(vals) && valid_assignment(vals, p) implies forall|k: int|
                    0 <= k < i + 1 ==> #[trigger] vals.contains_key(mask@[k].index) by {
                    lemma_satisfied_prefix(*self, before, vals);
                    assert(m@[0].0 == mask@[i as int].index);
                }
                assert forall|vals: Map<u32, nat>| #![trigger self.satisfied(vals)]
                    self.satisfied(vals) && valid_assignment(vals, p) && is_prime(p) implies forall|k: int|
                    0 <= k < i + 1 ==> #[trigger] vals[mask@[k].index] == 0 || vals[mask@[k].index]
                        == 1 by {
                    lemma_satisfied_prefix(*self, before, vals);
                    assert(m@[0].0 == mask@[i as int].index);
                    lemma_single_wire_eval(m@, mask@[i as int].index, vals, p);
                }
            }
            i += 1;
        }
        let ghost after_bool = *self;
        // The sum of all masks must equal 0 or 1, so that at most one mask can equal 1.
        let total = Expression::sum_of_wires(mask.as_slice());
        let diff_exists = self.assert_boolean(&total);
        proof {
            lemma_extends_trans(*self, after_bool, start);
        }

        let mut deps = x_bits.dependencies();
        let mut y_deps = y_bits.dependencies();
        deps.append(&mut y_deps);
        let ghost before_gen = *self;
        let gen = WitnessGenerator::new(
            deps,
            Generate::ChunkMask {
                x_chunks: copy_expressions(&x_chunks),
                y_chunks: copy_expressions(&y_chunks),
                mask: mask.clone(),
            },
        );
        let ghost g = gen;
        self.generator(gen);
        proof {
            lemma_generator_extends(*self, before_gen, g);
            lemma_extends_trans(*self, before_gen, start);
            lemma_extends_trans(*self, before_gen, after_bool);
        }
        let ghost after_sum = *self;

        // Compute the dot product of the mask vector with (x_chunks - y_chunks).
        let mut diff_chunk = Expression::zero();
        let mut i: usize = 0;
        proof {
            crate::field_arithmetic::lemma_extends_refl(*self);
            assert forall|vals: Map<u32, nat>| #![trigger self.satisfied(vals)]
                self.satisfied(vals) && valid_assignment(vals, p) implies diff_chunk.eval(vals)
                == masked_sum(
                mask_values(mask@, vals),
                chunk_evals(x_chunks@, vals),
                chunk_evals(y_chunks@, vals),
                0,
                p,
            ) by {
                vstd::arithmetic::div_mod::lemma_small_mod(0, p);
            }
        }
        while i < chunks
            invariant
                i <= chunks,
                x_chunks@.len() == chunks,
                y_chunks@.len() == chunks,
                mask@.len() == chunks,
                p == F::modulus(),
                1 < p,
                self.extends(start),
                self.extends(after_sum),
                after_sum.extends(after_bool),
                self.next_index() <= start.next_index() + chunks + i,
                start.next_index() + compare_binary_wires::<F>(operand_bits as nat) <= u32::MAX,
                chunks <= operand_bits,
                forall|vals: Map<u32, nat>|
                    #![trigger after_bool.satisfied(vals)]
                    after_bool.satisfied(vals) && valid_assignment(vals, p) ==> forall|k: int|
                        0 <= k < chunks ==> #[trigger] vals.contains_key(mask@[k].index),
                forall|vals: Map<u32, nat>|
                    #![trigger self.satisfied(vals)]
                    self.satisfied(vals) && valid_assignment(vals, p) ==> diff_chunk.eval(vals)
                        == masked_sum(
                        mask_values(mask@, vals),
                        chunk_evals(x_chunks@, vals),
                        chunk_evals(y_chunks@, vals),
                        i as int,
                        p,
                    ),
            decreases chunks - i,
        {
            let diff = x_chunks[i].sub(&y_chunks[i]);
            let ghost before = *self;
            let m = Expression::from_wire(mask[i]);
            let term = self.product(&m, &diff);
            proof {
                lemma_extends_trans(*self, before, start);
                lemma_extends_trans(*self, before, after_sum);
            }
            let ghost prev = diff_chunk;
            diff_chunk = diff_chunk.add(&term);
            proof {
                assert forall|vals: Map<u32, nat>| #![trigger self.satisfied(vals)]
                    self.satisfied(vals) && valid_assignment(vals, p) implies diff_chunk.eval(vals)
                    == masked_sum(
                    mask_values(mask@, vals),
                    chunk_evals(x_chunks@, vals),
                    chunk_evals(y_chunks@, vals),
                    i + 1,
                    p,
                ) by {
                    lemma_satisfied_prefix(*self, before, vals);
                    lemma_satisfied_prefix(*self, after_sum, vals);
                    lemma_satisfied_prefix(after_sum, after_bool, vals);
                    let w = mask@[i as int].index;
                    assert(vals.contains_key(w));
                    lemma_single_wire_eval(m@, w, vals, p);
                }
            }
            i += 1;
        }
        let ghost after_dot = *self;

        // Verify that any more significant pairs of chunks are equal.
        // diff_seen tracks whether a mask bit of 1 has been observed for a less significant bit.
        let mut diff_seen = Expression::from_wire(mask[0]);
        let mut i: usize = 1;
        proof {
            crate::field_arithmetic::lemma_extends_refl(*self);
            assert forall|vals: Map<u32, nat>| #![trigger diff_seen.eval(vals)] diff_seen.eval(vals)
                == int_sum(mask_values(mask@, vals).take(1)) % p by {
                let ms = mask_values(mask@, vals);
                lemma_int_sum_step(ms, 0);
                assert(ms.take(0).len() == 0);
                lemma_wire_eval(diff_seen@, mask@[0].index, vals, p);
            }
        }
        while i < chunks
            invariant
                1 <= i <= chunks,
                x_chunks@.len() == chunks,
                y_chunks@.len() == chunks,
                mask@.len() == chunks,
                p == F::modulus(),
                1 < p,
                self.extends(start),
                self.extends(after_dot),
                self.next_index() <= start.next_index() + 2 * chunks,
                forall|vals: Map<u32, nat>|
                    #![trigger diff_seen.eval(vals)]
                    diff_seen.eval(vals) == int_sum(mask_values(mask@, vals).take(i as int)) % p,
                forall|vals: Map<u32, nat>|
                    #![trigger self.satisfied(vals)]
                    self.satisfied(vals) && valid_assignment(vals, p) ==> forall|k: int|
                        1 <= k < i ==> #[trigger] chunks_agree_after(
                            mask_values(mask@, vals),
                            chunk_evals(x_chunks@, vals),
                            chunk_evals(y_chunks@, vals),
                            k,
                            p,
                        ),
            decreases chunks - i,
        {
            // If diff_seen = 1, we require that x_chunk = y_chunk.
            // Equivalently, we require that diff_seen * (x_chunk - y_chunk) = 0.
            let ghost before = *self;
            let d = x_chunks[i].sub(&y_chunks[i]);
            let zero = Expression::zero();
            self.assert_product(&diff_seen, &d, &zero);
            proof {
                lemma_extends_trans(*self, before, start);
                lemma_extends_trans(*self, before, after_dot);
            }
            let ghost prev = diff_seen;
            let m = Expression::from_wire(mask[i]);
            diff_seen = diff_seen.add(&m);
            proof {
                assert forall|vals: Map<u32, nat>| #![trigger self.satisfied(vals)]
                    self.satisfied(vals) && valid_assignment(vals, p) implies forall|k: int|
                    1 <= k < i + 1 ==> #[trigger] chunks_agree_after(
                    mask_values(mask@, vals),
                    chunk_evals(x_chunks@, vals),
                    chunk_evals(y_chunks@, vals),
                    k,
                    p,
                ) by {
                    lemma_satisfied_prefix(*self, before, vals);
                    assert(zero.eval(vals) == 0) by {
                        vstd::arithmetic::div_mod::lemma_small_mod(0, p);
                    }
                    assert(prev.eval(vals) == int_sum(mask_values(mask@, vals).take(i as int)) % p);
                    assert(rank1_holds(prev@, d@, zero@, vals, p));
                    assert(field_mul(prev.eval(vals), d.eval(vals), p) == 0);
                    assert(d.eval(vals) == field_sub(
                        chunk_evals(x_chunks@, vals)[i as int],
                        chunk_evals(y_chunks@, vals)[i as int],
                        p,
                    ));
                    assert(chunks_agree_after(
                        mask_values(mask@, vals),
                        chunk_evals(x_chunks@, vals),
                        chunk_evals(y_chunks@, vals),
                        i as int,
                        p,
                    ));
                }
                assert forall|vals: Map<u32, nat>| #![trigger diff_seen.eval(vals)] diff_seen.eval(
                    vals,
                ) == int_sum(mask_values(mask@, vals).take(i + 1)) % p by {
                    let ms = mask_values(mask@, vals);
                    lemma_int_sum_step(ms, i as int);
                    lemma_wire_eval(m@, mask@[i as int].index, vals, p);
                    assert(prev.eval(vals) == int_sum(ms.take(i as int)) % p);
                    vstd::arithmetic::div_mod::lemma_add_mod_noop(
                        int_sum(ms.take(i as int)) as int,
                        ms[i as int] as int,
                        p as int,
                    );
                }
            }
            i += 1;
        }
        let ghost after_seen = *self;

        // If no mask bit is set, every pair of chunks must agree:
        // (1 - sum of masks) * (x_chunk - y_chunk) = 0.
        let one_exp = Expression::one();
        let one_minus_total = one_exp.sub(&total);
        let zero_exp = Expression::zero();
        proof {
            crate::field_arithmetic::lemma_extends_refl(*self);
        }
        let mut i: usize = 0;
        while i < chunks
            invariant
                i <= chunks,
                x_chunks@.len() == chunks,
                y_chunks@.len() == chunks,
                p == F::modulus(),
                1 < p,
                self.extends(start),
                self.extends(after_seen),
                self.next_index() == after_seen.next_index(),
                zero_exp@ == Seq::<(u32, nat)>::empty(),
                forall|vals: Map<u32, nat>|
                    #![trigger self.satisfied(vals)]
                    self.satisfied(vals) && valid_assignment(vals, p) ==> forall|k: int|
                        0 <= k < i ==> field_mul(
                            one_minus_total.eval(vals),
                            field_sub(
                                #[trigger] chunk_evals(x_chunks@, vals)[k],
                                chunk_evals(y_chunks@, vals)[k],
                                p,
                            ),
                            p,
                        ) == 0,
            decreases chunks - i,
        {
            let ghost before = *self;
            let d = x_chunks[i].sub(&y_chunks[i]);
            self.assert_product(&one_minus_total, &d, &zero_exp);
            proof {
                lemma_extends_trans(*self, before, start);
                lemma_extends_trans(*self, before, after_seen);
                assert forall|vals: Map<u32, nat>| #![trigger self.satisfied(vals)]
                    self.satisfied(vals) && valid_assignment(vals, p) implies forall|k: int|
                    0 <= k < i + 1 ==> field_mul(
                        one_minus_total.eval(vals),
                        field_sub(
                            #[trigger] chunk_evals(x_chunks@, vals)[k],
                            chunk_evals(y_chunks@, vals)[k],
                            p,
                        ),
                        p,
                    ) == 0 by {
                    lemma_satisfied_prefix(*self, before, vals);
                    assert(rank1_holds(one_minus_total@, d@, zero_exp@, vals, p));
                    crate::gadget_builder::lemma_zero_eval(zero_exp@, vals, p);
                    assert(d.eval(vals) == field_sub(
                        chunk_evals(x_chunks@, vals)[i as int],
                        chunk_evals(y_chunks@, vals)[i as int],
                        p,
                    ));
                }
            }
            i += 1;
        }
        let ghost after_agree = *self;
        // If a mask bit is set, the chunks it picks must differ; if none is, 1 is checked instead.
        let nonzero = self.selection(&diff_exists, &diff_chunk, &one_exp);
        let ghost after_select = *self;
        self.assert_nonzero(&nonzero);
        proof {
            lemma_extends_trans(*self, after_select, after_agree);
            lemma_extends_trans(*self, after_agree, start);
        }
        // Finally, apply a different comparison algorithm to the (small) differing chunks.
        let ghost before = *self;
        let r = self.compare_subtractive(diff_chunk, less, strict, chunk_bits);
        proof {
            lemma_extends_trans(*self, before, start);
            assert forall|vals: Map<u32, nat>| #![trigger self.satisfied(vals)]
                self.satisfied(vals) && valid_assignment(vals, p) && is_prime(p) && is_bit_seq(
                    x_bits.bit_values(vals),
                ) && is_bit_seq(y_bits.bit_values(vals)) && x_bits@.len() < p implies compare_exact(
                weighted_sum(x_bits.bit_values(vals)),
                weighted_sum(y_bits.bit_values(vals)),
                less,
                strict,
                r.eval(vals),
            ) by {
                lemma_satisfied_prefix(*self, before, vals);
                lemma_satisfied_prefix(before, after_select, vals);
                lemma_satisfied_prefix(after_select, after_agree, vals);
                lemma_satisfied_prefix(after_agree, after_seen, vals);
                lemma_satisfied_prefix(after_seen, after_dot, vals);
                lemma_satisfied_prefix(after_dot, after_sum, vals);
                lemma_satisfied_prefix(after_sum, before_gen, vals);
                lemma_satisfied_prefix(after_sum, after_bool, vals);
                let c = chunk_bits as nat;
                lemma2_to64();
                if c + 1 > 2 {
                    lemma_pow2_strictly_increases(2, c + 1);
                }
                let xb = x_bits.bit_values(vals);
                let yb = y_bits.bit_values(vals);
                let ms = mask_values(mask@, vals);
                let xs = chunk_evals(x_chunks@, vals);
                let ys = chunk_evals(y_chunks@, vals);
                assert(is_bit_seq(ms));
                assert(total.eval(vals) == 0 || total.eval(vals) == 1);
                lemma_wire_sum_values(mask@, vals);
                assert forall|k: int| 0 <= k < chunks implies #[trigger] xs[k] == weighted_sum(
                    chunk_of(xb, c, k as nat),
                ) by {
                    lemma_chunk_value(x_bits, &x_pieces, &x_chunks, c, k, vals);
                }
                assert forall|k: int| 0 <= k < chunks implies #[trigger] ys[k] == weighted_sum(
                    chunk_of(yb, c, k as nat),
                ) by {
                    lemma_chunk_value(y_bits, &y_pieces, &y_chunks, c, k, vals);
                }
                assert forall|k: int| 1 <= k < ms.len() implies field_mul(
                    int_sum(#[trigger] ms.take(k)) % p,
                    field_sub(xs[k], ys[k], p),
                    p,
                ) == 0 by {
                    assert(chunks_agree_after(ms, xs, ys, k, p));
                }
                let t = total.eval(vals);
                assert(t == int_sum(ms) % p);
                crate::gadget_builder::lemma_one_eval::<F>(one_exp@, vals);
                assert(one_minus_total.eval(vals) == field_sub(1, t, p));
                assert forall|k: int| 0 <= k < ms.len() implies field_mul(
                    field_sub(1, int_sum(ms) % p, p),
                    field_sub(#[trigger] xs[k], ys[k], p),
                    p,
                ) == 0 by {
                    assert(xs[k] == chunk_evals(x_chunks@, vals)[k]);
                }
                if t == 1 {
                    assert(diff_exists.eval(vals) == 1);
                    assert(nonzero.eval(vals) == diff_chunk.eval(vals));
                    assert(nonzero.eval(vals) != 0);
                }
                lemma_compare_exact(xb, yb, c, ms, xs, ys, p, less, strict, r.eval(vals));
            }
        }
        r
    }

    /// Given a diff of `x - y`, compare `x` and `y`.
    fn compare_subtractive(&mut self, diff: Expression<F>, less: bool, strict: bool, bits: usize) -> (r:
        BooleanExpression<F>)
        requires
            bits + 1 < field_bits::<F>(),
            old(self).has_room((bits + 1) as nat),
        ensures
            final(self).extends(*old(self)),
            final(self).next_index() == old(self).next_index() + bits + 1,
            forall|vals: Map<u32, nat>|
                #![trigger final(self).satisfied(vals)]
                final(self).satisfied(vals) && valid_assignment(vals, F::modulus()) && is_prime(
                    F::modulus(),
                ) ==> (r.eval(vals) == 0 || r.eval(vals) == 1) && (r.eval(vals) == 1
                    <==> subtractive_value(diff.eval(vals), less, strict, bits as nat, F::modulus())
                    >= pow2(bits as nat)),
    {
        // An as example, assume less=false and strict=false. In that case, we compute
        //     2^bits + x - y
        // And check the most significant bit, i.e., the one with index `bits`.
        // x >= y iff that bit is set. The other cases are similar.
        let one = Element::<F>::one();
        proof {
            use_type_invariant(&one);
            lemma_chunk_weights::<F>(bits as nat);
            lemma_pow2_pos(bits as nat);
        }
        let weight = one.shl(bits);
        let base_element = weight.sub(&Element::from_bool(strict));
        let base = Expression::from_element(&base_element);
        let z = if less {
            base.add(&diff.neg())
        } else {
            base.add(&diff)
        };
        let ghost before = *self;
        let split = self.split_bounded(&z, bits + 1);
        let r = split.bits[bits].copy();
        proof {
            let p = F::modulus();
            let bv = weight@ - (if strict { 1nat } else { 0nat });
            assert(weight@ == pow2(bits as nat));
            vstd::arithmetic::div_mod::lemma_small_mod(bv as nat, p);
            assert(base_element@ == bv);
            assert forall|vals: Map<u32, nat>| #![trigger self.satisfied(vals)]
                self.satisfied(vals) && valid_assignment(vals, p) && is_prime(p) implies (r.eval(vals)
                == 0 || r.eval(vals) == 1) && (r.eval(vals) == 1 <==> subtractive_value(
                diff.eval(vals),
                less,
                strict,
                bits as nat,
                p,
            ) >= pow2(bits as nat)) by {
                if bv != 0 {
                    crate::field_arithmetic::lemma_const_eval::<F>(base@, bv as nat, vals);
                } else {
                    assert(base@.len() == 0);
                }
                assert(base.eval(vals) == bv);
                lemma_constrained_bits(&split, vals);
                let bs = split.bit_values(vals);
                lemma_weighted_sum_bound(bs);
                lemma_weighted_sum_top(bs);
                vstd::arithmetic::div_mod::lemma_small_mod(weighted_sum(bs), p);
                assert(z.eval(vals) == weighted_sum(bs));
                assert(bs.last() == bs[bits as int]);
                assert(r.eval(vals) == bs[bits as int]);
            }
        }
        r
    }

    /// The number of constraints used by `compare_binary`, given a certain chunk size.
    fn compare_constraints(operand_bits: usize, chunk_bits: usize) -> (r: u128)
        requires
            chunk_bits > 0,
        ensures
            r == compare_cost(operand_bits as nat, chunk_bits as nat),
    {
        let n = operand_bits as u128;
        let c = chunk_bits as u128;
        let chunks = (n + c - 1) / c;
        proof {
            let ni = n as int;
            let ci = c as int;
            assert(chunks as int <= ni + ci) by (nonlinear_arith)
                requires
                    chunks as int == (ni + ci - 1) / ci,
                    ci >= 1,
                    ni >= 0,
            ;
        }
        3 * chunks + 2 + c
    }

    /// The optimal number of bits per chunk for the comparison algorithm used in `compare_binary`.
    fn compare_chunk_bits(operand_bits: usize) -> (r: usize)
        ensures
            r == chunk_bits_for(operand_bits as nat, field_bits::<F>()),
            r >= 1,
            1 < F::modulus(),
    {
        let max_bits = Element::<F>::max_bits();
        let mut best_chunk_bits: usize = 1;
        let mut best_constraints = Self::compare_constraints(operand_bits, 1);
        let mut chunk_bits: usize = 2;
        proof {
            lemma_best_chunk_range(operand_bits as nat, 1);
        }
        while chunk_bits < max_bits
            invariant
                2 <= chunk_bits,
                max_bits <= 2 ==> chunk_bits == 2,
                1 < F::modulus(),
                max_bits == field_bits::<F>(),
                chunk_bits <= max_bits || max_bits <= 2,
                (best_chunk_bits as nat, best_constraints as nat) == best_chunk_upto(
                    operand_bits as nat,
                    (chunk_bits - 1) as nat,
                ),
            decreases max_bits - chunk_bits,
        {
            let constraints = Self::compare_constraints(operand_bits, chunk_bits);
            if constraints < best_constraints {
                best_chunk_bits = chunk_bits;
                best_constraints = constraints;
            }
            chunk_bits += 1;
        }
        proof {
            lemma_best_chunk_range(operand_bits as nat, (chunk_bits - 1) as nat);
            if max_bits <= 2 {
                assert(chunk_bits == 2);
                assert(best_chunk_upto(operand_bits as nat, 1).0 == 1);
            } else {
                assert(chunk_bits == max_bits);
            }
        }
        best_chunk_bits
    }
}

/// The value whose bit `bits` gives a comparison's result: `2^bits - strict - diff` when
/// comparing for "less", `2^bits - strict + diff` otherwise, in the field.
pub open spec fn subtractive_value(diff: nat, less: bool, strict: bool, bits: nat, p: nat) -> nat {
    field_add(
        (pow2(bits) - (if strict { 1nat } else { 0nat })) as nat,
        if less {
            field_neg(diff, p)
        } else {
            diff
        },
        p,
    )
}

/// The operands of a binary comparison are bit strings of fewer bits than the field has
/// elements, under a valid assignment for a prime field.
pub open spec fn binary_operands<F: Field>(
    x: &BinaryExpression<F>,
    y: &BinaryExpression<F>,
    vals: Map<u32, nat>,
) -> bool {
    &&& valid_assignment(vals, F::modulus())
    &&& is_prime(F::modulus())
    &&& is_bit_seq(x.bit_values(vals))
    &&& is_bit_seq(y.bit_values(vals))
    &&& x@.len() < F::modulus()
}

/// The constant bits of `n` evaluate to the bits of `n`, which sum back to `n`.
proof fn lemma_constant_bits<F: Field>(b: &BinaryExpression<F>, n: nat, vals: Map<u32, nat>)
    requires
        valid_assignment(vals, F::modulus()),
        1 < F::modulus(),
        b@.len() == bit_length(n),
        forall|i: int|
            0 <= i < b@.len() ==> #[trigger] b@[i] == if bit_of(n, i as nat) {
                seq![(crate::wire::ONE_WIRE_INDEX, 1nat)]
            } else {
                Seq::<(u32, nat)>::empty()
            },
    ensures
        is_bit_seq(b.bit_values(vals)),
        weighted_sum(b.bit_values(vals)) == n,
{
    let p = F::modulus();
    assert(b.bit_values(vals) =~= crate::splitting::natural_bits(n, bit_length(n))) by {
        assert forall|i: int| 0 <= i < b@.len() implies #[trigger] b.bit_values(vals)[i]
            == crate::splitting::natural_bits(n, bit_length(n))[i] by {
            if bit_of(n, i as nat) {
                crate::gadget_builder::lemma_one_eval::<F>(b@[i], vals);
            } else {
                assert(b@[i].len() == 0);
                vstd::arithmetic::div_mod::lemma_small_mod(0, p);
            }
        }
    }
    crate::splitting::lemma_natural_bits_sum(n);
}

/// Reducing modulo `p` never increases a number.
proof fn lemma_mod_at_most(x: nat, p: nat)
    requires
        p > 0,
    ensures
        x % p <= x,
{
    vstd::arithmetic::div_mod::lemma_fundamental_div_mod(x as int, p as int);
    vstd::arithmetic::div_mod::lemma_div_pos_is_pos(x as int, p as int);
    let q = x as int / p as int;
    assert((p as int) * q >= 0) by (nonlinear_arith)
        requires
            p > 0,
            q >= 0,
    ;
}

/// The values of mask wires.
pub open spec fn mask_values(mask: Seq<Wire>, vals: Map<u32, nat>) -> Seq<nat> {
    mask.map_values(|w: Wire| vals[w.index])
}

/// The values of chunk expressions.
pub open spec fn chunk_evals<F: Field>(cs: Seq<Expression<F>>, vals: Map<u32, nat>) -> Seq<nat> {
    cs.map_values(|e: Expression<F>| e.eval(vals))
}

/// Once a mask bit below chunk `k` is set, chunk `k` of both operands must agree.
pub open spec fn chunks_agree_after(ms: Seq<nat>, xs: Seq<nat>, ys: Seq<nat>, k: int, p: nat) -> bool {
    field_mul(int_sum(ms.take(k)) % p, field_sub(xs[k], ys[k], p), p) == 0
}

/// A single wire with coefficient 1 evaluates to the wire's value, reduced.
proof fn lemma_wire_eval(s: Seq<(u32, nat)>, w: u32, vals: Map<u32, nat>, p: nat)
    requires
        s == seq![(w, 1nat)],
        p > 0,
    ensures
        eval_terms(s, vals, p) == vals[w] % p,
{
    assert(s.drop_last() =~= Seq::<(u32, nat)>::empty());
    assert(raw_value(s.drop_last(), vals) == 0);
    assert(s.last() == (w, 1nat));
    assert(raw_value(s, vals) == 1 * vals[w]);
    assert(1 * vals[w] == vals[w]);
}

/// The sum of wire values is the integer sum of the mask values.
proof fn lemma_wire_sum_values(ws: Seq<Wire>, vals: Map<u32, nat>)
    ensures
        wire_sum(ws, vals) == int_sum(mask_values(ws, vals)),
    decreases ws.len(),
{
    if ws.len() > 0 {
        lemma_wire_sum_values(ws.drop_last(), vals);
        assert(mask_values(ws.drop_last(), vals) =~= mask_values(ws, vals).drop_last());
    }
}

/// The value of a joined chunk is the bit sum of the matching chunk of the operand.
proof fn lemma_chunk_value<F: Field>(
    bits: &BinaryExpression<F>,
    pieces: &Vec<BinaryExpression<F>>,
    joined: &Vec<Expression<F>>,
    c: nat,
    k: int,
    vals: Map<u32, nat>,
)
    requires
        c > 0,
        pow2(c) < F::modulus(),
        is_bit_seq(bits.bit_values(vals)),
        pieces@.len() == chunk_count(bits@.len(), c),
        joined@.len() == pieces@.len(),
        0 <= k < pieces@.len(),
        forall|i: int|
            0 <= i < pieces@.len() ==> #[trigger] pieces@[i]@ == bits@.subrange(
                i * c,
                if (i + 1) * c <= bits@.len() {
                    (i + 1) * c
                } else {
                    bits@.len() as int
                },
            ),
        forall|i: int, v: Map<u32, nat>|
            #![trigger joined@[i].eval(v)]
            0 <= i < joined@.len() ==> joined@[i].eval(v) == weighted_sum(pieces@[i].bit_values(v)) % F::modulus(),
    ensures
        chunk_evals(joined@, vals)[k] == weighted_sum(chunk_of(bits.bit_values(vals), c, k as nat)),
{
    let xb = bits.bit_values(vals);
    assert(c * k == k * c) by (nonlinear_arith);
    assert(c * (k + 1) == (k + 1) * c) by (nonlinear_arith);
    let lo = k * c;
    let hi = if (k + 1) * c <= bits@.len() { (k + 1) * c } else { bits@.len() as int };
    assert(0 <= k * c) by (nonlinear_arith)
        requires
            k >= 0,
            c > 0,
    ;
    assert(k * c <= (k + 1) * c) by (nonlinear_arith)
        requires
            k >= 0,
            c > 0,
    ;
    lemma_chunk_start(bits@.len(), c, k as nat);
    assert(pieces@[k]@ == bits@.subrange(lo, hi));
    assert(chunk_of(xb, c, k as nat) == xb.subrange(lo, hi));
    assert(pieces@[k].bit_values(vals) =~= xb.subrange(lo, hi)) by {
        assert forall|t: int| 0 <= t < hi - lo implies #[trigger] pieces@[k].bit_values(vals)[t]
            == xb.subrange(lo, hi)[t] by {
            assert(pieces@[k]@[t] == bits@[lo + t]);
        }
    }
    lemma_chunk_start(bits@.len(), c, k as nat);
    lemma_chunk_fits(xb, c, k as nat);
    vstd::arithmetic::div_mod::lemma_small_mod(weighted_sum(chunk_of(xb, c, k as nat)), F::modulus());
    assert(joined@[k].eval(vals) == weighted_sum(pieces@[k].bit_values(vals)) % F::modulus());
}

/// What a comparison asks: `x < y`, `x <= y`, `x > y` or `x >= y`.
pub open spec fn compare_holds(x: nat, y: nat, less: bool, strict: bool) -> bool {
    if less {
        if strict {
            x < y
        } else {
            x <= y
        }
    } else {
        if strict {
            x > y
        } else {
            x >= y
        }
    }
}

/// The field value that decides a comparison, worked out from the two selected chunks.
proof fn lemma_subtractive_chunks(xj: nat, yj: nat, c: nat, less: bool, strict: bool, p: nat)
    requires
        xj < pow2(c),
        yj < pow2(c),
        pow2(c + 1) < p,
    ensures
        subtractive_value(field_sub(xj, yj, p), less, strict, c, p) >= pow2(c) <==> if less {
            yj - xj >= (if strict { 1int } else { 0int })
        } else {
            xj - yj >= (if strict { 1int } else { 0int })
        },
{
    let s: int = if strict { 1 } else { 0 };
    let w = pow2(c);
    lemma_pow2_unfold(c + 1);
    lemma_pow2_pos(c);
    let b = (w - s) as nat;
    let pi = p as int;
    let t = xj - yj;
    vstd::arithmetic::div_mod::lemma_mod_bound(t, pi);
    let d = field_sub(xj, yj, p);
    if less {
        let nd = field_neg(d, p);
        assert(nd == (0 - (t % pi)) % pi);
        vstd::arithmetic::div_mod::lemma_sub_mod_noop_right(0, t, pi);
        assert(nd == (0 - t) % pi);
        vstd::arithmetic::div_mod::lemma_add_mod_noop_right(b as int, 0 - t, pi);
        assert(subtractive_value(d, less, strict, c, p) == (b - t) % pi);
        vstd::arithmetic::div_mod::lemma_small_mod((b - t) as nat, p);
    } else {
        vstd::arithmetic::div_mod::lemma_add_mod_noop_right(b as int, t, pi);
        assert(subtractive_value(d, less, strict, c, p) == (b + t) % pi);
        vstd::arithmetic::div_mod::lemma_small_mod((b + t) as nat, p);
    }
}

/// The comparison's result bit is exactly whether the comparison holds.
pub open spec fn compare_exact(x: nat, y: nat, less: bool, strict: bool, r: nat) -> bool {
    r == if compare_holds(x, y, less, strict) {
        1nat
    } else {
        0nat
    }
}

/// With the mask forced to pick a differing chunk when there is one, and every chunk equal when
/// it picks none, the result bit is exactly the comparison.
proof fn lemma_compare_exact(
    xb: Seq<nat>,
    yb: Seq<nat>,
    c: nat,
    ms: Seq<nat>,
    xs: Seq<nat>,
    ys: Seq<nat>,
    p: nat,
    less: bool,
    strict: bool,
    r: nat,
)
    requires
        2 < p,
        c > 0,
        pow2(c + 1) < p,
        xb.len() == yb.len(),
        is_bit_seq(xb),
        is_bit_seq(yb),
        ms.len() == chunk_count(xb.len(), c),
        xs.len() == ms.len(),
        ys.len() == ms.len(),
        ms.len() < p,
        forall|i: int| 0 <= i < ms.len() ==> #[trigger] xs[i] == weighted_sum(chunk_of(xb, c, i as nat)),
        forall|i: int| 0 <= i < ms.len() ==> #[trigger] ys[i] == weighted_sum(chunk_of(yb, c, i as nat)),
        is_bit_seq(ms),
        int_sum(ms) % p <= 1,
        forall|k: int|
            1 <= k < ms.len() ==> field_mul(
                int_sum(#[trigger] ms.take(k)) % p,
                field_sub(xs[k], ys[k], p),
                p,
            ) == 0,
        forall|k: int|
            0 <= k < ms.len() ==> field_mul(
                field_sub(1, int_sum(ms) % p, p),
                field_sub(#[trigger] xs[k], ys[k], p),
                p,
            ) == 0,
        int_sum(ms) % p == 1 ==> masked_sum(ms, xs, ys, ms.len() as int, p) != 0,
        r == 0 || r == 1,
        r == 1 <==> subtractive_value(masked_sum(ms, xs, ys, ms.len() as int, p), less, strict, c, p)
            >= pow2(c),
    ensures
        compare_exact(weighted_sum(xb), weighted_sum(yb), less, strict, r),
{
    let n = ms.len();
    assert forall|i: int| 0 <= i < n implies #[trigger] xs[i] < pow2(c) && ys[i] < pow2(c) by {
        lemma_chunk_start(xb.len(), c, i as nat);
        lemma_chunk_fits(xb, c, i as nat);
        lemma_chunk_fits(yb, c, i as nat);
    }
    lemma_pow2_strictly_increases(c, c + 1);
    assert forall|i: int| 0 <= i < ys.len() implies #[trigger] ys[i] < p by {
        assert(xs[i] < pow2(c) && ys[i] < pow2(c));
    }
    assert forall|i: int| 0 <= i < xs.len() implies #[trigger] xs[i] < p by {
        assert(xs[i] < pow2(c) && ys[i] < pow2(c));
    }
    let j = lemma_mask_select(ms, xs, ys, p);
    let t = int_sum(ms) % p;
    vstd::arithmetic::div_mod::lemma_small_mod(0, p);
    vstd::arithmetic::div_mod::lemma_small_mod(1, p);
    if t == 0 {
        // No chunk picked: every chunk agrees, so the operands are equal.
        assert forall|k: int| 0 <= k < n implies #[trigger] xs[k] == ys[k] by {
            assert(field_sub(1, 0, p) == 1);
            let d = field_sub(xs[k], ys[k], p);
            vstd::arithmetic::div_mod::lemma_mod_bound(xs[k] - ys[k], p as int);
            assert(1 * d == d);
            vstd::arithmetic::div_mod::lemma_small_mod(d, p);
            crate::primes::lemma_sub_zero(xs[k], ys[k], p);
        }
        assert forall|i: nat| 0 <= i < chunk_count(xb.len(), c) implies #[trigger] weighted_sum(
            chunk_of(xb, c, i),
        ) == weighted_sum(chunk_of(yb, c, i)) by {
            assert(xs[i as int] == ys[i as int]);
        }
        lemma_equal_high_parts(xb, yb, c, 0);
        assert(xb.skip(0) =~= xb);
        assert(yb.skip(0) =~= yb);
        let m = masked_sum(ms, xs, ys, n as int, p);
        if j >= 0 {
            crate::primes::lemma_sub_zero(xs[j], ys[j], p);
        }
        assert(m == 0);
        lemma_pow2_pos(c);
        let b = (pow2(c) - (if strict { 1nat } else { 0nat })) as nat;
        vstd::arithmetic::div_mod::lemma_small_mod(b, p);
        assert(field_neg(0, p) == 0);
        assert(subtractive_value(0, less, strict, c, p) == b);
    } else {
        // A chunk is picked: it differs, and the chunks above it agree.
        assert(t == 1);
        assert(j >= 0);
        let ju = j as nat;
        crate::primes::lemma_sub_zero(xs[j], ys[j], p);
        assert(xs[j] != ys[j]);
        lemma_subtractive_chunks(xs[j], ys[j], c, less, strict, p);
        assert forall|i: nat| ju < i < chunk_count(xb.len(), c) implies #[trigger] weighted_sum(
            chunk_of(xb, c, i),
        ) == weighted_sum(chunk_of(yb, c, i)) by {
            assert(xs[i as int] == ys[i as int]);
        }
        if xs[j] < ys[j] {
            lemma_chunk_order(xb, yb, c, ju);
        } else {
            assert forall|i: nat| ju < i < chunk_count(yb.len(), c) implies #[trigger] weighted_sum(
                chunk_of(yb, c, i),
            ) == weighted_sum(chunk_of(xb, c, i)) by {
                assert(xs[i as int] == ys[i as int]);
            }
            lemma_chunk_order(yb, xb, c, ju);
        }
    }
}

/// A chunk of bits is worth less than `2^c`.
proof fn lemma_chunk_fits(s: Seq<nat>, c: nat, k: nat)
    requires
        is_bit_seq(s),
        c > 0,
        c * k < s.len(),
    ensures
        weighted_sum(chunk_of(s, c, k)) < pow2(c),
{
    assert(c * (k + 1) == c * k + c) by (nonlinear_arith);
    let end = if c * (k + 1) <= s.len() { (c * (k + 1)) as int } else { s.len() as int };
    lemma_bits_subrange(s, (c * k) as int, end);
    lemma_weighted_sum_bound(chunk_of(s, c, k));
    let l = chunk_of(s, c, k).len();
    if l < c {
        lemma_pow2_strictly_increases(l, c);
    }
}

/// Joins each chunk into the field element it encodes.
fn join_chunks<F: Field>(chunks: &Vec<BinaryExpression<F>>, chunk_bits: usize) -> (r: Vec<
    Expression<F>,
>)
    requires
        pow2(chunk_bits as nat) <= F::modulus(),
        forall|i: int| 0 <= i < chunks@.len() ==> #[trigger] chunks@[i]@.len() <= chunk_bits,
    ensures
        r@.len() == chunks@.len(),
        forall|i: int, v: Map<u32, nat>|
            #![trigger r@[i].eval(v)]
            0 <= i < r@.len() ==> r@[i].eval(v) == weighted_sum(chunks@[i].bit_values(v)) % F::modulus(),
{
    let mut out: Vec<Expression<F>> = Vec::new();
    let mut i: usize = 0;
    while i < chunks.len()
        invariant
            i <= chunks@.len(),
            out@.len() == i,
            forall|k: int, v: Map<u32, nat>|
                #![trigger out@[k].eval(v)]
                0 <= k < i ==> out@[k].eval(v) == weighted_sum(chunks@[k].bit_values(v)) % F::modulus(),
            pow2(chunk_bits as nat) <= F::modulus(),
            forall|i: int| 0 <= i < chunks@.len() ==> #[trigger] chunks@[i]@.len() <= chunk_bits,
        decreases chunks@.len() - i,
    {
        proof {
            if chunks@[i as int]@.len() < chunk_bits {
                lemma_pow2_strictly_increases(chunks@[i as int]@.len(), chunk_bits as nat);
            }
        }
        out.push(chunks[i].join());
        i += 1;
    }
    out
}

/// Copies of several expressions.
fn copy_expressions<F: Field>(exps: &Vec<Expression<F>>) -> (r: Vec<Expression<F>>)
    ensures
        r@.len() == exps@.len(),
        forall|i: int| 0 <= i < r@.len() ==> #[trigger] r@[i]@ == exps@[i]@,
{
    let mut out: Vec<Expression<F>> = Vec::new();
    let mut i: usize = 0;
    while i < exps.len()
        invariant
            i <= exps@.len(),
            out@.len() == i,
            forall|k: int| 0 <= k < i ==> #[trigger] out@[k]@ == exps@[k]@,
        decreases exps@.len() - i,
    {
        out.push(exps[i].copy());
        i += 1;
    }
    out
}

/// A field has at least one bit, and its order exceeds every weight below its bit count.
pub proof fn lemma_field_bits_positive<F: Field>()
    requires
        1 < F::modulus(),
    ensures
        field_bits::<F>() >= 1,
        pow2((field_bits::<F>() - 1) as nat) < F::modulus(),
{
    lemma_top_bit((F::modulus() - 1) as nat);
}

/// A chunk of fewer bits than the field's bit count, less one, fits in a field element with room
/// for a carry bit.
pub proof fn lemma_chunk_weights<F: Field>(chunk_bits: nat)
    requires
        1 < F::modulus(),
        chunk_bits + 1 < field_bits::<F>(),
    ensures
        pow2(chunk_bits + 1) < F::modulus(),
        pow2(chunk_bits) < F::modulus(),
{
    lemma_field_bits_positive::<F>();
    if chunk_bits + 1 < field_bits::<F>() - 1 {
        lemma_pow2_strictly_increases(chunk_bits + 1, (field_bits::<F>() - 1) as nat);
    }
    lemma_pow2_strictly_increases(chunk_bits, chunk_bits + 1);
}

/// Adding a generator extends a builder.
pub proof fn lemma_generator_extends<F: Field>(
    later: GadgetBuilder<F>,
    earlier: GadgetBuilder<F>,
    g: WitnessGenerator<F>,
)
    requires
        later.next_index() == earlier.next_index(),
        later.constraint_seq() == earlier.constraint_seq(),
        later.generator_seq() == earlier.generator_seq().push(g),
    ensures
        later.extends(earlier),
{
    assert(earlier.generator_seq() =~= later.generator_seq().subrange(
        0,
        earlier.generator_seq().len() as int,
    ));
    assert(earlier.constraint_seq() =~= later.constraint_seq().subrange(
        0,
        earlier.constraint_seq().len() as int,
    ));
}

} // verus!
