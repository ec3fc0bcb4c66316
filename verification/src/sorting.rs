//! Gadgets for sorting field elements.

use vstd::prelude::*;

use crate::binary_expression::BinaryExpression;
use crate::comparisons::{chunkable, compare_binary_wires, comparable, split_wires};
use crate::expression::Expression;
use crate::field::Field;
use crate::gadget_builder::{lemma_extends_trans, lemma_satisfied_prefix, valid_assignment, GadgetBuilder};
use crate::gadget_traits::expression_values;
use crate::primes::is_prime;
use crate::permutation_network::permutation_wires;
use crate::splitting::field_bits;
use crate::wire::Wire;
use crate::binary_expression::weighted_sum;
use crate::chunk_order::is_bit_seq;
use crate::expression::distinct_wires;
use crate::witness_generator::{all_assigned, values_of, wire_values_of, Generate, WitnessGenerator};

verus! {

/// An upper bound on the wires that sorting `n` items creates.
pub open spec fn sort_wires<F: Field>(n: nat) -> nat {
    n + permutation_wires(n) + n * split_wires::<F>() + n * compare_binary_wires::<F>(
        field_bits::<F>(),
    )
}

/// The values are in ascending order.
pub open spec fn sorted_values(s: Seq<nat>) -> bool {
    forall|i: int, j: int| 0 <= i < j < s.len() ==> s[i] <= s[j]
}

/// Values each at most the next are in ascending order.
proof fn lemma_adjacent_sorted(s: Seq<nat>)
    requires
        forall|k: int| 0 <= k < s.len() - 1 ==> #[trigger] s[k] <= s[k + 1],
    ensures
        sorted_values(s),
    decreases s.len(),
{
    if s.len() > 0 {
        let d = s.drop_last();
        assert forall|k: int| 0 <= k < d.len() - 1 implies #[trigger] d[k] <= d[k + 1] by {
            assert(s[k] <= s[k + 1]);
        }
        lemma_adjacent_sorted(d);
        assert forall|i: int, j: int| 0 <= i < j < s.len() implies s[i] <= s[j] by {
            if j < s.len() - 1 {
                assert(d[i] <= d[j]);
            } else if i < j - 1 {
                assert(d[i] <= d[j - 1]);
                assert(s[j - 1] <= s[j]);
            } else {
                assert(s[j - 1] <= s[j]);
            }
        }
    }
}

/// The values are in descending order.
pub open spec fn sorted_descending_values(s: Seq<nat>) -> bool {
    forall|i: int, j: int| 0 <= i < j < s.len() ==> s[i] >= s[j]
}

/// Output wires that a sorting generator filled with the sorted values of the inputs, read as
/// expressions, give those values in ascending order.
proof fn lemma_sorted_outputs<F: Field>(
    copies: Seq<Expression<F>>,
    inputs: Seq<Expression<F>>,
    ows: Seq<Wire>,
    outputs: Seq<Expression<F>>,
    before: Map<u32, nat>,
    after: Map<u32, nat>,
)
    requires
        1 < F::modulus(),
        copies.len() == inputs.len(),
        ows.len() == inputs.len(),
        outputs.len() == inputs.len(),
        forall|k: int| 0 <= k < copies.len() ==> #[trigger] copies[k]@ == inputs[k]@,
        forall|k: int| 0 <= k < outputs.len() ==> #[trigger] outputs[k]@ == seq![(ows[k].index, 1nat)],
        forall|k: int| 0 <= k < ows.len() ==> #[trigger] after.contains_key(ows[k].index),
        forall|i: int, j: int|
            0 <= i < j < ows.len() ==> #[trigger] after[ows[i].index] <= #[trigger] after[ows[j].index],
        wire_values_of(ows, after).to_multiset() == values_of(copies, before).to_multiset(),
    ensures
        sorted_values(expression_values(outputs, after)),
        expression_values(outputs, after).to_multiset() == expression_values(inputs, before).to_multiset(),
{
    let p = F::modulus();
    let iv = expression_values(inputs, before);
    let wv = wire_values_of(ows, after);
    assert(values_of(copies, before) =~= iv);
    assert forall|k: int| 0 <= k < ows.len() implies #[trigger] wv[k] < p by {
        vstd::seq_lib::to_multiset_contains(wv, wv[k]);
        assert(wv.contains(wv[k]));
        vstd::seq_lib::to_multiset_contains(iv, wv[k]);
        let j = choose|j: int| 0 <= j < iv.len() && iv[j] == wv[k];
        vstd::arithmetic::div_mod::lemma_mod_bound(crate::expression::raw_value(inputs[j]@, before), p as int);
    }
    assert forall|k: int| 0 <= k < outputs.len() implies #[trigger] expression_values(outputs, after)[k]
        == wv[k] by {
        let s = outputs[k]@;
        assert(s.drop_last() =~= Seq::<(u32, nat)>::empty());
        assert(s.last() == (ows[k].index, 1nat));
        assert(crate::expression::raw_value(s.drop_last(), after) == 0);
        assert(crate::expression::raw_value(s, after) == 1 * after[ows[k].index]);
        vstd::arithmetic::div_mod::lemma_small_mod(wv[k], p);
    }
    assert(expression_values(outputs, after) =~= wv);
}

impl<F: Field> GadgetBuilder<F> {
    /// Sorts field elements in ascending order.
    pub fn sort_ascending(&mut self, inputs: &[Expression<F>]) -> (r: Vec<Expression<F>>)
        requires
            comparable::<F>(),
            old(self).has_room(sort_wires::<F>(inputs@.len() as nat)),
        ensures
            r@.len() == inputs@.len(),
            final(self).extends(*old(self)),
            final(self).next_index() <= old(self).next_index() + sort_wires::<F>(
                inputs@.len() as nat,
            ),
            forall|vals: Map<u32, nat>|
                #![trigger final(self).satisfied(vals)]
                final(self).satisfied(vals) && valid_assignment(vals, F::modulus()) && is_prime(
                    F::modulus(),
                ) ==> expression_values(r@, vals).to_multiset() == expression_values(inputs@, vals).to_multiset(),
            forall|vals: Map<u32, nat>|
                #![trigger final(self).satisfied(vals)]
                final(self).satisfied(vals) && valid_assignment(vals, F::modulus()) && is_prime(
                    F::modulus(),
                ) ==> sorted_values(expression_values(r@, vals)),
            forall|before: Map<u32, nat>, after: Map<u32, nat>|
                #![trigger final(self).generator_seq().last().generated(before, after)]
                final(self).generator_seq().last().generated(before, after) && all_assigned(
                    inputs@,
                    before,
                ) ==> sorted_values(expression_values(r@, after)) && expression_values(r@, after).to_multiset()
                    == expression_values(inputs@, before).to_multiset(),
    {
        let ghost start = *self;
        let ghost mb = field_bits::<F>();
        let n = inputs.len();

        let output_wires: Vec<Wire> = self.wires(n);
        let mut outputs: Vec<Expression<F>> = Vec::new();
        let mut i: usize = 0;
        while i < n
            invariant
                i <= n,
                output_wires@.len() == n,
                outputs@.len() == i,
                forall|k: int| 0 <= k < i ==> #[trigger] outputs@[k]@ == seq![(output_wires@[k].index, 1nat)],
            decreases n - i,
        {
            outputs.push(Expression::from_wire(output_wires[i]));
            i += 1;
        }
        let ghost s1 = *self;

        // First we assert that the input and output lists are permutations of one another, i.e.,
        // that they contain the same values.
        self.assert_permutation(inputs, outputs.as_slice());
        let ghost s2 = *self;
        proof {
            lemma_extends_trans(s2, s1, start);
            crate::field_arithmetic::lemma_extends_refl(s2);
        }

        // Then, we assert the order of each adjacent pair of output values. Note that assert_le
        // would internally split each input into its binary form. To avoid splitting intermediate
        // items twice, we will explicitly split here, and call assert_le_binary instead.
        let mut outputs_binary: Vec<BinaryExpression<F>> = Vec::new();
        let mut i: usize = 0;
        while i < n
            invariant
                i <= n,
                n == inputs@.len(),
                outputs@.len() == n,
                outputs_binary@.len() == i,
                comparable::<F>(),
                mb == field_bits::<F>(),
                forall|k: int| 0 <= k < i ==> #[trigger] outputs_binary@[k]@.len() == mb,
                self.extends(start),
                self.extends(s2),
                self.next_index() <= s2.next_index() + i * split_wires::<F>(),
                forall|vals: Map<u32, nat>|
                    #![trigger self.satisfied(vals)]
                    self.satisfied(vals) && valid_assignment(vals, F::modulus()) && is_prime(F::modulus())
                        ==> forall|k: int|
                        0 <= k < i ==> is_bit_seq(#[trigger] outputs_binary@[k].bit_values(vals))
                            && weighted_sum(outputs_binary@[k].bit_values(vals)) == outputs@[k].eval(vals),
                s2.next_index() + n * split_wires::<F>() + n * compare_binary_wires::<F>(mb) <= u32::MAX,
            decreases n - i,
        {
            let ghost before = *self;
            proof {
                assert((i + 1) * split_wires::<F>() == i * split_wires::<F>() + split_wires::<F>())
                    by (nonlinear_arith);
                assert((i + 1) * split_wires::<F>() <= n * split_wires::<F>()) by (nonlinear_arith)
                    requires
                        i + 1 <= n,
                ;
            }
            let bits = self.split(&outputs[i]);
            proof {
                lemma_extends_trans(*self, before, start);
                lemma_extends_trans(*self, before, s2);
            }
            let ghost prev = outputs_binary@;
            outputs_binary.push(bits);
            proof {
                assert forall|vals: Map<u32, nat>| #![trigger self.satisfied(vals)]
                    self.satisfied(vals) && valid_assignment(vals, F::modulus()) && is_prime(F::modulus())
                    implies forall|k: int|
                    0 <= k < i + 1 ==> is_bit_seq(#[trigger] outputs_binary@[k].bit_values(vals))
                        && weighted_sum(outputs_binary@[k].bit_values(vals)) == outputs@[k].eval(vals) by {
                    lemma_satisfied_prefix(*self, before, vals);
                    assert forall|k: int| 0 <= k < i implies outputs_binary@[k] == prev[k] by {}
                }
            }
            i += 1;
        }
        let ghost s3 = *self;
        let mut i: usize = 0;
        while i < n && i + 1 < n
            invariant
                i <= n,
                n == inputs@.len(),
                outputs_binary@.len() == n,
                comparable::<F>(),
                mb == field_bits::<F>(),
                forall|k: int| 0 <= k < n ==> #[trigger] outputs_binary@[k]@.len() == mb,
                self.extends(start),
                self.extends(s2),
                self.next_index() <= s3.next_index() + i * compare_binary_wires::<F>(mb),
                s3.next_index() + n * compare_binary_wires::<F>(mb) <= u32::MAX,
                self.extends(s3),
                outputs@.len() == n,
                forall|vals: Map<u32, nat>|
                    #![trigger s3.satisfied(vals)]
                    s3.satisfied(vals) && valid_assignment(vals, F::modulus()) && is_prime(F::modulus())
                        ==> forall|k: int|
                        0 <= k < n ==> is_bit_seq(#[trigger] outputs_binary@[k].bit_values(vals))
                            && weighted_sum(outputs_binary@[k].bit_values(vals)) == outputs@[k].eval(vals),
                forall|vals: Map<u32, nat>|
                    #![trigger self.satisfied(vals)]
                    self.satisfied(vals) && valid_assignment(vals, F::modulus()) && is_prime(F::modulus())
                        ==> forall|k: int|
                        0 <= k < i ==> #[trigger] outputs@[k].eval(vals) <= outputs@[k + 1].eval(vals),
            decreases n - i,
        {
            let ghost before = *self;
            proof {
                crate::comparisons::lemma_field_bits_positive::<F>();
                assert((i + 1) * compare_binary_wires::<F>(mb) == i * compare_binary_wires::<F>(mb)
                    + compare_binary_wires::<F>(mb)) by (nonlinear_arith);
                assert((i + 1) * compare_binary_wires::<F>(mb) <= n * compare_binary_wires::<F>(mb))
                    by (nonlinear_arith)
                    requires
                        i + 1 <= n,
                ;
            }
            let ghost s_loop = *self;
            self.assert_le_binary(&outputs_binary[i], &outputs_binary[i + 1]);
            proof {
                lemma_extends_trans(*self, before, start);
                lemma_extends_trans(*self, before, s2);
                lemma_extends_trans(*self, before, s3);
                crate::splitting::lemma_bit_length_le((F::modulus() - 1) as nat);
                assert forall|vals: Map<u32, nat>| #![trigger self.satisfied(vals)]
                    self.satisfied(vals) && valid_assignment(vals, F::modulus()) && is_prime(F::modulus())
                    implies forall|k: int|
                    0 <= k < i + 1 ==> #[trigger] outputs@[k].eval(vals) <= outputs@[k + 1].eval(vals) by {
                    lemma_satisfied_prefix(*self, before, vals);
                    lemma_satisfied_prefix(*self, s3, vals);
                    let xb = outputs_binary@[i as int];
                    let yb = outputs_binary@[i + 1];
                    assert(is_bit_seq(xb.bit_values(vals)) && weighted_sum(xb.bit_values(vals))
                        == outputs@[i as int].eval(vals));
                    assert(is_bit_seq(yb.bit_values(vals)) && weighted_sum(yb.bit_values(vals))
                        == outputs@[i + 1].eval(vals));
                    assert(crate::comparisons::binary_operands(&xb, &yb, vals));
                }
            }
            i += 1;
        }

        proof {
            let cbw = compare_binary_wires::<F>(mb);
            assert(self.next_index() <= s3.next_index() + n * cbw) by {
                assert((i as int) * cbw <= n * cbw) by (nonlinear_arith)
                    requires
                        i <= n,
                ;
            }
        }
        proof {
            assert forall|vals: Map<u32, nat>| #![trigger self.satisfied(vals)]
                self.satisfied(vals) && valid_assignment(vals, F::modulus()) && is_prime(F::modulus())
                implies sorted_values(expression_values(outputs@, vals)) by {
                let e = expression_values(outputs@, vals);
                assert forall|k: int| 0 <= k < e.len() - 1 implies #[trigger] e[k] <= e[k + 1] by {
                    assert(outputs@[k].eval(vals) <= outputs@[k + 1].eval(vals));
                }
                lemma_adjacent_sorted(e);
            }
        }
        let ghost after_compare = *self;
        let mut deps: Vec<Wire> = Vec::new();
        let mut copies: Vec<Expression<F>> = Vec::new();
        let mut i: usize = 0;
        while i < n
            invariant
                i <= n,
                n == inputs@.len(),
                *self == after_compare,
                copies@.len() == i,
                forall|k: int| 0 <= k < i ==> #[trigger] copies@[k]@ == inputs@[k]@,
            decreases n - i,
        {
            let mut d = inputs[i].dependencies();
            deps.append(&mut d);
            copies.push(inputs[i].copy());
            i += 1;
        }
        let ghost before_gen = *self;
        let ghost ows = output_wires@;
        let ghost copies_view = copies@;
        let gen = WitnessGenerator::new(deps, Generate::Sorted { inputs: copies, outputs: output_wires });
        let ghost g = gen;
        self.generator(gen);
        proof {
            assert(self.generator_seq().last() == g);
            assert forall|vals: Map<u32, nat>| #![trigger self.satisfied(vals)]
                self.satisfied(vals) && valid_assignment(vals, F::modulus()) && is_prime(F::modulus())
                implies sorted_values(expression_values(outputs@, vals)) by {
                assert(self.constraint_seq() == after_compare.constraint_seq());
                assert(after_compare.satisfied(vals));
            }
            assert(distinct_wires(ows)) by {
                assert forall|i: int, j: int| 0 <= i < j < ows.len() implies #[trigger] ows[i].index
                    != #[trigger] ows[j].index by {
                    assert(ows[i].index == start.next_index() + i);
                }
            }
            assert forall|before: Map<u32, nat>, after: Map<u32, nat>|
                #![trigger self.generator_seq().last().generated(before, after)]
                self.generator_seq().last().generated(before, after) && all_assigned(inputs@, before)
                implies sorted_values(expression_values(outputs@, after)) && expression_values(outputs@, after).to_multiset()
                == expression_values(inputs@, before).to_multiset() by {
                let gv = self.generator_seq().last();
                assert(gv.spec_generate() == Generate::Sorted { inputs: copies, outputs: output_wires });
                assert(all_assigned(copies_view, before));
                lemma_sorted_outputs::<F>(copies_view, inputs@, ows, outputs@, before, after);
            }
            crate::comparisons::lemma_generator_extends(*self, before_gen, g);
            lemma_extends_trans(*self, before_gen, start);
            lemma_extends_trans(*self, before_gen, s2);
            assert forall|vals: Map<u32, nat>| #![trigger self.satisfied(vals)]
                self.satisfied(vals) && valid_assignment(vals, F::modulus()) && is_prime(F::modulus())
                implies expression_values(outputs@, vals).to_multiset() == expression_values(
                inputs@,
                vals,
            ).to_multiset() by {
                lemma_satisfied_prefix(*self, s2, vals);
            }
        }
        outputs
    }

    /// Sorts field elements in descending order.
    pub fn sort_descending(&mut self, inputs: &[Expression<F>]) -> (r: Vec<Expression<F>>)
        requires
            comparable::<F>(),
            old(self).has_room(sort_wires::<F>(inputs@.len() as nat)),
        ensures
            r@.len() == inputs@.len(),
            final(self).extends(*old(self)),
            final(self).next_index() <= old(self).next_index() + sort_wires::<F>(
                inputs@.len() as nat,
            ),
            forall|vals: Map<u32, nat>|
                #![trigger final(self).satisfied(vals)]
                final(self).satisfied(vals) && valid_assignment(vals, F::modulus()) && is_prime(
                    F::modulus(),
                ) ==> expression_values(r@, vals).to_multiset() == expression_values(inputs@, vals).to_multiset(),
            forall|vals: Map<u32, nat>|
                #![trigger final(self).satisfied(vals)]
                final(self).satisfied(vals) && valid_assignment(vals, F::modulus()) && is_prime(
                    F::modulus(),
                ) ==> sorted_descending_values(expression_values(r@, vals)),
            forall|before: Map<u32, nat>, after: Map<u32, nat>|
                #![trigger final(self).generator_seq().last().generated(before, after)]
                final(self).generator_seq().last().generated(before, after) && all_assigned(
                    inputs@,
                    before,
                ) ==> sorted_descending_values(expression_values(r@, after))
                    && expression_values(r@, after).to_multiset() == expression_values(
                    inputs@,
                    before,
                ).to_multiset(),
    {
        let items = self.sort_ascending(inputs);
        let mut reversed: Vec<Expression<F>> = Vec::new();
        let mut i: usize = items.len();
        while i > 0
            invariant
                i <= items@.len(),
                reversed@.len() == items@.len() - i,
                forall|k: int| 0 <= k < reversed@.len() ==> #[trigger] reversed@[k]@ == items@[items@.len() - 1 - k]@,
            decreases i,
        {
            i -= 1;
            reversed.push(items[i].copy());
        }
        proof {
            assert forall|vals: Map<u32, nat>| #![trigger self.satisfied(vals)]
                self.satisfied(vals) && valid_assignment(vals, F::modulus()) && is_prime(F::modulus())
                implies expression_values(reversed@, vals).to_multiset() == expression_values(
                inputs@,
                vals,
            ).to_multiset() by {
                let v = expression_values(items@, vals);
                assert(expression_values(reversed@, vals) =~= v.reverse());
                v.lemma_reverse_to_multiset();
            }
            assert forall|vals: Map<u32, nat>| #![trigger self.satisfied(vals)]
                self.satisfied(vals) && valid_assignment(vals, F::modulus()) && is_prime(F::modulus())
                implies sorted_descending_values(expression_values(reversed@, vals)) by {
                let v = expression_values(items@, vals);
                assert(expression_values(reversed@, vals) =~= v.reverse());
            }
            assert forall|before: Map<u32, nat>, after: Map<u32, nat>|
                #![trigger self.generator_seq().last().generated(before, after)]
                self.generator_seq().last().generated(before, after) && all_assigned(inputs@, before)
                implies sorted_descending_values(expression_values(reversed@, after))
                && expression_values(reversed@, after).to_multiset() == expression_values(
                inputs@,
                before,
            ).to_multiset() by {
                let v = expression_values(items@, after);
                assert(expression_values(reversed@, after) =~= v.reverse());
                v.lemma_reverse_to_multiset();
            }
        }
        reversed
    }
}

} // verus!
