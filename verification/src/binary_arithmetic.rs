//! Gadgets for arithmetic on binary expressions.

use vstd::arithmetic::power2::*;
use vstd::prelude::*;

use crate::binary_expression::{evals, weighted_sum, BinaryExpression, BooleanExpression};
use crate::chunk_order::{is_bit_seq, lemma_bits_subrange, lemma_weighted_sum_bound, lemma_weighted_sum_split};
use crate::primes::is_prime;
use crate::expression::Expression;
use crate::field::{Element, Field};
use crate::field_arithmetic::{lemma_below_bit_length, lemma_extends_refl};
use crate::gadget_builder::{
    added_hold, lemma_extends_trans, lemma_satisfied_prefix, valid_assignment, wires_listed_below,
    GadgetBuilder,
};
use crate::natural::{bit_length, bit_of, Natural};
use crate::splitting::{bits_constrained, field_bits, lemma_constrained_bits, lemma_weights_fit, natural_bits};
use crate::witness_generator::{inputs_assigned, Generate, WitnessGenerator};

verus! {

/// The largest possible sum of binary numbers of the given lengths: `sum_i (2^len_i - 1)`.
pub open spec fn max_sum(lens: Seq<nat>) -> nat
    decreases lens.len(),
{
    if lens.len() == 0 {
        0
    } else {
        max_sum(lens.drop_last()) + (pow2(lens.last()) - 1) as nat
    }
}

/// The bits of several binary expressions.
pub open spec fn views_of<F: Field>(terms: Seq<BinaryExpression<F>>) -> Seq<Seq<Seq<(u32, nat)>>> {
    terms.map_values(|t: BinaryExpression<F>| t@)
}

/// The lengths of several bit sequences.
pub open spec fn lengths(terms: Seq<Seq<Seq<(u32, nat)>>>) -> Seq<nat> {
    terms.map_values(|t: Seq<Seq<(u32, nat)>>| t.len())
}

/// The number of bits of the largest possible sum of the given bit sequences.
pub open spec fn sum_bits(terms: Seq<Seq<Seq<(u32, nat)>>>) -> nat {
    bit_length(max_sum(lengths(terms)))
}

/// The sum, in `F_p`, of the numbers that several bit sequences encode.
pub open spec fn binary_total(terms: Seq<Seq<Seq<(u32, nat)>>>, vals: Map<u32, nat>, p: nat) -> nat
    decreases terms.len(),
{
    if terms.len() == 0 {
        0
    } else {
        (binary_total(terms.drop_last(), vals, p) + weighted_sum(evals(terms.last(), vals, p)) % p)
            % p
    }
}

/// The length of the longest of several bit sequences.
pub open spec fn max_len(terms: Seq<Seq<Seq<(u32, nat)>>>) -> nat
    decreases terms.len(),
{
    if terms.len() == 0 {
        0
    } else if max_len(terms.drop_last()) < terms.last().len() {
        terms.last().len()
    } else {
        max_len(terms.drop_last())
    }
}

/// The width of a sum: one bit longer than the longest term, or as many bits as the largest
/// possible sum where that is more (three or more terms).
pub open spec fn summation_bits(terms: Seq<Seq<Seq<(u32, nat)>>>) -> nat {
    if sum_bits(terms) > max_len(terms) + 1 {
        sum_bits(terms)
    } else {
        max_len(terms) + 1
    }
}

/// Once the last generator of `later` has run on an assignment where its inputs are assigned and
/// were created before `earlier`'s next wire, and the terms are binary, every constraint added
/// since `earlier` holds and the assignment stays valid.
pub open spec fn summation_completes<F: Field>(
    later: GadgetBuilder<F>,
    earlier: GadgetBuilder<F>,
    terms: Seq<Seq<Seq<(u32, nat)>>>,
) -> bool {
    forall|before: Map<u32, nat>, after: Map<u32, nat>|
        #![trigger later.generator_seq().last().generated(before, after)]
        later.generator_seq().last().generated(before, after) && inputs_assigned(
            later.generator_seq().last().spec_inputs(),
            before,
        ) && valid_assignment(before, F::modulus()) && terms_binary(terms, before, F::modulus()) && 0
            < earlier.next_index() && wires_listed_below(
            later.generator_seq().last().spec_inputs(),
            earlier.next_index(),
        ) ==> added_hold(later, earlier, after) && valid_assignment(after, F::modulus())
}

/// As `summation_completes`, for sums that do not overflow the longest term.
pub open spec fn summation_completes_without_overflow<F: Field>(
    later: GadgetBuilder<F>,
    earlier: GadgetBuilder<F>,
    terms: Seq<Seq<Seq<(u32, nat)>>>,
) -> bool {
    forall|before: Map<u32, nat>, after: Map<u32, nat>|
        #![trigger later.generator_seq().last().generated(before, after)]
        later.generator_seq().last().generated(before, after) && inputs_assigned(
            later.generator_seq().last().spec_inputs(),
            before,
        ) && valid_assignment(before, F::modulus()) && terms_binary(terms, before, F::modulus()) && 0
            < earlier.next_index() && wires_listed_below(
            later.generator_seq().last().spec_inputs(),
            earlier.next_index(),
        ) && integer_total(terms, before, F::modulus()) < pow2(max_len(terms)) ==> added_hold(
            later,
            earlier,
            after,
        ) && valid_assignment(after, F::modulus())
}

/// Bits that are all zero are worth zero.
proof fn lemma_zero_bits(s: Seq<nat>)
    requires
        forall|k: int| 0 <= k < s.len() ==> #[trigger] s[k] == 0,
    ensures
        weighted_sum(s) == 0,
    decreases s.len(),
{
    if s.len() > 0 {
        let d = s.drop_last();
        assert forall|k: int| 0 <= k < d.len() implies #[trigger] d[k] == 0 by {
            assert(d[k] == s[k]);
        }
        lemma_zero_bits(d);
        assert(s.last() == 0);
        assert(pow2((s.len() - 1) as nat) * 0 == 0);
    }
}

/// A number of at least `2^k - 1` has at least `k` bits.
pub proof fn lemma_bits_at_least(n: nat, k: nat)
    requires
        n + 1 >= pow2(k),
    ensures
        bit_length(n) >= k,
{
    if bit_length(n) < k {
        lemma_below_bit_length(n);
        if bit_length(n) < k - 1 {
            lemma_pow2_strictly_increases(bit_length(n), (k - 1) as nat);
        }
        lemma_pow2_unfold(k);
        lemma_pow2_pos((k - 1) as nat);
    }
}

/// Every term's length, and the longest, is at most the number of bits of the maximal sum.
pub proof fn lemma_term_lengths(terms: Seq<Seq<Seq<(u32, nat)>>>)
    ensures
        forall|i: int| 0 <= i < terms.len() ==> #[trigger] terms[i].len() <= sum_bits(terms),
        max_len(terms) <= sum_bits(terms),
    decreases terms.len(),
{
    if terms.len() > 0 {
        let init = terms.drop_last();
        lemma_term_lengths(init);
        assert(lengths(terms).drop_last() =~= lengths(init));
        assert(lengths(terms).last() == terms.last().len());
        lemma_pow2_pos(terms.last().len());
        lemma_bits_at_least(max_sum(lengths(terms)), terms.last().len());
        crate::field::lemma_bit_length_monotonic(
            max_sum(lengths(init)),
            max_sum(lengths(terms)),
        );
        assert forall|i: int| 0 <= i < terms.len() implies #[trigger] terms[i].len() <= sum_bits(
            terms,
        ) by {
            if i < terms.len() - 1 {
                assert(terms[i] == init[i]);
            }
        }
    }
}

/// The integer sum of the numbers that several bit sequences encode.
pub open spec fn integer_total(terms: Seq<Seq<Seq<(u32, nat)>>>, vals: Map<u32, nat>, p: nat) -> nat
    decreases terms.len(),
{
    if terms.len() == 0 {
        0
    } else {
        integer_total(terms.drop_last(), vals, p) + weighted_sum(evals(terms.last(), vals, p))
    }
}

/// Every bit of every term evaluates to 0 or 1.
pub open spec fn terms_binary(terms: Seq<Seq<Seq<(u32, nat)>>>, vals: Map<u32, nat>, p: nat) -> bool {
    forall|i: int| 0 <= i < terms.len() ==> is_bit_seq(#[trigger] evals(terms[i], vals, p))
}

/// Binary terms add up to at most the largest sum their lengths allow, and their field total is
/// their integer total reduced.
pub proof fn lemma_total_bounds(terms: Seq<Seq<Seq<(u32, nat)>>>, vals: Map<u32, nat>, p: nat)
    requires
        p > 0,
        terms_binary(terms, vals, p),
    ensures
        integer_total(terms, vals, p) <= max_sum(lengths(terms)),
        binary_total(terms, vals, p) == integer_total(terms, vals, p) % p,
    decreases terms.len(),
{
    if terms.len() == 0 {
        vstd::arithmetic::div_mod::lemma_small_mod(0, p);
    } else {
        let init = terms.drop_last();
        assert forall|i: int| 0 <= i < init.len() implies is_bit_seq(#[trigger] evals(init[i], vals, p)) by {
            assert(init[i] == terms[i]);
        }
        lemma_total_bounds(init, vals, p);
        assert(lengths(terms).drop_last() =~= lengths(init));
        assert(lengths(terms).last() == terms.last().len());
        let last = evals(terms.last(), vals, p);
        assert(terms.last() == terms[terms.len() - 1]);
        assert(is_bit_seq(last));
        lemma_weighted_sum_bound(last);
        vstd::arithmetic::div_mod::lemma_add_mod_noop(
            integer_total(init, vals, p) as int,
            weighted_sum(last) as int,
            p as int,
        );
        vstd::arithmetic::div_mod::lemma_mod_twice(integer_total(init, vals, p) as int, p as int);
    }
}

/// The low `k` bits of a bit sequence encode its value modulo `2^k`.
pub proof fn lemma_low_bits(s: Seq<nat>, k: int)
    requires
        is_bit_seq(s),
        0 <= k <= s.len(),
    ensures
        is_bit_seq(s.take(k)),
        is_bit_seq(s.skip(k)),
        weighted_sum(s.take(k)) == weighted_sum(s) % pow2(k as nat),
        weighted_sum(s) == weighted_sum(s.take(k)) + pow2(k as nat) * weighted_sum(s.skip(k)),
{
    assert(s.take(k) =~= s.subrange(0, k));
    assert(s.skip(k) =~= s.subrange(k, s.len() as int));
    lemma_bits_subrange(s, 0, k);
    lemma_bits_subrange(s, k, s.len() as int);
    lemma_weighted_sum_split(s, k);
    lemma_weighted_sum_bound(s.take(k));
    lemma_pow2_pos(k as nat);
    let m = pow2(k as nat) as int;
    let lo = weighted_sum(s.take(k)) as int;
    let hi = weighted_sum(s.skip(k)) as int;
    vstd::arithmetic::div_mod::lemma_mod_multiples_vanish(hi, lo, m);
    assert(m * hi + lo == lo + m * hi);
    vstd::arithmetic::div_mod::lemma_small_mod(lo as nat, m as nat);
}

impl<F: Field> GadgetBuilder<F> {
    /// Add two binary expressions in a widening manner. The result will be one bit longer than the
    /// longer of the two inputs.
    pub fn binary_sum(&mut self, x: &BinaryExpression<F>, y: &BinaryExpression<F>) -> (r:
        BinaryExpression<F>)
        requires
            summation_bits(seq![x@, y@]) < field_bits::<F>(),
            old(self).has_room(field_bits::<F>()),
        ensures
            r@.len() == summation_bits(seq![x@, y@]),
            final(self).extends(*old(self)),
            final(self).next_index() <= old(self).next_index() + field_bits::<F>(),
            forall|vals: Map<u32, nat>|
                #![trigger final(self).satisfied(vals)]
                final(self).satisfied(vals) && valid_assignment(vals, F::modulus()) ==> weighted_sum(
                    r.bit_values(vals),
                ) % F::modulus() == binary_total(seq![x@, y@], vals, F::modulus()) && bits_constrained(&r, vals),
            forall|vals: Map<u32, nat>|
                #![trigger final(self).satisfied(vals)]
                final(self).satisfied(vals) && valid_assignment(vals, F::modulus()) && is_prime(
                    F::modulus(),
                ) && terms_binary(seq![x@, y@], vals, F::modulus()) ==> is_bit_seq(
                    r.bit_values(vals),
                ) && weighted_sum(r.bit_values(vals)) == integer_total(seq![x@, y@], vals, F::modulus()),
            summation_completes(*final(self), *old(self), seq![x@, y@]),
    {
        let terms = vec![x.copy(), y.copy()];
        proof {
            assert(views_of(terms@) =~= seq![x@, y@]);
        }
        self.binary_summation(terms.as_slice())
    }

    /// Add two binary expressions, ignoring any overflow.
    pub fn binary_sum_ignoring_overflow(
        &mut self,
        x: &BinaryExpression<F>,
        y: &BinaryExpression<F>,
    ) -> (r: BinaryExpression<F>)
        requires
            summation_bits(seq![x@, y@]) < field_bits::<F>(),
            old(self).has_room(field_bits::<F>()),
        ensures
            r@.len() == max_len(seq![x@, y@]),
            final(self).extends(*old(self)),
            final(self).next_index() <= old(self).next_index() + field_bits::<F>(),
            forall|vals: Map<u32, nat>|
                #![trigger final(self).satisfied(vals)]
                final(self).satisfied(vals) && valid_assignment(vals, F::modulus()) && is_prime(
                    F::modulus(),
                ) && terms_binary(seq![x@, y@], vals, F::modulus()) ==> is_bit_seq(
                    r.bit_values(vals),
                ) && weighted_sum(r.bit_values(vals)) == integer_total(seq![x@, y@], vals, F::modulus()) % pow2(max_len(seq![x@, y@])),
            summation_completes(*final(self), *old(self), seq![x@, y@]),
    {
        let terms = vec![x.copy(), y.copy()];
        proof {
            assert(views_of(terms@) =~= seq![x@, y@]);
        }
        self.binary_summation_ignoring_overflow(terms.as_slice())
    }

    /// Add two binary expressions while asserting that overflow does not occur.
    pub fn binary_sum_asserting_no_overflow(
        &mut self,
        x: &BinaryExpression<F>,
        y: &BinaryExpression<F>,
    ) -> (r: BinaryExpression<F>)
        requires
            summation_bits(seq![x@, y@]) < field_bits::<F>(),
            old(self).has_room(field_bits::<F>()),
        ensures
            r@.len() == max_len(seq![x@, y@]),
            final(self).extends(*old(self)),
            final(self).next_index() <= old(self).next_index() + field_bits::<F>(),
            forall|vals: Map<u32, nat>|
                #![trigger final(self).satisfied(vals)]
                final(self).satisfied(vals) && valid_assignment(vals, F::modulus()) && is_prime(
                    F::modulus(),
                ) && terms_binary(seq![x@, y@], vals, F::modulus()) ==> is_bit_seq(
                    r.bit_values(vals),
                ) && weighted_sum(r.bit_values(vals)) == integer_total(seq![x@, y@], vals, F::modulus()),
            summation_completes_without_overflow(*final(self), *old(self), seq![x@, y@]),
    {
        let terms = vec![x.copy(), y.copy()];
        proof {
            assert(views_of(terms@) =~= seq![x@, y@]);
        }
        self.binary_summation_asserting_no_overflow(terms.as_slice())
    }

    /// Add an arbitrary number of binary expressions. The result will be one bit longer than the
    /// longest input, or as long as the largest possible sum where that needs more bits (three or
    /// more terms). The result must have fewer bits than the field's elements.
    pub fn binary_summation(&mut self, terms: &[BinaryExpression<F>]) -> (r: BinaryExpression<F>)
        requires
            summation_bits(views_of(terms@)) < field_bits::<F>(),
            old(self).has_room(field_bits::<F>()),
        ensures
            r@.len() == summation_bits(views_of(terms@)),
            1 < F::modulus(),
            final(self).extends(*old(self)),
            final(self).next_index() <= old(self).next_index() + field_bits::<F>(),
            forall|vals: Map<u32, nat>|
                #![trigger final(self).satisfied(vals)]
                final(self).satisfied(vals) && valid_assignment(vals, F::modulus()) ==> weighted_sum(
                    r.bit_values(vals),
                ) % F::modulus() == binary_total(views_of(terms@), vals, F::modulus()) && bits_constrained(&r, vals),
            forall|vals: Map<u32, nat>|
                #![trigger final(self).satisfied(vals)]
                final(self).satisfied(vals) && valid_assignment(vals, F::modulus()) && is_prime(
                    F::modulus(),
                ) && terms_binary(views_of(terms@), vals, F::modulus()) ==> is_bit_seq(
                    r.bit_values(vals),
                ) && weighted_sum(r.bit_values(vals)) == integer_total(
                    views_of(terms@),
                    vals,
                    F::modulus(),
                ),
            final(self).generator_seq().len() == old(self).generator_seq().len() + 1,
            forall|before: Map<u32, nat>, after: Map<u32, nat>|
                #![trigger final(self).generator_seq().last().generated(before, after)]
                final(self).generator_seq().last().generated(before, after) && inputs_assigned(
                    final(self).generator_seq().last().spec_inputs(),
                    before,
                ) ==> r.bit_values(after) == natural_bits(
                    binary_total(views_of(terms@), before, F::modulus()),
                    r@.len(),
                ) && forall|k: int|
                    0 <= k < r@.len() ==> crate::expression::assigns_all(#[trigger] r@[k], after),
            summation_completes(*final(self), *old(self), views_of(terms@)),
    {
        // We will non-deterministically generate the sum bits, join the binary expressions, and
        // verify the summation on those field elements.
        let max_bits = Element::<F>::max_bits();
        let one = Natural::from_u128(1);
        let mut max_sum_value = Natural::zero();
        let mut i: usize = 0;
        proof {
            assert(lengths(views_of(terms@)).take(0) =~= Seq::<nat>::empty());
        }
        while i < terms.len()
            invariant
                i <= terms@.len(),
                one@ == 1,
                max_sum_value@ == max_sum(lengths(views_of(terms@)).take(i as int)),
            decreases terms@.len() - i,
        {
            proof {
                vstd::arithmetic::power2::lemma_pow2_pos(terms@[i as int]@.len());
            }
            let max_term = one.shl(terms[i].len()).sub(&one);
            proof {
                assert(lengths(views_of(terms@)).take(i + 1).drop_last() =~= lengths(views_of(terms@)).take(i as int));
                assert(lengths(views_of(terms@)).take(i + 1).last() == terms@[i as int]@.len());
            }
            max_sum_value = max_sum_value.add(&max_term);
            i += 1;
        }
        proof {
            assert(lengths(views_of(terms@)).take(terms@.len() as int) =~= lengths(views_of(terms@)));
        }
        let largest_sum_bits = max_sum_value.bits() as usize;
        proof {
            lemma_term_lengths(views_of(terms@));
        }
        let longest = max_length(terms);
        let sum_bits_count = if largest_sum_bits > longest + 1 {
            largest_sum_bits
        } else {
            longest + 1
        };
        proof {
            assert forall|j: int| 0 <= j < terms@.len() implies #[trigger] terms@[j]@.len() <= sum_bits(
                views_of(terms@),
            ) by {
                assert(views_of(terms@)[j] == terms@[j]@);
            }
            lemma_weights_fit::<F>(sum_bits_count as nat);
            crate::comparisons::lemma_field_bits_positive::<F>();
            if sum_bits_count < field_bits::<F>() - 1 {
                lemma_pow2_strictly_increases(sum_bits_count as nat, (field_bits::<F>() - 1) as nat);
            }
        }
        let ghost start = *self;
        let sum_wire = self.binary_wire(sum_bits_count);
        let sum = BinaryExpression::from_binary_wire(&sum_wire);
        let ghost after_wires = *self;

        let mut sum_of_terms = Expression::<F>::zero();
        let mut k: usize = 0;
        proof {
            use_type_invariant(&sum_of_terms);
            assert(terms@.take(0) =~= Seq::<BinaryExpression<F>>::empty());
            assert forall|vals: Map<u32, nat>| #![trigger sum_of_terms.eval(vals)] sum_of_terms.eval(vals)
                == binary_total(views_of(terms@).take(0), vals, F::modulus()) by {
                assert(views_of(terms@).take(0) =~= Seq::<Seq<Seq<(u32, nat)>>>::empty());
                vstd::arithmetic::div_mod::lemma_small_mod(0, F::modulus());
            }
        }
        while k < terms.len()
            invariant
                k <= terms@.len(),
                1 < F::modulus(),
                forall|j: int| 0 <= j < terms@.len() ==> #[trigger] terms@[j]@.len() <= sum_bits(views_of(terms@)),
                views_of(terms@).len() == terms@.len(),
                sum_bits(views_of(terms@)) < field_bits::<F>(),
                pow2(sum_bits(views_of(terms@))) < F::modulus(),
                forall|vals: Map<u32, nat>|
                    #![trigger sum_of_terms.eval(vals)]
                    sum_of_terms.eval(vals) == binary_total(views_of(terms@).take(k as int), vals, F::modulus()),
            decreases terms@.len() - k,
        {
            proof {
                if terms@[k as int]@.len() < sum_bits(views_of(terms@)) {
                    lemma_pow2_strictly_increases(terms@[k as int]@.len(), sum_bits(views_of(terms@)));
                }
            }
            let joined = terms[k].join();
            let ghost before = sum_of_terms;
            sum_of_terms = sum_of_terms.add(&joined);
            proof {
                assert forall|vals: Map<u32, nat>| #![trigger sum_of_terms.eval(vals)]
                    sum_of_terms.eval(vals) == binary_total(views_of(terms@).take(k + 1), vals, F::modulus()) by {
                    assert(views_of(terms@).take(k + 1).drop_last() =~= views_of(terms@).take(k as int));
                    assert(views_of(terms@).take(k + 1).last() == terms@[k as int]@);
                    assert(before.eval(vals) == binary_total(views_of(terms@).take(k as int), vals, F::modulus()));
                }
            }
            k += 1;
        }
        proof {
            assert(views_of(terms@).take(terms@.len() as int) =~= views_of(terms@));
        }
        let sum_joined = sum.join();
        self.assert_equal(&sum_of_terms, &sum_joined);
        let ghost after_eq = *self;
        let gen = WitnessGenerator::new(
            sum_of_terms.dependencies(),
            Generate::Bits { x: sum_of_terms.copy(), bits: sum_wire.bits.clone(), exact: false },
        );
        let ghost g = gen;
        let ghost bws = sum_wire.bits@;
        self.generator(gen);
        proof {
            let p = F::modulus();
            assert(self.generator_seq().last() == g);
            assert(crate::witness_generator::distinct_boolean_wires(bws)) by {
                assert forall|i: int, j: int| 0 <= i < j < bws.len() implies #[trigger] bws[i].spec_wire().index
                    != #[trigger] bws[j].spec_wire().index by {
                    assert(bws[i].spec_wire().index == start.next_index() + i);
                }
            }
            assert forall|before: Map<u32, nat>, after: Map<u32, nat>|
                #![trigger self.generator_seq().last().generated(before, after)]
                self.generator_seq().last().generated(before, after) && inputs_assigned(
                    self.generator_seq().last().spec_inputs(),
                    before,
                ) implies sum.bit_values(after) == natural_bits(
                binary_total(views_of(terms@), before, p),
                sum@.len(),
            ) && forall|k: int|
                0 <= k < sum@.len() ==> crate::expression::assigns_all(#[trigger] sum@[k], after) by {
                let xv = sum_of_terms.eval(before);
                assert(crate::expression::assigns_all(sum_of_terms@, before)) by {
                    assert forall|i: int| 0 <= i < sum_of_terms@.len() implies before.contains_key(
                        #[trigger] sum_of_terms@[i].0,
                    ) by {
                        assert(g.spec_inputs()[i].index == sum_of_terms@[i].0);
                    }
                }
                assert forall|k: int| 0 <= k < sum@.len() implies #[trigger] sum.bit_values(after)[k]
                    == natural_bits(xv, sum@.len())[k] by {
                    let w = bws[k].spec_wire().index;
                    assert(after.contains_key(w));
                    assert(after[w] == if bit_of(xv, k as nat) { 1nat } else { 0nat });
                    assert(sum@[k] == seq![(w, 1nat)]);
                    crate::gadget_builder::lemma_single_wire_eval(sum@[k], w, after, p);
                }
                assert(sum.bit_values(after) =~= natural_bits(xv, sum@.len()));
                assert forall|k: int| 0 <= k < sum@.len() implies crate::expression::assigns_all(
                    #[trigger] sum@[k],
                    after,
                ) by {
                    let w = bws[k].spec_wire().index;
                    assert(after.contains_key(w));
                    assert(sum@[k] == seq![(w, 1nat)]);
                }
            }
            use_type_invariant(&sum_joined);
            assert forall|before: Map<u32, nat>, after: Map<u32, nat>|
                #![trigger self.generator_seq().last().generated(before, after)]
                self.generator_seq().last().generated(before, after) && inputs_assigned(
                    self.generator_seq().last().spec_inputs(),
                    before,
                ) && valid_assignment(before, p) && terms_binary(views_of(terms@), before, p) && 0
                    < start.next_index() && wires_listed_below(
                    self.generator_seq().last().spec_inputs(),
                    start.next_index(),
                ) implies added_hold(*self, start, after) && valid_assignment(after, p) by {
                let xv = sum_of_terms.eval(before);
                let width = sum@.len();
                let set = crate::witness_generator::boolean_wire_set(bws);
                assert(crate::expression::assigns_all(sum_of_terms@, before)) by {
                    assert forall|i: int| 0 <= i < sum_of_terms@.len() implies before.contains_key(
                        #[trigger] sum_of_terms@[i].0,
                    ) by {
                        assert(g.spec_inputs()[i].index == sum_of_terms@[i].0);
                    }
                }
                // The sum fits in the new bits.
                lemma_total_bounds(views_of(terms@), before, p);
                lemma_below_bit_length(max_sum(lengths(views_of(terms@))));
                let it = integer_total(views_of(terms@), before, p);
                let sb = sum_bits(views_of(terms@));
                if sb < width {
                    lemma_pow2_strictly_increases(sb, width);
                }
                lemma_weights_fit::<F>(field_bits::<F>());
                lemma_pow2_pos(width);
                if width < (field_bits::<F>() - 1) as nat {
                    lemma_pow2_strictly_increases(width, (field_bits::<F>() - 1) as nat);
                }
                vstd::arithmetic::div_mod::lemma_small_mod(it, p);
                assert(xv == it);
                crate::field::lemma_bit_length_bound(xv, width);
                // The generator sets the bits of the sum.
                assert forall|k: int| 0 <= k < bws.len() implies after.contains_key(
                    #[trigger] bws[k].spec_wire().index,
                ) && after[bws[k].spec_wire().index] == if bit_of(xv, k as nat) { 1nat } else { 0nat } by {}
                assert forall|w: u32| w < start.next_index() implies !set.contains(w) by {
                    if set.contains(w) {
                        let k = choose|k: int| 0 <= k < bws.len() && #[trigger] bws[k].spec_wire().index == w;
                        assert(bws[k].spec_wire().index == start.next_index() + k);
                    }
                }
                assert(valid_assignment(after, p)) by {
                    assert(!set.contains(crate::wire::ONE_WIRE_INDEX));
                    assert forall|w: u32| after.contains_key(w) implies #[trigger] after[w] < p by {
                        if set.contains(w) {
                            let k = choose|k: int| 0 <= k < bws.len() && #[trigger] bws[k].spec_wire().index == w;
                            assert(after[bws[k].spec_wire().index] == 0 || after[bws[k].spec_wire().index] == 1);
                        } else {
                            assert(before.contains_key(w));
                        }
                    }
                }
                assert forall|i: int| #![trigger sum_of_terms@[i]] 0 <= i < sum_of_terms@.len() implies after.contains_key(
                    sum_of_terms@[i].0,
                ) && after[sum_of_terms@[i].0] == before[sum_of_terms@[i].0] by {
                    assert(g.spec_inputs()[i].index == sum_of_terms@[i].0);
                    assert(g.spec_inputs()[i].index < start.next_index());
                    assert(!set.contains(sum_of_terms@[i].0));
                }
                crate::gadget_builder::lemma_terms_unchanged(sum_of_terms@, before, after);
                assert(sum_of_terms.eval(after) == xv);
                assert(added_hold(after_wires, start, after)) by {
                    assert forall|k: int| 0 <= k < bws.len() implies after.contains_key(
                        #[trigger] bws[k].spec_wire().index,
                    ) && (after[bws[k].spec_wire().index] == 0 || after[bws[k].spec_wire().index] == 1) by {}
                }
                assert forall|k: int| 0 <= k < width implies #[trigger] sum.bit_values(after)[k]
                    == natural_bits(xv, width)[k] by {
                    let w = bws[k].spec_wire().index;
                    assert(sum@[k] == seq![(w, 1nat)]);
                    crate::gadget_builder::lemma_single_wire_eval(sum@[k], w, after, p);
                }
                assert(sum.bit_values(after) =~= natural_bits(xv, width));
                crate::splitting::lemma_natural_bits_padded(xv, width);
                assert(sum_joined.eval(after) == xv);
                assert(crate::expression::assigns_all(sum_joined@, after)) by {
                    assert forall|i: int| 0 <= i < sum_joined@.len() implies after.contains_key(
                        #[trigger] sum_joined@[i].0,
                    ) by {
                        let w = sum_joined@[i].0;
                        crate::expression::lemma_coefficient_wf(sum_joined@, p, w);
                        if forall|k: int| 0 <= k < sum@.len() ==> crate::expression::coefficient(#[trigger] sum@[k], w) == 0 {
                            assert(false);
                        } else {
                            let k = choose|k: int| 0 <= k < sum@.len() && crate::expression::coefficient(#[trigger] sum@[k], w) != 0;
                            let bw = bws[k].spec_wire().index;
                            assert(sum@[k] == seq![(bw, 1nat)]);
                            if w != bw {
                                crate::expression::lemma_coefficient_absent(sum@[k], w);
                            }
                        }
                    }
                }
                assert(added_hold(after_eq, after_wires, after));
                crate::gadget_builder::lemma_added_hold_trans(after_eq, after_wires, start, after);
                crate::gadget_builder::lemma_added_hold_same(*self, after_eq, after);
                crate::gadget_builder::lemma_added_hold_trans(*self, after_eq, start, after);
            }
            crate::comparisons::lemma_generator_extends(*self, after_eq, g);
            lemma_extends_trans(*self, after_eq, after_wires);
            lemma_extends_trans(*self, after_wires, start);
            assert forall|vals: Map<u32, nat>| #![trigger self.satisfied(vals)]
                self.satisfied(vals) && valid_assignment(vals, F::modulus()) implies weighted_sum(
                sum.bit_values(vals),
            ) % F::modulus() == binary_total(views_of(terms@), vals, F::modulus()) && bits_constrained(&sum, vals) by {
                lemma_satisfied_prefix(*self, after_eq, vals);
                lemma_satisfied_prefix(after_eq, after_wires, vals);
                assert(after_eq.satisfied(vals));
                assert(sum_of_terms.eval(vals) == sum_joined.eval(vals));
                assert forall|i: int| 0 <= i < sum@.len() implies crate::expression::assigns_all(
                    #[trigger] sum@[i],
                    vals,
                ) && crate::field::field_mul(
                    crate::expression::eval_terms(sum@[i], vals, F::modulus()),
                    crate::field::field_sub(
                        crate::expression::eval_terms(sum@[i], vals, F::modulus()),
                        1,
                        F::modulus(),
                    ),
                    F::modulus(),
                ) == 0 by {
                    let w = sum_wire.bits@[i].spec_wire().index;
                    assert(vals.contains_key(w));
                    assert(sum@[i] == seq![(w, 1nat)]);
                    crate::gadget_builder::lemma_single_wire_eval(sum@[i], w, vals, F::modulus());
                }
            }
            let p = F::modulus();
            assert forall|vals: Map<u32, nat>| #![trigger self.satisfied(vals)]
                self.satisfied(vals) && valid_assignment(vals, p) && is_prime(p) && terms_binary(
                    views_of(terms@),
                    vals,
                    p,
                ) implies is_bit_seq(sum.bit_values(vals)) && weighted_sum(sum.bit_values(vals))
                == integer_total(views_of(terms@), vals, p) by {
                lemma_constrained_bits(&sum, vals);
                lemma_weighted_sum_bound(sum.bit_values(vals));
                lemma_total_bounds(views_of(terms@), vals, p);
                lemma_below_bit_length(max_sum(lengths(views_of(terms@))));
                vstd::arithmetic::div_mod::lemma_small_mod(weighted_sum(sum.bit_values(vals)), p);
                vstd::arithmetic::div_mod::lemma_small_mod(integer_total(views_of(terms@), vals, p), p);
            }
        }
        sum
    }

    /// Add an arbitrary number of binary expressions, ignoring any overflow.
    pub fn binary_summation_ignoring_overflow(&mut self, terms: &[BinaryExpression<F>]) -> (r:
        BinaryExpression<F>)
        requires
            summation_bits(views_of(terms@)) < field_bits::<F>(),
            old(self).has_room(field_bits::<F>()),
        ensures
            r@.len() == max_len(views_of(terms@)),
            final(self).extends(*old(self)),
            final(self).next_index() <= old(self).next_index() + field_bits::<F>(),
            forall|vals: Map<u32, nat>|
                #![trigger final(self).satisfied(vals)]
                final(self).satisfied(vals) && valid_assignment(vals, F::modulus()) && is_prime(
                    F::modulus(),
                ) && terms_binary(views_of(terms@), vals, F::modulus()) ==> is_bit_seq(
                    r.bit_values(vals),
                ) && weighted_sum(r.bit_values(vals)) == integer_total(
                    views_of(terms@),
                    vals,
                    F::modulus(),
                ) % pow2(max_len(views_of(terms@))),
            summation_completes(*final(self), *old(self), views_of(terms@)),
    {
        let input_bits = max_length(terms);
        let mut sum = self.binary_summation(terms);
        proof {
            lemma_term_lengths(views_of(terms@));
        }
        let ghost full = sum;
        sum.truncate(input_bits);
        proof {
            let p = F::modulus();
            assert forall|vals: Map<u32, nat>| #![trigger self.satisfied(vals)]
                self.satisfied(vals) && valid_assignment(vals, p) && is_prime(p) && terms_binary(
                    views_of(terms@),
                    vals,
                    p,
                ) implies is_bit_seq(sum.bit_values(vals)) && weighted_sum(sum.bit_values(vals))
                == integer_total(views_of(terms@), vals, p) % pow2(max_len(views_of(terms@))) by {
                let fb = full.bit_values(vals);
                assert(sum.bit_values(vals) =~= fb.take(input_bits as int));
                lemma_low_bits(fb, input_bits as int);
            }
        }
        sum
    }

    /// Add an arbitrary number of binary expressions, asserting that overflow does not occur.
    pub fn binary_summation_asserting_no_overflow(&mut self, terms: &[BinaryExpression<F>]) -> (r:
        BinaryExpression<F>)
        requires
            summation_bits(views_of(terms@)) < field_bits::<F>(),
            old(self).has_room(field_bits::<F>()),
        ensures
            r@.len() == max_len(views_of(terms@)),
            final(self).extends(*old(self)),
            final(self).next_index() <= old(self).next_index() + field_bits::<F>(),
            forall|vals: Map<u32, nat>|
                #![trigger final(self).satisfied(vals)]
                final(self).satisfied(vals) && valid_assignment(vals, F::modulus()) && is_prime(
                    F::modulus(),
                ) && terms_binary(views_of(terms@), vals, F::modulus()) ==> is_bit_seq(
                    r.bit_values(vals),
                ) && weighted_sum(r.bit_values(vals)) == integer_total(
                    views_of(terms@),
                    vals,
                    F::modulus(),
                ),
            summation_completes_without_overflow(*final(self), *old(self), views_of(terms@)),
    {
        let ghost start = *self;
        let input_bits = max_length(terms);
        let mut sum = self.binary_summation(terms);
        proof {
            lemma_term_lengths(views_of(terms@));
            lemma_weights_fit::<F>(summation_bits(views_of(terms@)));
            crate::comparisons::lemma_field_bits_positive::<F>();
        }
        let ghost after_sum = *self;
        let mut carry_bits: Vec<BooleanExpression<F>> = Vec::new();
        let mut i: usize = input_bits;
        while i < sum.bits.len()
            invariant
                input_bits <= i <= sum@.len(),
                carry_bits@.len() == i - input_bits,
                forall|k: int| 0 <= k < carry_bits@.len() ==> #[trigger] carry_bits@[k]@ == sum@[input_bits + k],
            decreases sum@.len() - i,
        {
            carry_bits.push(sum.bits[i].copy());
            i += 1;
        }
        let carry = BinaryExpression { bits: carry_bits };
        proof {
            assert(carry@ =~= sum@.skip(input_bits as int));
        }
        proof {
            let cl = carry@.len();
            let sb = summation_bits(views_of(terms@));
            if cl < sb {
                lemma_pow2_strictly_increases(cl, sb);
            }
            if sb < field_bits::<F>() - 1 {
                lemma_pow2_strictly_increases(sb, (field_bits::<F>() - 1) as nat);
            }
        }
        let ghost mid = *self;
        self.binary_assert_zero(&carry);
        proof {
            lemma_extends_trans(*self, mid, start);
        }
        let ghost full = sum;
        sum.truncate(input_bits);
        proof {
            let p = F::modulus();
            let tv = views_of(terms@);
            assert(self.generator_seq() == after_sum.generator_seq());
            assert forall|before: Map<u32, nat>, after: Map<u32, nat>|
                #![trigger self.generator_seq().last().generated(before, after)]
                self.generator_seq().last().generated(before, after) && inputs_assigned(
                    self.generator_seq().last().spec_inputs(),
                    before,
                ) && valid_assignment(before, p) && terms_binary(tv, before, p) && 0
                    < start.next_index() && wires_listed_below(
                    self.generator_seq().last().spec_inputs(),
                    start.next_index(),
                ) && integer_total(tv, before, p) < pow2(max_len(tv)) implies added_hold(
                *self,
                start,
                after,
            ) && valid_assignment(after, p) by {
                let ml = input_bits as int;
                let fb = full.bit_values(after);
                assert(added_hold(after_sum, start, after) && valid_assignment(after, p));
                let it = integer_total(tv, before, p);
                lemma_total_bounds(tv, before, p);
                lemma_pow2_strictly_increases(max_len(tv), summation_bits(tv));
                lemma_weights_fit::<F>(field_bits::<F>());
                if summation_bits(tv) < (field_bits::<F>() - 1) as nat {
                    lemma_pow2_strictly_increases(summation_bits(tv), (field_bits::<F>() - 1) as nat);
                }
                vstd::arithmetic::div_mod::lemma_small_mod(it, p);
                assert(fb == natural_bits(it, full@.len()));
                assert forall|k: int| 0 <= k < carry@.len() implies #[trigger] carry.bit_values(after)[k] == 0 by {
                    assert(carry@[k] == full@[ml + k]);
                    assert(carry.bit_values(after)[k] == fb[ml + k]);
                    if ml < ml + k {
                        lemma_pow2_strictly_increases(ml as nat, (ml + k) as nat);
                    }
                    lemma_pow2_pos((ml + k) as nat);
                    vstd::arithmetic::div_mod::lemma_basic_div(it as int, pow2((ml + k) as nat) as int);
                }
                lemma_zero_bits(carry.bit_values(after));
                vstd::arithmetic::div_mod::lemma_small_mod(0, p);
                assert forall|k: int| 0 <= k < carry@.len() implies crate::expression::assigns_all(
                    #[trigger] carry@[k],
                    after,
                ) by {
                    assert(carry@[k] == full@[ml + k]);
                }
                assert(added_hold(mid, after_sum, after)) by {
                    crate::gadget_builder::lemma_added_hold_same(mid, after_sum, after);
                }
                assert(added_hold(*self, mid, after));
                crate::gadget_builder::lemma_added_hold_trans(mid, after_sum, start, after);
                crate::gadget_builder::lemma_added_hold_trans(*self, mid, start, after);
            }
            assert forall|vals: Map<u32, nat>| #![trigger self.satisfied(vals)]
                self.satisfied(vals) && valid_assignment(vals, p) && is_prime(p) && terms_binary(
                    views_of(terms@),
                    vals,
                    p,
                ) implies is_bit_seq(sum.bit_values(vals)) && weighted_sum(sum.bit_values(vals))
                == integer_total(views_of(terms@), vals, p) by {
                lemma_satisfied_prefix(*self, mid, vals);
                let fb = full.bit_values(vals);
                assert(sum.bit_values(vals) =~= fb.take(input_bits as int));
                assert(carry.bit_values(vals) =~= fb.skip(input_bits as int));
                lemma_low_bits(fb, input_bits as int);
                lemma_weighted_sum_bound(carry.bit_values(vals));
                vstd::arithmetic::div_mod::lemma_small_mod(weighted_sum(carry.bit_values(vals)), p);
                assert(weighted_sum(carry.bit_values(vals)) == 0);
                assert(pow2(input_bits as nat) * 0 == 0);
            }
        }
        sum
    }

    /// Assert that a binary expression is zero. Its bits must fit in a field element.
    pub fn binary_assert_zero(&mut self, x: &BinaryExpression<F>)
        requires
            pow2(x@.len()) <= F::modulus(),
        ensures
            final(self).extends(*old(self)),
            final(self).generator_seq() == old(self).generator_seq(),
            final(self).next_index() == old(self).next_index(),
            forall|vals: Map<u32, nat>|
                #![trigger final(self).satisfied(vals)]
                final(self).satisfied(vals) && valid_assignment(vals, F::modulus()) ==> weighted_sum(
                    x.bit_values(vals),
                ) % F::modulus() == 0,
            forall|vals: Map<u32, nat>|
                #![trigger added_hold(*final(self), *old(self), vals)]
                valid_assignment(vals, F::modulus()) && (forall|k: int|
                    0 <= k < x@.len() ==> crate::expression::assigns_all(#[trigger] x@[k], vals))
                    && weighted_sum(x.bit_values(vals)) % F::modulus() == 0 ==> added_hold(
                    *final(self),
                    *old(self),
                    vals,
                ),
    {
        let joined = x.join();
        self.assert_zero(&joined);
        proof {
            let p = F::modulus();
            use_type_invariant(&joined);
            assert forall|vals: Map<u32, nat>| #![trigger added_hold(*self, *old(self), vals)]
                valid_assignment(vals, p) && (forall|k: int|
                    0 <= k < x@.len() ==> crate::expression::assigns_all(#[trigger] x@[k], vals))
                    && weighted_sum(x.bit_values(vals)) % p == 0 implies added_hold(*self, *old(self), vals) by {
                assert forall|i: int| 0 <= i < joined@.len() implies vals.contains_key(#[trigger] joined@[i].0) by {
                    let w = joined@[i].0;
                    crate::expression::lemma_coefficient_wf(joined@, p, w);
                    if forall|k: int| 0 <= k < x@.len() ==> crate::expression::coefficient(#[trigger] x@[k], w) == 0 {
                        assert(false);
                    } else {
                        let k = choose|k: int| 0 <= k < x@.len() && crate::expression::coefficient(#[trigger] x@[k], w) != 0;
                        if forall|j: int| 0 <= j < x@[k].len() ==> #[trigger] x@[k][j].0 != w {
                            crate::expression::lemma_coefficient_absent(x@[k], w);
                        } else {
                            let j = choose|j: int| 0 <= j < x@[k].len() && #[trigger] x@[k][j].0 == w;
                            assert(crate::expression::assigns_all(x@[k], vals));
                            assert(vals.contains_key(x@[k][j].0));
                        }
                    }
                }
            }
        }
    }
}

/// The length of the longest of several binary expressions.
fn max_length<F: Field>(terms: &[BinaryExpression<F>]) -> (r: usize)
    ensures
        r == max_len(views_of(terms@)),
{
    let ghost v = views_of(terms@);
    let mut best: usize = 0;
    let mut i: usize = 0;
    proof {
        assert(v.take(0) =~= Seq::<Seq<Seq<(u32, nat)>>>::empty());
    }
    while i < terms.len()
        invariant
            i <= terms@.len(),
            v == views_of(terms@),
            best == max_len(v.take(i as int)),
        decreases terms@.len() - i,
    {
        proof {
            assert(v.take(i + 1).drop_last() =~= v.take(i as int));
            assert(v.take(i + 1).last() == terms@[i as int]@);
        }
        if best < terms[i].len() {
            best = terms[i].len();
        }
        i += 1;
    }
    proof {
        assert(v.take(terms@.len() as int) =~= v);
    }
    best
}

} // verus!
