//! Gadgets for splitting field elements into bits.

use vstd::arithmetic::power2::*;
use vstd::prelude::*;

use crate::binary_expression::{weighted_sum, BinaryExpression};
use crate::chunk_order::{is_bit_seq, lemma_weighted_sum_split};
use crate::expression::{assigns_all, coefficient, eval_terms, raw_value, Expression};
use crate::gadget_builder::{added_hold, wires_below};
use crate::wire::ONE_WIRE_INDEX;
use crate::field::{field_mul, field_sub, Element, Field};
use crate::gadget_builder::{
    lemma_extends_trans, lemma_satisfied_prefix, lemma_single_wire_eval, valid_assignment,
    GadgetBuilder,
};
use crate::natural::{bit_length, bit_of};
use crate::primes::{is_prime, lemma_boolean_root};
use crate::witness_generator::{Generate, WitnessGenerator};

verus! {

/// The number of bits needed to encode every element of `F`.
pub open spec fn field_bits<F: Field>() -> nat {
    bit_length((F::modulus() - 1) as nat)
}

/// Every bit is assigned and is a root of `b * (b - 1)`, which in a prime field means that it is
/// 0 or 1.
pub open spec fn bits_constrained<F: Field>(b: &BinaryExpression<F>, vals: Map<u32, nat>) -> bool {
    forall|i: int|
        0 <= i < b@.len() ==> assigns_all(#[trigger] b@[i], vals) && field_mul(
            eval_terms(b@[i], vals, F::modulus()),
            field_sub(eval_terms(b@[i], vals, F::modulus()), 1, F::modulus()),
            F::modulus(),
        ) == 0
}

/// The most significant bit of a positive number is worth at most the number.
pub proof fn lemma_top_bit(n: nat)
    requires
        n >= 1,
    ensures
        pow2((bit_length(n) - 1) as nat) <= n,
        bit_length(n) >= 1,
    decreases n,
{
    if n == 1 {
        assert(bit_length(0) == 0);
        lemma2_to64();
    } else {
        lemma_top_bit(n / 2);
        lemma_pow2_unfold((bit_length(n) - 1) as nat);
    }
}

/// Every weight `2^i` for `i` below the field's bit count is a field element, and so is `2^i`
/// for `i` below any smaller count.
pub proof fn lemma_weights_fit<F: Field>(bits: nat)
    requires
        1 < F::modulus(),
        bits <= field_bits::<F>(),
    ensures
        bits == 0 || pow2((bits - 1) as nat) < F::modulus(),
{
    if bits > 0 {
        lemma_top_bit((F::modulus() - 1) as nat);
        if bits < field_bits::<F>() {
            lemma_pow2_strictly_increases((bits - 1) as nat, (field_bits::<F>() - 1) as nat);
        }
    }
}

/// The first `len` bits of `n` as values 0 or 1, least significant first.
pub open spec fn natural_bits(n: nat, len: nat) -> Seq<nat> {
    Seq::new(len, |i: int| if bit_of(n, i as nat) { 1nat } else { 0nat })
}

/// The bits of `n`, as many as its bit length, sum back to `n`.
pub proof fn lemma_natural_bits_sum(n: nat)
    ensures
        weighted_sum(natural_bits(n, bit_length(n))) == n,
        is_bit_seq(natural_bits(n, bit_length(n))),
    decreases n,
{
    let s = natural_bits(n, bit_length(n));
    if n == 0 {
        assert(s.len() == 0);
    } else {
        lemma_natural_bits_sum(n / 2);
        let t = natural_bits(n / 2, bit_length(n / 2));
        lemma_weighted_sum_split(s, 1);
        assert(s.skip(1) =~= t) by {
            assert forall|i: int| 0 <= i < t.len() implies #[trigger] s.skip(1)[i] == t[i] by {
                lemma_pow2_unfold((i + 1) as nat);
                lemma_pow2_pos(i as nat);
                vstd::arithmetic::div_mod::lemma_div_denominator(n as int, 2, pow2(i as nat) as int);
                assert(n / pow2((i + 1) as nat) == (n / 2) / pow2(i as nat));
            }
        }
        let b = s[0];
        assert(s.take(1) =~= seq![b]);
        assert(seq![b].drop_last() =~= Seq::<nat>::empty());
        assert(weighted_sum(seq![b].drop_last()) == 0);
        assert(seq![b].last() == b);
        assert(weighted_sum(seq![b]) == pow2(0) * b);
        lemma2_to64();
        assert(pow2(0) == 1);
        assert(b == n % 2) by {
            vstd::arithmetic::div_mod::lemma_div_basics(n as int);
            assert(n / pow2(0) == n);
        }
        assert(is_bit_seq(s)) by {
            assert forall|i: int| 0 <= i < s.len() implies #[trigger] s[i] == 0 || s[i] == 1 by {}
        }
        assert(pow2(1) == 2);
        vstd::arithmetic::div_mod::lemma_fundamental_div_mod(n as int, 2);
        assert(pow2(0) * b == b) by (nonlinear_arith)
            requires
                pow2(0) == 1,
        ;
        assert(weighted_sum(s.take(1)) == b);
        assert(weighted_sum(s.skip(1)) == n / 2);
        assert(weighted_sum(s) == weighted_sum(s.take(1)) + pow2(1) * weighted_sum(s.skip(1)));
        assert(weighted_sum(s) == b + 2 * (n / 2));
    }
}

/// The bits of `n`, padded with zeros to any length at least its bit length, still sum to `n`.
pub proof fn lemma_natural_bits_padded(n: nat, len: nat)
    requires
        bit_length(n) <= len,
    ensures
        weighted_sum(natural_bits(n, len)) == n,
    decreases len,
{
    if len == bit_length(n) {
        lemma_natural_bits_sum(n);
    } else {
        lemma_natural_bits_padded(n, (len - 1) as nat);
        let s = natural_bits(n, len);
        assert(s.drop_last() =~= natural_bits(n, (len - 1) as nat));
        crate::field_arithmetic::lemma_below_bit_length(n);
        if bit_length(n) < (len - 1) as nat {
            lemma_pow2_strictly_increases(bit_length(n), (len - 1) as nat);
        }
        lemma_pow2_pos((len - 1) as nat);
        vstd::arithmetic::div_mod::lemma_basic_div(n as int, pow2((len - 1) as nat) as int);
        assert(n / pow2((len - 1) as nat) == 0);
        assert(s.last() == 0);
        assert(weighted_sum(s) == weighted_sum(s.drop_last()) + pow2((len - 1) as nat) * 0);
    }
}

/// A number's bit length is at most the number.
pub proof fn lemma_bit_length_le(n: nat)
    ensures
        bit_length(n) <= n,
    decreases n,
{
    if n > 0 {
        lemma_bit_length_le(n / 2);
    }
}

/// Under a prime modulus, constrained bits are 0 or 1.
pub proof fn lemma_constrained_bits<F: Field>(b: &BinaryExpression<F>, vals: Map<u32, nat>)
    requires
        bits_constrained(b, vals),
        is_prime(F::modulus()),
    ensures
        is_bit_seq(b.bit_values(vals)),
        b.is_binary_under(vals),
{
    let p = F::modulus();
    assert forall|i: int| 0 <= i < b@.len() implies eval_terms(#[trigger] b@[i], vals, p) == 0
        || eval_terms(b@[i], vals, p) == 1 by {
        vstd::arithmetic::div_mod::lemma_mod_bound(raw_value(b@[i], vals), p as int);
        lemma_boolean_root(eval_terms(b@[i], vals, p), p);
    }
    assert forall|i: int| 0 <= i < b@.len() implies #[trigger] b.bit_values(vals)[i] == 0
        || b.bit_values(vals)[i] == 1 by {
        assert(b.bit_values(vals)[i] == eval_terms(b@[i], vals, p));
    }
}

impl<F: Field> GadgetBuilder<F> {
    /// Split an arbitrary field element `x` into a binary representation. Unlike `split`, this
    /// method permits two distinct binary decompositions: the canonical one, and another
    /// representation where the weighted sum of bits overflows the field size. This minimizes
    /// constraints, but the ambiguity can be a security problem depending on the context. If in
    /// doubt, use `split` instead.
    pub fn split_allowing_ambiguity(&mut self, x: &Expression<F>) -> (r: BinaryExpression<F>)
        requires
            old(self).has_room(field_bits::<F>()),
        ensures
            r@.len() == field_bits::<F>(),
            final(self).extends(*old(self)),
            final(self).next_index() == old(self).next_index() + field_bits::<F>(),
            forall|vals: Map<u32, nat>|
                #![trigger final(self).satisfied(vals)]
                final(self).satisfied(vals) && valid_assignment(vals, F::modulus()) ==> x.eval(vals)
                    == weighted_sum(r.bit_values(vals)) % F::modulus() && bits_constrained(&r, vals),
            final(self).generator_seq().len() == old(self).generator_seq().len() + 1,
            forall|before: Map<u32, nat>, after: Map<u32, nat>|
                #![trigger final(self).generator_seq().last().generated(before, after)]
                final(self).generator_seq().last().generated(before, after) && valid_assignment(
                    before,
                    F::modulus(),
                ) && assigns_all(x@, before) && 0 < old(self).next_index() && wires_below(
                    x@,
                    old(self).next_index(),
                ) ==> r.bit_values(after) == natural_bits(x.eval(before), field_bits::<F>()) && added_hold(
                    *final(self),
                    *old(self),
                    after,
                ) && valid_assignment(after, F::modulus()),
    {
        let bits = Element::<F>::max_bits();
        let r = self.split_without_range_check(x, bits);
        proof {
            assert forall|before: Map<u32, nat>, after: Map<u32, nat>|
                #![trigger self.generator_seq().last().generated(before, after)]
                self.generator_seq().last().generated(before, after) && valid_assignment(before, F::modulus())
                    && assigns_all(x@, before) implies bit_length(x.eval(before)) <= bits by {
                crate::gadget_builder::lemma_eval_bound::<F>(x, before);
                crate::field::lemma_bit_length_monotonic(x.eval(before), (F::modulus() - 1) as nat);
            }
        }
        r
    }

    /// Split `x` into `bits` bit wires. This method assumes `x < 2^bits < |F|`. Note that only one
    /// binary representation is possible here, since `bits` bits is not enough to overflow the
    /// field size. `bits` must be below the field's bit count.
    pub fn split_bounded(&mut self, x: &Expression<F>, bits: usize) -> (r: BinaryExpression<F>)
        requires
            bits < field_bits::<F>(),
            old(self).has_room(bits as nat),
        ensures
            r@.len() == bits,
            final(self).extends(*old(self)),
            final(self).next_index() == old(self).next_index() + bits,
            forall|vals: Map<u32, nat>|
                #![trigger final(self).satisfied(vals)]
                final(self).satisfied(vals) && valid_assignment(vals, F::modulus()) ==> x.eval(vals)
                    == weighted_sum(r.bit_values(vals)) % F::modulus() && bits_constrained(&r, vals),
            final(self).generator_seq().len() == old(self).generator_seq().len() + 1,
            forall|before: Map<u32, nat>, after: Map<u32, nat>|
                #![trigger final(self).generator_seq().last().generated(before, after)]
                final(self).generator_seq().last().generated(before, after) && valid_assignment(
                    before,
                    F::modulus(),
                ) && assigns_all(x@, before) && bit_length(x.eval(before)) <= bits && 0 < old(self).next_index() && wires_below(
                    x@,
                    old(self).next_index(),
                ) ==> r.bit_values(after) == natural_bits(x.eval(before), bits as nat) && added_hold(
                    *final(self),
                    *old(self),
                    after,
                ) && valid_assignment(after, F::modulus()),
    {
        self.split_without_range_check(x, bits)
    }

    /// Splits `x` into `bits` new bit wires, least significant first, and constrains their
    /// weighted sum to equal `x`.
    pub(crate) fn split_without_range_check(&mut self, x: &Expression<F>, bits: usize) -> (r:
        BinaryExpression<F>)
        requires
            bits <= field_bits::<F>(),
            old(self).has_room(bits as nat),
        ensures
            r@.len() == bits,
            final(self).extends(*old(self)),
            final(self).next_index() == old(self).next_index() + bits,
            forall|vals: Map<u32, nat>|
                #![trigger final(self).satisfied(vals)]
                final(self).satisfied(vals) && valid_assignment(vals, F::modulus()) ==> x.eval(vals)
                    == weighted_sum(r.bit_values(vals)) % F::modulus() && bits_constrained(&r, vals),
            final(self).generator_seq().len() == old(self).generator_seq().len() + 1,
            forall|before: Map<u32, nat>, after: Map<u32, nat>|
                #![trigger final(self).generator_seq().last().generated(before, after)]
                final(self).generator_seq().last().generated(before, after) && assigns_all(x@, before)
                    && bit_length(x.eval(before)) <= bits ==> r.bit_values(after) == natural_bits(
                    x.eval(before),
                    bits as nat,
                ),
            forall|before: Map<u32, nat>, after: Map<u32, nat>|
                #![trigger final(self).generator_seq().last().generated(before, after)]
                final(self).generator_seq().last().generated(before, after) && valid_assignment(
                    before,
                    F::modulus(),
                ) && assigns_all(x@, before) && bit_length(x.eval(before)) <= bits && 0 < old(
                    self,
                ).next_index() && wires_below(x@, old(self).next_index()) ==> added_hold(
                    *final(self),
                    *old(self),
                    after,
                ) && valid_assignment(after, F::modulus()),
    {
        proof {
            use_type_invariant(x);
            lemma_weights_fit::<F>(bits as nat);
        }
        let ghost start = *self;
        let binary_wire = self.binary_wire(bits);
        let ghost after_wires = *self;
        let result = BinaryExpression::from_binary_wire(&binary_wire);
        let weighted = result.join_allowing_overflow();
        self.assert_equal(x, &weighted);
        let ghost after_eq = *self;
        let ghost bws = binary_wire.bits@;
        let gen = WitnessGenerator::new(
            x.dependencies(),
            Generate::Bits { x: x.copy(), bits: binary_wire.bits.clone(), exact: true },
        );
        let ghost gg = gen;
        self.generator(gen);
        proof {
            let p = F::modulus();
            assert(self.generator_seq().last() == gg);
            use_type_invariant(&weighted);
            assert forall|before: Map<u32, nat>, after: Map<u32, nat>|
                #![trigger self.generator_seq().last().generated(before, after)]
                self.generator_seq().last().generated(before, after) && valid_assignment(before, p)
                    && assigns_all(x@, before) && bit_length(x.eval(before)) <= bits && 0
                    < start.next_index() && wires_below(x@, start.next_index()) implies added_hold(
                *self,
                start,
                after,
            ) && valid_assignment(after, p) by {
                let xv = x.eval(before);
                let set = crate::witness_generator::boolean_wire_set(bws);
                assert(crate::witness_generator::distinct_boolean_wires(bws)) by {
                    assert forall|i: int, j: int| 0 <= i < j < bws.len() implies #[trigger] bws[i].spec_wire().index
                        != #[trigger] bws[j].spec_wire().index by {
                        assert(bws[i].spec_wire().index == start.next_index() + i);
                    }
                }
                assert forall|k: int| 0 <= k < bws.len() implies after.contains_key(
                    #[trigger] bws[k].spec_wire().index,
                ) && (after[bws[k].spec_wire().index] == 0 || after[bws[k].spec_wire().index] == 1) by {
                    assert(after[bws[k].spec_wire().index] == if bit_of(xv, k as nat) { 1nat } else { 0nat });
                }
                // Wires outside the new bits keep their values.
                assert forall|w: u32| w < start.next_index() implies !set.contains(w) by {
                    if set.contains(w) {
                        let k = choose|k: int| 0 <= k < bws.len() && #[trigger] bws[k].spec_wire().index == w;
                        assert(bws[k].spec_wire().index == start.next_index() + k);
                    }
                }
                assert(valid_assignment(after, p)) by {
                    assert(!set.contains(ONE_WIRE_INDEX));
                    assert forall|w: u32| after.contains_key(w) implies #[trigger] after[w] < p by {
                        if set.contains(w) {
                            let k = choose|k: int| 0 <= k < bws.len() && #[trigger] bws[k].spec_wire().index == w;
                            assert(after[bws[k].spec_wire().index] == 0 || after[bws[k].spec_wire().index] == 1);
                        } else {
                            assert(before.contains_key(w));
                        }
                    }
                }
                assert forall|i: int| #![trigger x@[i]] 0 <= i < x@.len() implies after.contains_key(x@[i].0)
                    && after[x@[i].0] == before[x@[i].0] by {
                    assert(x@[i].0 < start.next_index());
                    assert(!set.contains(x@[i].0));
                }
                crate::gadget_builder::lemma_terms_unchanged(x@, before, after);
                assert(x.eval(after) == xv);
                // The new bits are boolean.
                assert(added_hold(after_wires, start, after));
                // They sum to `x`.
                assert forall|k: int| 0 <= k < bits implies #[trigger] result.bit_values(after)[k]
                    == natural_bits(xv, bits as nat)[k] by {
                    let w = bws[k].spec_wire().index;
                    assert(after[w] == if bit_of(xv, k as nat) { 1nat } else { 0nat });
                    assert(result@[k] == seq![(w, 1nat)]);
                    crate::gadget_builder::lemma_single_wire_eval(result@[k], w, after, p);
                }
                assert(result.bit_values(after) =~= natural_bits(xv, bits as nat));
                lemma_natural_bits_padded(xv, bits as nat);
                crate::gadget_builder::lemma_eval_bound::<F>(x, before);
                vstd::arithmetic::div_mod::lemma_small_mod(xv, p);
                assert(weighted.eval(after) == xv);
                assert(assigns_all(weighted@, after)) by {
                    assert forall|i: int| 0 <= i < weighted@.len() implies after.contains_key(
                        #[trigger] weighted@[i].0,
                    ) by {
                        let w = weighted@[i].0;
                        crate::expression::lemma_coefficient_wf(weighted@, p, w);
                        if forall|k: int| 0 <= k < result@.len() ==> coefficient(#[trigger] result@[k], w) == 0 {
                            assert(false);
                        } else {
                            let k = choose|k: int| 0 <= k < result@.len() && coefficient(#[trigger] result@[k], w) != 0;
                            let bw = bws[k].spec_wire().index;
                            assert(result@[k] == seq![(bw, 1nat)]);
                            if w != bw {
                                crate::expression::lemma_coefficient_absent(result@[k], w);
                            }
                        }
                    }
                }
                assert(added_hold(after_eq, after_wires, after));
                crate::gadget_builder::lemma_added_hold_trans(after_eq, after_wires, start, after);
                crate::gadget_builder::lemma_added_hold_same(*self, after_eq, after);
                crate::gadget_builder::lemma_added_hold_trans(*self, after_eq, start, after);
            }
            assert(crate::witness_generator::distinct_boolean_wires(bws)) by {
                assert forall|i: int, j: int| 0 <= i < j < bws.len() implies #[trigger] bws[i].spec_wire().index
                    != #[trigger] bws[j].spec_wire().index by {
                    assert(bws[i].spec_wire().index == start.next_index() + i);
                }
            }
            assert forall|before: Map<u32, nat>, after: Map<u32, nat>|
                #![trigger self.generator_seq().last().generated(before, after)]
                self.generator_seq().last().generated(before, after) && assigns_all(x@, before)
                    && bit_length(x.eval(before)) <= bits implies result.bit_values(after) == natural_bits(
                x.eval(before),
                bits as nat,
            ) by {
                let xv = x.eval(before);
                assert forall|k: int| 0 <= k < bits implies #[trigger] result.bit_values(after)[k]
                    == natural_bits(xv, bits as nat)[k] by {
                    let w = bws[k].spec_wire().index;
                    assert(after.contains_key(w));
                    assert(after[w] == if bit_of(xv, k as nat) { 1nat } else { 0nat });
                    assert(result@[k] == seq![(w, 1nat)]);
                    lemma_single_wire_eval(result@[k], w, after, p);
                }
                assert(result.bit_values(after) =~= natural_bits(xv, bits as nat));
            }
            assert(self.extends(after_eq)) by {
                assert(after_eq.generator_seq() =~= self.generator_seq().subrange(
                    0,
                    after_eq.generator_seq().len() as int,
                ));
                assert(after_eq.constraint_seq() =~= self.constraint_seq().subrange(
                    0,
                    after_eq.constraint_seq().len() as int,
                ));
            }
            lemma_extends_trans(*self, after_eq, after_wires);
            lemma_extends_trans(*self, after_wires, start);
            assert forall|vals: Map<u32, nat>| #![trigger self.satisfied(vals)]
                self.satisfied(vals) && valid_assignment(vals, p) implies x.eval(vals)
                == weighted_sum(result.bit_values(vals)) % p && bits_constrained(&result, vals) by {
                lemma_satisfied_prefix(*self, after_eq, vals);
                lemma_satisfied_prefix(after_eq, after_wires, vals);
                assert(after_eq.satisfied(vals));
                assert(x.eval(vals) == weighted.eval(vals));
                assert forall|i: int| 0 <= i < result@.len() implies assigns_all(
                    #[trigger] result@[i],
                    vals,
                ) && field_mul(
                    eval_terms(result@[i], vals, p),
                    field_sub(eval_terms(result@[i], vals, p), 1, p),
                    p,
                ) == 0 by {
                    let w = binary_wire.bits@[i].spec_wire().index;
                    assert(vals.contains_key(w));
                    assert(result@[i] == seq![(w, 1nat)]);
                    lemma_single_wire_eval(result@[i], w, vals, p);
                }
            }
        }
        result
    }
}

} // verus!
