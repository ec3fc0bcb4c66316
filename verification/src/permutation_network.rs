//! A gadget for verifying permutations, built from an AS-Waksman permutation network.

use vstd::multiset::Multiset;
use vstd::prelude::*;

use crate::binary_expression::BooleanExpression;
use crate::expression::{assigns_all, Expression};
use crate::field::Field;
use crate::gadget_builder::{
    lemma_eval_bound, lemma_extends_trans, lemma_satisfied_prefix, valid_assignment, GadgetBuilder,
};
use crate::gadget_traits::expression_values;
use crate::primes::{is_prime, lemma_boolean_root};
use crate::wire::{BooleanWire, Wire};
use crate::witness_generator::{Generate, WitnessGenerator};

verus! {

/// An upper bound on the wires of a permutation network on `n` items: each 2x2 switch takes a
/// boolean wire and at most one product wire.
pub open spec fn permutation_wires(n: nat) -> nat
    decreases n,
{
    if n <= 1 {
        0
    } else if n == 2 {
        2
    } else {
        let a_switches = n / 2;
        let b_switches = if n % 2 == 0 {
            (a_switches - 1) as nat
        } else {
            a_switches
        };
        2 * (a_switches + b_switches) + permutation_wires(n / 2) + permutation_wires(
            (n - n / 2) as nat,
        )
    }
}

/// `(c, d)` is `(a, b)`, in that order or swapped.
pub open spec fn swapped_pair(a: nat, b: nat, c: nat, d: nat) -> bool {
    (c == a && d == b) || (c == b && d == a)
}

/// The setting the switch generator picks to map `[a, b]` to `[c, d]`: 0 (pass through) when
/// that works, which includes the tie `a == b`, and 1 (swap) otherwise.
pub open spec fn switch_bit(a: nat, b: nat, c: nat, d: nat) -> nat {
    if a == c && b == d {
        0
    } else {
        1
    }
}

/// Evaluating a sequence with one more expression appends its value.
proof fn lemma_values_push<F: Field>(s: Seq<Expression<F>>, e: Expression<F>, vals: Map<u32, nat>)
    ensures
        expression_values(s.push(e), vals) == expression_values(s, vals).push(e.eval(vals)),
{
    assert(expression_values(s.push(e), vals) =~= expression_values(s, vals).push(e.eval(vals)));
}

/// The values of a prefix two longer add the next two values to the multiset.
proof fn lemma_take_two<F: Field>(s: Seq<Expression<F>>, k: int, vals: Map<u32, nat>)
    requires
        0 <= k,
        k + 2 <= s.len(),
    ensures
        expression_values(s.take(k + 2), vals).to_multiset() == expression_values(s.take(k), vals)
            .to_multiset().insert(s[k].eval(vals)).insert(s[k + 1].eval(vals)),
{
    assert(s.take(k + 2) =~= s.take(k).push(s[k]).push(s[k + 1]));
    lemma_values_push(s.take(k), s[k], vals);
    lemma_values_push(s.take(k).push(s[k]), s[k + 1], vals);
    let v = expression_values(s.take(k), vals);
    vstd::seq_lib::to_multiset_build(v, s[k].eval(vals));
    vstd::seq_lib::to_multiset_build(v.push(s[k].eval(vals)), s[k + 1].eval(vals));
}

/// The values of a prefix one longer add the next value to the multiset.
proof fn lemma_take_one<F: Field>(s: Seq<Expression<F>>, k: int, vals: Map<u32, nat>)
    requires
        0 <= k,
        k + 1 <= s.len(),
    ensures
        expression_values(s.take(k + 1), vals).to_multiset() == expression_values(s.take(k), vals)
            .to_multiset().insert(s[k].eval(vals)),
{
    assert(s.take(k + 1) =~= s.take(k).push(s[k]));
    lemma_values_push(s.take(k), s[k], vals);
    vstd::seq_lib::to_multiset_build(expression_values(s.take(k), vals), s[k].eval(vals));
}

/// Appending an expression adds its value to the multiset.
proof fn lemma_push_multiset<F: Field>(s: Seq<Expression<F>>, e: Expression<F>, vals: Map<u32, nat>)
    ensures
        expression_values(s.push(e), vals).to_multiset() == expression_values(s, vals).to_multiset()
            .insert(e.eval(vals)),
{
    lemma_values_push(s, e, vals);
    vstd::seq_lib::to_multiset_build(expression_values(s, vals), e.eval(vals));
}

/// The indices of the wires that the expressions' terms name, expression by expression.
pub open spec fn term_wires<F: Field>(exps: Seq<Expression<F>>) -> Seq<u32>
    decreases exps.len(),
{
    if exps.len() == 0 {
        Seq::empty()
    } else {
        term_wires(exps.drop_last()) + exps.last()@.map_values(|t: (u32, nat)| t.0)
    }
}

/// The wires that several expressions depend on.
fn all_dependencies<F: Field>(exps: &[Expression<F>]) -> (r: Vec<Wire>)
    ensures
        r@.map_values(|w: Wire| w.index) == term_wires(exps@),
{
    let mut out: Vec<Wire> = Vec::new();
    let mut i: usize = 0;
    while i < exps.len()
        invariant
            i <= exps@.len(),
            out@.map_values(|w: Wire| w.index) == term_wires(exps@.take(i as int)),
        decreases exps@.len() - i,
    {
        let mut deps = exps[i].dependencies();
        let ghost prev = out@;
        let ghost added = deps@;
        out.append(&mut deps);
        proof {
            assert(exps@.take(i + 1).drop_last() =~= exps@.take(i as int));
            assert(added.map_values(|w: Wire| w.index) =~= exps@[i as int]@.map_values(
                |t: (u32, nat)| t.0,
            ));
            assert(out@.map_values(|w: Wire| w.index) =~= prev.map_values(|w: Wire| w.index)
                + added.map_values(|w: Wire| w.index));
        }
        i += 1;
    }
    proof {
        assert(exps@.take(exps@.len() as int) =~= exps@);
    }
    out
}

/// Copies of several expressions.
fn copy_all<F: Field>(exps: &[Expression<F>]) -> (r: Vec<Expression<F>>)
    ensures
        r@.len() == exps@.len(),
        forall|i: int| 0 <= i < r@.len() ==> #[trigger] r@[i]@ == exps@[i]@,
{
    let mut out: Vec<Expression<F>> = Vec::new();
    let mut i: usize = 0;
    while i < exps.len()
        invariant
            i <= exps@.len(),
            out@.len() == i,
            forall|k: int| 0 <= k < i ==> #[trigger] out@[k]@ == exps@[k]@,
        decreases exps@.len() - i,
    {
        out.push(exps[i].copy());
        i += 1;
    }
    out
}

impl<F: Field> GadgetBuilder<F> {
    /// Assert that two lists of expressions evaluate to permutations of one another. The lists
    /// must have the same length.
    ///
    /// This is currently implemented using an AS-Waksman permutation network, although that could
    /// change in the future. See "On Arbitrary Waksman Networks and their Vulnerability".
    pub fn assert_permutation(&mut self, a: &[Expression<F>], b: &[Expression<F>])
        requires
            a@.len() == b@.len(),
            old(self).has_room(permutation_wires(a@.len() as nat)),
        ensures
            final(self).extends(*old(self)),
            final(self).next_index() <= old(self).next_index() + permutation_wires(a@.len() as nat),
            forall|vals: Map<u32, nat>|
                #![trigger final(self).satisfied(vals)]
                final(self).satisfied(vals) && valid_assignment(vals, F::modulus()) && is_prime(
                    F::modulus(),
                ) ==> expression_values(a@, vals).to_multiset() == expression_values(b@, vals).to_multiset(),
        decreases a@.len(), 1nat,
    {
        broadcast use vstd::multiset::group_multiset_axioms;

        let n = a.len();
        proof {
            crate::field_arithmetic::lemma_extends_refl(*self);
        }
        if n == 0 {
            // Two empty lists are permutations of one another, trivially.
            proof {
                assert forall|vals: Map<u32, nat>| #![trigger self.satisfied(vals)]
                    self.satisfied(vals) && valid_assignment(vals, F::modulus()) && is_prime(
                        F::modulus(),
                    ) implies expression_values(a@, vals).to_multiset() == expression_values(
                    b@,
                    vals,
                ).to_multiset() by {
                    assert(expression_values(a@, vals) =~= expression_values(b@, vals));
                }
            }
        } else if n == 1 {
            // Two singleton lists are permutations of one another as long as their items are
            // equal.
            self.assert_equal(&a[0], &b[0]);
            proof {
                assert forall|vals: Map<u32, nat>| #![trigger self.satisfied(vals)]
                    self.satisfied(vals) && valid_assignment(vals, F::modulus()) && is_prime(
                        F::modulus(),
                    ) implies expression_values(a@, vals).to_multiset() == expression_values(
                    b@,
                    vals,
                ).to_multiset() by {
                    assert(expression_values(a@, vals) =~= expression_values(b@, vals));
                }
            }
        } else if n == 2 {
            // For the 2x2 case, we're implementing a switch gadget. The switch will be controlled
            // with a binary wire. It will swap the order of its inputs iff that wire is true.
            self.assert_permutation_2x2(&a[0], &a[1], &b[0], &b[1]);
            proof {
                assert forall|vals: Map<u32, nat>| #![trigger self.satisfied(vals)]
                    self.satisfied(vals) && valid_assignment(vals, F::modulus()) && is_prime(
                        F::modulus(),
                    ) implies expression_values(a@, vals).to_multiset() == expression_values(
                    b@,
                    vals,
                ).to_multiset() by {
                    lemma_take_two(a@, 0, vals);
                    lemma_take_two(b@, 0, vals);
                    assert(a@.take(2) =~= a@);
                    assert(b@.take(2) =~= b@);
                    assert(a@.take(0) =~= Seq::<Expression<F>>::empty());
                    assert(b@.take(0) =~= Seq::<Expression<F>>::empty());
                    assert(expression_values(a@.take(0), vals) =~= expression_values(b@.take(0), vals));
                    let (x0, x1) = (a@[0].eval(vals), a@[1].eval(vals));
                    let e = expression_values(a@.take(0), vals).to_multiset();
                    assert(e.insert(x0).insert(x1) =~= e.insert(x1).insert(x0));
                }
            }
        } else {
            // For larger lists, we recursively use two smaller permutation networks.
            self.assert_permutation_recursive(a, b);
        }
    }

    /// Assert that [a, b] is a permutation of [c, d].
    fn assert_permutation_2x2(
        &mut self,
        a: &Expression<F>,
        b: &Expression<F>,
        c: &Expression<F>,
        d: &Expression<F>,
    )
        requires
            old(self).has_room(2),
        ensures
            final(self).extends(*old(self)),
            final(self).next_index() <= old(self).next_index() + 2,
            forall|vals: Map<u32, nat>|
                #![trigger final(self).satisfied(vals)]
                final(self).satisfied(vals) && valid_assignment(vals, F::modulus()) && is_prime(
                    F::modulus(),
                ) ==> swapped_pair(a.eval(vals), b.eval(vals), c.eval(vals), d.eval(vals)),
            final(self).generator_seq().len() > old(self).generator_seq().len(),
            forall|before: Map<u32, nat>, after: Map<u32, nat>|
                #![trigger final(self).generator_seq().last().generated(before, after)]
                final(self).generator_seq().last().generated(before, after) && assigns_all(a@, before)
                    && assigns_all(b@, before) && assigns_all(c@, before) && assigns_all(d@, before)
                    && swapped_pair(a.eval(before), b.eval(before), c.eval(before), d.eval(before))
                    ==> exists|w: u32|
                    #![trigger before.insert(w, switch_bit(a.eval(before), b.eval(before), c.eval(before), d.eval(before)))]
                    after == before.insert(
                        w,
                        switch_bit(a.eval(before), b.eval(before), c.eval(before), d.eval(before)),
                    ),
    {
        let ghost start = *self;
        let (switch, c_target, d_target) = self.create_switch(a, b);
        let ghost s1 = *self;
        self.assert_equal(c, &c_target);
        let ghost t1 = *self;
        self.assert_equal(d, &d_target);
        let mut deps = a.dependencies();
        let mut b_deps = b.dependencies();
        let mut c_deps = c.dependencies();
        let mut d_deps = d.dependencies();
        deps.append(&mut b_deps);
        deps.append(&mut c_deps);
        deps.append(&mut d_deps);
        let ghost s2 = *self;
        let gen = WitnessGenerator::new(
            deps,
            Generate::Switch { a: a.copy(), b: b.copy(), c: c.copy(), d: d.copy(), switch },
        );
        let ghost g = gen;
        self.generator(gen);
        proof {
            assert(self.generator_seq().last() == g);
            assert forall|before: Map<u32, nat>, after: Map<u32, nat>|
                #![trigger self.generator_seq().last().generated(before, after)]
                self.generator_seq().last().generated(before, after) && assigns_all(a@, before)
                    && assigns_all(b@, before) && assigns_all(c@, before) && assigns_all(d@, before)
                    && swapped_pair(a.eval(before), b.eval(before), c.eval(before), d.eval(before))
                implies exists|w: u32|
                #![trigger before.insert(w, switch_bit(a.eval(before), b.eval(before), c.eval(before), d.eval(before)))]
                after == before.insert(
                    w,
                    switch_bit(a.eval(before), b.eval(before), c.eval(before), d.eval(before)),
                ) by {
                let w = switch.spec_wire().index;
                let bit = switch_bit(a.eval(before), b.eval(before), c.eval(before), d.eval(before));
                if a.eval(before) == c.eval(before) && b.eval(before) == d.eval(before) {
                    assert(after == before.insert(w, 0));
                } else {
                    assert(after == before.insert(w, 1));
                }
                assert(after == before.insert(w, bit));
            }
            crate::comparisons::lemma_generator_extends(*self, s2, g);
            lemma_extends_trans(*self, s2, s1);
            lemma_extends_trans(*self, s1, start);
            assert forall|vals: Map<u32, nat>| #![trigger self.satisfied(vals)]
                self.satisfied(vals) && valid_assignment(vals, F::modulus()) && is_prime(F::modulus())
                implies swapped_pair(a.eval(vals), b.eval(vals), c.eval(vals), d.eval(vals)) by {
                lemma_satisfied_prefix(*self, s2, vals);
                lemma_satisfied_prefix(s2, t1, vals);
                lemma_satisfied_prefix(t1, s1, vals);
            }
        }
    }

    /// Creates a 2x2 switch given the two input expressions. Returns three things: the (boolean)
    /// switch wire and the two output expressions. The order of the outputs will match that of the
    /// inputs if the switch wire is set to false, otherwise the order will be swapped.
    fn create_switch(&mut self, a: &Expression<F>, b: &Expression<F>) -> (r: (
        BooleanWire,
        Expression<F>,
        Expression<F>,
    ))
        requires
            old(self).has_room(2),
        ensures
            final(self).extends(*old(self)),
            final(self).next_index() <= old(self).next_index() + 2,
            forall|vals: Map<u32, nat>|
                #![trigger final(self).satisfied(vals)]
                final(self).satisfied(vals) && valid_assignment(vals, F::modulus()) ==> {
                    &&& vals.contains_key(r.0.spec_wire().index)
                    &&& vals[r.0.spec_wire().index] == 0 ==> r.1.eval(vals) == a.eval(vals)
                    &&& vals[r.0.spec_wire().index] == 1 ==> r.1.eval(vals) == b.eval(vals)
                },
            forall|vals: Map<u32, nat>|
                #![trigger final(self).satisfied(vals)]
                final(self).satisfied(vals) && valid_assignment(vals, F::modulus()) && is_prime(
                    F::modulus(),
                ) ==> swapped_pair(a.eval(vals), b.eval(vals), r.1.eval(vals), r.2.eval(vals)),
    {
        let ghost start = *self;
        let switch = self.boolean_wire();
        let ghost s1 = *self;
        let switch_exp = BooleanExpression::from_boolean_wire(&switch);
        let c = self.selection(&switch_exp, b, a);
        let d = a.add(b).sub(&c);
        proof {
            lemma_extends_trans(*self, s1, start);
            assert forall|vals: Map<u32, nat>| #![trigger self.satisfied(vals)]
                self.satisfied(vals) && valid_assignment(vals, F::modulus()) implies {
                &&& vals.contains_key(switch.spec_wire().index)
                &&& vals[switch.spec_wire().index] == 0 ==> c.eval(vals) == a.eval(vals)
                &&& vals[switch.spec_wire().index] == 1 ==> c.eval(vals) == b.eval(vals)
            } by {
                crate::gadget_builder::lemma_satisfied_prefix(*self, s1, vals);
                let w = switch.spec_wire().index;
                assert(vals.contains_key(w));
                crate::gadget_builder::lemma_single_wire_eval(switch_exp@, w, vals, F::modulus());
            }
            assert forall|vals: Map<u32, nat>| #![trigger self.satisfied(vals)]
                self.satisfied(vals) && valid_assignment(vals, F::modulus()) && is_prime(F::modulus())
                implies swapped_pair(a.eval(vals), b.eval(vals), c.eval(vals), d.eval(vals)) by {
                let p = F::modulus();
                crate::gadget_builder::lemma_satisfied_prefix(*self, s1, vals);
                let w = switch.spec_wire().index;
                lemma_boolean_root(vals[w], p);
                lemma_eval_bound::<F>(a, vals);
                lemma_eval_bound::<F>(b, vals);
                crate::field::lemma_add_sub_cancel(a.eval(vals), b.eval(vals), p);
                assert(d.eval(vals) == crate::field::field_sub(
                    crate::field::field_add(a.eval(vals), b.eval(vals), p),
                    c.eval(vals),
                    p,
                ));
            }
        }
        (switch, c, d)
    }

    fn assert_permutation_recursive(&mut self, a: &[Expression<F>], b: &[Expression<F>])
        requires
            a@.len() == b@.len(),
            a@.len() >= 3,
            old(self).has_room(permutation_wires(a@.len() as nat)),
        ensures
            final(self).extends(*old(self)),
            final(self).next_index() <= old(self).next_index() + permutation_wires(a@.len() as nat),
            forall|vals: Map<u32, nat>|
                #![trigger final(self).satisfied(vals)]
                final(self).satisfied(vals) && valid_assignment(vals, F::modulus()) && is_prime(
                    F::modulus(),
                ) ==> expression_values(a@, vals).to_multiset() == expression_values(b@, vals).to_multiset(),
        decreases a@.len(), 0nat,
    {
        broadcast use vstd::multiset::group_multiset_axioms;

        let ghost start = *self;
        let ghost p = F::modulus();
        let n = a.len();
        let even = n % 2 == 0;

        let mut child_1_a: Vec<Expression<F>> = Vec::new();
        let mut child_1_b: Vec<Expression<F>> = Vec::new();
        let mut child_2_a: Vec<Expression<F>> = Vec::new();
        let mut child_2_b: Vec<Expression<F>> = Vec::new();

        // See Figure 8 in the AS-Waksman paper.
        let a_num_switches = n / 2;
        let b_num_switches = if even {
            a_num_switches - 1
        } else {
            a_num_switches
        };

        let mut a_switches: Vec<BooleanWire> = Vec::new();
        let mut b_switches: Vec<BooleanWire> = Vec::new();
        let mut i: usize = 0;
        proof {
            crate::field_arithmetic::lemma_extends_refl(*self);
            assert forall|vals: Map<u32, nat>| #![trigger self.satisfied(vals)]
                self.satisfied(vals) && valid_assignment(vals, p) && is_prime(p) implies expression_values(
                a@.take(0int),
                vals,
            ).to_multiset() == expression_values(child_1_a@, vals).to_multiset().add(
                expression_values(child_2_a@, vals).to_multiset(),
            ) by {
                assert(expression_values(a@.take(0), vals) =~= Seq::<nat>::empty());
                assert(expression_values(child_1_a@, vals) =~= Seq::<nat>::empty());
                assert(expression_values(child_2_a@, vals) =~= Seq::<nat>::empty());
                broadcast use vstd::seq_lib::group_to_multiset_ensures;

                assert(Seq::<nat>::empty().to_multiset() =~= Multiset::<nat>::empty());
                assert(Multiset::<nat>::empty().add(Multiset::<nat>::empty()) =~= Multiset::<nat>::empty());
            }
        }
        while i < a_num_switches
            invariant
                i <= a_num_switches,
                a_num_switches == n / 2,
                n == a@.len(),
                child_1_a@.len() == i,
                child_2_a@.len() == i,
                a_switches@.len() == i,
                self.extends(start),
                self.next_index() <= start.next_index() + 2 * i,
                start.next_index() + permutation_wires(n as nat) <= u32::MAX,
                start.next_index() + 2 * (a_num_switches + b_num_switches) <= u32::MAX,
                p == F::modulus(),
                forall|vals: Map<u32, nat>|
                    #![trigger self.satisfied(vals)]
                    self.satisfied(vals) && valid_assignment(vals, p) && is_prime(p) ==> expression_values(
                        a@.take(2 * i),
                        vals,
                    ).to_multiset() == expression_values(child_1_a@, vals).to_multiset().add(
                        expression_values(child_2_a@, vals).to_multiset(),
                    ),
            decreases a_num_switches - i,
        {
            let ghost before = *self;
            let ghost (c1, c2) = (child_1_a@, child_2_a@);
            let (switch, out_1, out_2) = self.create_switch(&a[i * 2], &a[i * 2 + 1]);
            proof {
                lemma_extends_trans(*self, before, start);
            }
            a_switches.push(switch);
            child_1_a.push(out_1);
            child_2_a.push(out_2);
            proof {
                assert forall|vals: Map<u32, nat>| #![trigger self.satisfied(vals)]
                    self.satisfied(vals) && valid_assignment(vals, p) && is_prime(p) implies expression_values(
                    a@.take(2 * (i + 1)),
                    vals,
                ).to_multiset() == expression_values(child_1_a@, vals).to_multiset().add(
                    expression_values(child_2_a@, vals).to_multiset(),
                ) by {
                    lemma_satisfied_prefix(*self, before, vals);
                    lemma_take_two(a@, 2 * i, vals);
                    assert(2 * (i + 1) == 2 * i + 2);
                    lemma_push_multiset(c1, out_1, vals);
                    lemma_push_multiset(c2, out_2, vals);
                    let m1 = expression_values(c1, vals).to_multiset();
                    let m2 = expression_values(c2, vals).to_multiset();
                    let (x0, x1) = (a@[2 * i].eval(vals), a@[2 * i + 1].eval(vals));
                    assert(m1.add(m2).insert(x0).insert(x1) =~= m1.insert(x0).add(m2.insert(x1)));
                    assert(m1.add(m2).insert(x0).insert(x1) =~= m1.insert(x1).add(m2.insert(x0)));
                }
            }
            i += 1;
        }
        let ghost after_a = *self;
        let ghost (ca1, ca2) = (child_1_a@, child_2_a@);
        let mut i: usize = 0;
        proof {
            crate::field_arithmetic::lemma_extends_refl(*self);
            assert forall|vals: Map<u32, nat>| #![trigger self.satisfied(vals)]
                self.satisfied(vals) && valid_assignment(vals, p) && is_prime(p) implies expression_values(
                b@.take(0int),
                vals,
            ).to_multiset() == expression_values(child_1_b@, vals).to_multiset().add(
                expression_values(child_2_b@, vals).to_multiset(),
            ) by {
                assert(expression_values(b@.take(0), vals) =~= Seq::<nat>::empty());
                assert(expression_values(child_1_b@, vals) =~= Seq::<nat>::empty());
                assert(expression_values(child_2_b@, vals) =~= Seq::<nat>::empty());
                broadcast use vstd::seq_lib::group_to_multiset_ensures;

                assert(Seq::<nat>::empty().to_multiset() =~= Multiset::<nat>::empty());
                assert(Multiset::<nat>::empty().add(Multiset::<nat>::empty()) =~= Multiset::<nat>::empty());
            }
        }
        while i < b_num_switches
            invariant
                i <= b_num_switches,
                b_num_switches <= n / 2,
                n == b@.len(),
                child_1_b@.len() == i,
                child_2_b@.len() == i,
                b_switches@.len() == i,
                self.extends(start),
                self.next_index() <= start.next_index() + 2 * a_num_switches + 2 * i,
                start.next_index() + permutation_wires(n as nat) <= u32::MAX,
                start.next_index() + 2 * (a_num_switches + b_num_switches) <= u32::MAX,
                p == F::modulus(),
                self.extends(after_a),
                forall|vals: Map<u32, nat>|
                    #![trigger self.satisfied(vals)]
                    self.satisfied(vals) && valid_assignment(vals, p) && is_prime(p) ==> expression_values(
                        b@.take(2 * i),
                        vals,
                    ).to_multiset() == expression_values(child_1_b@, vals).to_multiset().add(
                        expression_values(child_2_b@, vals).to_multiset(),
                    ),
            decreases b_num_switches - i,
        {
            let ghost before = *self;
            let ghost (c1, c2) = (child_1_b@, child_2_b@);
            let (switch, out_1, out_2) = self.create_switch(&b[i * 2], &b[i * 2 + 1]);
            proof {
                lemma_extends_trans(*self, before, start);
                lemma_extends_trans(*self, before, after_a);
            }
            b_switches.push(switch);
            child_1_b.push(out_1);
            child_2_b.push(out_2);
            proof {
                assert forall|vals: Map<u32, nat>| #![trigger self.satisfied(vals)]
                    self.satisfied(vals) && valid_assignment(vals, p) && is_prime(p) implies expression_values(
                    b@.take(2 * (i + 1)),
                    vals,
                ).to_multiset() == expression_values(child_1_b@, vals).to_multiset().add(
                    expression_values(child_2_b@, vals).to_multiset(),
                ) by {
                    lemma_satisfied_prefix(*self, before, vals);
                    lemma_take_two(b@, 2 * i, vals);
                    assert(2 * (i + 1) == 2 * i + 2);
                    lemma_push_multiset(c1, out_1, vals);
                    lemma_push_multiset(c2, out_2, vals);
                    let m1 = expression_values(c1, vals).to_multiset();
                    let m2 = expression_values(c2, vals).to_multiset();
                    let (x0, x1) = (b@[2 * i].eval(vals), b@[2 * i + 1].eval(vals));
                    assert(m1.add(m2).insert(x0).insert(x1) =~= m1.insert(x0).add(m2.insert(x1)));
                    assert(m1.add(m2).insert(x0).insert(x1) =~= m1.insert(x1).add(m2.insert(x0)));
                }
            }
            i += 1;
        }
        let ghost after_b = *self;
        let ghost (cb1, cb2) = (child_1_b@, child_2_b@);

        // See Figure 8 in the AS-Waksman paper.
        if even {
            let x = b[n - 2].copy();
            let y = b[n - 1].copy();
            child_1_b.push(x);
            child_2_b.push(y);
        } else {
            let x = a[n - 1].copy();
            let y = b[n - 1].copy();
            child_2_a.push(x);
            child_2_b.push(y);
        }
        proof {
            assert(permutation_wires(n as nat) == 2 * (a_num_switches + b_num_switches)
                + permutation_wires((n / 2) as nat) + permutation_wires((n - n / 2) as nat));
            assert(child_1_a@.len() == n / 2);
            assert(child_1_b@.len() == n / 2);
            assert(child_2_a@.len() == n - n / 2);
            assert(child_2_b@.len() == n - n / 2);
            assert forall|vals: Map<u32, nat>| #![trigger self.satisfied(vals)]
                self.satisfied(vals) && valid_assignment(vals, p) && is_prime(p) implies {
                &&& expression_values(a@, vals).to_multiset() == expression_values(child_1_a@, vals)
                    .to_multiset().add(expression_values(child_2_a@, vals).to_multiset())
                &&& expression_values(b@, vals).to_multiset() == expression_values(child_1_b@, vals)
                    .to_multiset().add(expression_values(child_2_b@, vals).to_multiset())
            } by {
                lemma_satisfied_prefix(*self, after_a, vals);
                assert(a@.take(a@.len() as int) =~= a@);
                assert(b@.take(b@.len() as int) =~= b@);
                let ma1 = expression_values(ca1, vals).to_multiset();
                let ma2 = expression_values(ca2, vals).to_multiset();
                let mb1 = expression_values(cb1, vals).to_multiset();
                let mb2 = expression_values(cb2, vals).to_multiset();
                if even {
                    assert(2 * a_num_switches == n);
                    assert(2 * b_num_switches == n - 2);
                    lemma_take_two(b@, n - 2, vals);
                    let e1 = child_1_b@.last();
                    let e2 = child_2_b@.last();
                    assert(child_1_b@ == cb1.push(e1));
                    assert(child_2_b@ == cb2.push(e2));
                    lemma_push_multiset(cb1, e1, vals);
                    lemma_push_multiset(cb2, e2, vals);
                    let (x, y) = (b@[n - 2].eval(vals), b@[n - 1].eval(vals));
                    assert(e1.eval(vals) == x);
                    assert(e2.eval(vals) == y);
                    assert(mb1.add(mb2).insert(x).insert(y) =~= mb1.insert(x).add(mb2.insert(y)));
                } else {
                    assert(2 * a_num_switches == n - 1);
                    assert(2 * b_num_switches == n - 1);
                    lemma_take_one(a@, n - 1, vals);
                    lemma_take_one(b@, n - 1, vals);
                    let ea = child_2_a@.last();
                    let eb = child_2_b@.last();
                    assert(child_2_a@ == ca2.push(ea));
                    assert(child_2_b@ == cb2.push(eb));
                    lemma_push_multiset(ca2, ea, vals);
                    lemma_push_multiset(cb2, eb, vals);
                    let (x, y) = (a@[n - 1].eval(vals), b@[n - 1].eval(vals));
                    assert(ea.eval(vals) == x);
                    assert(eb.eval(vals) == y);
                    assert(ma1.add(ma2).insert(x) =~= ma1.add(ma2.insert(x)));
                    assert(mb1.add(mb2).insert(y) =~= mb1.add(mb2.insert(y)));
                }
            }
        }
        let ghost mid = *self;
        self.assert_permutation(child_1_a.as_slice(), child_1_b.as_slice());
        let ghost mid2 = *self;
        self.assert_permutation(child_2_a.as_slice(), child_2_b.as_slice());
        proof {
            lemma_extends_trans(*self, mid2, mid);
            lemma_extends_trans(*self, mid, start);
        }

        let mut deps = all_dependencies(a);
        let mut b_deps = all_dependencies(b);
        deps.append(&mut b_deps);
        let ghost before_gen = *self;
        let gen = WitnessGenerator::new(
            deps,
            Generate::Route { a: copy_all(a), b: copy_all(b), a_switches, b_switches },
        );
        let ghost g = gen;
        self.generator(gen);
        proof {
            crate::comparisons::lemma_generator_extends(*self, before_gen, g);
            lemma_extends_trans(*self, before_gen, start);
            assert forall|vals: Map<u32, nat>| #![trigger self.satisfied(vals)]
                self.satisfied(vals) && valid_assignment(vals, p) && is_prime(p) implies expression_values(
                a@,
                vals,
            ).to_multiset() == expression_values(b@, vals).to_multiset() by {
                lemma_satisfied_prefix(*self, before_gen, vals);
                lemma_satisfied_prefix(before_gen, mid2, vals);
                lemma_satisfied_prefix(mid2, mid, vals);
            }
        }
    }
}

} // verus!
