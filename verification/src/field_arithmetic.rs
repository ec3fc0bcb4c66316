//! Gadgets for native field arithmetic.

use vstd::arithmetic::div_mod::*;
use vstd::arithmetic::mul::*;
use vstd::arithmetic::power::*;
use vstd::arithmetic::power2::*;
use vstd::prelude::*;

use crate::binary_expression::BooleanExpression;
use crate::constraint::{all_hold, rank1_holds};
use crate::expression::{assigns_all, eval_terms, raw_value, Expression};
use crate::primes::is_prime;
use crate::field::{field_mul, field_pow, field_sub, Element, Field};
use crate::gadget_builder::{
    lemma_extends_trans, lemma_insert_unused, lemma_one_eval, lemma_satisfied_prefix,
    lemma_single_wire_eval, valid_assignment, wires_below, GadgetBuilder,
};
use crate::natural::{bit_length, bit_of};
use crate::splitting::field_bits;
use crate::wire::ONE_WIRE_INDEX;
use crate::witness_generator::{Generate, WitnessGenerator};

verus! {

/// A constant term evaluates to its coefficient.
pub proof fn lemma_const_eval<F: Field>(s: Seq<(u32, nat)>, c: nat, vals: Map<u32, nat>)
    requires
        s == seq![(ONE_WIRE_INDEX, c)] || (s.len() == 0 && c == 0),
        c < F::modulus(),
        valid_assignment(vals, F::modulus()),
    ensures
        eval_terms(s, vals, F::modulus()) == c,
        assigns_all(s, vals),
{
    if s.len() == 0 {
        lemma_small_mod(0, F::modulus());
        return;
    }
    assert(s.drop_last() =~= Seq::<(u32, nat)>::empty());
    assert(crate::expression::raw_value(s.drop_last(), vals) == 0);
    assert(crate::expression::raw_value(s, vals) == c * 1);
    lemma_small_mod(c, F::modulus());
}

/// The expression of a constant evaluates to the constant.
pub proof fn lemma_element_eval<F: Field>(s: Seq<(u32, nat)>, c: nat, vals: Map<u32, nat>)
    requires
        c != 0 ==> s == seq![(ONE_WIRE_INDEX, c)],
        c == 0 ==> s == Seq::<(u32, nat)>::empty(),
        c < F::modulus(),
        valid_assignment(vals, F::modulus()),
    ensures
        eval_terms(s, vals, F::modulus()) == c,
        assigns_all(s, vals),
{
    if c != 0 {
        lemma_const_eval::<F>(s, c, vals);
    } else {
        lemma_small_mod(0, F::modulus());
    }
}

/// Every builder extends itself.
pub proof fn lemma_extends_refl<F: Field>(b: GadgetBuilder<F>)
    ensures
        b.extends(b),
{
    assert(b.constraint_seq() =~= b.constraint_seq().subrange(0, b.constraint_seq().len() as int));
    assert(b.generator_seq() =~= b.generator_seq().subrange(0, b.generator_seq().len() as int));
}

/// Multiplication modulo `p` is associative and commutative on reduced products.
pub proof fn lemma_mul_mod_assoc(a: nat, b: nat, c: nat, p: nat)
    requires
        p > 0,
    ensures
        field_mul(a, field_mul(b, c, p), p) == field_mul(b, field_mul(a, c, p), p),
        field_mul(a, b, p) == field_mul(b, a, p),
{
    lemma_mul_mod_noop_right(a as int, (b * c) as int, p as int);
    lemma_mul_mod_noop_right(b as int, (a * c) as int, p as int);
    lemma_mul_is_associative(a as int, b as int, c as int);
    lemma_mul_is_associative(b as int, a as int, c as int);
    lemma_mul_is_commutative(a as int, b as int);
}


/// Multiplying reduced powers of `x` adds their exponents.
pub proof fn lemma_pow_product(x: nat, a: nat, b: nat, p: nat)
    requires
        p > 0,
    ensures
        field_mul((pow(x as int, a) % (p as int)) as nat, (pow(x as int, b) % (p as int)) as nat, p)
            == pow(x as int, a + b) % (p as int),
{
    lemma_pow_positive_or_zero(x, a);
    lemma_pow_positive_or_zero(x, b);
    lemma_mul_mod_noop(pow(x as int, a), pow(x as int, b), p as int);
    lemma_pow_adds(x as int, a, b);
}

/// Powers of a natural number are natural numbers.
pub proof fn lemma_pow_positive_or_zero(x: nat, e: nat)
    ensures
        pow(x as int, e) >= 0,
    decreases e,
{
    reveal(pow);
    if e > 0 {
        lemma_pow_positive_or_zero(x, (e - 1) as nat);
        lemma_mul_nonnegative(x as int, pow(x as int, (e - 1) as nat));
    }
}

/// The low `i + 1` bits of `e` are its low `i` bits plus bit `i`.
pub proof fn lemma_low_bits_step(e: nat, i: nat)
    ensures
        bit_of(e, i) ==> e % pow2(i + 1) == e % pow2(i) + pow2(i),
        !bit_of(e, i) ==> e % pow2(i + 1) == e % pow2(i),
{
    lemma_pow2_pos(i);
    lemma_pow2_unfold(i + 1);
    lemma_mod_breakdown(e as int, pow2(i) as int, 2);
    lemma_mul_is_commutative(pow2(i) as int, 2);
    if bit_of(e, i) {
        assert(pow2(i) * 1 == pow2(i));
    } else {
        assert((e / pow2(i)) % 2 == 0);
        assert(pow2(i) * 0 == 0);
    }
}

/// One step of square-and-multiply: the power for the low `i + 1` bits of `e` is the power for
/// the low `i` bits, times `x^(2^i)` when bit `i` is set.
pub proof fn lemma_square_and_multiply_step(x: nat, e: nat, i: nat, m: nat)
    requires
        m > 0,
    ensures
        pow(x as int, e % pow2(i + 1)) % (m as int) == if bit_of(e, i) {
            field_mul(
                (pow(x as int, e % pow2(i)) % (m as int)) as nat,
                (pow(x as int, pow2(i)) % (m as int)) as nat,
                m,
            ) as int
        } else {
            pow(x as int, e % pow2(i)) % (m as int)
        },
{
    lemma_low_bits_step(e, i);
    let low = e % pow2(i);
    let next = e % pow2(i + 1);
    if bit_of(e, i) {
        assert(next == low + pow2(i));
        lemma_pow_product(x, low, pow2(i), m);
        assert(pow(x as int, next) == pow(x as int, low + pow2(i)));
    } else {
        assert(next == low);
        assert(pow(x as int, next) == pow(x as int, low));
    }
}

/// A number is below two to the power of its bit length.
pub proof fn lemma_below_bit_length(n: nat)
    ensures
        n < pow2(bit_length(n)),
    decreases n,
{
    if n == 0 {
        lemma2_to64();
    } else {
        lemma_below_bit_length(n / 2);
        lemma_pow2_unfold(bit_length(n));
    }
}

/// In `inverse_or_zero`, a zero result forces a zero input: from `x m = y`, `(1 - y) x = 0` and
/// `y m = 0` (all mod `p`), `y^2 = x (y m) = 0`, so `x y = x y^2 = 0` and `x = x y = 0`.
pub proof fn lemma_zero_result_zero_input(x: nat, y: nat, m: nat, p: nat)
    requires
        1 < p,
        x < p,
        field_mul(x, m, p) == y,
        field_mul(field_sub(1, y, p), x, p) == 0,
        field_mul(y, m, p) == 0,
    ensures
        x == 0,
{
    let (xi, yi, mi, pi) = (x as int, y as int, m as int, p as int);
    // y^2 = 0
    lemma_mul_mod_noop_right(yi, xi * mi, pi);
    lemma_mul_mod_noop_right(xi, yi * mi, pi);
    assert(yi * (xi * mi) == xi * (yi * mi)) by (nonlinear_arith);
    assert(xi * 0 == 0);
    lemma_small_mod(0, p);
    assert((yi * yi) % pi == 0);
    // (x - x y) = 0
    lemma_mul_mod_noop_left(1 - yi, xi, pi);
    assert((1 - yi) * xi == xi - xi * yi) by (nonlinear_arith);
    assert((xi - xi * yi) % pi == 0);
    // (x y - x y^2) = 0
    lemma_mul_mod_noop_left(xi - xi * yi, yi, pi);
    assert(0 * yi == 0);
    assert((xi - xi * yi) * yi == xi * yi - xi * (yi * yi)) by (nonlinear_arith);
    assert((xi * yi - xi * (yi * yi)) % pi == 0);
    // x y^2 = 0
    lemma_mul_mod_noop_right(xi, yi * yi, pi);
    assert((xi * (yi * yi)) % pi == 0);
    // x y = 0
    lemma_add_mod_noop(xi * yi - xi * (yi * yi), xi * (yi * yi), pi);
    assert((xi * yi) % pi == 0);
    // x = 0
    lemma_add_mod_noop(xi - xi * yi, xi * yi, pi);
    lemma_small_mod(x, p);
}

/// The terms are those of a constant: none (zero), or one on the constant-1 wire.
pub open spec fn constant_terms(s: Seq<(u32, nat)>) -> bool {
    s.len() == 0 || (s.len() == 1 && s[0].0 == ONE_WIRE_INDEX)
}

impl<F: Field> GadgetBuilder<F> {
    /// The product of two `Expression`s `x` and `y`, i.e. `x * y`.
    pub fn product(&mut self, x: &Expression<F>, y: &Expression<F>) -> (r: Expression<F>)
        requires
            old(self).has_room(1),
        ensures
            final(self).extends(*old(self)),
            final(self).next_index() <= old(self).next_index() + 1,
            forall|vals: Map<u32, nat>|
                #![trigger final(self).satisfied(vals)]
                final(self).satisfied(vals) && valid_assignment(vals, F::modulus()) ==> r.eval(vals)
                    == field_mul(x.eval(vals), y.eval(vals), F::modulus()),
            final(self).generator_seq().len() == old(self).generator_seq().len() <==> (
            constant_terms(x@) || constant_terms(y@)),
            !(constant_terms(x@) || constant_terms(y@)) ==> final(self).next_index() == old(
                self,
            ).next_index() + 1 && final(self).constraint_seq().len() == old(self).constraint_seq().len()
                + 1 && r@ == seq![((old(self).next_index()) as u32, 1nat)],
            final(self).generator_seq().len() == old(self).generator_seq().len() ==> *final(self)
                == *old(self) && forall|vals: Map<u32, nat>|
                #![trigger r.eval(vals)]
                valid_assignment(vals, F::modulus()) ==> r.eval(vals) == field_mul(
                    x.eval(vals),
                    y.eval(vals),
                    F::modulus(),
                ),
            final(self).generator_seq().len() != old(self).generator_seq().len()
                ==> final(self).generator_seq().len() == old(self).generator_seq().len() + 1 && forall|
                before: Map<u32, nat>,
                after: Map<u32, nat>,
            |
                #![trigger final(self).generator_seq().last().generated(before, after)]
                final(self).generator_seq().last().generated(before, after) && valid_assignment(
                    before,
                    F::modulus(),
                ) && assigns_all(x@, before) && assigns_all(y@, before) && wires_below(
                    x@,
                    old(self).next_index(),
                ) && wires_below(y@, old(self).next_index()) ==> all_hold(
                    final(self).constraint_seq().skip(old(self).constraint_seq().len() as int),
                    after,
                ) && r.eval(after) == field_mul(x.eval(before), y.eval(before), F::modulus()),
    {
        proof {
            use_type_invariant(x);
            use_type_invariant(y);
            lemma_extends_refl(*self);
        }
        if let Some(c) = x.as_constant() {
            let r = y.scale(&c);
            proof {
                use_type_invariant(&c);
                assert(x@ =~= seq![(ONE_WIRE_INDEX, c@)] || (x@.len() == 0 && c@ == 0));
                assert forall|vals: Map<u32, nat>| #![trigger r.eval(vals)]
                    valid_assignment(vals, F::modulus()) implies r.eval(vals)
                    == field_mul(x.eval(vals), y.eval(vals), F::modulus()) by {
                    lemma_const_eval::<F>(x@, c@, vals);
                }
            }
            return r;
        }
        if let Some(c) = y.as_constant() {
            let r = x.scale(&c);
            proof {
                use_type_invariant(&c);
                assert(y@ =~= seq![(ONE_WIRE_INDEX, c@)] || (y@.len() == 0 && c@ == 0));
                assert forall|vals: Map<u32, nat>| #![trigger r.eval(vals)]
                    valid_assignment(vals, F::modulus()) implies r.eval(vals)
                    == field_mul(x.eval(vals), y.eval(vals), F::modulus()) by {
                    lemma_const_eval::<F>(y@, c@, vals);
                    lemma_mul_is_commutative(c@ as int, x.eval(vals) as int);
                }
            }
            return r;
        }
        let ghost start = *self;
        let product = self.wire();
        let product_exp = Expression::from_wire(product);
        self.assert_product(x, y, &product_exp);
        let ghost mid = *self;
        let mut deps = x.dependencies();
        let mut y_deps = y.dependencies();
        deps.append(&mut y_deps);
        let gen = WitnessGenerator::new(deps, Generate::Product { x: x.copy(), y: y.copy(), output: product });
        let ghost gg = gen;
        self.generator(gen);
        proof {
            let p = F::modulus();
            let n0 = start.constraint_seq().len() as int;
            let cs = self.constraint_seq();
            assert(self.generator_seq().last() == gg);
            assert(cs.skip(n0).len() == 1);
            assert(cs.skip(n0)[0] == mid.constraint_seq().last());
            assert forall|before: Map<u32, nat>, after: Map<u32, nat>|
                #![trigger self.generator_seq().last().generated(before, after)]
                self.generator_seq().last().generated(before, after) && valid_assignment(before, p)
                    && assigns_all(x@, before) && assigns_all(y@, before) && wires_below(
                    x@,
                    start.next_index(),
                ) && wires_below(y@, start.next_index()) implies all_hold(cs.skip(n0), after)
                && product_exp.eval(after) == field_mul(x.eval(before), y.eval(before), p) by {
                let w = product.index;
                let v = field_mul(x.eval(before), y.eval(before), p);
                assert(after == before.insert(w, v));
                assert forall|i: int| 0 <= i < x@.len() implies #[trigger] x@[i].0 != w by {
                    assert(x@[i].0 < start.next_index());
                }
                assert forall|i: int| 0 <= i < y@.len() implies #[trigger] y@[i].0 != w by {
                    assert(y@[i].0 < start.next_index());
                }
                lemma_insert_unused(x@, before, w, v);
                lemma_insert_unused(y@, before, w, v);
                lemma_mod_bound((x.eval(before) * y.eval(before)) as int, p as int);
                assert(product_exp@[0].0 == w);
                lemma_single_wire_eval(product_exp@, w, after, p);
                assert(rank1_holds(x@, y@, product_exp@, after, p));
                assert forall|i: int| 0 <= i < cs.skip(n0).len() implies #[trigger] cs.skip(n0)[i].holds(after) by {
                    assert(cs.skip(n0)[0].a@ == x@);
                }
            }
            assert(self.extends(start)) by {
                assert(start.generator_seq() =~= self.generator_seq().subrange(
                    0,
                    start.generator_seq().len() as int,
                ));
            }
            assert forall|vals: Map<u32, nat>| #![trigger self.satisfied(vals)]
                self.satisfied(vals) && valid_assignment(vals, p) implies product_exp.eval(vals)
                == field_mul(x.eval(vals), y.eval(vals), p) by {
                assert(mid.satisfied(vals));
                assert(rank1_holds(x@, y@, product_exp@, vals, p));
                assert(product_exp@[0].0 == product.index);
                lemma_single_wire_eval(product_exp@, product.index, vals, p);
            }
        }
        product_exp
    }

    /// Returns `1 / x`, assuming `x` is non-zero. If `x` is zero, the gadget will not be
    /// satisfiable.
    pub fn inverse(&mut self, x: &Expression<F>) -> (r: Expression<F>)
        requires
            old(self).has_room(1),
        ensures
            final(self).extends(*old(self)),
            final(self).next_index() == old(self).next_index() + 1,
            forall|vals: Map<u32, nat>|
                #![trigger final(self).satisfied(vals)]
                final(self).satisfied(vals) && valid_assignment(vals, F::modulus()) ==> field_mul(
                    x.eval(vals),
                    r.eval(vals),
                    F::modulus(),
                ) == 1 && x.eval(vals) != 0,
            final(self).generator_seq().len() == old(self).generator_seq().len() + 1,
            forall|before: Map<u32, nat>, after: Map<u32, nat>|
                #![trigger final(self).generator_seq().last().generated(before, after)]
                final(self).generator_seq().last().generated(before, after) && valid_assignment(
                    before,
                    F::modulus(),
                ) && is_prime(F::modulus()) && assigns_all(x@, before) && x.eval(before) != 0
                    && 0 < old(self).next_index() && wires_below(x@, old(self).next_index()) ==> all_hold(
                    final(self).constraint_seq().skip(old(self).constraint_seq().len() as int),
                    after,
                ) && field_mul(x.eval(before), r.eval(after), F::modulus()) == 1,
    {
        let ghost start = *self;
        let x_inv = self.wire();
        let x_inv_exp = Expression::from_wire(x_inv);
        let one = Expression::one();
        self.assert_product(x, &x_inv_exp, &one);
        let ghost mid = *self;
        let gen = WitnessGenerator::new(x.dependencies(), Generate::Inverse { x: x.copy(), output: x_inv });
        let ghost gg = gen;
        self.generator(gen);
        proof {
            let p = F::modulus();
            let n0 = start.constraint_seq().len() as int;
            let cs = self.constraint_seq();
            use_type_invariant(x);
            assert(self.generator_seq().last() == gg);
            assert(cs.skip(n0).len() == 1);
            assert(cs.skip(n0)[0] == mid.constraint_seq().last());
            assert forall|before: Map<u32, nat>, after: Map<u32, nat>|
                #![trigger self.generator_seq().last().generated(before, after)]
                self.generator_seq().last().generated(before, after) && valid_assignment(before, p)
                    && is_prime(p) && assigns_all(x@, before) && x.eval(before) != 0
                    && 0 < start.next_index() && wires_below(x@, start.next_index()) implies all_hold(cs.skip(n0), after) && field_mul(x.eval(before), x_inv_exp.eval(after), p)
                == 1 by {
                let xv = x.eval(before);
                let w = x_inv.index;
                let v = field_pow(xv, (p - 2) as nat, p);
                assert(after == before.insert(w, v));
                assert forall|i: int| 0 <= i < x@.len() implies #[trigger] x@[i].0 != w by {
                    assert(x@[i].0 < start.next_index());
                }
                lemma_insert_unused(x@, before, w, v);
                lemma_mod_bound(pow(xv as int, (p - 2) as nat), p as int);
                assert(x_inv_exp@[0].0 == w);
                lemma_single_wire_eval(x_inv_exp@, w, after, p);
                crate::gadget_builder::lemma_eval_bound::<F>(x, before);
                crate::fermat::lemma_inverse(p, xv);
                assert(after.contains_key(ONE_WIRE_INDEX) && after[ONE_WIRE_INDEX] == 1);
                lemma_one_eval::<F>(one@, after);
                assert(rank1_holds(x@, x_inv_exp@, one@, after, p));
                assert forall|i: int| 0 <= i < cs.skip(n0).len() implies #[trigger] cs.skip(n0)[i].holds(after) by {
                    assert(cs.skip(n0)[0].a@ == x@);
                }
            }
            assert(self.extends(start)) by {
                assert(start.generator_seq() =~= self.generator_seq().subrange(
                    0,
                    start.generator_seq().len() as int,
                ));
            }
            assert forall|vals: Map<u32, nat>| #![trigger self.satisfied(vals)]
                self.satisfied(vals) && valid_assignment(vals, p) implies field_mul(
                x.eval(vals),
                x_inv_exp.eval(vals),
                p,
            ) == 1 && x.eval(vals) != 0 by {
                assert(mid.satisfied(vals));
                assert(rank1_holds(x@, x_inv_exp@, one@, vals, p));
                lemma_one_eval::<F>(one@, vals);
                if x.eval(vals) == 0 {
                    assert(0 * x_inv_exp.eval(vals) == 0);
                    lemma_small_mod(0, p);
                }
            }
        }
        x_inv_exp
    }

    /// Returns `x / y`, assuming `y` is non-zero. If `y` is zero, the gadget will not be
    /// satisfiable.
    pub fn quotient(&mut self, x: &Expression<F>, y: &Expression<F>) -> (r: Expression<F>)
        requires
            old(self).has_room(2),
        ensures
            final(self).extends(*old(self)),
            final(self).next_index() <= old(self).next_index() + 2,
            forall|vals: Map<u32, nat>|
                #![trigger final(self).satisfied(vals)]
                final(self).satisfied(vals) && valid_assignment(vals, F::modulus()) ==> field_mul(
                    y.eval(vals),
                    r.eval(vals),
                    F::modulus(),
                ) == x.eval(vals) && y.eval(vals) != 0,
    {
        let ghost start = *self;
        let y_inv = self.inverse(y);
        let ghost mid = *self;
        let r = self.product(x, &y_inv);
        proof {
            let p = F::modulus();
            lemma_extends_trans(*self, mid, start);
            assert forall|vals: Map<u32, nat>| #![trigger self.satisfied(vals)]
                self.satisfied(vals) && valid_assignment(vals, p) implies field_mul(
                y.eval(vals),
                r.eval(vals),
                p,
            ) == x.eval(vals) && y.eval(vals) != 0 by {
                lemma_satisfied_prefix(*self, mid, vals);
                let (a, b, c) = (y.eval(vals), x.eval(vals), y_inv.eval(vals));
                lemma_mul_mod_assoc(a, b, c, p);
                assert(field_mul(a, c, p) == 1);
                assert(b * 1 == b);
                crate::gadget_builder::lemma_eval_bound::<F>(x, vals);
                lemma_small_mod(b, p);
            }
        }
        r
    }

    /// Returns `x mod y`, assuming `y` is non-zero. If `y` is zero, the gadget will not be
    /// satisfiable.
    pub fn modulus(&mut self, x: &Expression<F>, y: &Expression<F>) -> (r: Expression<F>)
        requires
            crate::comparisons::comparable::<F>(),
            old(self).has_room(2 + crate::comparisons::compare_wires::<F>()),
        ensures
            final(self).extends(*old(self)),
            final(self).next_index() <= old(self).next_index() + 2
                + crate::comparisons::compare_wires::<F>(),
            forall|vals: Map<u32, nat>|
                #![trigger final(self).satisfied(vals)]
                final(self).satisfied(vals) && valid_assignment(vals, F::modulus()) ==> exists|
                    q: nat,
                |
                    #![trigger field_mul(y.eval(vals), q, F::modulus())]
                    field_mul(y.eval(vals), q, F::modulus()) == field_sub(
                        x.eval(vals),
                        r.eval(vals),
                        F::modulus(),
                    ),
            forall|vals: Map<u32, nat>|
                #![trigger final(self).satisfied(vals)]
                final(self).satisfied(vals) && valid_assignment(vals, F::modulus()) && is_prime(
                    F::modulus(),
                ) ==> r.eval(vals) < y.eval(vals),
    {
        // We will non-deterministically compute a quotient q and remainder r such that:
        //     y * q = x - r
        //     r < y
        let ghost start = *self;
        let q = self.wire();
        let rw = self.wire();
        let q_exp = Expression::from_wire(q);
        let r_exp = Expression::from_wire(rw);
        let x_minus_r = x.sub(&r_exp);
        self.assert_product(y, &q_exp, &x_minus_r);
        let ghost mid = *self;
        self.assert_lt(&r_exp, y);
        let ghost after_lt = *self;
        let mut deps = x.dependencies();
        let mut y_deps = y.dependencies();
        deps.append(&mut y_deps);
        let ghost before_gen = *self;
        self.generator(
            WitnessGenerator::new(
                deps,
                Generate::Modulus { x: x.copy(), y: y.copy(), quotient: q, remainder: rw },
            ),
        );
        proof {
            let p = F::modulus();
            assert(self.extends(before_gen)) by {
                assert(before_gen.generator_seq() =~= self.generator_seq().subrange(
                    0,
                    before_gen.generator_seq().len() as int,
                ));
                assert(before_gen.constraint_seq() =~= self.constraint_seq().subrange(
                    0,
                    before_gen.constraint_seq().len() as int,
                ));
            }
            lemma_extends_trans(*self, before_gen, mid);
            lemma_extends_trans(*self, mid, start);
            assert forall|vals: Map<u32, nat>| #![trigger self.satisfied(vals)]
                self.satisfied(vals) && valid_assignment(vals, p) implies exists|q: nat|
                #![trigger field_mul(y.eval(vals), q, p)]
                field_mul(y.eval(vals), q, p) == field_sub(x.eval(vals), r_exp.eval(vals), p) by {
                lemma_satisfied_prefix(*self, mid, vals);
                assert(rank1_holds(y@, q_exp@, x_minus_r@, vals, p));
                assert(x_minus_r.eval(vals) == field_sub(x.eval(vals), r_exp.eval(vals), p));
                let qv = q_exp.eval(vals);
                assert(field_mul(y.eval(vals), qv, p) == field_sub(x.eval(vals), r_exp.eval(vals), p));
            }
            assert forall|vals: Map<u32, nat>| #![trigger self.satisfied(vals)]
                self.satisfied(vals) && valid_assignment(vals, p) && is_prime(p) implies r_exp.eval(vals)
                < y.eval(vals) by {
                lemma_satisfied_prefix(*self, before_gen, vals);
                assert(before_gen == after_lt);
            }
        }
        r_exp
    }

    /// Returns whether `x` divides `y`, i.e. `x | y`.
    pub fn divides(&mut self, x: &Expression<F>, y: &Expression<F>) -> (r: BooleanExpression<F>)
        requires
            crate::comparisons::comparable::<F>(),
            old(self).has_room(4 + crate::comparisons::compare_wires::<F>()),
        ensures
            final(self).extends(*old(self)),
            final(self).next_index() <= old(self).next_index() + 4
                + crate::comparisons::compare_wires::<F>(),
            forall|vals: Map<u32, nat>|
                #![trigger final(self).satisfied(vals)]
                final(self).satisfied(vals) && valid_assignment(vals, F::modulus()) && is_prime(
                    F::modulus(),
                ) ==> x.eval(vals) > 0 && (r.eval(vals) == 0 || r.eval(vals) == 1) && (r.eval(vals)
                    == 1 ==> exists|q: nat|
                    #![trigger field_mul(x.eval(vals), q, F::modulus())]
                    field_mul(x.eval(vals), q, F::modulus()) == y.eval(vals)),
    {
        let ghost start = *self;
        let m = self.modulus(y, x);
        let ghost mid = *self;
        let r = self.zero(&m);
        proof {
            lemma_extends_trans(*self, mid, start);
            let p = F::modulus();
            assert forall|vals: Map<u32, nat>| #![trigger self.satisfied(vals)]
                self.satisfied(vals) && valid_assignment(vals, p) && is_prime(p) implies x.eval(vals)
                > 0 && (r.eval(vals) == 0 || r.eval(vals) == 1) && (r.eval(vals) == 1 ==> exists|q: nat|
                #![trigger field_mul(x.eval(vals), q, p)]
                field_mul(x.eval(vals), q, p) == y.eval(vals)) by {
                lemma_satisfied_prefix(*self, mid, vals);
                if r.eval(vals) == 1 {
                    assert(m.eval(vals) == 0);
                    let q = choose|q: nat| #![trigger field_mul(x.eval(vals), q, p)]
                        field_mul(x.eval(vals), q, p) == field_sub(y.eval(vals), m.eval(vals), p);
                    vstd::arithmetic::div_mod::lemma_mod_bound(raw_value(y@, vals), p as int);
                    vstd::arithmetic::div_mod::lemma_small_mod(y.eval(vals), p);
                    assert(field_sub(y.eval(vals), 0, p) == y.eval(vals));
                }
            }
        }
        r
    }

    /// `x^p` for a constant `p`, by square-and-multiply.
    pub fn exp(&mut self, x: &Expression<F>, p: &Element<F>) -> (r: Expression<F>)
        requires
            old(self).has_room(2 * field_bits::<F>()),
        ensures
            final(self).extends(*old(self)),
            final(self).next_index() <= old(self).next_index() + 2 * field_bits::<F>(),
            forall|vals: Map<u32, nat>|
                #![trigger final(self).satisfied(vals)]
                final(self).satisfied(vals) && valid_assignment(vals, F::modulus()) ==> r.eval(vals)
                    == crate::field::field_pow(x.eval(vals), p@, F::modulus()),
    {
        // This is exponentiation by squaring. For each 1 bit of p, multiply by the associated
        // square power.
        proof {
            use_type_invariant(p);
            crate::field::lemma_bit_length_monotonic(p@, (F::modulus() - 1) as nat);
        }
        let ghost start = *self;
        let ghost m = F::modulus();
        let ghost e = p@;
        let mut product = Expression::one();
        let mut last_square = Expression::zero();
        let n = p.bits();
        let mut i: usize = 0;
        proof {
            assert forall|vals: Map<u32, nat>| #![trigger self.satisfied(vals)]
                self.satisfied(vals) && valid_assignment(vals, m) implies product.eval(vals)
                == pow(x.eval(vals) as int, e % pow2(0)) % (m as int) by {
                lemma_one_eval::<F>(product@, vals);
                lemma2_to64();
                lemma_pow0(x.eval(vals) as int);
                lemma_small_mod(1, m);
            }
            lemma_extends_refl(*self);
        }
        while i < n
            invariant
                1 < m,
                m == F::modulus(),
                e == p@,
                n == bit_length(e),
                n <= field_bits::<F>(),
                i <= n,
                self.extends(start),
                self.next_index() <= start.next_index() + 2 * i,
                start.next_index() + 2 * field_bits::<F>() <= u32::MAX,
                forall|vals: Map<u32, nat>|
                    #![trigger self.satisfied(vals)]
                    self.satisfied(vals) && valid_assignment(vals, m) ==> product.eval(vals) == pow(
                        x.eval(vals) as int,
                        e % pow2(i as nat),
                    ) % (m as int) && (i > 0 ==> last_square.eval(vals) == pow(
                        x.eval(vals) as int,
                        pow2((i - 1) as nat),
                    ) % (m as int)),
            decreases n - i,
        {
            let ghost before = *self;
            proof {
                lemma_extends_refl(before);
            }
            let square = if i == 0 {
                x.copy()
            } else {
                self.product(&last_square, &last_square)
            };
            let ghost after_square = *self;
            proof {
                lemma_extends_trans(after_square, before, start);
                assert forall|vals: Map<u32, nat>| #![trigger after_square.satisfied(vals)]
                    after_square.satisfied(vals) && valid_assignment(vals, m) implies square.eval(vals)
                    == pow(x.eval(vals) as int, pow2(i as nat)) % (m as int) by {
                    let xv = x.eval(vals);
                    if i == 0 {
                        lemma2_to64();
                        lemma_pow1(xv as int);
                        crate::gadget_builder::lemma_eval_bound::<F>(x, vals);
                        lemma_small_mod(xv, m);
                    } else {
                        lemma_satisfied_prefix(after_square, before, vals);
                        lemma_pow_product(xv, pow2((i - 1) as nat), pow2((i - 1) as nat), m);
                        lemma_pow2_unfold(i as nat);
                    }
                }
                lemma_extends_refl(after_square);
            }
            let bit = p.bit(i);
            if bit {
                let next = self.product(&product, &square);
                product = next;
            }
            proof {
                lemma_extends_trans(*self, after_square, start);
                lemma_low_bits_step(e, i as nat);
                assert forall|vals: Map<u32, nat>| #![trigger self.satisfied(vals)]
                    self.satisfied(vals) && valid_assignment(vals, m) implies product.eval(vals)
                    == pow(x.eval(vals) as int, e % pow2((i + 1) as nat)) % (m as int)
                    && square.eval(vals) == pow(x.eval(vals) as int, pow2(i as nat)) % (m as int) by {
                    let xv = x.eval(vals);
                    lemma_satisfied_prefix(*self, after_square, vals);
                    lemma_satisfied_prefix(after_square, before, vals);
                    lemma_square_and_multiply_step(xv, e, i as nat, m);
                }
            }
            last_square = square;
            i += 1;
        }
        proof {
            assert forall|vals: Map<u32, nat>| #![trigger self.satisfied(vals)]
                self.satisfied(vals) && valid_assignment(vals, m) implies product.eval(vals)
                == crate::field::field_pow(x.eval(vals), e, m) by {
                lemma_below_bit_length(e);
                lemma_small_mod(e, pow2(n as nat));
            }
        }
        product
    }

    /// Returns `1 / x`, or 0 when `x` is 0.
    pub fn inverse_or_zero(&mut self, x: &Expression<F>) -> (r: Expression<F>)
        requires
            old(self).has_room(3),
        ensures
            final(self).extends(*old(self)),
            final(self).next_index() <= old(self).next_index() + 3,
            forall|vals: Map<u32, nat>|
                #![trigger final(self).satisfied(vals)]
                final(self).satisfied(vals) && valid_assignment(vals, F::modulus()) ==> (x.eval(vals)
                    == 0 <==> r.eval(vals) == 0),
            forall|vals: Map<u32, nat>|
                #![trigger final(self).satisfied(vals)]
                final(self).satisfied(vals) && valid_assignment(vals, F::modulus()) && is_prime(
                    F::modulus(),
                ) && x.eval(vals) != 0 ==> field_mul(x.eval(vals), r.eval(vals), F::modulus()) == 1,
    {
        // As in `nonzero`, y = [x != 0] and x * m = y; the result is y * m, which is 1 / x when x
        // is non-zero and 0 otherwise.
        let ghost start = *self;
        let y = self.wire();
        let m = self.wire();
        let y_exp = Expression::from_wire(y);
        let m_exp = Expression::from_wire(m);
        self.assert_product(x, &m_exp, &y_exp);
        let ghost s1 = *self;
        let one = Expression::one();
        let one_minus_y = one.sub(&y_exp);
        let zero = Expression::zero();
        self.assert_product(&one_minus_y, x, &zero);
        let ghost s2 = *self;
        let gen = WitnessGenerator::new(
            x.dependencies(),
            Generate::Nonzero { x: x.copy(), indicator: y, witness: m },
        );
        let ghost g = gen;
        self.generator(gen);
        let ghost s3 = *self;
        let r = self.product(&y_exp, &m_exp);
        proof {
            let p = F::modulus();
            crate::comparisons::lemma_generator_extends(s3, s2, g);
            lemma_extends_trans(s3, s2, s1);
            lemma_extends_trans(s3, s1, start);
            lemma_extends_trans(*self, s3, start);
            assert forall|vals: Map<u32, nat>| #![trigger self.satisfied(vals)]
                self.satisfied(vals) && valid_assignment(vals, p) implies (x.eval(vals) == 0
                <==> r.eval(vals) == 0) by {
                lemma_satisfied_prefix(*self, s3, vals);
                lemma_satisfied_prefix(s3, s1, vals);
                lemma_satisfied_prefix(s3, s2, vals);
                assert(s1.satisfied(vals));
                assert(rank1_holds(x@, m_exp@, y_exp@, vals, p));
                assert(rank1_holds(one_minus_y@, x@, zero@, vals, p));
                lemma_one_eval::<F>(one@, vals);
                crate::gadget_builder::lemma_zero_eval(zero@, vals, p);
                lemma_single_wire_eval(y_exp@, y.index, vals, p);
                lemma_single_wire_eval(m_exp@, m.index, vals, p);
                crate::gadget_builder::lemma_eval_bound::<F>(x, vals);
                assert(one_minus_y.eval(vals) == field_sub(1, y_exp.eval(vals), p));
                assert(r.eval(vals) == field_mul(y_exp.eval(vals), m_exp.eval(vals), p));
                if r.eval(vals) == 0 {
                    lemma_zero_result_zero_input(x.eval(vals), y_exp.eval(vals), m_exp.eval(vals), p);
                }
                if x.eval(vals) == 0 {
                    assert(0 * m_exp.eval(vals) == 0);
                    lemma_small_mod(0, p);
                    assert(y_exp.eval(vals) == 0);
                    assert(0 * m_exp.eval(vals) == 0);
                }
            }
            assert forall|vals: Map<u32, nat>| #![trigger self.satisfied(vals)]
                self.satisfied(vals) && valid_assignment(vals, p) && is_prime(p) && x.eval(vals) != 0
                implies field_mul(x.eval(vals), r.eval(vals), p) == 1 by {
                lemma_satisfied_prefix(*self, s3, vals);
                lemma_satisfied_prefix(s3, s1, vals);
                lemma_satisfied_prefix(s3, s2, vals);
                assert(rank1_holds(x@, m_exp@, y_exp@, vals, p));
                assert(rank1_holds(one_minus_y@, x@, zero@, vals, p));
                lemma_one_eval::<F>(one@, vals);
                crate::gadget_builder::lemma_zero_eval(zero@, vals, p);
                lemma_single_wire_eval(y_exp@, y.index, vals, p);
                lemma_single_wire_eval(m_exp@, m.index, vals, p);
                crate::gadget_builder::lemma_eval_bound::<F>(x, vals);
                let yv = y_exp.eval(vals);
                let mv = m_exp.eval(vals);
                assert(one_minus_y.eval(vals) == field_sub(1, yv, p));
                assert(field_mul(one_minus_y.eval(vals), x.eval(vals), p) == zero.eval(vals));
                crate::primes::lemma_sub_zero(1, yv, p);
                crate::primes::lemma_product_zero(field_sub(1, yv, p), x.eval(vals), p);
                assert(yv == 1);
                assert(1 * mv == mv);
                lemma_small_mod(mv, p);
                assert(r.eval(vals) == mv);
            }
        }
        r
    }
}

} // verus!
