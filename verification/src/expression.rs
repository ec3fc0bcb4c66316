//! Linear combinations of wires.

use vstd::arithmetic::div_mod::*;
use vstd::arithmetic::mul::*;
use vstd::prelude::*;

use crate::field::{Element, Field, field_neg, field_sub, field_pow, lemma_neg_value, lemma_sub_is_add_neg};
use crate::wire::{Wire, ONE_WIRE_INDEX};
use crate::wire_values::WireValues;

verus! {

/// Terms (wire index, coefficient) are sorted by strictly increasing wire index.
pub open spec fn wires_sorted(s: Seq<(u32, nat)>) -> bool {
    forall|i: int, j: int| 0 <= i < j < s.len() ==> s[i].0 < s[j].0
}

/// Well-formed terms: sorted by wire, with every coefficient in `(0, p)`.
pub open spec fn terms_wf(s: Seq<(u32, nat)>, p: nat) -> bool {
    &&& wires_sorted(s)
    &&& forall|i: int| 0 <= i < s.len() ==> 0 < #[trigger] s[i].1 < p
}

/// The coefficient of wire `w`: the sum of the coefficients of its terms.
pub open spec fn coefficient(s: Seq<(u32, nat)>, w: u32) -> nat
    decreases s.len(),
{
    if s.len() == 0 {
        0
    } else {
        coefficient(s.drop_last(), w) + if s.last().0 == w {
            s.last().1
        } else {
            0
        }
    }
}

/// No wire index occurs twice.
pub open spec fn distinct_wires(wires: Seq<Wire>) -> bool {
    forall|i: int, j: int|
        0 <= i < j < wires.len() ==> #[trigger] wires[i].index != #[trigger] wires[j].index
}

/// The sum of the wires' values, over the integers.
pub open spec fn wire_sum(wires: Seq<Wire>, vals: Map<u32, nat>) -> nat
    decreases wires.len(),
{
    if wires.len() == 0 {
        0
    } else {
        wire_sum(wires.drop_last(), vals) + vals[wires.last().index]
    }
}

/// How many times wire `w` occurs among `wires`.
pub open spec fn wire_count(wires: Seq<Wire>, w: u32) -> nat
    decreases wires.len(),
{
    if wires.len() == 0 {
        0
    } else {
        wire_count(wires.drop_last(), w) + if wires.last().index == w {
            1nat
        } else {
            0nat
        }
    }
}

/// The weighted sum of wire values, over the integers.
pub open spec fn raw_value(s: Seq<(u32, nat)>, vals: Map<u32, nat>) -> int
    decreases s.len(),
{
    if s.len() == 0 {
        0
    } else {
        raw_value(s.drop_last(), vals) + s.last().1 * vals[s.last().0]
    }
}

/// The value of a linear combination under a wire assignment, in `F_p`.
pub open spec fn eval_terms(s: Seq<(u32, nat)>, vals: Map<u32, nat>, p: nat) -> nat {
    (raw_value(s, vals) % (p as int)) as nat
}

/// Every wire that the terms mention is assigned.
pub open spec fn assigns_all(s: Seq<(u32, nat)>, vals: Map<u32, nat>) -> bool {
    forall|i: int| 0 <= i < s.len() ==> vals.contains_key(#[trigger] s[i].0)
}

/// The (wire index, coefficient value) view of exec terms.
pub open spec fn terms_view<F: Field>(v: Seq<(Wire, Element<F>)>) -> Seq<(u32, nat)> {
    v.map_values(|t: (Wire, Element<F>)| (t.0.index, t.1@))
}

/// A wire that no term mentions has coefficient zero.
pub proof fn lemma_coefficient_absent(s: Seq<(u32, nat)>, w: u32)
    requires
        forall|k: int| 0 <= k < s.len() ==> #[trigger] s[k].0 != w,
    ensures
        coefficient(s, w) == 0,
    decreases s.len(),
{
    if s.len() > 0 {
        let t = s.drop_last();
        assert forall|k: int| 0 <= k < t.len() implies #[trigger] t[k].0 != w by {
            assert(t[k] == s[k]);
        }
        lemma_coefficient_absent(t, w);
    }
}

/// In well-formed terms, a coefficient is below `p`, and it is that of the matching term.
pub proof fn lemma_coefficient_wf(s: Seq<(u32, nat)>, p: nat, w: u32)
    requires
        p > 0,
        terms_wf(s, p),
    ensures
        coefficient(s, w) < p,
        forall|k: int| 0 <= k < s.len() && #[trigger] s[k].0 == w ==> coefficient(s, w) == s[k].1,
        (forall|k: int| 0 <= k < s.len() ==> #[trigger] s[k].0 != w) ==> coefficient(s, w) == 0,
    decreases s.len(),
{
    if s.len() == 0 {
    } else {
        let t = s.drop_last();
        assert(terms_wf(t, p)) by {
            assert forall|i: int| 0 <= i < t.len() implies 0 < #[trigger] t[i].1 < p by {
                assert(t[i] == s[i]);
            }
        }
        lemma_coefficient_wf(t, p, w);
        if s.last().0 == w {
            assert forall|k: int| 0 <= k < t.len() implies #[trigger] t[k].0 != w by {
                assert(t[k] == s[k]);
                assert(s[k].0 < s[s.len() - 1].0);
            }
            lemma_coefficient_absent(t, w);
            assert(0 < s[s.len() - 1].1 < p);
            assert forall|k: int| 0 <= k < s.len() && #[trigger] s[k].0 == w implies coefficient(
                s,
                w,
            ) == s[k].1 by {
                if k < s.len() - 1 {
                    assert(s[k].0 < s[s.len() - 1].0);
                }
            }
        } else {
            assert forall|k: int| 0 <= k < s.len() && #[trigger] s[k].0 == w implies coefficient(
                s,
                w,
            ) == s[k].1 by {
                assert(k < s.len() - 1);
                assert(t[k] == s[k]);
            }
            if forall|k: int| 0 <= k < s.len() ==> #[trigger] s[k].0 != w {
                assert forall|k: int| 0 <= k < t.len() implies #[trigger] t[k].0 != w by {
                    assert(t[k] == s[k]);
                }
            }
        }
    }
}

/// Adding the same amount to congruent integers keeps them congruent.
pub proof fn lemma_congruent_add(x: int, y: int, t: int, p: int)
    requires
        p > 0,
        x % p == y % p,
    ensures
        (x + t) % p == (y + t) % p,
{
    lemma_add_mod_noop(x, t, p);
    lemma_add_mod_noop(y, t, p);
}

/// A reduced coefficient contributes the same term modulo `p`.
pub proof fn lemma_reduced_term(c: int, v: int, p: int)
    requires
        p > 0,
    ensures
        ((c % p) * v) % p == (c * v) % p,
{
    lemma_mul_mod_noop_left(c, v, p);
}

/// The sum, in `F_p`, of the values of several expressions.
pub open spec fn sum_evals<F: Field>(es: Seq<Expression<F>>, vals: Map<u32, nat>, p: nat) -> nat
    decreases es.len(),
{
    if es.len() == 0 {
        0
    } else {
        (sum_evals(es.drop_last(), vals, p) + es.last().eval(vals)) % p
    }
}

/// A linear combination of wires.
#[derive(Debug)]
pub struct Expression<F: Field> {
    /// The coefficient of each wire, sorted by wire. Wires with a coefficient of zero are
    /// omitted.
    terms: Vec<(Wire, Element<F>)>,
}

impl<F: Field> View for Expression<F> {
    type V = Seq<(u32, nat)>;

    closed spec fn view(&self) -> Seq<(u32, nat)> {
        terms_view(self.terms@)
    }
}

impl<F: Field> Expression<F> {
    /// The terms are sorted by wire and have non-zero coefficients below the field order.
    #[verifier::type_invariant]
    pub open spec fn inv(&self) -> bool {
        1 < F::modulus() && terms_wf(self@, F::modulus())
    }

    /// The value of this expression under a wire assignment.
    pub open spec fn eval(&self, vals: Map<u32, nat>) -> nat {
        eval_terms(self@, vals, F::modulus())
    }

    /// The expression with no terms, i.e. the constant 0.
    pub fn zero() -> (r: Self)
        ensures
            r@ == Seq::<(u32, nat)>::empty(),
    {
        let _ = F::order();
        let r = Expression { terms: Vec::new() };
        assert(r@ =~= Seq::<(u32, nat)>::empty());
        r
    }

    /// `c * w` for a single wire, or zero when `c` is zero.
    pub fn from_term(w: Wire, c: Element<F>) -> (r: Self)
        ensures
            c@ != 0 ==> r@ == seq![(w.index, c@)],
            c@ == 0 ==> r@ == Seq::<(u32, nat)>::empty(),
    {
        proof {
            use_type_invariant(&c);
        }
        if c.is_zero() {
            Self::zero()
        } else {
            let mut terms = Vec::new();
            terms.push((w, c));
            let r = Expression { terms };
            assert(r@ =~= seq![(w.index, c@)]);
            r
        }
    }

    /// The expression `1 * w`.
    pub fn from_wire(w: Wire) -> (r: Self)
        ensures
            r@ == seq![(w.index, 1nat)],
    {
        Self::from_term(w, Element::one())
    }

    /// The constant `c`, i.e. `c` times the constant-1 wire.
    pub fn from_element(c: &Element<F>) -> (r: Self)
        ensures
            c@ != 0 ==> r@ == seq![(ONE_WIRE_INDEX, c@)],
            c@ == 0 ==> r@ == Seq::<(u32, nat)>::empty(),
    {
        Self::from_term(Wire::one(), c.copy())
    }

    /// The constant `n`, which must be below the field order.
    pub fn from_u128(n: u128) -> (r: Self)
        requires
            n < F::modulus(),
        ensures
            n != 0 ==> r@ == seq![(ONE_WIRE_INDEX, n as nat)],
            n == 0 ==> r@ == Seq::<(u32, nat)>::empty(),
    {
        Self::from_element(&Element::from_u128(n))
    }

    /// The constant 0 or 1.
    pub fn from_bool(b: bool) -> (r: Self)
        ensures
            b ==> r@ == seq![(ONE_WIRE_INDEX, 1nat)],
            !b ==> r@ == Seq::<(u32, nat)>::empty(),
    {
        Self::from_element(&Element::from_bool(b))
    }

    pub fn one() -> (r: Self)
        ensures
            r@ == seq![(ONE_WIRE_INDEX, 1nat)],
    {
        Self::from_element(&Element::one())
    }

    pub fn copy(&self) -> (r: Self)
        ensures
            r@ == self@,
    {
        proof {
            use_type_invariant(self);
        }
        let mut out: Vec<(Wire, Element<F>)> = Vec::new();
        let mut i: usize = 0;
        while i < self.terms.len()
            invariant
                0 <= i <= self.terms@.len(),
                terms_view(out@) =~= self@.take(i as int),
            decreases self.terms@.len() - i,
        {
            let t = &self.terms[i];
            let ghost old_out = out@;
            out.push((t.0, t.1.copy()));
            proof {
                assert(terms_view(out@) =~= terms_view(old_out).push(self@[i as int]));
                assert(self@.take(i + 1) =~= self@.take(i as int).push(self@[i as int]));
            }
            i += 1;
        }
        assert(self@.take(self.terms@.len() as int) =~= self@);
        Expression { terms: out }
    }

    /// The sum of two expressions: each coefficient is the sum of the two coefficients.
    pub fn add(&self, rhs: &Self) -> (r: Self)
        ensures
            forall|w: u32|
                #![trigger coefficient(r@, w)]
                coefficient(r@, w) == (coefficient(self@, w) + coefficient(rhs@, w))
                    % F::modulus(),
            forall|vals: Map<u32, nat>|
                #![trigger r.eval(vals)]
                r.eval(vals) == (self.eval(vals) + rhs.eval(vals)) % F::modulus(),
    {
        proof {
            use_type_invariant(self);
            use_type_invariant(rhs);
        }
        let ghost p = F::modulus();
        let ghost sa = self@;
        let ghost sb = rhs@;
        let a = &self.terms;
        let b = &rhs.terms;
        let mut out: Vec<(Wire, Element<F>)> = Vec::new();
        let mut i: usize = 0;
        let mut j: usize = 0;
        proof {
            assert(terms_view(out@) =~= Seq::<(u32, nat)>::empty());
            assert(sa.take(0) =~= Seq::<(u32, nat)>::empty());
            assert(sb.take(0) =~= Seq::<(u32, nat)>::empty());
            lemma_small_mod(0, p);
        }
        while i < a.len() || j < b.len()
            invariant
                1 < p,
                p == F::modulus(),
                sa == terms_view(a@),
                sb == terms_view(b@),
                terms_wf(sa, p),
                terms_wf(sb, p),
                0 <= i <= a@.len(),
                0 <= j <= b@.len(),
                terms_wf(terms_view(out@), p),
                forall|k: int|
                    0 <= k < out@.len() ==> (i < a@.len() ==> #[trigger] terms_view(out@)[k].0
                        < sa[i as int].0) && (j < b@.len() ==> terms_view(out@)[k].0
                        < sb[j as int].0),
                forall|k: int|
                    0 <= k < i ==> (j < b@.len() ==> #[trigger] sa[k].0 < sb[j as int].0),
                forall|k: int|
                    0 <= k < j ==> (i < a@.len() ==> #[trigger] sb[k].0 < sa[i as int].0),
                forall|w: u32|
                    #![trigger coefficient(terms_view(out@), w)]
                    coefficient(terms_view(out@), w) == (coefficient(sa.take(i as int), w)
                        + coefficient(sb.take(j as int), w)) % p,
                forall|vals: Map<u32, nat>|
                    #![trigger raw_value(terms_view(out@), vals)]
                    raw_value(terms_view(out@), vals) % (p as int) == (raw_value(
                        sa.take(i as int),
                        vals,
                    ) + raw_value(sb.take(j as int), vals)) % (p as int),
            decreases a@.len() - i + b@.len() - j,
        {
            let ghost old_out = terms_view(out@);
            let ghost old_i = i;
            let ghost old_j = j;
            if j >= b.len() || (i < a.len() && a[i].0.index < b[j].0.index) {
                let w = a[i].0;
                let c = a[i].1.copy();
                out.push((w, c));
                i += 1;
                proof {
                    let t = sa[old_i as int];
                    assert(terms_view(out@) =~= old_out.push(t));
                    assert(terms_view(out@).drop_last() =~= old_out);
                    assert(terms_view(out@).last() == t);
                    assert(terms_view(out@).len() > 0);
                    assert(sa.take(i as int).drop_last() =~= sa.take(old_i as int));
                    assert(sa.take(i as int).last() == t);
                    assert forall|k: int| 0 <= k < old_out.len() implies #[trigger] old_out[k].0
                        != t.0 by {}
                    lemma_coefficient_absent(old_out, t.0);
                    assert forall|k: int| 0 <= k < old_i implies #[trigger] sa.take(
                        old_i as int,
                    )[k].0 != t.0 by {
                        assert(sa[k].0 < sa[old_i as int].0);
                    }
                    lemma_coefficient_absent(sa.take(old_i as int), t.0);
                    assert forall|k: int| 0 <= k < old_j implies #[trigger] sb.take(
                        old_j as int,
                    )[k].0 != t.0 by {}
                    lemma_coefficient_absent(sb.take(old_j as int), t.0);
                    assert forall|w: u32|
                        #![trigger coefficient(terms_view(out@), w)]
                        coefficient(terms_view(out@), w) == (coefficient(sa.take(i as int), w)
                            + coefficient(sb.take(j as int), w)) % p by {
                        assert(coefficient(old_out, w) == (coefficient(sa.take(old_i as int), w)
                            + coefficient(sb.take(old_j as int), w)) % p);
                        assert(coefficient(terms_view(out@), w) == coefficient(old_out, w) + (
                        if t.0 == w {
                            t.1
                        } else {
                            0
                        }));
                        assert(0 < t.1 < p);
                        if w == t.0 {
                            lemma_small_mod(t.1, p);
                        }
                    }
                    assert forall|vals: Map<u32, nat>|
                        #![trigger raw_value(terms_view(out@), vals)]
                        raw_value(terms_view(out@), vals) % (p as int) == (raw_value(
                            sa.take(i as int),
                            vals,
                        ) + raw_value(sb.take(j as int), vals)) % (p as int) by {
                        assert(raw_value(old_out, vals) % (p as int) == (raw_value(
                            sa.take(old_i as int),
                            vals,
                        ) + raw_value(sb.take(old_j as int), vals)) % (p as int));
                        assert(raw_value(terms_view(out@), vals) == raw_value(old_out, vals) + t.1
                            * vals[t.0]);
                        lemma_congruent_add(
                            raw_value(old_out, vals),
                            raw_value(sa.take(old_i as int), vals) + raw_value(
                                sb.take(old_j as int),
                                vals,
                            ),
                            (t.1 * vals[t.0]) as int,
                            p as int,
                        );
                    }
                    assert forall|k: int|
                        0 <= k < out@.len() implies (i < a@.len() ==> #[trigger] terms_view(
                        out@,
                    )[k].0 < sa[i as int].0) && (j < b@.len() ==> terms_view(out@)[k].0
                        < sb[j as int].0) by {
                        if k < old_out.len() {
                            assert(terms_view(out@)[k] == old_out[k]);
                        }
                    }
                }
            } else if i >= a.len() || b[j].0.index < a[i].0.index {
                let w = b[j].0;
                let c = b[j].1.copy();
                out.push((w, c));
                j += 1;
                proof {
                    let t = sb[old_j as int];
                    assert(terms_view(out@) =~= old_out.push(t));
                    assert(terms_view(out@).drop_last() =~= old_out);
                    assert(terms_view(out@).last() == t);
                    assert(terms_view(out@).len() > 0);
                    assert(sb.take(j as int).drop_last() =~= sb.take(old_j as int));
                    assert(sb.take(j as int).last() == t);
                    assert forall|k: int| 0 <= k < old_out.len() implies #[trigger] old_out[k].0
                        != t.0 by {}
                    lemma_coefficient_absent(old_out, t.0);
                    assert forall|k: int| 0 <= k < old_j implies #[trigger] sb.take(
                        old_j as int,
                    )[k].0 != t.0 by {
                        assert(sb[k].0 < sb[old_j as int].0);
                    }
                    lemma_coefficient_absent(sb.take(old_j as int), t.0);
                    assert forall|k: int| 0 <= k < old_i implies #[trigger] sa.take(
                        old_i as int,
                    )[k].0 != t.0 by {}
                    lemma_coefficient_absent(sa.take(old_i as int), t.0);
                    assert forall|w: u32|
                        #![trigger coefficient(terms_view(out@), w)]
                        coefficient(terms_view(out@), w) == (coefficient(sa.take(i as int), w)
                            + coefficient(sb.take(j as int), w)) % p by {
                        assert(coefficient(old_out, w) == (coefficient(sa.take(old_i as int), w)
                            + coefficient(sb.take(old_j as int), w)) % p);
                        assert(coefficient(terms_view(out@), w) == coefficient(old_out, w) + (
                        if t.0 == w {
                            t.1
                        } else {
                            0
                        }));
                        assert(0 < t.1 < p);
                        if w == t.0 {
                            lemma_small_mod(t.1, p);
                        }
                    }
                    assert forall|vals: Map<u32, nat>|
                        #![trigger raw_value(terms_view(out@), vals)]
                        raw_value(terms_view(out@), vals) % (p as int) == (raw_value(
                            sa.take(i as int),
                            vals,
                        ) + raw_value(sb.take(j as int), vals)) % (p as int) by {
                        assert(raw_value(old_out, vals) % (p as int) == (raw_value(
                            sa.take(old_i as int),
                            vals,
                        ) + raw_value(sb.take(old_j as int), vals)) % (p as int));
                        assert(raw_value(terms_view(out@), vals) == raw_value(old_out, vals) + t.1
                            * vals[t.0]);
                        lemma_congruent_add(
                            raw_value(old_out, vals),
                            raw_value(sa.take(old_i as int), vals) + raw_value(
                                sb.take(old_j as int),
                                vals,
                            ),
                            (t.1 * vals[t.0]) as int,
                            p as int,
                        );
                    }
                    assert forall|k: int|
                        0 <= k < out@.len() implies (i < a@.len() ==> #[trigger] terms_view(
                        out@,
                    )[k].0 < sa[i as int].0) && (j < b@.len() ==> terms_view(out@)[k].0
                        < sb[j as int].0) by {
                        if k < old_out.len() {
                            assert(terms_view(out@)[k] == old_out[k]);
                        }
                    }
                }
            } else {
                let w = a[i].0;
                let c = a[i].1.add(&b[j].1);
                proof {
                    use_type_invariant(&c);
                }
                let nonzero = c.is_nonzero();
                if nonzero {
                    out.push((w, c));
                }
                i += 1;
                j += 1;
                proof {
                    let ta = sa[old_i as int];
                    let tb = sb[old_j as int];
                    let cv = (ta.1 + tb.1) % p;
                    assert(ta.0 == tb.0);
                    assert(0 < ta.1 < p);
                    assert(0 < tb.1 < p);
                    if nonzero {
                        assert(terms_view(out@) =~= old_out.push((ta.0, cv)));
                        assert(terms_view(out@).drop_last() =~= old_out);
                        assert(terms_view(out@).last() == (ta.0, cv));
                        assert(terms_view(out@).len() > 0);
                    } else {
                        assert(terms_view(out@) =~= old_out);
                    }
                    assert forall|w: u32| #[trigger]
                        coefficient(terms_view(out@), w) == coefficient(old_out, w) + (
                        if ta.0 == w {
                            cv
                        } else {
                            0
                        }) by {}
                    assert forall|vals: Map<u32, nat>| #[trigger]
                        raw_value(terms_view(out@), vals) == raw_value(old_out, vals) + cv
                            * vals[ta.0] by {
                        if !nonzero {
                            assert(cv == 0);
                            assert(0 * vals[ta.0] == 0);
                        }
                    }
                    assert(sa.take(i as int).drop_last() =~= sa.take(old_i as int));
                    assert(sa.take(i as int).last() == ta);
                    assert(sb.take(j as int).drop_last() =~= sb.take(old_j as int));
                    assert(sb.take(j as int).last() == tb);
                    assert forall|k: int| 0 <= k < old_out.len() implies #[trigger] old_out[k].0
                        != ta.0 by {}
                    lemma_coefficient_absent(old_out, ta.0);
                    assert forall|k: int| 0 <= k < old_i implies #[trigger] sa.take(
                        old_i as int,
                    )[k].0 != ta.0 by {
                        assert(sa[k].0 < sa[old_i as int].0);
                    }
                    lemma_coefficient_absent(sa.take(old_i as int), ta.0);
                    assert forall|k: int| 0 <= k < old_j implies #[trigger] sb.take(
                        old_j as int,
                    )[k].0 != ta.0 by {
                        assert(sb[k].0 < sb[old_j as int].0);
                    }
                    lemma_coefficient_absent(sb.take(old_j as int), ta.0);
                    assert forall|w: u32|
                        #![trigger coefficient(terms_view(out@), w)]
                        coefficient(terms_view(out@), w) == (coefficient(sa.take(i as int), w)
                            + coefficient(sb.take(j as int), w)) % p by {
                        assert(coefficient(old_out, w) == (coefficient(sa.take(old_i as int), w)
                            + coefficient(sb.take(old_j as int), w)) % p);
                        assert(coefficient(sa.take(i as int), w) == coefficient(
                            sa.take(old_i as int),
                            w,
                        ) + if ta.0 == w {
                            ta.1
                        } else {
                            0
                        });
                        assert(coefficient(sb.take(j as int), w) == coefficient(
                            sb.take(old_j as int),
                            w,
                        ) + if tb.0 == w {
                            tb.1
                        } else {
                            0
                        });
                        if w == ta.0 {
                            lemma_small_mod(cv, p);
                        }
                    }
                    assert forall|vals: Map<u32, nat>|
                        #![trigger raw_value(terms_view(out@), vals)]
                        raw_value(terms_view(out@), vals) % (p as int) == (raw_value(
                            sa.take(i as int),
                            vals,
                        ) + raw_value(sb.take(j as int), vals)) % (p as int) by {
                        let x = raw_value(old_out, vals);
                        let y = raw_value(sa.take(old_i as int), vals) + raw_value(
                            sb.take(old_j as int),
                            vals,
                        );
                        let v = vals[ta.0] as int;
                        assert(x % (p as int) == y % (p as int));
                        lemma_reduced_term((ta.1 + tb.1) as int, v, p as int);
                        lemma_congruent_add(x, y, cv * v, p as int);
                        lemma_congruent_add(y, y, cv * v, p as int);
                        lemma_add_mod_noop(y, cv * v, p as int);
                        lemma_add_mod_noop(y, (ta.1 + tb.1) * v, p as int);
                        assert((ta.1 + tb.1) * v == ta.1 * v + tb.1 * v) by (nonlinear_arith);
                        if !nonzero {
                            assert(cv == 0);
                            assert(cv * v == 0);
                        }
                    }
                    assert forall|k: int|
                        0 <= k < out@.len() implies (i < a@.len() ==> #[trigger] terms_view(
                        out@,
                    )[k].0 < sa[i as int].0) && (j < b@.len() ==> terms_view(out@)[k].0
                        < sb[j as int].0) by {
                        if k < old_out.len() {
                            assert(terms_view(out@)[k] == old_out[k]);
                        }
                    }
                }
            }
        }
        proof {
            assert(sa.take(sa.len() as int) =~= sa);
            assert(sb.take(sb.len() as int) =~= sb);
            assert forall|vals: Map<u32, nat>|
                #![trigger raw_value(terms_view(out@), vals)]
                (raw_value(terms_view(out@), vals) % (p as int)) as nat == (eval_terms(
                    sa,
                    vals,
                    p,
                ) + eval_terms(sb, vals, p)) % p by {
                lemma_add_mod_noop(raw_value(sa, vals), raw_value(sb, vals), p as int);
            }
        }
        Expression { terms: out }
    }

    /// Multiplies every coefficient by `c`.
    pub fn scale(&self, c: &Element<F>) -> (r: Self)
        ensures
            forall|w: u32|
                #![trigger coefficient(r@, w)]
                coefficient(r@, w) == (c@ * coefficient(self@, w)) % F::modulus(),
            forall|vals: Map<u32, nat>|
                #![trigger r.eval(vals)]
                r.eval(vals) == (c@ * self.eval(vals)) % F::modulus(),
    {
        proof {
            use_type_invariant(self);
            use_type_invariant(c);
        }
        let ghost p = F::modulus();
        let ghost sa = self@;
        let a = &self.terms;
        let mut out: Vec<(Wire, Element<F>)> = Vec::new();
        let mut i: usize = 0;
        proof {
            assert(terms_view(out@) =~= Seq::<(u32, nat)>::empty());
            assert(sa.take(0) =~= Seq::<(u32, nat)>::empty());
            lemma_small_mod(0, p);
            assert forall|w: u32| #[trigger] coefficient(terms_view(out@), w) == (c@ * coefficient(
                sa.take(0),
                w,
            )) % p by {
                assert(c@ * 0 == 0);
            }
            assert forall|vals: Map<u32, nat>| #[trigger]
                raw_value(terms_view(out@), vals) % (p as int) == (c@ * raw_value(
                    sa.take(0),
                    vals,
                )) % (p as int) by {
                assert(c@ * 0 == 0);
            }
        }
        while i < a.len()
            invariant
                1 < p,
                p == F::modulus(),
                sa == terms_view(a@),
                terms_wf(sa, p),
                c@ < p,
                0 <= i <= a@.len(),
                terms_wf(terms_view(out@), p),
                forall|k: int|
                    0 <= k < out@.len() ==> (i < a@.len() ==> #[trigger] terms_view(out@)[k].0
                        < sa[i as int].0),
                forall|w: u32|
                    #![trigger coefficient(terms_view(out@), w)]
                    coefficient(terms_view(out@), w) == (c@ * coefficient(sa.take(i as int), w)) % p,
                forall|vals: Map<u32, nat>|
                    #![trigger raw_value(terms_view(out@), vals)]
                    raw_value(terms_view(out@), vals) % (p as int) == (c@ * raw_value(
                        sa.take(i as int),
                        vals,
                    )) % (p as int),
            decreases a@.len() - i,
        {
            let ghost old_out = terms_view(out@);
            let ghost old_i = i;
            let w = a[i].0;
            let v = a[i].1.mul(c);
            proof {
                use_type_invariant(&v);
            }
            let nonzero = v.is_nonzero();
            if nonzero {
                out.push((w, v));
            }
            i += 1;
            proof {
                let t = sa[old_i as int];
                let cv = (t.1 * c@) % p;
                assert(0 < t.1 < p);
                if nonzero {
                    assert(terms_view(out@) =~= old_out.push((t.0, cv)));
                    assert(terms_view(out@).drop_last() =~= old_out);
                    assert(terms_view(out@).last() == (t.0, cv));
                    assert(terms_view(out@).len() > 0);
                } else {
                    assert(terms_view(out@) =~= old_out);
                }
                assert(sa.take(i as int).drop_last() =~= sa.take(old_i as int));
                assert(sa.take(i as int).last() == t);
                assert forall|k: int| 0 <= k < old_out.len() implies #[trigger] old_out[k].0
                    != t.0 by {}
                lemma_coefficient_absent(old_out, t.0);
                assert forall|k: int| 0 <= k < old_i implies #[trigger] sa.take(old_i as int)[k].0
                    != t.0 by {
                    assert(sa[k].0 < sa[old_i as int].0);
                }
                lemma_coefficient_absent(sa.take(old_i as int), t.0);
                assert forall|w: u32|
                    #![trigger coefficient(terms_view(out@), w)]
                    coefficient(terms_view(out@), w) == (c@ * coefficient(sa.take(i as int), w))
                        % p by {
                    assert(coefficient(old_out, w) == (c@ * coefficient(sa.take(old_i as int), w))
                        % p);
                    assert(coefficient(terms_view(out@), w) == coefficient(old_out, w) + (
                    if t.0 == w {
                        cv
                    } else {
                        0
                    }));
                    assert(coefficient(sa.take(i as int), w) == coefficient(
                        sa.take(old_i as int),
                        w,
                    ) + if t.0 == w {
                        t.1
                    } else {
                        0
                    });
                    if w == t.0 {
                        assert(c@ * 0 == 0);
                        lemma_small_mod(0, p);
                        lemma_mod_bound((t.1 * c@) as int, p as int);
                        assert(c@ * (0 + t.1) == t.1 * c@) by (nonlinear_arith);
                    }
                }
                assert forall|vals: Map<u32, nat>|
                    #![trigger raw_value(terms_view(out@), vals)]
                    raw_value(terms_view(out@), vals) % (p as int) == (c@ * raw_value(
                        sa.take(i as int),
                        vals,
                    )) % (p as int) by {
                    let x = raw_value(old_out, vals);
                    let y = c@ * raw_value(sa.take(old_i as int), vals);
                    let val = vals[t.0] as int;
                    assert(x % (p as int) == y % (p as int));
                    if nonzero {
                        assert(raw_value(terms_view(out@), vals) == x + cv * val);
                    } else {
                        assert(cv == 0);
                        assert(0 * val == 0);
                        assert(raw_value(terms_view(out@), vals) == x + cv * val);
                    }
                    assert(raw_value(sa.take(i as int), vals) == raw_value(
                        sa.take(old_i as int),
                        vals,
                    ) + t.1 * val);
                    lemma_reduced_term((t.1 * c@) as int, val, p as int);
                    lemma_congruent_add(x, y, cv * val, p as int);
                    lemma_add_mod_noop(y, cv * val, p as int);
                    lemma_add_mod_noop(y, (t.1 * c@) * val, p as int);
                    let rv = raw_value(sa.take(old_i as int), vals);
                    let cc = c@ as int;
                    let t1 = t.1 as int;
                    assert(cc * (rv + t1 * val) == cc * rv + (t1 * cc) * val) by (nonlinear_arith);
                }
                assert forall|k: int|
                    0 <= k < out@.len() implies (i < a@.len() ==> #[trigger] terms_view(out@)[k].0
                    < sa[i as int].0) by {
                    if k < old_out.len() {
                        assert(terms_view(out@)[k] == old_out[k]);
                    }
                }
            }
        }
        proof {
            assert(sa.take(sa.len() as int) =~= sa);
            assert forall|vals: Map<u32, nat>|
                #![trigger raw_value(terms_view(out@), vals)]
                (raw_value(terms_view(out@), vals) % (p as int)) as nat == (c@ * eval_terms(
                    sa,
                    vals,
                    p,
                )) % p by {
                lemma_mul_mod_noop_right(c@ as int, raw_value(sa, vals), p as int);
            }
        }
        Expression { terms: out }
    }

    /// The additive inverse.
    pub fn neg(&self) -> (r: Self)
        ensures
            forall|w: u32|
                #![trigger coefficient(r@, w)]
                coefficient(r@, w) == field_neg(coefficient(self@, w), F::modulus()),
            forall|vals: Map<u32, nat>|
                #![trigger r.eval(vals)]
                r.eval(vals) == field_neg(self.eval(vals), F::modulus()),
    {
        proof {
            use_type_invariant(self);
        }
        let m = Element::<F>::one().neg();
        let r = self.scale(&m);
        proof {
            let p = F::modulus();
            lemma_neg_value(1, p);
            assert forall|w: u32| #![trigger coefficient(r@, w)] coefficient(r@, w) == field_neg(
                coefficient(self@, w),
                p,
            ) by {
                lemma_minus_one_times((coefficient(self@, w)) as int, p as int);
            }
            assert forall|vals: Map<u32, nat>| #![trigger r.eval(vals)] r.eval(vals) == field_neg(
                self.eval(vals),
                p,
            ) by {
                lemma_minus_one_times(self.eval(vals) as int, p as int);
            }
        }
        r
    }

    /// The difference of two expressions.
    pub fn sub(&self, rhs: &Self) -> (r: Self)
        ensures
            forall|w: u32|
                #![trigger coefficient(r@, w)]
                coefficient(r@, w) == field_sub(
                    coefficient(self@, w),
                    coefficient(rhs@, w),
                    F::modulus(),
                ),
            forall|vals: Map<u32, nat>|
                #![trigger r.eval(vals)]
                r.eval(vals) == field_sub(self.eval(vals), rhs.eval(vals), F::modulus()),
    {
        proof {
            use_type_invariant(self);
        }
        let n = rhs.neg();
        let r = self.add(&n);
        proof {
            let p = F::modulus();
            assert forall|w: u32| #![trigger coefficient(r@, w)] coefficient(r@, w) == field_sub(
                coefficient(self@, w),
                coefficient(rhs@, w),
                p,
            ) by {
                lemma_sub_is_add_neg(coefficient(self@, w), coefficient(rhs@, w), p);
            }
            assert forall|vals: Map<u32, nat>| #![trigger r.eval(vals)] r.eval(vals) == field_sub(
                self.eval(vals),
                rhs.eval(vals),
                p,
            ) by {
                lemma_sub_is_add_neg(self.eval(vals), rhs.eval(vals), p);
            }
        }
        r
    }

    /// Multiplies every coefficient by the constant `n`, which must be below the field order.
    pub fn mul_u128(&self, n: u128) -> (r: Self)
        requires
            n < F::modulus(),
        ensures
            forall|w: u32|
                #![trigger coefficient(r@, w)]
                coefficient(r@, w) == ((n as nat) * coefficient(self@, w)) % F::modulus(),
            forall|vals: Map<u32, nat>|
                #![trigger r.eval(vals)]
                r.eval(vals) == ((n as nat) * self.eval(vals)) % F::modulus(),
    {
        self.scale(&Element::from_u128(n))
    }

    /// Divides every coefficient by the non-zero constant `c`, i.e. multiplies by its inverse.
    pub fn div(&self, c: &Element<F>) -> (r: Self)
        requires
            c@ != 0,
        ensures
            forall|w: u32|
                #![trigger coefficient(r@, w)]
                coefficient(r@, w) == (field_pow(c@, (F::modulus() - 2) as nat, F::modulus())
                    * coefficient(self@, w)) % F::modulus(),
    {
        let inv = c.multiplicative_inverse();
        self.scale(&inv)
    }

    /// The value of this expression under an assignment of all the wires it mentions.
    pub fn evaluate(&self, wire_values: &WireValues<F>) -> (r: Element<F>)
        requires
            assigns_all(self@, wire_values@),
        ensures
            r@ == self.eval(wire_values@),
    {
        proof {
            use_type_invariant(self);
        }
        let ghost p = F::modulus();
        let ghost vals = wire_values@;
        let ghost s = self@;
        let mut sum = Element::<F>::zero();
        let mut i: usize = 0;
        proof {
            assert(s.take(0) =~= Seq::<(u32, nat)>::empty());
            lemma_small_mod(0, p);
        }
        while i < self.terms.len()
            invariant
                1 < p,
                p == F::modulus(),
                s == self@,
                s == terms_view(self.terms@),
                vals == wire_values@,
                assigns_all(s, vals),
                0 <= i <= self.terms@.len(),
                sum@ == raw_value(s.take(i as int), vals) % (p as int),
            decreases self.terms@.len() - i,
        {
            let t = &self.terms[i];
            proof {
                assert(s[i as int] == (t.0.index, t.1@));
                assert(vals.contains_key(s[i as int].0));
            }
            let v = wire_values.get(t.0);
            let term = v.mul(&t.1);
            let ghost old_sum = sum@;
            sum = sum.add(&term);
            proof {
                let x = raw_value(s.take(i as int), vals);
                let tv = vals[t.0.index] * t.1@;
                assert(s.take(i + 1).drop_last() =~= s.take(i as int));
                assert(s.take(i + 1).last() == s[i as int]);
                assert(raw_value(s.take(i + 1), vals) == x + t.1@ * vals[t.0.index]);
                assert(vals[t.0.index] * t.1@ == t.1@ * vals[t.0.index]) by (nonlinear_arith);
                lemma_add_mod_noop(x, tv as int, p as int);
            }
            i += 1;
        }
        proof {
            assert(s.take(s.len() as int) =~= s);
        }
        sum
    }

    /// An expression with the given coefficients, one for each distinct wire; zero coefficients
    /// are dropped.
    pub fn new(coefficients: Vec<(Wire, Element<F>)>) -> (r: Self)
        requires
            forall|i: int, j: int|
                0 <= i < j < coefficients@.len() ==> coefficients@[i].0.index
                    != coefficients@[j].0.index,
        ensures
            forall|w: u32|
                #![trigger coefficient(r@, w)]
                coefficient(r@, w) == coefficient(terms_view(coefficients@), w),
    {
        let ghost cv = terms_view(coefficients@);
        let mut r = Self::zero();
        let mut i: usize = 0;
        let ghost p = F::modulus();
        proof {
            let _ = F::modulus();
        }
        while i < coefficients.len()
            invariant
                cv == terms_view(coefficients@),
                p == F::modulus(),
                0 <= i <= coefficients@.len(),
                forall|a: int, b: int|
                    0 <= a < b < coefficients@.len() ==> coefficients@[a].0.index
                        != coefficients@[b].0.index,
                forall|w: u32|
                    #![trigger coefficient(r@, w)]
                    coefficient(r@, w) == coefficient(cv.take(i as int), w),
            decreases coefficients@.len() - i,
        {
            let ti = &coefficients[i];
            proof {
                use_type_invariant(&r);
                use_type_invariant(&ti.1);
            }
            let t = Self::from_term(ti.0, ti.1.copy());
            let ghost old_r = r@;
            r = r.add(&t);
            proof {
                let wi = coefficients@[i as int].0.index;
                let ci = coefficients@[i as int].1@;
                assert(cv.take(i + 1).drop_last() =~= cv.take(i as int));
                assert(cv.take(i + 1).last() == (wi, ci));
                assert forall|w: u32| #![trigger coefficient(r@, w)] coefficient(r@, w)
                    == coefficient(cv.take(i + 1), w) by {
                    if w == wi {
                        assert forall|k: int| 0 <= k < cv.take(i as int).len() implies #[trigger] cv.take(
                            i as int,
                        )[k].0 != w by {
                            assert(cv.take(i as int)[k] == cv[k]);
                        }
                        lemma_coefficient_absent(cv.take(i as int), w);
                        assert(coefficient(cv.take(i + 1), w) == ci);
                        if ci == 0 {
                            lemma_coefficient_absent(t@, w);
                            lemma_small_mod(0, p);
                        } else {
                            assert(t@.drop_last() =~= Seq::<(u32, nat)>::empty());
                            assert(coefficient(Seq::<(u32, nat)>::empty(), w) == 0);
                            assert(coefficient(t@, w) == ci);
                            lemma_small_mod(ci, p);
                        }
                        assert(coefficient(r@, w) == (coefficient(old_r, w) + coefficient(t@, w)) % p);
                    } else {
                        assert(coefficient(cv.take(i + 1), w) == coefficient(cv.take(i as int), w));
                        if ci != 0 {
                            assert(t@ =~= seq![(wi, ci)]);
                            assert(t@[0].0 != w);
                        } else {
                            assert(t@.len() == 0);
                        }
                        lemma_coefficient_absent(t@, w);
                        lemma_coefficient_wf(old_r, p, w);
                        lemma_small_mod(coefficient(old_r, w), p);
                    }
                }
            }
            i += 1;
        }
        proof {
            assert(cv.take(coefficients@.len() as int) =~= cv);
        }
        r
    }

    /// The sum of the given wires, each with an implied coefficient of 1; a wire listed `k` times
    /// gets coefficient `k`.
    pub fn sum_of_wires(wires: &[Wire]) -> (r: Self)
        ensures
            forall|w: u32|
                #![trigger coefficient(r@, w)]
                coefficient(r@, w) == wire_count(wires@, w) % F::modulus(),
            forall|vals: Map<u32, nat>|
                #![trigger r.eval(vals)]
                r.eval(vals) == wire_sum(wires@, vals) % F::modulus(),
    {
        let mut r = Self::zero();
        let mut i: usize = 0;
        let ghost p = F::modulus();
        proof {
            use_type_invariant(&r);
            assert(wires@.take(0) =~= Seq::<Wire>::empty());
            assert forall|vals: Map<u32, nat>| #![trigger r.eval(vals)] r.eval(vals)
                == wire_sum(wires@.take(0), vals) % p by {
                lemma_small_mod(0, p);
            }
            assert forall|w: u32| #![trigger coefficient(r@, w)] coefficient(r@, w) == wire_count(
                wires@.take(0),
                w,
            ) % p by {
                lemma_small_mod(0, p);
            }
        }
        while i < wires.len()
            invariant
                p == F::modulus(),
                0 <= i <= wires@.len(),
                forall|w: u32|
                    #![trigger coefficient(r@, w)]
                    coefficient(r@, w) == wire_count(wires@.take(i as int), w) % p,
                forall|vals: Map<u32, nat>|
                    #![trigger r.eval(vals)]
                    r.eval(vals) == wire_sum(wires@.take(i as int), vals) % p,
            decreases wires@.len() - i,
        {
            proof {
                use_type_invariant(&r);
            }
            let w = wires[i];
            let t = Self::from_wire(w);
            let ghost old_r = r@;
            let ghost old_exp = r;
            r = r.add(&t);
            proof {
                assert(wires@.take(i + 1).drop_last() =~= wires@.take(i as int));
                assert(t@.drop_last() =~= Seq::<(u32, nat)>::empty());
                assert(t@.last() == (w.index, 1nat));
                assert forall|vals: Map<u32, nat>| #![trigger r.eval(vals)] r.eval(vals)
                    == wire_sum(wires@.take(i + 1), vals) % p by {
                    let a = wire_sum(wires@.take(i as int), vals);
                    let b = vals[w.index];
                    assert(raw_value(t@.drop_last(), vals) == 0);
                    assert(raw_value(t@, vals) == 1 * b);
                    assert(t.eval(vals) == b % p);
                    assert(old_exp.eval(vals) == a % p);
                    lemma_add_mod_noop(a as int, b as int, p as int);
                }
                assert forall|v: u32| #![trigger coefficient(r@, v)] coefficient(r@, v) == wire_count(
                    wires@.take(i + 1),
                    v,
                ) % p by {
                    let c = wire_count(wires@.take(i as int), v);
                    assert(coefficient(Seq::<(u32, nat)>::empty(), v) == 0);
                    let tv: nat = if w.index == v { 1 } else { 0 };
                    assert(coefficient(t@, v) == tv);
                    lemma_add_mod_noop(c as int, tv as int, p as int);
                    lemma_small_mod(tv, p);
                }
            }
            i += 1;
        }
        proof {
            assert(wires@.take(wires@.len() as int) =~= wires@);
        }
        r
    }


    /// The sum of the given expressions: each coefficient is the sum of its coefficients in them.
    pub fn sum_of_expressions(expressions: &[Expression<F>]) -> (r: Self)
        ensures
            forall|vals: Map<u32, nat>|
                #![trigger r.eval(vals)]
                r.eval(vals) == sum_evals(expressions@, vals, F::modulus()),
    {
        let mut r = Self::zero();
        let mut i: usize = 0;
        let ghost p = F::modulus();
        proof {
            use_type_invariant(&r);
            assert(expressions@.take(0) =~= Seq::<Expression<F>>::empty());
            assert forall|vals: Map<u32, nat>| #![trigger r.eval(vals)] r.eval(vals)
                == sum_evals(expressions@.take(0), vals, p) by {
                lemma_small_mod(0, p);
            }
        }
        while i < expressions.len()
            invariant
                p == F::modulus(),
                0 <= i <= expressions@.len(),
                forall|vals: Map<u32, nat>|
                    #![trigger r.eval(vals)]
                    r.eval(vals) == sum_evals(expressions@.take(i as int), vals, p),
            decreases expressions@.len() - i,
        {
            let ghost old_r = r;
            r = r.add(&expressions[i]);
            proof {
                assert(expressions@.take(i + 1).drop_last() =~= expressions@.take(i as int));
                assert(expressions@.take(i + 1).last() == expressions@[i as int]);
                assert forall|vals: Map<u32, nat>| #![trigger r.eval(vals)] r.eval(vals)
                    == sum_evals(expressions@.take(i + 1), vals, p) by {
                    assert(old_r.eval(vals) == sum_evals(expressions@.take(i as int), vals, p));
                }
            }
            i += 1;
        }
        proof {
            assert(expressions@.take(expressions@.len() as int) =~= expressions@);
        }
        r
    }

    /// The constant `-1`.
    pub fn neg_one() -> (r: Self)
        ensures
            r@ == seq![(ONE_WIRE_INDEX, (F::modulus() - 1) as nat)],
    {
        let e = Element::largest_element();
        proof {
            use_type_invariant(&e);
        }
        Self::from_element(&e)
    }

    /// Whether every wire of this expression is assigned.
    pub(crate) fn assigned_in(&self, wire_values: &WireValues<F>) -> (r: bool)
        ensures
            r == assigns_all(self@, wire_values@),
    {
        let mut i: usize = 0;
        while i < self.terms.len()
            invariant
                0 <= i <= self.terms@.len(),
                self@ == terms_view(self.terms@),
                forall|k: int| 0 <= k < i ==> wire_values@.contains_key(#[trigger] self@[k].0),
            decreases self.terms@.len() - i,
        {
            if !wire_values.contains(self.terms[i].0) {
                assert(!wire_values@.contains_key(self@[i as int].0));
                return false;
            }
            i += 1;
        }
        true
    }

    /// The number of terms with a non-zero coefficient.
    pub fn num_terms(&self) -> (r: usize)
        ensures
            r == self@.len(),
    {
        self.terms.len()
    }

    /// `Some(c)` if this expression is the constant `c`: no term at all (the constant 0), or a
    /// single term on the constant-1 wire; otherwise `None`.
    pub fn as_constant(&self) -> (r: Option<Element<F>>)
        ensures
            r is Some <==> self@.len() == 0 || (self@.len() == 1 && self@[0].0 == ONE_WIRE_INDEX),
            r matches Some(c) ==> c@ == if self@.len() == 0 {
                0
            } else {
                self@[0].1
            },
    {
        if self.terms.len() == 0 {
            Some(Element::zero())
        } else if self.terms.len() == 1 && self.terms[0].0.index == ONE_WIRE_INDEX {
            Some(self.terms[0].1.copy())
        } else {
            None
        }
    }

    /// The terms, sorted by wire.
    pub fn coefficients(&self) -> (r: &Vec<(Wire, Element<F>)>)
        ensures
            terms_view(r@) == self@,
    {
        &self.terms
    }

    /// All wires that this expression depends on, in increasing order.
    pub fn dependencies(&self) -> (r: Vec<Wire>)
        ensures
            r@.len() == self@.len(),
            forall|k: int| 0 <= k < r@.len() ==> #[trigger] r@[k].index == self@[k].0,
    {
        let mut out: Vec<Wire> = Vec::new();
        let mut i: usize = 0;
        while i < self.terms.len()
            invariant
                0 <= i <= self.terms@.len(),
                out@.len() == i,
                forall|k: int| 0 <= k < i ==> #[trigger] out@[k].index == self@[k].0,
            decreases self.terms@.len() - i,
        {
            out.push(self.terms[i].0);
            i += 1;
        }
        out
    }
}

/// `(p - 1) * x` is `-x` modulo `p`.
pub proof fn lemma_minus_one_times(x: int, p: int)
    requires
        p > 1,
    ensures
        (((p - 1) as nat) * x) % p == ((0 - x) % p),
{
    assert((p - 1) * x == p * x + (0 - x)) by (nonlinear_arith);
    lemma_mod_multiples_vanish(x, 0 - x, p);
}

impl<F: Field> Clone for Expression<F> {
    fn clone(&self) -> (r: Self)
        ensures
            r@ == self@,
    {
        self.copy()
    }
}

} // verus!
