//! Twisted Edwards curves embedded in the constraint field, and the group of their points.

use vstd::prelude::*;

use std::marker::PhantomData;

use crate::binary_expression::{weighted_sum, BooleanExpression};
use crate::chunk_order::is_bit_seq;
use crate::expression::{assigns_all, Expression};
use crate::field::{field_add, field_mul, field_neg, field_pow, field_sub, Element, Field};
use crate::gadget_builder::{
    lemma_eval_bound,
    lemma_extends_trans, lemma_one_eval, lemma_satisfied_prefix, valid_assignment, GadgetBuilder,
};
use crate::primes::is_prime;
use crate::wire_values::WireValues;
use vstd::arithmetic::div_mod::lemma_small_mod;
use vstd::arithmetic::power::pow;

verus! {

/// A curve embedded in the field `F`.
pub trait Curve<F: Field> {}

/// The coefficients of a twisted Edwards curve `a x^2 + y^2 = 1 + d x^2 y^2` over `F`.
pub trait EdwardsCurve<F: Field> {
    spec fn coefficient_a() -> nat;

    spec fn coefficient_d() -> nat;

    fn a() -> (r: Element<F>)
        ensures
            r@ == Self::coefficient_a(),
    ;

    fn d() -> (r: Element<F>)
        ensures
            r@ == Self::coefficient_d(),
    ;
}

/// `(x, y)` lies on the curve `a x^2 + y^2 = 1 + d x^2 y^2` over `F_p`.
pub open spec fn on_edwards_curve(a: nat, d: nat, x: nat, y: nat, p: nat) -> bool {
    let xx = field_mul(x, x, p);
    let yy = field_mul(y, y, p);
    field_add(field_mul(a, xx, p), yy, p) == field_add(field_mul(d, field_mul(xx, yy, p), p), 1, p)
}

/// The inverse of a non-zero element of a prime field, `v^(p-2)`.
pub open spec fn field_inverse(v: nat, p: nat) -> nat {
    field_pow(v, (p - 2) as nat, p)
}

/// The sum of `(x1, y1)` and `(x2, y2)` as the fractions `(nx / dx, ny / dy)`, returned as
/// `(nx, dx, ny, dy)`:
/// `x3 = (x1 y2 + y1 x2) / (1 + d x1 x2 y1 y2)` and `y3 = (y1 y2 - a x1 x2) / (1 - d x1 x2 y1 y2)`.
pub open spec fn edwards_sum_fraction(
    a: nat,
    d: nat,
    p: nat,
    x1: nat,
    y1: nat,
    x2: nat,
    y2: nat,
) -> (nat, nat, nat, nat) {
    let x1y2 = field_mul(x1, y2, p);
    let x2y1 = field_mul(y1, x2, p);
    let x1x2 = field_mul(x1, x2, p);
    let t = field_mul(x1y2, x2y1, p);
    let y1y2 = field_mul(y1, y2, p);
    (
        field_add(x1y2, x2y1, p),
        field_add(field_mul(d, t, p), 1, p),
        field_sub(y1y2, field_mul(a, x1x2, p), p),
        field_add(field_mul(field_neg(d, p), t, p), 1, p),
    )
}

/// The double of `(x, y)` as the fractions `(nx / dx, ny / dy)`, returned as `(nx, dx, ny, dy)`:
/// `x2 = 2 x y / (a x^2 + y^2)` and `y2 = (y^2 - a x^2) / (2 - a x^2 - y^2)`.
pub open spec fn edwards_double_fraction(a: nat, p: nat, x: nat, y: nat) -> (nat, nat, nat, nat) {
    let xy = field_mul(x, y, p);
    let xx = field_mul(x, x, p);
    let yy = field_mul(y, y, p);
    (
        field_mul(2, xy, p),
        field_add(field_mul(a, xx, p), yy, p),
        field_sub(yy, field_mul(a, xx, p), p),
        field_add(field_sub(field_mul(a, field_neg(xx, p), p), yy, p), 2, p),
    )
}

/// `n / m` in `F_p`, computed as `n * m^(p-2)`.
pub open spec fn fraction_value(n: nat, m: nat, p: nat) -> nat {
    field_mul(n, field_inverse(m, p), p)
}

/// The sum of two points, or `None` when a denominator of the addition law is zero.
pub open spec fn edwards_add_value(
    a: nat,
    d: nat,
    p: nat,
    lhs: (nat, nat),
    rhs: (nat, nat),
) -> Option<(nat, nat)> {
    let (nx, dx, ny, dy) = edwards_sum_fraction(a, d, p, lhs.0, lhs.1, rhs.0, rhs.1);
    if dx == 0 || dy == 0 {
        None
    } else {
        Some((fraction_value(nx, dx, p), fraction_value(ny, dy, p)))
    }
}

/// The double of a point, or `None` when a denominator of the doubling law is zero.
pub open spec fn edwards_double_value(a: nat, p: nat, pt: (nat, nat)) -> Option<(nat, nat)> {
    let (nx, dx, ny, dy) = edwards_double_fraction(a, p, pt.0, pt.1);
    if dx == 0 || dy == 0 {
        None
    } else {
        Some((fraction_value(nx, dx, p), fraction_value(ny, dy, p)))
    }
}

/// Double-and-add over little-endian `bits`: for each bit, `sum` gains `current` when the bit is
/// set (the identity `(0, 1)` otherwise), and then `current` is doubled. `None` when any step
/// divides by zero.
pub open spec fn edwards_double_and_add(
    a: nat,
    d: nat,
    p: nat,
    bits: Seq<bool>,
    sum: (nat, nat),
    current: (nat, nat),
) -> Option<(nat, nat)>
    decreases bits.len(),
{
    if bits.len() == 0 {
        Some(sum)
    } else {
        let addend = if bits[0] {
            current
        } else {
            (0nat, 1nat)
        };
        match (edwards_add_value(a, d, p, sum, addend), edwards_double_value(a, p, current)) {
            (Some(s), Some(c)) => edwards_double_and_add(a, d, p, bits.drop_first(), s, c),
            _ => None,
        }
    }
}

/// Bit values read as booleans: set when the value is 1.
pub open spec fn bit_flags(bits: Seq<nat>) -> Seq<bool> {
    bits.map_values(|b: nat| b == 1)
}

/// The little-endian bits of `v`, `n` of them.
pub open spec fn low_bits(v: nat, n: nat) -> Seq<bool> {
    Seq::new(n, |i: int| crate::natural::bit_of(v, i as nat))
}

/// The identity `(0, 1)` lies on every twisted Edwards curve.
pub proof fn lemma_identity_on_curve(a: nat, d: nat, p: nat)
    requires
        1 < p,
    ensures
        on_edwards_curve(a, d, 0, 1, p),
{
    lemma_small_mod(0, p);
    lemma_small_mod(1, p);
    assert(field_mul(a, 0, p) == 0);
    assert(field_mul(0, 1, p) == 0);
    assert(field_mul(d, 0, p) == 0);
}

/// In a prime field, the only `r` with `m r = n` for a non-zero `m` is the fraction `n / m`.
pub proof fn lemma_fraction_unique(n: nat, m: nat, r: nat, p: nat)
    requires
        is_prime(p),
        0 < m < p,
        r < p,
        field_mul(m, r, p) == n,
    ensures
        r == fraction_value(n, m, p),
{
    let inv = field_inverse(m, p);
    crate::fermat::lemma_inverse(p, m);
    let pi = p as int;
    // inv * (m * r) = (inv * m) * r = r.
    vstd::arithmetic::div_mod::lemma_mul_mod_noop_right(inv as int, (m * r) as int, pi);
    assert(inv * (m * r) == (m * inv) * r) by (nonlinear_arith);
    vstd::arithmetic::div_mod::lemma_mul_mod_noop_left((m * inv) as int, r as int, pi);
    assert(1 * r == r);
    lemma_small_mod(r, p);
    assert(field_mul(inv, n, p) == r);
    vstd::arithmetic::mul::lemma_mul_is_commutative(inv as int, n as int);
}

/// A point that the addition gadget's constraints describe is the sum by the addition law.
pub proof fn lemma_sum_from_fractions(
    a: nat,
    d: nat,
    p: nat,
    lhs: (nat, nat),
    rhs: (nat, nat),
    x3: nat,
    y3: nat,
)
    requires
        is_prime(p),
        x3 < p,
        y3 < p,
        ({
            let (nx, dx, ny, dy) = edwards_sum_fraction(a, d, p, lhs.0, lhs.1, rhs.0, rhs.1);
            &&& dx != 0 && field_mul(dx, x3, p) == nx
            &&& dy != 0 && field_mul(dy, y3, p) == ny
        }),
    ensures
        edwards_add_value(a, d, p, lhs, rhs) == Some((x3, y3)),
{
    let (nx, dx, ny, dy) = edwards_sum_fraction(a, d, p, lhs.0, lhs.1, rhs.0, rhs.1);
    vstd::arithmetic::div_mod::lemma_mod_bound((field_mul(d, field_mul(field_mul(lhs.0, rhs.1, p), field_mul(lhs.1, rhs.0, p), p), p) + 1) as int, p as int);
    vstd::arithmetic::div_mod::lemma_mod_bound((field_mul(field_neg(d, p), field_mul(field_mul(lhs.0, rhs.1, p), field_mul(lhs.1, rhs.0, p), p), p) + 1) as int, p as int);
    lemma_fraction_unique(nx, dx, x3, p);
    lemma_fraction_unique(ny, dy, y3, p);
}

/// A point that the doubling gadget's constraints describe is the double by the doubling law.
pub proof fn lemma_double_from_fractions(a: nat, p: nat, pt: (nat, nat), x2: nat, y2: nat)
    requires
        is_prime(p),
        x2 < p,
        y2 < p,
        ({
            let (nx, dx, ny, dy) = edwards_double_fraction(a, p, pt.0, pt.1);
            &&& dx != 0 && field_mul(dx, x2, p) == nx
            &&& dy != 0 && field_mul(dy, y2, p) == ny
        }),
    ensures
        edwards_double_value(a, p, pt) == Some((x2, y2)),
{
    let (nx, dx, ny, dy) = edwards_double_fraction(a, p, pt.0, pt.1);
    let xx = field_mul(pt.0, pt.0, p);
    let yy = field_mul(pt.1, pt.1, p);
    vstd::arithmetic::div_mod::lemma_mod_bound((field_mul(a, xx, p) + yy) as int, p as int);
    vstd::arithmetic::div_mod::lemma_mod_bound((field_sub(field_mul(a, field_neg(xx, p), p), yy, p) + 2) as int, p as int);
    lemma_fraction_unique(nx, dx, x2, p);
    lemma_fraction_unique(ny, dy, y2, p);
}

/// Adding the identity `(0, 1)` to a point, on either side, gives the point back.
pub proof fn lemma_identity_neutral(a: nat, d: nat, p: nat, pt: (nat, nat))
    requires
        1 < p,
        pt.0 < p,
        pt.1 < p,
    ensures
        edwards_add_value(a, d, p, pt, (0nat, 1nat)) == Some(pt),
        edwards_add_value(a, d, p, (0nat, 1nat), pt) == Some(pt),
{
    let (x, y) = pt;
    lemma_small_mod(0, p);
    lemma_small_mod(1, p);
    lemma_small_mod(x, p);
    lemma_small_mod(y, p);
    vstd::arithmetic::power::lemma1_pow((p - 2) as nat);
    assert(field_inverse(1, p) == 1);
    assert(field_mul(x, 1, p) == x);
    assert(field_mul(y, 1, p) == y);
    assert(field_mul(1, x, p) == x);
    assert(field_mul(1, y, p) == y);
    assert(field_mul(y, 0, p) == 0);
    assert(field_mul(x, 0, p) == 0);
    assert(field_mul(0, y, p) == 0);
    assert(field_mul(0, x, p) == 0);
    assert(field_mul(a, 0, p) == 0);
    assert(field_mul(d, 0, p) == 0);
    assert(field_mul(field_neg(d, p), 0, p) == 0);
    assert(field_sub(y, 0, p) == y);
}


/// A point of an Edwards curve, with affine coordinates as elements of `F`.
pub struct EdwardsPoint<F: Field, C: EdwardsCurve<F>> {
    x: Element<F>,
    y: Element<F>,
    phantom: PhantomData<C>,
}

impl<F: Field, C: EdwardsCurve<F>> EdwardsPoint<F, C> {
    /// The coordinates `(x, y)`.
    pub closed spec fn coordinates(&self) -> (nat, nat) {
        (self.x@, self.y@)
    }

    /// The point `(x, y)`, which must lie on the curve.
    pub fn new(x: Element<F>, y: Element<F>) -> (r: Self)
        requires
            on_edwards_curve(C::coefficient_a(), C::coefficient_d(), x@, y@, F::modulus()),
        ensures
            r.coordinates() == (x@, y@),
    {
        EdwardsPoint { x, y, phantom: PhantomData }
    }

    pub fn x(&self) -> (r: &Element<F>)
        ensures
            r@ == self.coordinates().0,
    {
        &self.x
    }

    pub fn y(&self) -> (r: &Element<F>)
        ensures
            r@ == self.coordinates().1,
    {
        &self.y
    }

    pub fn copy(&self) -> (r: Self)
        ensures
            r.coordinates() == self.coordinates(),
    {
        EdwardsPoint { x: self.x.copy(), y: self.y.copy(), phantom: PhantomData }
    }
}

impl<F: Field, C: EdwardsCurve<F>> Clone for EdwardsPoint<F, C> {
    fn clone(&self) -> (r: Self)
        ensures
            r.coordinates() == self.coordinates(),
    {
        self.copy()
    }
}

/// A point of an Edwards curve inside a constraint system, with affine coordinates as
/// expressions.
pub struct EdwardsExpression<F: Field, C: EdwardsCurve<F>> {
    pub x: Expression<F>,
    pub y: Expression<F>,
    pub phantom: PhantomData<C>,
}

impl<F: Field, C: EdwardsCurve<F>> EdwardsExpression<F, C> {
    /// The point `(x, y)`, with constraints that place it on the curve.
    pub fn new(builder: &mut GadgetBuilder<F>, x: Expression<F>, y: Expression<F>) -> (r: Self)
        requires
            old(builder).has_room(3),
        ensures
            r.x@ == x@,
            r.y@ == y@,
            final(builder).extends(*old(builder)),
            final(builder).next_index() <= old(builder).next_index() + 3,
            forall|vals: Map<u32, nat>|
                #![trigger final(builder).satisfied(vals)]
                final(builder).satisfied(vals) && valid_assignment(vals, F::modulus())
                    ==> on_edwards_curve(
                    C::coefficient_a(),
                    C::coefficient_d(),
                    x.eval(vals),
                    y.eval(vals),
                    F::modulus(),
                ),
    {
        let ghost s0 = *builder;
        let x_squared = builder.product(&x, &x);
        let ghost s1 = *builder;
        let y_squared = builder.product(&y, &y);
        let ghost s2 = *builder;
        let x_squared_y_squared = builder.product(&x_squared, &y_squared);
        let ghost s3 = *builder;
        let lhs = x_squared.scale(&C::a()).add(&y_squared);
        let one = Expression::one();
        let rhs = x_squared_y_squared.scale(&C::d()).add(&one);
        builder.assert_equal(&lhs, &rhs);
        proof {
            lemma_extends_trans(*builder, s3, s2);
            lemma_extends_trans(*builder, s2, s1);
            lemma_extends_trans(*builder, s1, s0);
            assert forall|vals: Map<u32, nat>| #![trigger builder.satisfied(vals)]
                builder.satisfied(vals) && valid_assignment(vals, F::modulus()) implies on_edwards_curve(
                C::coefficient_a(),
                C::coefficient_d(),
                x.eval(vals),
                y.eval(vals),
                F::modulus(),
            ) by {
                lemma_satisfied_prefix(*builder, s3, vals);
                lemma_satisfied_prefix(*builder, s2, vals);
                lemma_satisfied_prefix(*builder, s1, vals);
                lemma_one_eval::<F>(one@, vals);
            }
        }
        EdwardsExpression { x, y, phantom: PhantomData }
    }

    /// The point `(x, y)`, with nothing to check that it lies on the curve.
    pub fn new_unsafe(x: Expression<F>, y: Expression<F>) -> (r: Self)
        ensures
            r.x@ == x@,
            r.y@ == y@,
    {
        EdwardsExpression { x, y, phantom: PhantomData }
    }

    /// The constant expression of a point.
    pub fn from_point(point: &EdwardsPoint<F, C>) -> (r: Self)
        ensures
            forall|vals: Map<u32, nat>|
                valid_assignment(vals, F::modulus()) ==> (#[trigger] r.x.eval(vals), r.y.eval(vals))
                    == point.coordinates(),
    {
        proof {
            use_type_invariant(&point.x);
            use_type_invariant(&point.y);
        }
        let r = EdwardsExpression {
            x: Expression::from_element(&point.x),
            y: Expression::from_element(&point.y),
            phantom: PhantomData,
        };
        proof {
            assert forall|vals: Map<u32, nat>| valid_assignment(vals, F::modulus()) implies (
            #[trigger] r.x.eval(vals), r.y.eval(vals)) == point.coordinates() by {
                crate::field_arithmetic::lemma_element_eval::<F>(r.x@, point.x@, vals);
                crate::field_arithmetic::lemma_element_eval::<F>(r.y@, point.y@, vals);
            }
        }
        r
    }

    /// The point that the coordinates take under an assignment that assigns their wires.
    pub fn evaluate(&self, wire_values: &WireValues<F>) -> (r: EdwardsPoint<F, C>)
        requires
            assigns_all(self.x@, wire_values@),
            assigns_all(self.y@, wire_values@),
        ensures
            r.coordinates() == (self.x.eval(wire_values@), self.y.eval(wire_values@)),
    {
        EdwardsPoint {
            x: self.x.evaluate(wire_values),
            y: self.y.evaluate(wire_values),
            phantom: PhantomData,
        }
    }

    /// The coordinate that identifies the point up to sign, `y`.
    pub fn compressed_expression(&self) -> (r: &Expression<F>)
        ensures
            r@ == self.y@,
    {
        &self.y
    }

    /// The coordinates `[x, y]`.
    pub fn to_component_expression(&self) -> (r: Vec<Expression<F>>)
        ensures
            r@.len() == 2,
            r@[0]@ == self.x@,
            r@[1]@ == self.y@,
    {
        let mut r = Vec::new();
        r.push(self.x.copy());
        r.push(self.y.copy());
        r
    }

    /// The point with coordinates `[x, y, ..]`, with nothing to check that it lies on the curve.
    /// At least two components are needed.
    pub fn from_component_expression_unsafe(components: Vec<Expression<F>>) -> (r: Self)
        requires
            components@.len() >= 2,
        ensures
            r.x@ == components@[0]@,
            r.y@ == components@[1]@,
    {
        Self::new_unsafe(components[0].copy(), components[1].copy())
    }

    pub fn copy(&self) -> (r: Self)
        ensures
            r.x@ == self.x@,
            r.y@ == self.y@,
    {
        EdwardsExpression { x: self.x.copy(), y: self.y.copy(), phantom: PhantomData }
    }
}

impl<F: Field, C: EdwardsCurve<F>> Clone for EdwardsExpression<F, C> {
    fn clone(&self) -> (r: Self)
        ensures
            r.x@ == self.x@,
            r.y@ == self.y@,
    {
        self.copy()
    }
}

/// A group whose elements can be added inside a constraint system.
pub trait Group<F: Field> {
    type GroupElement;

    type GroupExpression;

    /// An upper bound on the wires that one addition creates.
    spec fn add_wires() -> nat;

    /// An upper bound on the wires that one doubling creates.
    spec fn double_wires() -> nat;

    /// An upper bound on the wires that one selection by a bit creates.
    spec fn boolean_mult_wires() -> nat;

    /// An upper bound on the wires that one scalar multiplication creates.
    spec fn scalar_mult_wires() -> nat;

    /// Adding the two elements is defined (it divides by no zero).
    spec fn add_defined(lhs: Self::GroupElement, rhs: Self::GroupElement) -> bool;

    /// Doubling the element is defined.
    spec fn double_defined(e: Self::GroupElement) -> bool;

    /// Multiplying the element by the scalar is defined.
    spec fn scalar_mult_defined(e: Self::GroupElement, scalar: nat) -> bool;

    fn identity_element() -> Self::GroupElement;

    fn identity_expression() -> Self::GroupExpression;

    fn add_expressions(
        builder: &mut GadgetBuilder<F>,
        lhs: &Self::GroupExpression,
        rhs: &Self::GroupExpression,
    ) -> (r: Self::GroupExpression)
        requires
            old(builder).has_room(Self::add_wires()),
        ensures
            final(builder).extends(*old(builder)),
            final(builder).next_index() <= old(builder).next_index() + Self::add_wires(),
    ;

    fn double_expression(builder: &mut GadgetBuilder<F>, e: &Self::GroupExpression) -> (r:
        Self::GroupExpression)
        requires
            2 < F::modulus(),
            old(builder).has_room(Self::double_wires()),
        ensures
            final(builder).extends(*old(builder)),
            final(builder).next_index() <= old(builder).next_index() + Self::double_wires(),
    ;

    /// The element if `b` is 1, and the identity if it is 0.
    fn boolean_mult_expression(
        builder: &mut GadgetBuilder<F>,
        e: &Self::GroupExpression,
        b: &BooleanExpression<F>,
    ) -> (r: Self::GroupExpression)
        requires
            old(builder).has_room(Self::boolean_mult_wires()),
        ensures
            final(builder).extends(*old(builder)),
            final(builder).next_index() <= old(builder).next_index() + Self::boolean_mult_wires(),
    ;

    /// Scalar multiplication by double-and-add over the binary digits of `scalar`.
    fn scalar_mult_expression(
        builder: &mut GadgetBuilder<F>,
        e: &Self::GroupExpression,
        scalar: &Expression<F>,
    ) -> (r: Self::GroupExpression)
        requires
            2 < F::modulus(),
            old(builder).has_room(Self::scalar_mult_wires()),
        ensures
            final(builder).extends(*old(builder)),
            final(builder).next_index() <= old(builder).next_index() + Self::scalar_mult_wires(),
    ;

    fn add_elements(lhs: &Self::GroupElement, rhs: &Self::GroupElement) -> Self::GroupElement
        requires
            Self::add_defined(*lhs, *rhs),
    ;

    fn double_element(e: &Self::GroupElement) -> Self::GroupElement
        requires
            2 < F::modulus(),
            Self::double_defined(*e),
    ;

    fn scalar_mult_element(e: &Self::GroupElement, scalar: &Element<F>) -> Self::GroupElement
        requires
            2 < F::modulus(),
            Self::scalar_mult_defined(*e, scalar@),
    ;
}

/// A group with a generator `g`, of which every element is a power `g^a`.
pub trait CyclicGroup<F: Field>: Group<F> {
    fn generator_element() -> Self::GroupElement;

    fn generator_expression() -> Self::GroupExpression;
}

impl<F: Field, C: EdwardsCurve<F>> Group<F> for C {
    type GroupElement = EdwardsPoint<F, C>;

    type GroupExpression = EdwardsExpression<F, C>;

    open spec fn add_wires() -> nat {
        9
    }

    open spec fn double_wires() -> nat {
        7
    }

    open spec fn boolean_mult_wires() -> nat {
        2
    }

    open spec fn scalar_mult_wires() -> nat {
        crate::splitting::field_bits::<F>() * 19
    }

    open spec fn add_defined(lhs: EdwardsPoint<F, C>, rhs: EdwardsPoint<F, C>) -> bool {
        edwards_add_value(
            C::coefficient_a(),
            C::coefficient_d(),
            F::modulus(),
            lhs.coordinates(),
            rhs.coordinates(),
        ) is Some
    }

    open spec fn double_defined(e: EdwardsPoint<F, C>) -> bool {
        edwards_double_value(C::coefficient_a(), F::modulus(), e.coordinates()) is Some
    }

    open spec fn scalar_mult_defined(e: EdwardsPoint<F, C>, scalar: nat) -> bool {
        edwards_double_and_add(
            C::coefficient_a(),
            C::coefficient_d(),
            F::modulus(),
            low_bits(scalar, crate::splitting::field_bits::<F>()),
            (0nat, 1nat),
            e.coordinates(),
        ) is Some
    }

    /// The neutral point `(0, 1)`.
    fn identity_element() -> (r: EdwardsPoint<F, C>)
        ensures
            r.coordinates() == (0nat, 1nat),
    {
        let zero = Element::zero();
        let one = Element::one();
        proof {
            use_type_invariant(&one);
            vstd::arithmetic::div_mod::lemma_small_mod(0, F::modulus());
            vstd::arithmetic::div_mod::lemma_small_mod(1, F::modulus());
            let p = F::modulus();
            assert(field_mul(0, 0, p) == 0);
            assert(field_mul(1, 1, p) == 1);
            assert(field_mul(C::coefficient_a(), 0, p) == 0);
            assert(field_mul(0, 1, p) == 0);
            assert(field_mul(C::coefficient_d(), 0, p) == 0);
        }
        EdwardsPoint::new(zero, one)
    }

    fn identity_expression() -> (r: EdwardsExpression<F, C>)
        ensures
            forall|vals: Map<u32, nat>|
                valid_assignment(vals, F::modulus()) ==> (#[trigger] r.x.eval(vals), r.y.eval(vals))
                    == (0nat, 1nat),
    {
        let e = Self::identity_element();
        EdwardsExpression::from_point(&e)
    }

    /// The sum by the twisted Edwards addition law, each coordinate as a quotient whose
    /// denominator the constraints force to be non-zero.
    fn add_expressions(
        builder: &mut GadgetBuilder<F>,
        lhs: &EdwardsExpression<F, C>,
        rhs: &EdwardsExpression<F, C>,
    ) -> (r: EdwardsExpression<F, C>)
        ensures
            forall|vals: Map<u32, nat>|
                #![trigger final(builder).satisfied(vals)]
                final(builder).satisfied(vals) && valid_assignment(vals, F::modulus()) ==> {
                    let (nx, dx, ny, dy) = edwards_sum_fraction(
                        C::coefficient_a(),
                        C::coefficient_d(),
                        F::modulus(),
                        lhs.x.eval(vals),
                        lhs.y.eval(vals),
                        rhs.x.eval(vals),
                        rhs.y.eval(vals),
                    );
                    &&& dx != 0 && field_mul(dx, r.x.eval(vals), F::modulus()) == nx
                    &&& dy != 0 && field_mul(dy, r.y.eval(vals), F::modulus()) == ny
                },
            forall|vals: Map<u32, nat>|
                #![trigger final(builder).satisfied(vals)]
                final(builder).satisfied(vals) && valid_assignment(vals, F::modulus()) && is_prime(
                    F::modulus(),
                ) ==> edwards_add_value(
                    C::coefficient_a(),
                    C::coefficient_d(),
                    F::modulus(),
                    (lhs.x.eval(vals), lhs.y.eval(vals)),
                    (rhs.x.eval(vals), rhs.y.eval(vals)),
                ) == Some((r.x.eval(vals), r.y.eval(vals))),
    {
        let ghost s0 = *builder;
        let x1y2 = builder.product(&lhs.x, &rhs.y);
        let ghost s1 = *builder;
        let x2y1 = builder.product(&lhs.y, &rhs.x);
        let ghost s2 = *builder;
        let x1x2 = builder.product(&lhs.x, &rhs.x);
        let ghost s3 = *builder;
        let t = builder.product(&x1y2, &x2y1);
        let ghost s4 = *builder;
        let y1y2 = builder.product(&lhs.y, &rhs.y);
        let ghost s5 = *builder;
        let one = Expression::one();
        let d = C::d();
        let nx = x1y2.add(&x2y1);
        let dx = t.scale(&d).add(&one);
        let x3 = builder.quotient(&nx, &dx);
        let ghost s6 = *builder;
        let ny = y1y2.sub(&x1x2.scale(&C::a()));
        let dy = t.scale(&d.neg()).add(&one);
        let y3 = builder.quotient(&ny, &dy);
        proof {
            lemma_extends_trans(*builder, s6, s5);
            lemma_extends_trans(*builder, s5, s4);
            lemma_extends_trans(*builder, s4, s3);
            lemma_extends_trans(*builder, s3, s2);
            lemma_extends_trans(*builder, s2, s1);
            lemma_extends_trans(*builder, s1, s0);
            assert forall|vals: Map<u32, nat>| #![trigger builder.satisfied(vals)]
                builder.satisfied(vals) && valid_assignment(vals, F::modulus()) implies {
                let (nx, dx, ny, dy) = edwards_sum_fraction(
                    C::coefficient_a(),
                    C::coefficient_d(),
                    F::modulus(),
                    lhs.x.eval(vals),
                    lhs.y.eval(vals),
                    rhs.x.eval(vals),
                    rhs.y.eval(vals),
                );
                &&& dx != 0 && field_mul(dx, x3.eval(vals), F::modulus()) == nx
                &&& dy != 0 && field_mul(dy, y3.eval(vals), F::modulus()) == ny
            } by {
                lemma_satisfied_prefix(*builder, s6, vals);
                lemma_satisfied_prefix(*builder, s5, vals);
                lemma_satisfied_prefix(*builder, s4, vals);
                lemma_satisfied_prefix(*builder, s3, vals);
                lemma_satisfied_prefix(*builder, s2, vals);
                lemma_satisfied_prefix(*builder, s1, vals);
                lemma_one_eval::<F>(one@, vals);
            }
            assert forall|vals: Map<u32, nat>| #![trigger builder.satisfied(vals)]
                builder.satisfied(vals) && valid_assignment(vals, F::modulus()) && is_prime(F::modulus())
                implies edwards_add_value(
                C::coefficient_a(),
                C::coefficient_d(),
                F::modulus(),
                (lhs.x.eval(vals), lhs.y.eval(vals)),
                (rhs.x.eval(vals), rhs.y.eval(vals)),
            ) == Some((x3.eval(vals), y3.eval(vals))) by {
                lemma_eval_bound::<F>(&x3, vals);
                lemma_eval_bound::<F>(&y3, vals);
                lemma_sum_from_fractions(
                    C::coefficient_a(),
                    C::coefficient_d(),
                    F::modulus(),
                    (lhs.x.eval(vals), lhs.y.eval(vals)),
                    (rhs.x.eval(vals), rhs.y.eval(vals)),
                    x3.eval(vals),
                    y3.eval(vals),
                );
            }
        }
        EdwardsExpression::new_unsafe(x3, y3)
    }

    /// The double by the twisted Edwards doubling law, each coordinate as a quotient whose
    /// denominator the constraints force to be non-zero.
    fn double_expression(builder: &mut GadgetBuilder<F>, e: &EdwardsExpression<F, C>) -> (r:
        EdwardsExpression<F, C>)
        ensures
            forall|vals: Map<u32, nat>|
                #![trigger final(builder).satisfied(vals)]
                final(builder).satisfied(vals) && valid_assignment(vals, F::modulus()) ==> {
                    let (nx, dx, ny, dy) = edwards_double_fraction(
                        C::coefficient_a(),
                        F::modulus(),
                        e.x.eval(vals),
                        e.y.eval(vals),
                    );
                    &&& dx != 0 && field_mul(dx, r.x.eval(vals), F::modulus()) == nx
                    &&& dy != 0 && field_mul(dy, r.y.eval(vals), F::modulus()) == ny
                },
            forall|vals: Map<u32, nat>|
                #![trigger final(builder).satisfied(vals)]
                final(builder).satisfied(vals) && valid_assignment(vals, F::modulus()) && is_prime(
                    F::modulus(),
                ) ==> edwards_double_value(
                    C::coefficient_a(),
                    F::modulus(),
                    (e.x.eval(vals), e.y.eval(vals)),
                ) == Some((r.x.eval(vals), r.y.eval(vals))),
    {
        let ghost s0 = *builder;
        let xy = builder.product(&e.x, &e.y);
        let ghost s1 = *builder;
        let xx = builder.product(&e.x, &e.x);
        let ghost s2 = *builder;
        let yy = builder.product(&e.y, &e.y);
        let ghost s3 = *builder;
        let a = C::a();
        let two = Element::from_u128(2);
        let two_expression = Expression::from_u128(2);
        let nx = xy.scale(&two);
        let axx = xx.scale(&a);
        let dx = axx.add(&yy);
        let x2 = builder.quotient(&nx, &dx);
        let ghost s4 = *builder;
        let ny = yy.sub(&axx);
        let dy = xx.neg().scale(&a).sub(&yy).add(&two_expression);
        let y2 = builder.quotient(&ny, &dy);
        proof {
            lemma_extends_trans(*builder, s4, s3);
            lemma_extends_trans(*builder, s3, s2);
            lemma_extends_trans(*builder, s2, s1);
            lemma_extends_trans(*builder, s1, s0);
            assert forall|vals: Map<u32, nat>| #![trigger builder.satisfied(vals)]
                builder.satisfied(vals) && valid_assignment(vals, F::modulus()) implies {
                let (nx, dx, ny, dy) = edwards_double_fraction(
                    C::coefficient_a(),
                    F::modulus(),
                    e.x.eval(vals),
                    e.y.eval(vals),
                );
                &&& dx != 0 && field_mul(dx, x2.eval(vals), F::modulus()) == nx
                &&& dy != 0 && field_mul(dy, y2.eval(vals), F::modulus()) == ny
            } by {
                lemma_satisfied_prefix(*builder, s4, vals);
                lemma_satisfied_prefix(*builder, s3, vals);
                lemma_satisfied_prefix(*builder, s2, vals);
                lemma_satisfied_prefix(*builder, s1, vals);
                crate::field_arithmetic::lemma_element_eval::<F>(two_expression@, 2, vals);
            }
            assert forall|vals: Map<u32, nat>| #![trigger builder.satisfied(vals)]
                builder.satisfied(vals) && valid_assignment(vals, F::modulus()) && is_prime(F::modulus())
                implies edwards_double_value(
                C::coefficient_a(),
                F::modulus(),
                (e.x.eval(vals), e.y.eval(vals)),
            ) == Some((x2.eval(vals), y2.eval(vals))) by {
                lemma_eval_bound::<F>(&x2, vals);
                lemma_eval_bound::<F>(&y2, vals);
                lemma_double_from_fractions(
                    C::coefficient_a(),
                    F::modulus(),
                    (e.x.eval(vals), e.y.eval(vals)),
                    x2.eval(vals),
                    y2.eval(vals),
                );
            }
        }
        EdwardsExpression::new_unsafe(x2, y2)
    }

    fn boolean_mult_expression(
        builder: &mut GadgetBuilder<F>,
        e: &EdwardsExpression<F, C>,
        b: &BooleanExpression<F>,
    ) -> (r: EdwardsExpression<F, C>)
        ensures
            forall|vals: Map<u32, nat>|
                #![trigger final(builder).satisfied(vals)]
                final(builder).satisfied(vals) && valid_assignment(vals, F::modulus()) ==> {
                    &&& b.eval(vals) == 1 ==> r.x.eval(vals) == e.x.eval(vals) && r.y.eval(vals)
                        == e.y.eval(vals)
                    &&& b.eval(vals) == 0 ==> r.x.eval(vals) == 0 && r.y.eval(vals) == 1
                },
    {
        let ghost s0 = *builder;
        let zero = Expression::zero();
        let one = Expression::one();
        let x = builder.selection(b, &e.x, &zero);
        let ghost s1 = *builder;
        let y = builder.selection(b, &e.y, &one);
        proof {
            lemma_extends_trans(*builder, s1, s0);
            assert forall|vals: Map<u32, nat>| #![trigger builder.satisfied(vals)]
                builder.satisfied(vals) && valid_assignment(vals, F::modulus()) implies {
                &&& b.eval(vals) == 1 ==> x.eval(vals) == e.x.eval(vals) && y.eval(vals)
                    == e.y.eval(vals)
                &&& b.eval(vals) == 0 ==> x.eval(vals) == 0 && y.eval(vals) == 1
            } by {
                lemma_satisfied_prefix(*builder, s1, vals);
                crate::gadget_builder::lemma_zero_eval(zero@, vals, F::modulus());
                lemma_one_eval::<F>(one@, vals);
            }
        }
        EdwardsExpression::new_unsafe(x, y)
    }

    /// Splits `scalar` into its bits (allowing the ambiguous representations), then runs
    /// double-and-add: for each bit, from the least significant, the sum gains the current point
    /// when the bit is set, and the current point is doubled.
    fn scalar_mult_expression(
        builder: &mut GadgetBuilder<F>,
        e: &EdwardsExpression<F, C>,
        scalar: &Expression<F>,
    ) -> (r: EdwardsExpression<F, C>)
        ensures
            forall|vals: Map<u32, nat>|
                #![trigger final(builder).satisfied(vals)]
                final(builder).satisfied(vals) && valid_assignment(vals, F::modulus()) && is_prime(
                    F::modulus(),
                ) ==> exists|bits: Seq<nat>|
                    #![trigger bit_flags(bits)]
                    bits.len() == crate::splitting::field_bits::<F>() && is_bit_seq(bits)
                        && weighted_sum(bits) % F::modulus() == scalar.eval(vals)
                        && edwards_double_and_add(
                        C::coefficient_a(),
                        C::coefficient_d(),
                        F::modulus(),
                        bit_flags(bits),
                        (0nat, 1nat),
                        (e.x.eval(vals), e.y.eval(vals)),
                    ) == Some((r.x.eval(vals), r.y.eval(vals))),
    {
        let ghost s0 = *builder;
        let ghost fb = crate::splitting::field_bits::<F>();
        let ghost a = C::coefficient_a();
        let ghost d = C::coefficient_d();
        let ghost p = F::modulus();
        proof {
            assert(fb * 19 == fb + fb * 18) by (nonlinear_arith);
        }
        let scalar_binary = builder.split_allowing_ambiguity(scalar);
        let ghost after_split = *builder;
        let mut sum = Self::identity_expression();
        let mut current = e.copy();
        let n = scalar_binary.bits.len();
        let mut i: usize = 0;
        proof {
            crate::field_arithmetic::lemma_extends_refl(*builder);
            assert forall|vals: Map<u32, nat>| #![trigger builder.satisfied(vals)]
                builder.satisfied(vals) && valid_assignment(vals, p) && is_prime(p) implies edwards_double_and_add(
                a,
                d,
                p,
                bit_flags(scalar_binary.bit_values(vals)),
                (0nat, 1nat),
                (e.x.eval(vals), e.y.eval(vals)),
            ) == edwards_double_and_add(
                a,
                d,
                p,
                bit_flags(scalar_binary.bit_values(vals)).skip(0),
                (sum.x.eval(vals), sum.y.eval(vals)),
                (current.x.eval(vals), current.y.eval(vals)),
            ) by {
                assert(bit_flags(scalar_binary.bit_values(vals)).skip(0) =~= bit_flags(
                    scalar_binary.bit_values(vals),
                ));
                assert((sum.x.eval(vals), sum.y.eval(vals)) == (0nat, 1nat));
            }
        }
        while i < n
            invariant
                i <= n,
                n == fb,
                2 < F::modulus(),
                p == F::modulus(),
                a == C::coefficient_a(),
                d == C::coefficient_d(),
                scalar_binary@.len() == fb,
                n == scalar_binary.bits@.len(),
                builder.extends(s0),
                builder.extends(after_split),
                builder.next_index() <= s0.next_index() + fb + i * 18,
                s0.next_index() + fb * 19 <= u32::MAX,
                forall|vals: Map<u32, nat>|
                    #![trigger after_split.satisfied(vals)]
                    after_split.satisfied(vals) && valid_assignment(vals, F::modulus()) ==> scalar.eval(
                        vals,
                    ) == weighted_sum(scalar_binary.bit_values(vals)) % F::modulus()
                        && crate::splitting::bits_constrained(&scalar_binary, vals),
                forall|vals: Map<u32, nat>|
                    #![trigger builder.satisfied(vals)]
                    builder.satisfied(vals) && valid_assignment(vals, p) && is_prime(p)
                        ==> edwards_double_and_add(
                        a,
                        d,
                        p,
                        bit_flags(scalar_binary.bit_values(vals)),
                        (0nat, 1nat),
                        (e.x.eval(vals), e.y.eval(vals)),
                    ) == edwards_double_and_add(
                        a,
                        d,
                        p,
                        bit_flags(scalar_binary.bit_values(vals)).skip(i as int),
                        (sum.x.eval(vals), sum.y.eval(vals)),
                        (current.x.eval(vals), current.y.eval(vals)),
                    ),
            decreases n - i,
        {
            let ghost before = *builder;
            let ghost (sum0, cur0) = (sum, current);
            proof {
                assert((i + 1) * 18 == i * 18 + 18) by (nonlinear_arith);
                assert((i + 1) * 18 <= fb * 18) by (nonlinear_arith)
                    requires
                        i + 1 <= fb,
                ;
            }
            let boolean_product = Self::boolean_mult_expression(builder, &current, &scalar_binary.bits[i]);
            let ghost b1 = *builder;
            sum = Self::add_expressions(builder, &sum, &boolean_product);
            let ghost b2 = *builder;
            current = Self::double_expression(builder, &current);
            proof {
                lemma_extends_trans(*builder, b2, b1);
                lemma_extends_trans(*builder, b1, before);
                lemma_extends_trans(*builder, before, s0);
                lemma_extends_trans(*builder, before, after_split);
                assert forall|vals: Map<u32, nat>| #![trigger builder.satisfied(vals)]
                    builder.satisfied(vals) && valid_assignment(vals, p) && is_prime(p) implies edwards_double_and_add(
                    a,
                    d,
                    p,
                    bit_flags(scalar_binary.bit_values(vals)),
                    (0nat, 1nat),
                    (e.x.eval(vals), e.y.eval(vals)),
                ) == edwards_double_and_add(
                    a,
                    d,
                    p,
                    bit_flags(scalar_binary.bit_values(vals)).skip(i + 1),
                    (sum.x.eval(vals), sum.y.eval(vals)),
                    (current.x.eval(vals), current.y.eval(vals)),
                ) by {
                    lemma_satisfied_prefix(*builder, b2, vals);
                    lemma_satisfied_prefix(b2, b1, vals);
                    lemma_satisfied_prefix(b1, before, vals);
                    lemma_satisfied_prefix(*builder, after_split, vals);
                    crate::splitting::lemma_constrained_bits(&scalar_binary, vals);
                    let flags = bit_flags(scalar_binary.bit_values(vals));
                    let rest = flags.skip(i as int);
                    assert(rest.drop_first() =~= flags.skip(i + 1));
                    assert(rest[0] == flags[i as int]);
                    let bv = scalar_binary.bit_values(vals)[i as int];
                    assert(scalar_binary.bits@[i as int].eval(vals) == bv);
                    assert(bv == 0 || bv == 1);
                }
            }
            i += 1;
        }
        proof {
            assert forall|vals: Map<u32, nat>| #![trigger builder.satisfied(vals)]
                builder.satisfied(vals) && valid_assignment(vals, p) && is_prime(p) implies exists|bits: Seq<nat>|
                #![trigger bit_flags(bits)]
                bits.len() == fb && is_bit_seq(bits) && weighted_sum(bits) % p == scalar.eval(vals)
                    && edwards_double_and_add(
                    a,
                    d,
                    p,
                    bit_flags(bits),
                    (0nat, 1nat),
                    (e.x.eval(vals), e.y.eval(vals)),
                ) == Some((sum.x.eval(vals), sum.y.eval(vals))) by {
                lemma_satisfied_prefix(*builder, after_split, vals);
                crate::splitting::lemma_constrained_bits(&scalar_binary, vals);
                let bits = scalar_binary.bit_values(vals);
                assert(bit_flags(bits).skip(n as int).len() == 0);
                assert(bits.len() == fb);
            }
        }
        sum
    }

    /// The sum by the addition law, as the gadget of `add_expressions` computes it on constants.
    fn add_elements(lhs: &EdwardsPoint<F, C>, rhs: &EdwardsPoint<F, C>) -> (r: EdwardsPoint<F, C>)
        ensures
            Some(r.coordinates()) == edwards_add_value(
                C::coefficient_a(),
                C::coefficient_d(),
                F::modulus(),
                lhs.coordinates(),
                rhs.coordinates(),
            ),
    {
        let a = C::a();
        let d = C::d();
        let one = Element::one();
        let x1y2 = lhs.x.mul(&rhs.y);
        let x2y1 = lhs.y.mul(&rhs.x);
        let x1x2 = lhs.x.mul(&rhs.x);
        let t = x1y2.mul(&x2y1);
        let y1y2 = lhs.y.mul(&rhs.y);
        let nx = x1y2.add(&x2y1);
        let dx = d.mul(&t).add(&one);
        let ny = y1y2.sub(&a.mul(&x1x2));
        let dy = d.neg().mul(&t).add(&one);
        EdwardsPoint { x: nx.div(&dx), y: ny.div(&dy), phantom: PhantomData }
    }

    /// The double by the doubling law, as the gadget of `double_expression` computes it on
    /// constants.
    fn double_element(e: &EdwardsPoint<F, C>) -> (r: EdwardsPoint<F, C>)
        ensures
            Some(r.coordinates()) == edwards_double_value(
                C::coefficient_a(),
                F::modulus(),
                e.coordinates(),
            ),
    {
        let a = C::a();
        let two = Element::from_u128(2);
        let xy = e.x.mul(&e.y);
        let xx = e.x.mul(&e.x);
        let yy = e.y.mul(&e.y);
        let axx = a.mul(&xx);
        let nx = two.mul(&xy);
        let dx = axx.add(&yy);
        let ny = yy.sub(&axx);
        let dy = a.mul(&xx.neg()).sub(&yy).add(&two);
        EdwardsPoint { x: nx.div(&dx), y: ny.div(&dy), phantom: PhantomData }
    }

    /// Double-and-add over the field's bit count of binary digits of `scalar`, as the gadget of
    /// `scalar_mult_expression` computes it on constants.
    fn scalar_mult_element(e: &EdwardsPoint<F, C>, scalar: &Element<F>) -> (r: EdwardsPoint<F, C>)
        ensures
            Some(r.coordinates()) == edwards_double_and_add(
                C::coefficient_a(),
                C::coefficient_d(),
                F::modulus(),
                low_bits(scalar@, crate::splitting::field_bits::<F>()),
                (0nat, 1nat),
                e.coordinates(),
            ),
    {
        let ghost a = C::coefficient_a();
        let ghost d = C::coefficient_d();
        let ghost p = F::modulus();
        let ghost bits = low_bits(scalar@, crate::splitting::field_bits::<F>());
        let ghost goal = edwards_double_and_add(a, d, p, bits, (0nat, 1nat), e.coordinates());
        let n = Element::<F>::max_bits();
        let mut sum = Self::identity_element();
        let mut current = e.copy();
        assert(bits.subrange(0, n as int) =~= bits);
        let mut i: usize = 0;
        while i < n
            invariant
                i <= n,
                n == bits.len(),
                2 < p,
                p == F::modulus(),
                a == C::coefficient_a(),
                d == C::coefficient_d(),
                bits == low_bits(scalar@, crate::splitting::field_bits::<F>()),
                goal is Some,
                edwards_double_and_add(
                    a,
                    d,
                    p,
                    bits.subrange(i as int, n as int),
                    sum.coordinates(),
                    current.coordinates(),
                ) == goal,
            decreases n - i,
        {
            let ghost rest = bits.subrange(i as int, n as int);
            assert(rest[0] == crate::natural::bit_of(scalar@, i as nat));
            assert(rest.drop_first() =~= bits.subrange(i + 1, n as int));
            let addend = if scalar.bit(i) {
                current.copy()
            } else {
                Self::identity_element()
            };
            sum = Self::add_elements(&sum, &addend);
            current = Self::double_element(&current);
            i += 1;
        }
        assert(bits.subrange(n as int, n as int) =~= Seq::<bool>::empty());
        sum
    }
}

} // verus!
