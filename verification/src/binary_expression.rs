//! Expressions known to be binary, and sequences of them read as unsigned integers.

use vstd::arithmetic::div_mod::*;
use vstd::arithmetic::power2::*;
use vstd::prelude::*;

use crate::expression::{
    assigns_all, coefficient, eval_terms, lemma_coefficient_absent, raw_value, Expression,
};
use crate::field::{Element, Field};
use crate::natural::{bit_length, bit_of, Natural};
use crate::wire::{BinaryWire, BooleanWire, Wire, ONE_WIRE_INDEX};
use crate::wire_values::WireValues;

verus! {

/// An `Expression` whose value is known to be binary.
#[derive(Debug)]
pub struct BooleanExpression<F: Field> {
    expression: Expression<F>,
}

impl<F: Field> View for BooleanExpression<F> {
    type V = Seq<(u32, nat)>;

    closed spec fn view(&self) -> Seq<(u32, nat)> {
        self.expression@
    }
}

impl<F: Field> BooleanExpression<F> {
    /// The value of the underlying expression.
    pub open spec fn eval(&self, vals: Map<u32, nat>) -> nat {
        eval_terms(self@, vals, F::modulus())
    }

    /// Create a new bit. This is unsafe in the sense that a "equals 0 or 1" assertion will not be
    /// added automatically. You can use this method if you already know that a quantity will equal
    /// 0 or 1, for example if you computed 1 - b where b is a Bit.
    pub fn new_unsafe(expression: Expression<F>) -> (r: Self)
        ensures
            r@ == expression@,
    {
        BooleanExpression { expression }
    }

    /// The constant 0.
    pub fn _false() -> (r: Self)
        ensures
            r@ == Seq::<(u32, nat)>::empty(),
    {
        Self::from_bool(false)
    }

    /// The constant 1.
    pub fn _true() -> (r: Self)
        ensures
            r@ == seq![(ONE_WIRE_INDEX, 1nat)],
    {
        Self::from_bool(true)
    }

    /// The constant 0 or 1.
    pub fn from_bool(b: bool) -> (r: Self)
        ensures
            b ==> r@ == seq![(ONE_WIRE_INDEX, 1nat)],
            !b ==> r@ == Seq::<(u32, nat)>::empty(),
    {
        Self::new_unsafe(Expression::from_bool(b))
    }

    /// The bit carried by a boolean wire.
    pub fn from_boolean_wire(wire: &BooleanWire) -> (r: Self)
        ensures
            r@ == seq![(wire.spec_wire().index, 1nat)],
    {
        Self::new_unsafe(Expression::from_wire(wire.wire()))
    }

    pub fn expression(&self) -> (r: &Expression<F>)
        ensures
            r@ == self@,
    {
        &self.expression
    }

    pub fn copy(&self) -> (r: Self)
        ensures
            r@ == self@,
    {
        BooleanExpression { expression: self.expression.copy() }
    }

    /// The wires that this bit depends on, in increasing order.
    pub fn dependencies(&self) -> (r: Vec<Wire>)
        ensures
            r@.len() == self@.len(),
            forall|k: int| 0 <= k < r@.len() ==> #[trigger] r@[k].index == self@[k].0,
    {
        self.expression.dependencies()
    }

    /// The bit's value; the expression must evaluate to 0 or 1.
    pub fn evaluate(&self, values: &WireValues<F>) -> (r: bool)
        requires
            assigns_all(self@, values@),
            self.eval(values@) == 0 || self.eval(values@) == 1,
        ensures
            r == (self.eval(values@) == 1),
    {
        let x = self.expression.evaluate(values);
        x.is_one()
    }
}

impl<F: Field> Clone for BooleanExpression<F> {
    fn clone(&self) -> (r: Self)
        ensures
            r@ == self@,
    {
        self.copy()
    }
}

/// The unsigned integer that a sequence of bit values encodes, least significant first; a bit
/// counts as set when its value is 1.
pub open spec fn bits_value(bits: Seq<nat>) -> nat
    decreases bits.len(),
{
    if bits.len() == 0 {
        0
    } else {
        bits_value(bits.drop_last()) + if bits.last() == 1 {
            pow2((bits.len() - 1) as nat)
        } else {
            0
        }
    }
}

/// `sum_i 2^i * b_i` over the integers, for field values `b_i`.
pub open spec fn weighted_sum(bits: Seq<nat>) -> nat
    decreases bits.len(),
{
    if bits.len() == 0 {
        0
    } else {
        weighted_sum(bits.drop_last()) + pow2((bits.len() - 1) as nat) * bits.last()
    }
}

/// The values of several expressions under an assignment.
pub open spec fn evals(bits: Seq<Seq<(u32, nat)>>, vals: Map<u32, nat>, p: nat) -> Seq<nat> {
    bits.map_values(|b: Seq<(u32, nat)>| eval_terms(b, vals, p))
}

/// A `BinaryExpression` is comprised of several bits, each one being a `BooleanExpression`.
///
/// The sequence of bits is often interpreted as an unsigned integer for the purpose of binary
/// arithmetic. When doing so, our convention is to treat the left-most bit as the least
/// significant, and the right-most bit as the most significant.
#[derive(Debug)]
pub struct BinaryExpression<F: Field> {
    /// The sequence of bits, ordered from least significant to most significant.
    pub bits: Vec<BooleanExpression<F>>,
}

impl<F: Field> View for BinaryExpression<F> {
    type V = Seq<Seq<(u32, nat)>>;

    open spec fn view(&self) -> Seq<Seq<(u32, nat)>> {
        self.bits@.map_values(|b: BooleanExpression<F>| b@)
    }
}

impl<F: Field> BinaryExpression<F> {
    /// The value of each bit under an assignment.
    pub open spec fn bit_values(&self, vals: Map<u32, nat>) -> Seq<nat> {
        evals(self@, vals, F::modulus())
    }

    /// Every bit is fully assigned and evaluates to 0 or 1.
    pub open spec fn is_binary_under(&self, vals: Map<u32, nat>) -> bool {
        forall|i: int|
            0 <= i < self@.len() ==> assigns_all(#[trigger] self@[i], vals) && (
            eval_terms(self@[i], vals, F::modulus()) == 0 || eval_terms(
                self@[i],
                vals,
                F::modulus(),
            ) == 1)
    }

    /// The number of bits.
    pub fn len(&self) -> (r: usize)
        ensures
            r == self@.len(),
    {
        self.bits.len()
    }

    /// The empty bit sequence, which encodes 0.
    pub fn zero() -> (r: Self)
        ensures
            r@ == Seq::<Seq<(u32, nat)>>::empty(),
    {
        let r = BinaryExpression { bits: Vec::new() };
        assert(r@ =~= Seq::<Seq<(u32, nat)>>::empty());
        r
    }

    pub fn copy(&self) -> (r: Self)
        ensures
            r@ == self@,
    {
        let mut bits: Vec<BooleanExpression<F>> = Vec::new();
        let mut i: usize = 0;
        while i < self.bits.len()
            invariant
                0 <= i <= self.bits@.len(),
                bits@.len() == i,
                forall|k: int| 0 <= k < i ==> #[trigger] bits@[k]@ == self.bits@[k]@,
            decreases self.bits@.len() - i,
        {
            bits.push(self.bits[i].copy());
            i += 1;
        }
        let r = BinaryExpression { bits };
        assert(r@ =~= self@);
        r
    }

    /// Truncate the bits in this expression, discarding the more significant bits while keeping the
    /// less significant bits. `l` must not exceed the length.
    pub fn truncate(&mut self, l: usize)
        requires
            l <= old(self)@.len(),
        ensures
            final(self)@ == old(self)@.take(l as int),
    {
        self.bits.truncate(l);
        assert(self@ =~= old(self)@.take(l as int));
    }

    /// A copy of this expression truncated to `l` bits, which must not exceed the length.
    pub fn truncated(&self, l: usize) -> (r: Self)
        requires
            l <= self@.len(),
        ensures
            r@ == self@.take(l as int),
    {
        let mut result = self.copy();
        result.truncate(l);
        result
    }

    /// Pad this bit vector to `l` bits, adding 0 bits on the more significant side. `l` must not
    /// be below the length.
    pub fn pad(&mut self, l: usize)
        requires
            l >= old(self)@.len(),
        ensures
            final(self)@.len() == l,
            final(self)@.take(old(self)@.len() as int) == old(self)@,
            forall|i: int|
                old(self)@.len() <= i < l ==> #[trigger] final(self)@[i] == Seq::<
                    (u32, nat),
                >::empty(),
    {
        while self.bits.len() < l
            invariant
                old(self)@.len() <= self@.len() <= l,
                self@.take(old(self)@.len() as int) == old(self)@,
                forall|i: int|
                    old(self)@.len() <= i < self@.len() ==> #[trigger] self@[i] == Seq::<
                        (u32, nat),
                    >::empty(),
            decreases l - self.bits@.len(),
        {
            let ghost before = self@;
            self.bits.push(BooleanExpression::_false());
            assert(self@ =~= before.push(Seq::<(u32, nat)>::empty()));
            assert(self@.take(old(self)@.len() as int) =~= before.take(old(self)@.len() as int));
        }
    }

    /// A copy of this bit vector padded to `l` bits with 0 bits on the more significant side.
    pub fn padded(&self, l: usize) -> (r: Self)
        requires
            l >= self@.len(),
        ensures
            r@.len() == l,
            r@.take(self@.len() as int) == self@,
            forall|i: int| self@.len() <= i < l ==> #[trigger] r@[i] == Seq::<(u32, nat)>::empty(),
    {
        let mut result = self.copy();
        result.pad(l);
        result
    }

    /// Splits the bits into consecutive chunks of `chunk_bits` bits; the last chunk may be
    /// shorter. `chunk_bits` must be positive.
    pub fn chunks(&self, chunk_bits: usize) -> (r: Vec<BinaryExpression<F>>)
        requires
            chunk_bits > 0,
        ensures
            r@.len() == (self@.len() + chunk_bits - 1) / (chunk_bits as int),
            forall|c: int| 0 <= c < r@.len() ==> #[trigger] r@[c]@.len() <= chunk_bits,
            forall|c: int|
                0 <= c < r@.len() ==> #[trigger] r@[c]@ == self@.subrange(
                    c * chunk_bits,
                    if (c + 1) * chunk_bits <= self@.len() {
                        (c + 1) * chunk_bits
                    } else {
                        self@.len() as int
                    },
                ),
    {
        let n = self.bits.len();
        let mut out: Vec<BinaryExpression<F>> = Vec::new();
        let mut start: usize = 0;
        proof {
            let k = chunk_bits as int;
            assert(0 * k == 0);
            if n == 0 {
                lemma_basic_div_specific_divisor(k);
                assert((k - 1) / k == 0);
            }
        }
        while start < n
            invariant
                n == self@.len(),
                start <= n,
                start == out@.len() * chunk_bits || start == n,
                start == n ==> out@.len() == (n + chunk_bits - 1) / (chunk_bits as int),
                start < n ==> start == out@.len() * chunk_bits,
                chunk_bits > 0,
                forall|c: int| 0 <= c < out@.len() ==> #[trigger] out@[c]@.len() <= chunk_bits,
                forall|c: int|
                    0 <= c < out@.len() ==> #[trigger] out@[c]@ == self@.subrange(
                        c * chunk_bits,
                        if (c + 1) * chunk_bits <= self@.len() {
                            (c + 1) * chunk_bits
                        } else {
                            self@.len() as int
                        },
                    ),
            decreases n - start,
        {
            let c = out.len();
            let end = if n - start >= chunk_bits {
                start + chunk_bits
            } else {
                n
            };
            let mut chunk: Vec<BooleanExpression<F>> = Vec::new();
            let mut i: usize = start;
            while i < end
                invariant
                    start <= i <= end <= n,
                    n == self.bits@.len(),
                    chunk@.len() == i - start,
                    forall|k: int| 0 <= k < chunk@.len() ==> #[trigger] chunk@[k]@ == self.bits@[start + k]@,
                decreases end - i,
            {
                chunk.push(self.bits[i].copy());
                i += 1;
            }
            let piece = BinaryExpression { bits: chunk };
            proof {
                assert(start == c * chunk_bits);
                assert((c + 1) * chunk_bits == c * chunk_bits + chunk_bits) by (nonlinear_arith);
                assert(piece@ =~= self@.subrange(start as int, end as int));
            }
            out.push(piece);
            start = end;
            proof {
                if start < n {
                    assert(start == (c + 1) * chunk_bits);
                    assert(start == out@.len() * chunk_bits);
                } else {
                    let k = chunk_bits as int;
                    let m = out@.len() as int;
                    assert((m - 1) * k < n <= m * k);
                    assert((n + k - 1) / k == m) by (nonlinear_arith)
                        requires
                            (m - 1) * k < n <= m * k,
                            k > 0,
                    {
                        lemma_fundamental_div_mod(n + k - 1, k);
                    }
                }
                assert forall|d: int| 0 <= d < out@.len() implies #[trigger] out@[d]@ == self@.subrange(
                    d * chunk_bits,
                    if (d + 1) * chunk_bits <= self@.len() {
                        (d + 1) * chunk_bits
                    } else {
                        self@.len() as int
                    },
                ) by {
                    if d == c {
                    }
                }
            }
        }
        out
    }

    /// Appends a new most significant bit.
    pub fn add_most_significant(&mut self, bit: BooleanExpression<F>)
        ensures
            final(self)@ == old(self)@.push(bit@),
    {
        self.bits.push(bit);
        assert(self@ =~= old(self)@.push(bit@));
    }

    /// Join these bits into the field element they encode. This method requires that
    /// `2^self.len() <= |F|`, so that the result fits in a single
    /// field element.
    pub fn join(&self) -> (r: Expression<F>)
        requires
            pow2(self@.len()) <= F::modulus(),
        ensures
            forall|vals: Map<u32, nat>|
                #![trigger r.eval(vals)]
                r.eval(vals) == weighted_sum(self.bit_values(vals)) % F::modulus(),
            forall|w: u32|
                #![trigger coefficient(r@, w)]
                (forall|k: int| 0 <= k < self@.len() ==> coefficient(#[trigger] self@[k], w) == 0)
                    ==> coefficient(r@, w) == 0,
    {
        proof {
            if self@.len() > 0 {
                lemma_pow2_strictly_increases((self@.len() - 1) as nat, self@.len());
            }
        }
        self.join_allowing_overflow()
    }

    /// Join these bits into the field element they encode, reduced modulo `|F|`. Each weight
    /// `2^i` must itself be a field element.
    pub fn join_allowing_overflow(&self) -> (r: Expression<F>)
        requires
            self@.len() == 0 || pow2((self@.len() - 1) as nat) < F::modulus(),
        ensures
            forall|vals: Map<u32, nat>|
                #![trigger r.eval(vals)]
                r.eval(vals) == weighted_sum(self.bit_values(vals)) % F::modulus(),
            forall|w: u32|
                #![trigger coefficient(r@, w)]
                (forall|k: int| 0 <= k < self@.len() ==> coefficient(#[trigger] self@[k], w) == 0)
                    ==> coefficient(r@, w) == 0,
    {
        let ghost p = F::modulus();
        let mut sum = Expression::<F>::zero();
        let mut i: usize = 0;
        proof {
            use_type_invariant(&sum);
            assert forall|vals: Map<u32, nat>| #![trigger sum.eval(vals)] sum.eval(vals)
                == weighted_sum(self.bit_values(vals).take(0)) % p by {
                assert(self.bit_values(vals).take(0) =~= Seq::<nat>::empty());
                lemma_small_mod(0, p);
            }
        }
        while i < self.bits.len()
            invariant
                1 < p,
                p == F::modulus(),
                0 <= i <= self@.len(),
                self@.len() == 0 || pow2((self@.len() - 1) as nat) < p,
                forall|vals: Map<u32, nat>|
                    #![trigger sum.eval(vals)]
                    sum.eval(vals) == weighted_sum(self.bit_values(vals).take(i as int)) % p,
                forall|w: u32|
                    #![trigger coefficient(sum@, w)]
                    (forall|k: int| 0 <= k < i ==> coefficient(#[trigger] self@[k], w) == 0)
                        ==> coefficient(sum@, w) == 0,
            decreases self@.len() - i,
        {
            proof {
                if i < self@.len() - 1 {
                    lemma_pow2_strictly_increases(i as nat, (self@.len() - 1) as nat);
                }
                lemma_pow2_pos(i as nat);
            }
            let weight = Element::<F>::one().shl(i);
            let term = self.bits[i].expression.scale(&weight);
            let ghost old_sum = sum;
            sum = sum.add(&term);
            proof {
                assert forall|vals: Map<u32, nat>| #![trigger sum.eval(vals)] sum.eval(vals)
                    == weighted_sum(self.bit_values(vals).take(i + 1)) % p by {
                    let bv = self.bit_values(vals);
                    assert(bv.take(i + 1).drop_last() =~= bv.take(i as int));
                    assert(bv.take(i + 1).last() == bv[i as int]);
                    assert(bv[i as int] == eval_terms(self@[i as int], vals, p));
                    assert(self@[i as int] == self.bits@[i as int]@);
                    let ws = weighted_sum(bv.take(i as int));
                    let b = bv[i as int];
                    let w = pow2(i as nat);
                    assert(weighted_sum(bv.take(i + 1)) == ws + w * b);
                    lemma_add_mod_noop(ws as int, (w * b) as int, p as int);
                    lemma_mul_mod_noop_right(w as int, b as int, p as int);
                    lemma_mod_twice((w * b) as int, p as int);
                }
                assert forall|w: u32| #![trigger coefficient(sum@, w)]
                    (forall|k: int| 0 <= k < i + 1 ==> coefficient(#[trigger] self@[k], w) == 0) implies
                    coefficient(sum@, w) == 0 by {
                    assert(self@[i as int] == self.bits@[i as int]@);
                    assert(coefficient(self@[i as int], w) == 0);
                    assert(coefficient(old_sum@, w) == 0);
                    lemma_small_mod(0, p);
                }
            }
            i += 1;
        }
        proof {
            assert forall|vals: Map<u32, nat>| #![trigger sum.eval(vals)] sum.eval(vals)
                == weighted_sum(self.bit_values(vals)) % p by {
                assert(self.bit_values(vals).take(self@.len() as int) =~= self.bit_values(vals));
            }
        }
        sum
    }

    /// All wires that the bits depend on, each listed once.
    pub fn dependencies(&self) -> (r: Vec<Wire>)
        ensures
            forall|i: int, k: int|
                0 <= i < self@.len() && 0 <= k < self@[i].len() ==> lists_wire(
                    r@,
                    #[trigger] self@[i][k].0,
                ),
            forall|j: int| 0 <= j < r@.len() ==> mentions_wire(self@, #[trigger] r@[j].index),
            forall|a: int, b: int| 0 <= a < b < r@.len() ==> r@[a].index != r@[b].index,
    {
        let mut out: Vec<Wire> = Vec::new();
        let mut i: usize = 0;
        while i < self.bits.len()
            invariant
                0 <= i <= self@.len(),
                forall|a: int, b: int| 0 <= a < b < out@.len() ==> out@[a].index != out@[b].index,
                forall|i2: int, k: int|
                    0 <= i2 < i && 0 <= k < self@[i2].len() ==> lists_wire(
                        out@,
                        #[trigger] self@[i2][k].0,
                    ),
                forall|j: int| 0 <= j < out@.len() ==> mentions_wire(self@, #[trigger] out@[j].index),
            decreases self@.len() - i,
        {
            let deps = self.bits[i].dependencies();
            proof {
                assert(self@[i as int] == self.bits@[i as int]@);
            }
            let mut k: usize = 0;
            while k < deps.len()
                invariant
                    0 <= i < self@.len(),
                    0 <= k <= deps@.len(),
                    deps@.len() == self@[i as int].len(),
                    forall|q: int| 0 <= q < deps@.len() ==> #[trigger] deps@[q].index == self@[i as int][q].0,
                    forall|a: int, b: int| 0 <= a < b < out@.len() ==> out@[a].index != out@[b].index,
                    forall|i2: int, k2: int|
                        0 <= i2 < i && 0 <= k2 < self@[i2].len() ==> lists_wire(
                            out@,
                            #[trigger] self@[i2][k2].0,
                        ),
                    forall|k2: int| 0 <= k2 < k ==> lists_wire(out@, #[trigger] self@[i as int][k2].0),
                    forall|j: int| 0 <= j < out@.len() ==> mentions_wire(self@, #[trigger] out@[j].index),
                decreases deps@.len() - k,
            {
                let w = deps[k];
                let mut seen = false;
                let mut j: usize = 0;
                while j < out.len()
                    invariant
                        0 <= j <= out@.len(),
                        seen ==> lists_wire(out@, w.index),
                        !seen ==> forall|q: int| 0 <= q < j ==> #[trigger] out@[q].index != w.index,
                    decreases out@.len() - j,
                {
                    if out[j].index == w.index {
                        seen = true;
                    }
                    j += 1;
                }
                let ghost before = out@;
                proof {
                    assert(mentions_wire(self@, self@[i as int][k as int].0));
                }
                if !seen {
                    out.push(w);
                    proof {
                        assert forall|v: u32| lists_wire(before, v) implies lists_wire(out@, v) by {
                            let j2 = choose|j2: int| 0 <= j2 < before.len() && before[j2].index == v;
                            assert(out@[j2] == before[j2]);
                        }
                        assert(out@[out@.len() - 1] == w);
                        assert(lists_wire(out@, w.index));
                        assert forall|j2: int| 0 <= j2 < out@.len() implies mentions_wire(
                            self@,
                            #[trigger] out@[j2].index,
                        ) by {
                            if j2 < before.len() {
                                assert(out@[j2] == before[j2]);
                            }
                        }
                    }
                }
                k += 1;
            }
            i += 1;
        }
        out
    }

    /// The unsigned integer that the bits encode; every bit must be assigned and evaluate to 0 or
    /// 1.
    pub fn evaluate(&self, values: &WireValues<F>) -> (r: Natural)
        requires
            self.is_binary_under(values@),
        ensures
            r@ == bits_value(self.bit_values(values@)),
    {
        let ghost bv = self.bit_values(values@);
        let mut sum = Natural::zero();
        let one = Natural::from_u128(1);
        let mut i: usize = 0;
        proof {
            assert(bv.take(0) =~= Seq::<nat>::empty());
        }
        while i < self.bits.len()
            invariant
                bv == self.bit_values(values@),
                self.is_binary_under(values@),
                0 <= i <= self@.len(),
                one@ == 1,
                sum@ == bits_value(bv.take(i as int)),
            decreases self@.len() - i,
        {
            proof {
                assert(self@[i as int] == self.bits@[i as int]@);
                assert(assigns_all(self@[i as int], values@));
            }
            let b = self.bits[i].evaluate(values);
            proof {
                assert(bv.take(i + 1).drop_last() =~= bv.take(i as int));
                assert(bv.take(i + 1).last() == bv[i as int]);
            }
            if b {
                let w = one.shl(i);
                sum = sum.add(&w);
            }
            i += 1;
        }
        proof {
            assert(bv.take(self@.len() as int) =~= bv);
        }
        sum
    }

    /// The bits of several binary expressions, one after another.
    pub fn concat(expressions: &[BinaryExpression<F>]) -> (r: Self)
        ensures
            r@ == concat_views(expressions@.map_values(|e: BinaryExpression<F>| e@)),
    {
        let ghost views = expressions@.map_values(|e: BinaryExpression<F>| e@);
        let mut bits: Vec<BooleanExpression<F>> = Vec::new();
        let mut i: usize = 0;
        proof {
            assert(views.take(0) =~= Seq::<Seq<Seq<(u32, nat)>>>::empty());
            assert(bits@.map_values(|b: BooleanExpression<F>| b@) =~= concat_views(views.take(0)));
        }
        while i < expressions.len()
            invariant
                views == expressions@.map_values(|e: BinaryExpression<F>| e@),
                0 <= i <= expressions@.len(),
                bits@.map_values(|b: BooleanExpression<F>| b@) == concat_views(views.take(i as int)),
            decreases expressions@.len() - i,
        {
            let e = &expressions[i];
            let ghost before = bits@.map_values(|b: BooleanExpression<F>| b@);
            let mut j: usize = 0;
            while j < e.bits.len()
                invariant
                    0 <= j <= e.bits@.len(),
                    bits@.map_values(|b: BooleanExpression<F>| b@) == before + e@.take(j as int),
                decreases e.bits@.len() - j,
            {
                let ghost b0 = bits@.map_values(|b: BooleanExpression<F>| b@);
                bits.push(e.bits[j].copy());
                proof {
                    assert(bits@.map_values(|b: BooleanExpression<F>| b@) =~= b0.push(e@[j as int]));
                    assert(e@.take(j + 1) =~= e@.take(j as int).push(e@[j as int]));
                    assert(before + e@.take(j + 1) =~= (before + e@.take(j as int)).push(e@[j as int]));
                }
                j += 1;
            }
            proof {
                assert(e@.take(e@.len() as int) =~= e@);
                assert(views.take(i + 1).drop_last() =~= views.take(i as int));
                assert(views.take(i + 1).last() == e@);
            }
            i += 1;
        }
        proof {
            assert(views.take(expressions@.len() as int) =~= views);
        }
        BinaryExpression { bits }
    }

    /// The bits of a binary wire.
    pub fn from_binary_wire(wire: &BinaryWire) -> (r: Self)
        ensures
            r@.len() == wire.bits@.len(),
            forall|i: int|
                0 <= i < r@.len() ==> #[trigger] r@[i] == seq![(wire.bits@[i].spec_wire().index, 1nat)],
    {
        let mut bits: Vec<BooleanExpression<F>> = Vec::new();
        let mut i: usize = 0;
        while i < wire.bits.len()
            invariant
                0 <= i <= wire.bits@.len(),
                bits@.len() == i,
                forall|k: int|
                    0 <= k < i ==> #[trigger] bits@[k]@ == seq![(wire.bits@[k].spec_wire().index, 1nat)],
            decreases wire.bits@.len() - i,
        {
            bits.push(BooleanExpression::from_boolean_wire(&wire.bits[i]));
            i += 1;
        }
        BinaryExpression { bits }
    }

    /// The constant bits of `value`, least significant first, with no leading zeros.
    pub fn from_natural(value: &Natural) -> (r: Self)
        ensures
            r@.len() == bit_length(value@),
            forall|i: int|
                0 <= i < r@.len() ==> #[trigger] r@[i] == if bit_of(value@, i as nat) {
                    seq![(ONE_WIRE_INDEX, 1nat)]
                } else {
                    Seq::<(u32, nat)>::empty()
                },
    {
        let n = value.bits();
        let mut bits: Vec<BooleanExpression<F>> = Vec::new();
        let mut i: u64 = 0;
        while i < n
            invariant
                0 <= i <= n,
                n == bit_length(value@),
                bits@.len() == i,
                forall|k: int|
                    0 <= k < i ==> #[trigger] bits@[k]@ == if bit_of(value@, k as nat) {
                        seq![(ONE_WIRE_INDEX, 1nat)]
                    } else {
                        Seq::<(u32, nat)>::empty()
                    },
            decreases n - i,
        {
            let b = value.bit(i);
            bits.push(BooleanExpression::from_bool(b));
            i += 1;
        }
        BinaryExpression { bits }
    }

    /// The constant bits of `value`.
    pub fn from_u128(value: u128) -> (r: Self)
        ensures
            r@.len() == bit_length(value as nat),
            forall|i: int|
                0 <= i < r@.len() ==> #[trigger] r@[i] == if bit_of(value as nat, i as nat) {
                    seq![(ONE_WIRE_INDEX, 1nat)]
                } else {
                    Seq::<(u32, nat)>::empty()
                },
    {
        Self::from_natural(&Natural::from_u128(value))
    }
}

/// Some entry of the list is the wire `w`.
pub open spec fn lists_wire(r: Seq<Wire>, w: u32) -> bool {
    exists|j: int| 0 <= j < r.len() && r[j].index == w
}

/// Some term of some bit mentions the wire `w`.
pub open spec fn mentions_wire(bits: Seq<Seq<(u32, nat)>>, w: u32) -> bool {
    exists|i: int, k: int| 0 <= i < bits.len() && 0 <= k < bits[i].len() && bits[i][k].0 == w
}

/// The concatenation of several bit sequences.
pub open spec fn concat_views(v: Seq<Seq<Seq<(u32, nat)>>>) -> Seq<Seq<(u32, nat)>>
    decreases v.len(),
{
    if v.len() == 0 {
        Seq::empty()
    } else {
        concat_views(v.drop_last()) + v.last()
    }
}

impl<F: Field> Clone for BinaryExpression<F> {
    fn clone(&self) -> (r: Self)
        ensures
            r@ == self@,
    {
        self.copy()
    }
}

} // verus!
