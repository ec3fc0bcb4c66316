//! Gadgets for bitwise operations such as rotations, bitwise AND, and so forth.

use vstd::prelude::*;

use crate::binary_expression::{BinaryExpression, BooleanExpression};
use crate::field::{field_add, field_mul, field_sub, Field};
use crate::gadget_builder::{lemma_extends_trans, lemma_satisfied_prefix, valid_assignment, GadgetBuilder};

verus! {

/// The field operation that a bitwise gadget applies to each pair of bits.
pub open spec fn bit_op(op: nat, a: nat, b: nat, p: nat) -> nat {
    if op == 0 {
        field_mul(a, b, p)
    } else if op == 1 {
        field_sub(field_add(a, b, p), field_mul(a, b, p), p)
    } else {
        field_sub(field_add(a, b, p), (2 * field_mul(a, b, p)) % p, p)
    }
}

impl<F: Field> GadgetBuilder<F> {
    /// The bitwise negation of a binary expression `x`, a.k.a. `~x`.
    pub fn bitwise_not(&mut self, x: &BinaryExpression<F>) -> (r: BinaryExpression<F>)
        ensures
            *final(self) == *old(self),
            r@.len() == x@.len(),
            forall|vals: Map<u32, nat>|
                valid_assignment(vals, F::modulus()) ==> forall|i: int|
                    0 <= i < r@.len() ==> #[trigger] r.bit_values(vals)[i] == field_sub(
                        1,
                        x.bit_values(vals)[i],
                        F::modulus(),
                    ),
    {
        let mut bits: Vec<BooleanExpression<F>> = Vec::new();
        let mut i: usize = 0;
        while i < x.bits.len()
            invariant
                i <= x@.len(),
                bits@.len() == i,
                *self == *old(self),
                forall|vals: Map<u32, nat>|
                    valid_assignment(vals, F::modulus()) ==> forall|k: int|
                        0 <= k < i ==> #[trigger] bits@[k].eval(vals) == field_sub(
                            1,
                            x.bit_values(vals)[k],
                            F::modulus(),
                        ),
            decreases x@.len() - i,
        {
            let b = self.not(&x.bits[i]);
            proof {
                assert forall|vals: Map<u32, nat>| valid_assignment(vals, F::modulus()) implies forall|
                    k: int,
                |
                    0 <= k < i + 1 ==> #[trigger] bits@.push(b)[k].eval(vals) == field_sub(
                        1,
                        x.bit_values(vals)[k],
                        F::modulus(),
                    ) by {
                    assert(x.bit_values(vals)[i as int] == x.bits@[i as int].eval(vals));
                    assert forall|k: int| 0 <= k < i + 1 implies #[trigger] bits@.push(b)[k].eval(
                        vals,
                    ) == field_sub(1, x.bit_values(vals)[k], F::modulus()) by {
                        if k < i {
                            assert(bits@.push(b)[k] == bits@[k]);
                        }
                    }
                }
            }
            bits.push(b);
            i += 1;
        }
        let r = BinaryExpression { bits };
        proof {
            assert forall|vals: Map<u32, nat>| valid_assignment(vals, F::modulus()) implies forall|
                i: int,
            |
                0 <= i < r@.len() ==> #[trigger] r.bit_values(vals)[i] == field_sub(
                    1,
                    x.bit_values(vals)[i],
                    F::modulus(),
                ) by {
                assert forall|i: int| 0 <= i < r@.len() implies #[trigger] r.bit_values(vals)[i]
                    == field_sub(1, x.bit_values(vals)[i], F::modulus()) by {
                    assert(r.bit_values(vals)[i] == r.bits@[i].eval(vals));
                }
            }
        }
        r
    }

    /// The bitwise conjunction of two binary expressions `x` and `y`, a.k.a. `x & y`. The lengths
    /// must match.
    pub fn bitwise_and(&mut self, x: &BinaryExpression<F>, y: &BinaryExpression<F>) -> (r:
        BinaryExpression<F>)
        requires
            x@.len() == y@.len(),
            old(self).has_room(x@.len()),
        ensures
            r@.len() == x@.len(),
            final(self).extends(*old(self)),
            final(self).next_index() <= old(self).next_index() + x@.len(),
            forall|vals: Map<u32, nat>|
                #![trigger final(self).satisfied(vals)]
                final(self).satisfied(vals) && valid_assignment(vals, F::modulus()) ==> forall|i: int|
                    0 <= i < r@.len() ==> #[trigger] r.bit_values(vals)[i] == bit_op(
                        0,
                        x.bit_values(vals)[i],
                        y.bit_values(vals)[i],
                        F::modulus(),
                    ),
    {
        self.bitwise_op(x, y, 0)
    }

    /// The bitwise disjunction of two binary expressions `x` and `y`, a.k.a. `x | y`. The lengths
    /// must match.
    pub fn bitwise_or(&mut self, x: &BinaryExpression<F>, y: &BinaryExpression<F>) -> (r:
        BinaryExpression<F>)
        requires
            x@.len() == y@.len(),
            old(self).has_room(x@.len()),
        ensures
            r@.len() == x@.len(),
            final(self).extends(*old(self)),
            final(self).next_index() <= old(self).next_index() + x@.len(),
            forall|vals: Map<u32, nat>|
                #![trigger final(self).satisfied(vals)]
                final(self).satisfied(vals) && valid_assignment(vals, F::modulus()) ==> forall|i: int|
                    0 <= i < r@.len() ==> #[trigger] r.bit_values(vals)[i] == bit_op(
                        1,
                        x.bit_values(vals)[i],
                        y.bit_values(vals)[i],
                        F::modulus(),
                    ),
    {
        self.bitwise_op(x, y, 1)
    }

    /// The bitwise exclusive disjunction of two binary expressions `x` and `y`, a.k.a. `x ^ y`.
    /// The lengths must match.
    pub fn bitwise_xor(&mut self, x: &BinaryExpression<F>, y: &BinaryExpression<F>) -> (r:
        BinaryExpression<F>)
        requires
            x@.len() == y@.len(),
            2 < F::modulus(),
            old(self).has_room(x@.len()),
        ensures
            r@.len() == x@.len(),
            final(self).extends(*old(self)),
            final(self).next_index() <= old(self).next_index() + x@.len(),
            forall|vals: Map<u32, nat>|
                #![trigger final(self).satisfied(vals)]
                final(self).satisfied(vals) && valid_assignment(vals, F::modulus()) ==> forall|i: int|
                    0 <= i < r@.len() ==> #[trigger] r.bit_values(vals)[i] == bit_op(
                        2,
                        x.bit_values(vals)[i],
                        y.bit_values(vals)[i],
                        F::modulus(),
                    ),
    {
        self.bitwise_op(x, y, 2)
    }

    /// Applies `and` (op 0), `or` (op 1) or `xor` (op 2) to each pair of bits.
    fn bitwise_op(&mut self, x: &BinaryExpression<F>, y: &BinaryExpression<F>, op: u8) -> (r:
        BinaryExpression<F>)
        requires
            x@.len() == y@.len(),
            op < 3,
            op == 2 ==> 2 < F::modulus(),
            old(self).has_room(x@.len()),
        ensures
            r@.len() == x@.len(),
            final(self).extends(*old(self)),
            final(self).next_index() <= old(self).next_index() + x@.len(),
            forall|vals: Map<u32, nat>|
                #![trigger final(self).satisfied(vals)]
                final(self).satisfied(vals) && valid_assignment(vals, F::modulus()) ==> forall|i: int|
                    0 <= i < r@.len() ==> #[trigger] r.bit_values(vals)[i] == bit_op(
                        op as nat,
                        x.bit_values(vals)[i],
                        y.bit_values(vals)[i],
                        F::modulus(),
                    ),
    {
        let ghost start = *self;
        proof {
            crate::field_arithmetic::lemma_extends_refl(*self);
        }
        let l = x.len();
        let mut bits: Vec<BooleanExpression<F>> = Vec::new();
        let mut i: usize = 0;
        while i < l
            invariant
                l == x@.len(),
                l == y@.len(),
                op < 3,
                op == 2 ==> 2 < F::modulus(),
                i <= l,
                bits@.len() == i,
                self.extends(start),
                self.next_index() <= start.next_index() + i,
                start.next_index() + l <= u32::MAX,
                forall|vals: Map<u32, nat>|
                    #![trigger self.satisfied(vals)]
                    self.satisfied(vals) && valid_assignment(vals, F::modulus()) ==> forall|k: int|
                        0 <= k < i ==> #[trigger] bits@[k].eval(vals) == bit_op(
                            op as nat,
                            x.bit_values(vals)[k],
                            y.bit_values(vals)[k],
                            F::modulus(),
                        ),
            decreases l - i,
        {
            let ghost before = *self;
            let b = if op == 0 {
                self.and(&x.bits[i], &y.bits[i])
            } else if op == 1 {
                self.or(&x.bits[i], &y.bits[i])
            } else {
                self.xor(&x.bits[i], &y.bits[i])
            };
            proof {
                lemma_extends_trans(*self, before, start);
                assert forall|vals: Map<u32, nat>| #![trigger self.satisfied(vals)]
                    self.satisfied(vals) && valid_assignment(vals, F::modulus()) implies forall|k: int|
                    0 <= k < i + 1 ==> #[trigger] bits@.push(b)[k].eval(vals) == bit_op(
                        op as nat,
                        x.bit_values(vals)[k],
                        y.bit_values(vals)[k],
                        F::modulus(),
                    ) by {
                    lemma_satisfied_prefix(*self, before, vals);
                    assert(x.bit_values(vals)[i as int] == x.bits@[i as int].eval(vals));
                    assert(y.bit_values(vals)[i as int] == y.bits@[i as int].eval(vals));
                    assert forall|k: int| 0 <= k < i + 1 implies #[trigger] bits@.push(b)[k].eval(
                        vals,
                    ) == bit_op(
                        op as nat,
                        x.bit_values(vals)[k],
                        y.bit_values(vals)[k],
                        F::modulus(),
                    ) by {
                        if k < i {
                            assert(bits@.push(b)[k] == bits@[k]);
                        }
                    }
                }
            }
            bits.push(b);
            i += 1;
        }
        let r = BinaryExpression { bits };
        proof {
            assert forall|vals: Map<u32, nat>| #![trigger self.satisfied(vals)]
                self.satisfied(vals) && valid_assignment(vals, F::modulus()) implies forall|i: int|
                0 <= i < r@.len() ==> #[trigger] r.bit_values(vals)[i] == bit_op(
                    op as nat,
                    x.bit_values(vals)[i],
                    y.bit_values(vals)[i],
                    F::modulus(),
                ) by {
                assert forall|i: int| 0 <= i < r@.len() implies #[trigger] r.bit_values(vals)[i]
                    == bit_op(op as nat, x.bit_values(vals)[i], y.bit_values(vals)[i], F::modulus())
                    by {
                    assert(r.bit_values(vals)[i] == r.bits@[i].eval(vals));
                }
            }
        }
        r
    }

    /// Rotate bits in the direction of increasing significance. This is equivalent to "left rotate"
    /// in most programming languages. `x` must not be empty.
    pub fn bitwise_rotate_inc_significance(&mut self, x: &BinaryExpression<F>, n: usize) -> (r:
        BinaryExpression<F>)
        requires
            x@.len() > 0,
        ensures
            *final(self) == *old(self),
            r@.len() == x@.len(),
            forall|i: int|
                0 <= i < r@.len() ==> #[trigger] r@[i] == x@[(x@.len() + i - (n as int) % (x@.len() as int))
                    % (x@.len() as int)],
    {
        let l = x.len();
        let mut bits: Vec<BooleanExpression<F>> = Vec::new();
        let mut i: usize = 0;
        while i < l
            invariant
                l == x@.len(),
                l > 0,
                i <= l,
                bits@.len() == i,
                forall|k: int|
                    0 <= k < i ==> #[trigger] bits@[k]@ == x@[(l + k - (n as int) % (l as int)) % (l as int)],
            decreases l - i,
        {
            // This is equivalent to (i - n) mod l.
            let shift = n % l;
            let from_idx = if i >= shift {
                i - shift
            } else {
                i + (l - shift)
            };
            proof {
                let li = l as int;
                if i >= shift {
                    vstd::arithmetic::div_mod::lemma_mod_add_multiples_vanish(i - shift, li);
                    vstd::arithmetic::div_mod::lemma_small_mod((i - shift) as nat, l as nat);
                } else {
                    vstd::arithmetic::div_mod::lemma_small_mod((l + i - shift) as nat, l as nat);
                }
            }
            bits.push(x.bits[from_idx].copy());
            i += 1;
        }
        let r = BinaryExpression { bits };
        proof {
            assert forall|i: int| 0 <= i < r@.len() implies #[trigger] r@[i] == x@[(x@.len() + i - (
            n as int) % (x@.len() as int)) % (x@.len() as int)] by {
                assert(r@[i] == r.bits@[i]@);
            }
        }
        r
    }

    /// Rotate bits in the direction of decreasing significance. This is equivalent to "right
    /// rotate" in most programming languages. `x` must not be empty.
    pub fn bitwise_rotate_dec_significance(&mut self, x: &BinaryExpression<F>, n: usize) -> (r:
        BinaryExpression<F>)
        requires
            x@.len() > 0,
        ensures
            *final(self) == *old(self),
            r@.len() == x@.len(),
            forall|i: int|
                0 <= i < r@.len() ==> #[trigger] r@[i] == x@[(i + n) % (x@.len() as int)],
    {
        let l = x.len();
        let mut bits: Vec<BooleanExpression<F>> = Vec::new();
        let mut i: usize = 0;
        while i < l
            invariant
                l == x@.len(),
                l > 0,
                i <= l,
                bits@.len() == i,
                forall|k: int| 0 <= k < i ==> #[trigger] bits@[k]@ == x@[(k + n) % (l as int)],
            decreases l - i,
        {
            let shift = n % l;
            let from_idx = if i < l - shift {
                i + shift
            } else {
                i - (l - shift)
            };
            proof {
                let li = l as int;
                vstd::arithmetic::div_mod::lemma_add_mod_noop(i as int, n as int, li);
                vstd::arithmetic::div_mod::lemma_small_mod(i as nat, l as nat);
                vstd::arithmetic::div_mod::lemma_mod_twice(n as int, li);
                if i < l - shift {
                    vstd::arithmetic::div_mod::lemma_small_mod((i + shift) as nat, l as nat);
                } else {
                    vstd::arithmetic::div_mod::lemma_mod_sub_multiples_vanish((i + shift) as int, li);
                    vstd::arithmetic::div_mod::lemma_small_mod((i + shift - l) as nat, l as nat);
                }
            }
            bits.push(x.bits[from_idx].copy());
            i += 1;
        }
        let r = BinaryExpression { bits };
        proof {
            assert forall|i: int| 0 <= i < r@.len() implies #[trigger] r@[i] == x@[(i + n) % (
            x@.len() as int)] by {
                assert(r@[i] == r.bits@[i]@);
            }
        }
        r
    }

    /// Shift bits in the direction of increasing significance, discarding bits on the most
    /// significant end and inserting zeros on the least significant end. This is equivalent to
    /// "left shift" in most programming languages.
    pub fn bitwise_shift_inc_significance(&mut self, x: &BinaryExpression<F>, n: usize) -> (r:
        BinaryExpression<F>)
        ensures
            *final(self) == *old(self),
            r@.len() == x@.len(),
            forall|i: int|
                0 <= i < r@.len() ==> #[trigger] r@[i] == if i < n {
                    Seq::<(u32, nat)>::empty()
                } else {
                    x@[i - n]
                },
    {
        let l = x.len();
        let mut bits: Vec<BooleanExpression<F>> = Vec::new();
        let mut i: usize = 0;
        while i < l
            invariant
                l == x@.len(),
                i <= l,
                bits@.len() == i,
                forall|k: int|
                    0 <= k < i ==> #[trigger] bits@[k]@ == if k < n {
                        Seq::<(u32, nat)>::empty()
                    } else {
                        x@[k - n]
                    },
            decreases l - i,
        {
            if i < n {
                bits.push(BooleanExpression::_false());
            } else {
                bits.push(x.bits[i - n].copy());
            }
            i += 1;
        }
        let r = BinaryExpression { bits };
        proof {
            assert forall|i: int| 0 <= i < r@.len() implies #[trigger] r@[i] == if i < n {
                Seq::<(u32, nat)>::empty()
            } else {
                x@[i - n]
            } by {
                assert(r@[i] == r.bits@[i]@);
            }
        }
        r
    }

    /// Shift bits in the direction of decreasing significance, discarding bits on the least
    /// significant end and inserting zeros on the most significant end. This is equivalent to
    /// "right shift" in most programming languages; shifting by the length or more gives zeros.
    pub fn bitwise_shift_dec_significance(&mut self, x: &BinaryExpression<F>, n: usize) -> (r:
        BinaryExpression<F>)
        ensures
            *final(self) == *old(self),
            r@.len() == x@.len(),
            forall|i: int|
                0 <= i < r@.len() ==> #[trigger] r@[i] == if i + n < x@.len() {
                    x@[i + n]
                } else {
                    Seq::<(u32, nat)>::empty()
                },
    {
        let l = x.len();
        let mut bits: Vec<BooleanExpression<F>> = Vec::new();
        let mut i: usize = 0;
        while i < l
            invariant
                l == x@.len(),
                i <= l,
                bits@.len() == i,
                forall|k: int|
                    0 <= k < i ==> #[trigger] bits@[k]@ == if k + n < l {
                        x@[k + n]
                    } else {
                        Seq::<(u32, nat)>::empty()
                    },
            decreases l - i,
        {
            if n < l && i < l - n {
                bits.push(x.bits[i + n].copy());
            } else {
                bits.push(BooleanExpression::_false());
            }
            i += 1;
        }
        let r = BinaryExpression { bits };
        proof {
            assert forall|i: int| 0 <= i < r@.len() implies #[trigger] r@[i] == if i + n < x@.len() {
                x@[i + n]
            } else {
                Seq::<(u32, nat)>::empty()
            } by {
                assert(r@[i] == r.bits@[i]@);
            }
        }
        r
    }
}

} // verus!
