//! Rank-1 constraints.

use vstd::prelude::*;

use crate::expression::{assigns_all, eval_terms, Expression};
use crate::field::{field_mul, Field};
use crate::wire_values::WireValues;

verus! {

/// `a * b = c` holds in `F_p` for the given linear combinations, all of whose wires are
/// assigned.
pub open spec fn rank1_holds(
    a: Seq<(u32, nat)>,
    b: Seq<(u32, nat)>,
    c: Seq<(u32, nat)>,
    vals: Map<u32, nat>,
    p: nat,
) -> bool {
    &&& assigns_all(a, vals)
    &&& assigns_all(b, vals)
    &&& assigns_all(c, vals)
    &&& field_mul(eval_terms(a, vals, p), eval_terms(b, vals, p), p) == eval_terms(c, vals, p)
}

/// An R1CS constraint, of the form a * b = c, where a, b, and c are linear combinations of wires.
#[derive(Debug)]
pub struct Constraint<F: Field> {
    pub a: Expression<F>,
    pub b: Expression<F>,
    pub c: Expression<F>,
}

/// Every constraint of the sequence holds under the assignment.
pub open spec fn all_hold<F: Field>(cs: Seq<Constraint<F>>, vals: Map<u32, nat>) -> bool {
    forall|i: int| 0 <= i < cs.len() ==> #[trigger] cs[i].holds(vals)
}

impl<F: Field> Constraint<F> {
    /// The constraint holds under the assignment, which assigns every wire it mentions.
    pub open spec fn holds(&self, vals: Map<u32, nat>) -> bool {
        rank1_holds(self.a@, self.b@, self.c@, vals, F::modulus())
    }

    /// Whether every wire of the constraint is assigned.
    pub open spec fn assigned(&self, vals: Map<u32, nat>) -> bool {
        &&& assigns_all(self.a@, vals)
        &&& assigns_all(self.b@, vals)
        &&& assigns_all(self.c@, vals)
    }

    /// Whether `a * b = c` under an assignment of all the wires of the constraint.
    pub fn evaluate(&self, wire_values: &WireValues<F>) -> (r: bool)
        requires
            self.assigned(wire_values@),
        ensures
            r == self.holds(wire_values@),
    {
        let a_value = self.a.evaluate(wire_values);
        let b_value = self.b.evaluate(wire_values);
        let c_value = self.c.evaluate(wire_values);
        a_value.mul(&b_value).equals(&c_value)
    }

    pub fn copy(&self) -> (r: Self)
        ensures
            r.a@ == self.a@,
            r.b@ == self.b@,
            r.c@ == self.c@,
    {
        Constraint { a: self.a.copy(), b: self.b.copy(), c: self.c.copy() }
    }
}

impl<F: Field> Clone for Constraint<F> {
    fn clone(&self) -> (r: Self)
        ensures
            r.a@ == self.a@,
            r.b@ == self.b@,
            r.c@ == self.c@,
    {
        self.copy()
    }
}

} // verus!
