//! Gadgets: constraint systems together with the generators of their witnesses.

use vstd::prelude::*;

use crate::constraint::{all_hold, Constraint};
use crate::field::Field;
use crate::wire_values::WireValues;
use crate::witness_generator::{assigns_more, inputs_assigned, WitnessGenerator};

verus! {

/// The number of entries that are `false`.
pub open spec fn count_false(s: Seq<bool>) -> nat
    decreases s.len(),
{
    if s.len() == 0 {
        0
    } else {
        count_false(s.drop_last()) + if s.last() {
            0nat
        } else {
            1nat
        }
    }
}

/// Setting a `false` entry to `true` lowers the count of `false` entries by one.
pub proof fn lemma_count_false_update(s: Seq<bool>, i: int)
    requires
        0 <= i < s.len(),
        !s[i],
    ensures
        count_false(s) > 0,
        count_false(s.update(i, true)) == count_false(s) - 1,
    decreases s.len(),
{
    let t = s.update(i, true);
    assert(t.drop_last() =~= if i < s.len() - 1 {
        s.drop_last().update(i, true)
    } else {
        s.drop_last()
    });
    if i < s.len() - 1 {
        lemma_count_false_update(s.drop_last(), i);
    }
}

pub struct Gadget<F: Field> {
    pub constraints: Vec<Constraint<F>>,
    pub witness_generators: Vec<WitnessGenerator<F>>,
}

impl<F: Field> Gadget<F> {
    /// The number of constraints in this gadget.
    pub fn size(&self) -> (r: usize)
        ensures
            r == self.constraints@.len(),
    {
        self.constraints.len()
    }

    /// Execute the gadget, and return whether all constraints were satisfied.
    ///
    /// Each witness generator runs once, as soon as all of its inputs are assigned; generators are
    /// retried until a full pass runs none of them. A constraint that mentions a wire that is still
    /// unassigned afterwards counts as not satisfied.
    pub fn execute(&self, wire_values: &mut WireValues<F>) -> (r: bool)
        ensures
            r == all_hold(self.constraints@, final(wire_values)@),
            assigns_more(old(wire_values)@, final(wire_values)@),
            exists|order: Seq<int>, trace: Seq<Map<u32, nat>>|
                #[trigger] run_trace(self.witness_generators@, order, trace) && trace[0] == old(
                    wire_values,
                )@ && trace.last() == final(wire_values)@ && forall|i: int|
                    0 <= i < self.witness_generators@.len() && inputs_assigned(
                        self.witness_generators@[i].spec_inputs(),
                        final(wire_values)@,
                    ) ==> #[trigger] order.contains(i),
    {
        let ghost initial = wire_values@;
        let ghost gens = self.witness_generators@;
        let n = self.witness_generators.len();
        let mut done: Vec<bool> = Vec::new();
        let ghost mut order: Seq<int> = Seq::empty();
        let ghost mut trace: Seq<Map<u32, nat>> = seq![initial];
        let mut k: usize = 0;
        while k < n
            invariant
                k <= n,
                done@.len() == k,
                forall|i: int| 0 <= i < k ==> !#[trigger] done@[i],
            decreases n - k,
        {
            done.push(false);
            k += 1;
        }
        let mut remaining: usize = n;
        proof {
            assert(count_false(done@) == n) by {
                lemma_count_all_false(done@);
            }
        }
        loop
            invariant
                done@.len() == n,
                gens == self.witness_generators@,
                n == self.witness_generators@.len(),
                remaining == count_false(done@),
                assigns_more(initial, wire_values@),
                run_trace(gens, order, trace),
                trace[0] == initial,
                trace.last() == wire_values@,
                forall|i: int| 0 <= i < n ==> (#[trigger] done@[i] <==> order.contains(i)),
            ensures
                done@.len() == n,
                assigns_more(initial, wire_values@),
                run_trace(gens, order, trace),
                trace[0] == initial,
                trace.last() == wire_values@,
                forall|i: int| 0 <= i < n ==> (#[trigger] done@[i] <==> order.contains(i)),
                forall|j: int|
                    0 <= j < n && !#[trigger] done@[j] ==> !inputs_assigned(gens[j].spec_inputs(), wire_values@),
            decreases remaining,
        {
            let mut made_progress = false;
            let ghost start = remaining;
            let ghost first = wire_values@;
            let mut i: usize = 0;
            while i < n
                invariant
                    done@.len() == n,
                    gens == self.witness_generators@,
                    n == self.witness_generators@.len(),
                    i <= n,
                    remaining == count_false(done@),
                    remaining <= start,
                    made_progress ==> remaining < start,
                    assigns_more(first, wire_values@),
                    assigns_more(initial, wire_values@),
                    run_trace(gens, order, trace),
                    trace[0] == initial,
                    trace.last() == wire_values@,
                    forall|j: int| 0 <= j < n ==> (#[trigger] done@[j] <==> order.contains(j)),
                    !made_progress ==> wire_values@ == first,
                    !made_progress ==> forall|j: int|
                        0 <= j < i && !#[trigger] done@[j] ==> !inputs_assigned(gens[j].spec_inputs(), wire_values@),
                decreases n - i,
            {
                let generator = &self.witness_generators[i];
                if !done[i] && wire_values.contains_all(generator.inputs().as_slice()) {
                    let ghost before = wire_values@;
                    generator.generate(wire_values);
                    proof {
                        lemma_count_false_update(done@, i as int);
                        let old_order = order;
                        let old_trace = trace;
                        order = order.push(i as int);
                        trace = trace.push(wire_values@);
                        assert forall|k: int| 0 <= k < order.len() implies 0 <= #[trigger] order[k] < gens.len()
                            && inputs_assigned(gens[order[k]].spec_inputs(), trace[k])
                            && gens[order[k]].generated(trace[k], trace[k + 1]) by {
                            if k < old_order.len() {
                                assert(order[k] == old_order[k]);
                                assert(trace[k] == old_trace[k]);
                                assert(trace[k + 1] == old_trace[k + 1]);
                            }
                        }
                        assert(order.no_duplicates()) by {
                            assert(!old_order.contains(i as int));
                            assert forall|a: int, b: int| 0 <= a < b < order.len() implies order[a] != order[b] by {
                                if b == old_order.len() {
                                    assert(old_order[a] == order[a]);
                                }
                            }
                        }
                        assert forall|j: int| 0 <= j < n implies (#[trigger] done@.update(i as int, true)[j]
                            <==> order.contains(j)) by {
                            if j == i {
                                assert(order[order.len() - 1] == j);
                            } else {
                                if order.contains(j) {
                                    let k = choose|k: int| 0 <= k < order.len() && order[k] == j;
                                    assert(k < old_order.len());
                                    assert(old_order[k] == j);
                                }
                                if old_order.contains(j) {
                                    let k = choose|k: int| 0 <= k < old_order.len() && old_order[k] == j;
                                    assert(order[k] == j);
                                }
                            }
                        }
                    }
                    done.set(i, true);
                    remaining -= 1;
                    made_progress = true;
                }
                i += 1;
            }
            if !made_progress {
                break;
            }
        }
        proof {
            assert forall|i: int|
                0 <= i < n && inputs_assigned(gens[i].spec_inputs(), wire_values@) implies #[trigger] order.contains(i) by {
                assert(done@[i]);
            }
        }
        let mut all = true;
        let mut c: usize = 0;
        while c < self.constraints.len()
            invariant
                c <= self.constraints@.len(),
                all == forall|j: int| 0 <= j < c ==> #[trigger] self.constraints@[j].holds(
                    wire_values@,
                ),
            decreases self.constraints@.len() - c,
        {
            let constraint = &self.constraints[c];
            let holds = constraint.a.assigned_in(wire_values) && constraint.b.assigned_in(
                wire_values,
            ) && constraint.c.assigned_in(wire_values) && constraint.evaluate(wire_values);
            assert(holds == self.constraints@[c as int].holds(wire_values@));
            let ghost before = all;
            all = all && holds;
            assert(all == forall|j: int| 0 <= j < c + 1 ==> #[trigger] self.constraints@[j].holds(
                wire_values@,
            )) by {
                if before && holds {
                    assert forall|j: int| 0 <= j < c + 1 implies #[trigger] self.constraints@[j].holds(
                        wire_values@,
                    ) by {
                        if j < c {
                        }
                    }
                }
            }
            c += 1;
        }
        all
    }
}

/// `trace` is a run of the generators in the order `order`: each runs at most once, on a state
/// where all its inputs are assigned, and gives the next state.
pub open spec fn run_trace<F: Field>(
    gens: Seq<WitnessGenerator<F>>,
    order: Seq<int>,
    trace: Seq<Map<u32, nat>>,
) -> bool {
    &&& trace.len() == order.len() + 1
    &&& order.no_duplicates()
    &&& forall|k: int|
        0 <= k < order.len() ==> 0 <= #[trigger] order[k] < gens.len() && inputs_assigned(
            gens[order[k]].spec_inputs(),
            trace[k],
        ) && gens[order[k]].generated(trace[k], trace[k + 1])
}

/// A gadget with a single witness generator, whose run from an assignment meeting `pre` makes
/// every constraint hold, executes to true: every run that `execute` allows from such an
/// assignment, where the generator's inputs are assigned, ends with all constraints holding.
pub proof fn lemma_single_generator_executes<F: Field>(
    gadget: Gadget<F>,
    order: Seq<int>,
    trace: Seq<Map<u32, nat>>,
    pre: spec_fn(Map<u32, nat>) -> bool,
)
    requires
        gadget.witness_generators@.len() == 1,
        run_trace(gadget.witness_generators@, order, trace),
        inputs_assigned(gadget.witness_generators@[0].spec_inputs(), trace[0]),
        pre(trace[0]),
        inputs_assigned(gadget.witness_generators@[0].spec_inputs(), trace.last()) ==> order.contains(0),
        forall|before: Map<u32, nat>, after: Map<u32, nat>|
            #![trigger gadget.witness_generators@[0].generated(before, after)]
            gadget.witness_generators@[0].generated(before, after) && inputs_assigned(
                gadget.witness_generators@[0].spec_inputs(),
                before,
            ) && pre(before) ==> all_hold(gadget.constraints@, after),
    ensures
        all_hold(gadget.constraints@, trace.last()),
{
    let gens = gadget.witness_generators@;
    if order.len() == 0 {
        assert(trace.last() == trace[0]);
        assert(order.contains(0));
    } else {
        assert(0 <= order[0] < 1);
        if order.len() > 1 {
            assert(0 <= order[1] < 1);
            assert(order[0] != order[1]);
        }
        assert(order.len() == 1);
        assert(gens[order[0]].generated(trace[0], trace[1]));
        assert(trace.last() == trace[1]);
    }
}

/// A sequence of `false` entries counts its length.
pub proof fn lemma_count_all_false(s: Seq<bool>)
    requires
        forall|i: int| 0 <= i < s.len() ==> !#[trigger] s[i],
    ensures
        count_false(s) == s.len(),
    decreases s.len(),
{
    if s.len() > 0 {
        lemma_count_all_false(s.drop_last());
    }
}

} // verus!
