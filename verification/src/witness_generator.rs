//! Witness generators: rules that compute the values of some wires from others.

use vstd::multiset::Multiset;
use vstd::prelude::*;

use crate::expression::{assigns_all, distinct_wires, Expression};
use crate::field::{field_mul, field_pow, Element, Field};
use crate::matrices::{mat_vec, row_values, MdsMatrix};
use crate::natural::{bit_length, bit_of};
use crate::wire::{BooleanWire, Wire};
use crate::wire_values::WireValues;

verus! {

/// What a witness generator computes once its inputs are known.
#[derive(Debug)]
pub enum Generate<F: Field> {
    /// `output = x * y`.
    Product { x: Expression<F>, y: Expression<F>, output: Wire },
    /// `output = 1 / x`, for a non-zero `x`.
    Inverse { x: Expression<F>, output: Wire },
    /// `output = x^exponent`.
    Power { x: Expression<F>, exponent: Element<F>, output: Wire },
    /// `quotient = x / y` and `remainder = x mod y` as integers, for a non-zero `y`.
    Modulus { x: Expression<F>, y: Expression<F>, quotient: Wire, remainder: Wire },
    /// `indicator = [x != 0]`, and `witness = indicator / x` (or the arbitrary 42 when `x = 0`).
    Nonzero { x: Expression<F>, indicator: Wire, witness: Wire },
    /// The low bits of `x`, least significant first. When `exact`, `x` must fit in the bits.
    Bits { x: Expression<F>, bits: Vec<BooleanWire>, exact: bool },
    /// A mask with a 1 at the most significant index where the chunks of `x` and `y` differ.
    ChunkMask { x_chunks: Vec<Expression<F>>, y_chunks: Vec<Expression<F>>, mask: Vec<Wire> },
    /// The values of `inputs`, sorted in ascending order.
    Sorted { inputs: Vec<Expression<F>>, outputs: Vec<Wire> },
    /// The setting of a 2x2 switch that maps `[a, b]` to `[c, d]`.
    Switch {
        a: Expression<F>,
        b: Expression<F>,
        c: Expression<F>,
        d: Expression<F>,
        switch: BooleanWire,
    },
    /// The vector `outputs` that `matrix` maps to `rhs`.
    Unmix { matrix: MdsMatrix<F>, rhs: Vec<Expression<F>>, outputs: Vec<Wire> },
    /// The settings of the outer switch layers of a permutation network from `a` to `b`.
    Route {
        a: Vec<Expression<F>>,
        b: Vec<Expression<F>>,
        a_switches: Vec<BooleanWire>,
        b_switches: Vec<BooleanWire>,
    },
}

/// Generates the values of certain wires, once the values of its input wires are known.
#[derive(Debug)]
pub struct WitnessGenerator<F: Field> {
    inputs: Vec<Wire>,
    generate: Generate<F>,
}

impl<F: Field> WitnessGenerator<F> {
    pub closed spec fn spec_inputs(&self) -> Seq<Wire> {
        self.inputs@
    }

    pub closed spec fn spec_generate(&self) -> &Generate<F> {
        &self.generate
    }

    /// A generator that runs once every wire of `inputs` is assigned.
    pub fn new(inputs: Vec<Wire>, generate: Generate<F>) -> (r: Self)
        ensures
            r.spec_inputs() == inputs@,
            r.spec_generate() == generate,
    {
        WitnessGenerator { inputs, generate }
    }

    /// The wires that must be assigned before this generator runs.
    pub fn inputs(&self) -> (r: &Vec<Wire>)
        ensures
            r@ == self.spec_inputs(),
    {
        &self.inputs
    }

    /// What running this generator does to the assignment `before`, giving `after`.
    pub open spec fn generated(&self, before: Map<u32, nat>, after: Map<u32, nat>) -> bool {
        &&& assigns_more(before, after)
        &&& match self.spec_generate() {
            Generate::Product { x, y, output } => if assigns_all(x@, before) && assigns_all(
                y@,
                before,
            ) {
                after == before.insert(
                    output.index,
                    field_mul(x.eval(before), y.eval(before), F::modulus()),
                )
            } else {
                after == before
            },
            Generate::Inverse { x, output } => if assigns_all(x@, before) && x.eval(
                before,
            ) != 0 {
                after == before.insert(
                    output.index,
                    field_pow(
                        x.eval(before),
                        (F::modulus() - 2) as nat,
                        F::modulus(),
                    ),
                )
            } else {
                after == before
            },
            Generate::Power { x, exponent, output } => if assigns_all(x@, before) {
                after == before.insert(
                    output.index,
                    field_pow(x.eval(before), exponent@, F::modulus()),
                )
            } else {
                after == before
            },
            Generate::Modulus { x, y, quotient, remainder } => if assigns_all(
                x@,
                before,
            ) && assigns_all(y@, before) && y.eval(before) != 0 {
                after == before.insert(
                    quotient.index,
                    x.eval(before) / y.eval(before),
                ).insert(remainder.index, x.eval(before) % y.eval(before))
            } else {
                after == before
            },
            Generate::Nonzero { x, indicator, witness } => if assigns_all(x@, before) {
                if x.eval(before) != 0 {
                    after == before.insert(
                        witness.index,
                        field_mul(
                            1,
                            field_pow(x.eval(before), (F::modulus() - 2) as nat, F::modulus()),
                            F::modulus(),
                        ),
                    ).insert(indicator.index, 1)
                } else {
                    after == before.insert(
                        witness.index,
                        if 42 < F::modulus() {
                            42nat
                        } else {
                            0nat
                        },
                    ).insert(indicator.index, 0)
                }
            } else {
                after == before
            },
            Generate::Switch { a, b, c, d, switch } => if assigns_all(a@, before)
                && assigns_all(b@, before) && assigns_all(c@, before) && assigns_all(
                d@,
                before,
            ) {
                if a.eval(before) == c.eval(before) && b.eval(before) == d.eval(
                    before,
                ) {
                    after == before.insert(switch.spec_wire().index, 0)
                } else if a.eval(before) == d.eval(before) && b.eval(before)
                    == c.eval(before) {
                    after == before.insert(switch.spec_wire().index, 1)
                } else {
                    after == before
                }
            } else {
                after == before
            },
            Generate::Bits { x, bits, exact } => if assigns_all(x@, before) && (!*exact
                || bit_length(x.eval(before)) <= bits@.len()) {
                &&& forall|k: int|
                    0 <= k < bits@.len() ==> #[trigger] after.contains_key(
                        bits@[k].spec_wire().index,
                    )
                &&& distinct_boolean_wires(bits@) ==> forall|k: int|
                    0 <= k < bits@.len() ==> #[trigger] after[bits@[k].spec_wire().index]
                        == if bit_of(x.eval(before), k as nat) {
                        1nat
                    } else {
                        0nat
                    }
                &&& only_changes(before, after, boolean_wire_set(bits@))
            } else {
                after == before
            },
            Generate::ChunkMask { x_chunks, y_chunks, mask } => if all_assigned(
                x_chunks@,
                before,
            ) && all_assigned(y_chunks@, before) && x_chunks@.len() == mask@.len()
                && y_chunks@.len() == mask@.len() {
                &&& forall|k: int|
                    0 <= k < mask@.len() ==> #[trigger] after.contains_key(mask@[k].index)
                &&& distinct_wires(mask@) ==> forall|k: int|
                    0 <= k < mask@.len() ==> #[trigger] after[mask@[k].index]
                        == if most_significant_difference(
                        values_of(x_chunks@, before),
                        values_of(y_chunks@, before),
                        k,
                    ) {
                        1nat
                    } else {
                        0nat
                    }
                &&& only_changes(before, after, wire_set(mask@))
            } else {
                after == before
            },
            Generate::Sorted { inputs, outputs } => if all_assigned(inputs@, before)
                && inputs@.len() == outputs@.len() {
                &&& forall|k: int|
                    0 <= k < outputs@.len() ==> #[trigger] after.contains_key(
                        outputs@[k].index,
                    )
                &&& distinct_wires(outputs@) ==> {
                    &&& forall|i: int, j: int|
                        0 <= i < j < outputs@.len() ==> #[trigger] after[outputs@[i].index]
                            <= #[trigger] after[outputs@[j].index]
                    &&& wire_values_of(outputs@, after).to_multiset() == values_of(
                        inputs@,
                        before,
                    ).to_multiset()
                }
                &&& only_changes(before, after, wire_set(outputs@))
            } else {
                after == before
            },
            Generate::Unmix { matrix, rhs, outputs } => {
                &&& only_changes(before, after, wire_set(outputs@))
                &&& after == before || ((forall|k: int|
                    0 <= k < outputs@.len() ==> #[trigger] after.contains_key(outputs@[k].index))
                    && (distinct_wires(outputs@) ==> all_assigned(rhs@, before) && mat_vec(
                    matrix.spec_rows(),
                    wire_values_of(outputs@, after),
                    F::modulus(),
                ) == values_of(rhs@, before)))
            },
            Generate::Route { a, b, a_switches, b_switches } => {
                &&& boolean_update(before, after, switch_set(a_switches@, b_switches@))
                &&& !route_possible(values_of(a@, before), values_of(b@, before), a_switches@, b_switches@)
                    ==> after == before
                &&& all_assigned(a@, before) && all_assigned(b@, before) && route_possible(
                    values_of(a@, before),
                    values_of(b@, before),
                    a_switches@,
                    b_switches@,
                ) && sides_disjoint(a_switches@, b_switches@) ==> (forall|k: int|
                    0 <= k < a_switches@.len() ==> after.contains_key(
                        #[trigger] a_switches@[k].spec_wire().index,
                    )) && (forall|k: int|
                    0 <= k < b_switches@.len() ==> after.contains_key(
                        #[trigger] b_switches@[k].spec_wire().index,
                    ))
            },
        }
    }

    /// Assigns the wires that this generator computes. Where a value the computation needs is
    /// missing (an unassigned wire, a zero divisor, a value that does not fit), nothing is
    /// assigned for it.
    pub fn generate(&self, values: &mut WireValues<F>)
        ensures
            self.generated(old(values)@, final(values)@),
    {
        match &self.generate {
            Generate::Product { x, y, output } => {
                if x.assigned_in(values) && y.assigned_in(values) {
                    let v = x.evaluate(values).mul(&y.evaluate(values));
                    values.set(*output, v);
                }
            },
            Generate::Inverse { x, output } => {
                if x.assigned_in(values) {
                    let v = x.evaluate(values);
                    if v.is_nonzero() {
                        values.set(*output, v.multiplicative_inverse());
                    }
                }
            },
            Generate::Power { x, exponent, output } => {
                if x.assigned_in(values) {
                    let v = x.evaluate(values).exponentiation(exponent);
                    values.set(*output, v);
                }
            },
            Generate::Modulus { x, y, quotient, remainder } => {
                if x.assigned_in(values) && y.assigned_in(values) {
                    let xv = x.evaluate(values);
                    let yv = y.evaluate(values);
                    if yv.is_nonzero() {
                        values.set(*quotient, xv.integer_division(&yv));
                        values.set(*remainder, xv.integer_modulus(&yv));
                    }
                }
            },
            Generate::Nonzero { x, indicator, witness } => {
                if x.assigned_in(values) {
                    let xv = x.evaluate(values);
                    if xv.is_nonzero() {
                        let y = Element::one();
                        values.set(*witness, y.div(&xv));
                        values.set(*indicator, y);
                    } else {
                        let p = F::order();
                        let forty_two = crate::natural::Natural::from_u128(42);
                        // The witness does not matter when x = 0.
                        if forty_two.lt(&p) {
                            values.set(*witness, Element::from_u128(42));
                        } else {
                            values.set(*witness, Element::zero());
                        }
                        values.set(*indicator, Element::zero());
                    }
                }
            },
            Generate::Bits { x, bits, exact } => {
                if x.assigned_in(values) {
                    let v = x.evaluate(values);
                    if !*exact || v.bits() <= bits.len() {
                        let ghost start = values@;
                        let mut i: usize = 0;
                        while i < bits.len()
                            invariant
                                0 <= i <= bits@.len(),
                                forall|k: int|
                                    0 <= k < i ==> #[trigger] values@.contains_key(
                                        bits@[k].spec_wire().index,
                                    ),
                                distinct_boolean_wires(bits@) ==> forall|k: int|
                                    0 <= k < i ==> #[trigger] values@[bits@[k].spec_wire().index]
                                        == if bit_of(v@, k as nat) {
                                        1nat
                                    } else {
                                        0nat
                                    },
                                only_changes(start, values@, boolean_wire_set(bits@)),
                                assigns_more(start, values@),
                            decreases bits@.len() - i,
                        {
                            let ghost before = values@;
                            values.set_boolean(bits[i], v.bit(i));
                            proof {
                                assert(boolean_wire_set(bits@).contains(bits@[i as int].spec_wire().index));
                                if distinct_boolean_wires(bits@) {
                                    assert forall|k: int| 0 <= k < i + 1 implies #[trigger] values@[bits@[k].spec_wire().index]
                                        == if bit_of(v@, k as nat) {
                                        1nat
                                    } else {
                                        0nat
                                    } by {
                                        if k < i {
                                            assert(bits@[k].spec_wire().index != bits@[i as int].spec_wire().index);
                                        }
                                    }
                                }
                            }
                            i += 1;
                        }
                    }
                }
            },
            Generate::ChunkMask { x_chunks, y_chunks, mask } => {
                generate_chunk_mask(x_chunks, y_chunks, mask, values);
            },
            Generate::Sorted { inputs, outputs } => {
                generate_sorted(inputs, outputs, values);
            },
            Generate::Unmix { matrix, rhs, outputs } => {
                generate_unmix(matrix, rhs, outputs, values);
            },
            Generate::Switch { a, b, c, d, switch } => {
                if a.assigned_in(values) && b.assigned_in(values) && c.assigned_in(values)
                    && d.assigned_in(values) {
                    let av = a.evaluate(values);
                    let bv = b.evaluate(values);
                    let cv = c.evaluate(values);
                    let dv = d.evaluate(values);
                    if av.equals(&cv) && bv.equals(&dv) {
                        values.set_boolean(*switch, false);
                    } else if av.equals(&dv) && bv.equals(&cv) {
                        values.set_boolean(*switch, true);
                    }
                }
            },
            Generate::Route { a, b, a_switches, b_switches } => {
                proof {
                    lemma_boolean_update_refl(values@, switch_set(a_switches@, b_switches@));
                }
                let ghost before = values@;
                match (evaluate_all(a, values), evaluate_all(b, values)) {
                    (Some(av), Some(bv)) => {
                        proof {
                            assert(av@.map_values(|e: Element<F>| e@) =~= values_of(a@, before));
                            assert(bv@.map_values(|e: Element<F>| e@) =~= values_of(b@, before));
                        }
                        if av.len() == bv.len() {
                            route(&av, &bv, a_switches, b_switches, values);
                        }
                    },
                    _ => {},
                }
            },
        }
    }
}

/// No wire index occurs twice among the boolean wires.
pub open spec fn distinct_boolean_wires(ws: Seq<BooleanWire>) -> bool {
    forall|i: int, j: int|
        0 <= i < j < ws.len() ==> #[trigger] ws[i].spec_wire().index != #[trigger] ws[j].spec_wire().index
}

/// Every one of the wires is assigned.
pub open spec fn inputs_assigned(wires: Seq<Wire>, vals: Map<u32, nat>) -> bool {
    forall|k: int| 0 <= k < wires.len() ==> vals.contains_key(#[trigger] wires[k].index)
}

/// Every wire that `old` assigns, `new` assigns too.
pub open spec fn assigns_more(old: Map<u32, nat>, new: Map<u32, nat>) -> bool {
    forall|w: u32| #[trigger] old.contains_key(w) ==> new.contains_key(w)
}

/// The indices of the boolean wires.
pub open spec fn boolean_wire_set(ws: Seq<BooleanWire>) -> Set<u32> {
    Set::new(|w: u32| exists|k: int| 0 <= k < ws.len() && #[trigger] ws[k].spec_wire().index == w)
}

/// The indices of the wires.
pub open spec fn wire_set(ws: Seq<Wire>) -> Set<u32> {
    Set::new(|w: u32| exists|k: int| 0 <= k < ws.len() && #[trigger] ws[k].index == w)
}

/// `new` assigns the same wires as `old`, with the same values, except at the wires of `changed`.
pub open spec fn only_changes(old: Map<u32, nat>, new: Map<u32, nat>, changed: Set<u32>) -> bool {
    forall|w: u32|
        !changed.contains(w) ==> (#[trigger] new.contains_key(w) == old.contains_key(w) && (
        old.contains_key(w) ==> new[w] == old[w]))
}

/// The values of several expressions, if all their wires are assigned.
fn evaluate_all<F: Field>(exps: &Vec<Expression<F>>, values: &WireValues<F>) -> (r: Option<
    Vec<Element<F>>,
>)
    ensures
        r is Some <==> all_assigned(exps@, values@),
        r matches Some(v) ==> v@.len() == exps@.len() && forall|k: int|
            0 <= k < v@.len() ==> #[trigger] v@[k]@ == exps@[k].eval(values@),
{
    let mut out: Vec<Element<F>> = Vec::new();
    let mut i: usize = 0;
    while i < exps.len()
        invariant
            0 <= i <= exps@.len(),
            out@.len() == i,
            forall|k: int| 0 <= k < i ==> #[trigger] out@[k]@ == exps@[k].eval(values@),
            forall|k: int| 0 <= k < i ==> assigns_all(#[trigger] exps@[k]@, values@),
        decreases exps@.len() - i,
    {
        if !exps[i].assigned_in(values) {
            return None;
        }
        out.push(exps[i].evaluate(values));
        i += 1;
    }
    Some(out)
}

/// Every wire of every expression is assigned.
pub open spec fn all_assigned<F: Field>(exps: Seq<Expression<F>>, vals: Map<u32, nat>) -> bool {
    forall|k: int| 0 <= k < exps.len() ==> assigns_all(#[trigger] exps[k]@, vals)
}

/// The values of several expressions.
pub open spec fn values_of<F: Field>(exps: Seq<Expression<F>>, vals: Map<u32, nat>) -> Seq<nat> {
    exps.map_values(|e: Expression<F>| e.eval(vals))
}

/// Index `i` is the most significant one at which `xs` and `ys` differ.
pub open spec fn most_significant_difference(xs: Seq<nat>, ys: Seq<nat>, i: int) -> bool {
    &&& xs[i] != ys[i]
    &&& forall|j: int| i < j < xs.len() ==> #[trigger] xs[j] == ys[j]
}

/// The values that `wires` hold in `vals`.
pub open spec fn wire_values_of(wires: Seq<Wire>, vals: Map<u32, nat>) -> Seq<nat> {
    wires.map_values(|w: Wire| vals[w.index])
}

/// Sets `mask[i] = 1` for the most significant index `i` at which the chunks differ, and 0
/// elsewhere.
fn generate_chunk_mask<F: Field>(
    x_chunks: &Vec<Expression<F>>,
    y_chunks: &Vec<Expression<F>>,
    mask: &Vec<Wire>,
    values: &mut WireValues<F>,
)
    ensures
        assigns_more(old(values)@, final(values)@),
        if all_assigned(x_chunks@, old(values)@) && all_assigned(y_chunks@, old(values)@)
            && x_chunks@.len() == mask@.len() && y_chunks@.len() == mask@.len() {
            &&& forall|k: int| 0 <= k < mask@.len() ==> #[trigger] final(values)@.contains_key(mask@[k].index)
            &&& distinct_wires(mask@) ==> forall|k: int|
                0 <= k < mask@.len() ==> #[trigger] final(values)@[mask@[k].index] == if most_significant_difference(
                    values_of(x_chunks@, old(values)@),
                    values_of(y_chunks@, old(values)@),
                    k,
                ) {
                    1nat
                } else {
                    0nat
                }
            &&& only_changes(old(values)@, final(values)@, wire_set(mask@))
        } else {
            final(values)@ == old(values)@
        },
{
    let ghost start = values@;
    let xs = evaluate_all(x_chunks, values);
    let ys = evaluate_all(y_chunks, values);
    match (xs, ys) {
        (Some(xv), Some(yv)) => {
            if xv.len() == mask.len() && yv.len() == mask.len() {
                let ghost xs_v = values_of(x_chunks@, start);
                let ghost ys_v = values_of(y_chunks@, start);
                let mut seen_diff = false;
                let mut i: usize = mask.len();
                while i > 0
                    invariant
                        i <= mask@.len(),
                        xv@.len() == mask@.len(),
                        yv@.len() == mask@.len(),
                        x_chunks@.len() == mask@.len(),
                        y_chunks@.len() == mask@.len(),
                        forall|k: int| 0 <= k < xv@.len() ==> #[trigger] xv@[k]@ == xs_v[k],
                        forall|k: int| 0 <= k < yv@.len() ==> #[trigger] yv@[k]@ == ys_v[k],
                        xs_v == values_of(x_chunks@, start),
                        ys_v == values_of(y_chunks@, start),
                        seen_diff <==> exists|j: int| i <= j < mask@.len() && #[trigger] xs_v[j] != ys_v[j],
                        forall|k: int| i <= k < mask@.len() ==> #[trigger] values@.contains_key(mask@[k].index),
                        distinct_wires(mask@) ==> forall|k: int|
                            i <= k < mask@.len() ==> #[trigger] values@[mask@[k].index] == if most_significant_difference(
                                xs_v,
                                ys_v,
                                k,
                            ) {
                                1nat
                            } else {
                                0nat
                            },
                        only_changes(start, values@, wire_set(mask@)),
                        assigns_more(start, values@),
                    decreases i,
                {
                    i -= 1;
                    let diff = !xv[i].equals(&yv[i]);
                    let mask_bit = diff && !seen_diff;
                    let ghost old_seen = seen_diff;
                    seen_diff = seen_diff || diff;
                    values.set(mask[i], Element::from_bool(mask_bit));
                    proof {
                        assert(wire_set(mask@).contains(mask@[i as int].index));
                        assert(mask_bit <==> most_significant_difference(xs_v, ys_v, i as int)) by {
                            if !old_seen && diff {
                                assert forall|j: int| i < j < xs_v.len() implies #[trigger] xs_v[j] == ys_v[j] by {
                                    if xs_v[j] != ys_v[j] {
                                        assert(exists|jj: int| i + 1 <= jj < mask@.len() && #[trigger] xs_v[jj] != ys_v[jj]);
                                    }
                                }
                            }
                            if old_seen {
                                let j = choose|j: int| i + 1 <= j < mask@.len() && #[trigger] xs_v[j] != ys_v[j];
                                assert(xs_v[j] != ys_v[j]);
                            }
                        }
                        if distinct_wires(mask@) {
                            assert forall|k: int| i <= k < mask@.len() implies #[trigger] values@[mask@[k].index]
                                == if most_significant_difference(xs_v, ys_v, k) {
                                1nat
                            } else {
                                0nat
                            } by {
                                if k > i {
                                    assert(mask@[k].index != mask@[i as int].index);
                                }
                            }
                        }
                        if seen_diff {
                            if diff {
                                assert(xs_v[i as int] != ys_v[i as int]);
                            } else {
                                let j = choose|j: int| i + 1 <= j < mask@.len() && #[trigger] xs_v[j] != ys_v[j];
                                assert(xs_v[j] != ys_v[j]);
                            }
                        }
                    }
                }
                proof {
                    assert(xs_v == values_of(x_chunks@, old(values)@));
                }
            }
        },
        _ => {},
    }
}

/// Assigns the values of `inputs`, in ascending order, to `outputs`.
/// Assigns to `outputs` a vector that `matrix` maps to the values of `rhs`, where one is found.
fn generate_unmix<F: Field>(
    matrix: &MdsMatrix<F>,
    rhs: &Vec<Expression<F>>,
    outputs: &Vec<Wire>,
    values: &mut WireValues<F>,
)
    ensures
        only_changes(old(values)@, final(values)@, wire_set(outputs@)),
        final(values)@ == old(values)@ || ((forall|k: int|
            0 <= k < outputs@.len() ==> #[trigger] final(values)@.contains_key(outputs@[k].index))
            && (distinct_wires(outputs@) ==> all_assigned(rhs@, old(values)@) && mat_vec(
            matrix.spec_rows(),
            wire_values_of(outputs@, final(values)@),
            F::modulus(),
        ) == values_of(rhs@, old(values)@))),
{
    let ghost start = values@;
    match evaluate_all(rhs, values) {
        Some(items) => {
            proof {
                assert(row_values(items@) =~= values_of(rhs@, start));
            }
            match matrix.solve(items.as_slice()) {
                Some(y) => {
                    if y.len() == outputs.len() {
                        let mut i: usize = 0;
                        while i < outputs.len()
                            invariant
                                0 <= i <= outputs@.len(),
                                y@.len() == outputs@.len(),
                                forall|k: int| 0 <= k < i ==> #[trigger] values@.contains_key(outputs@[k].index),
                                distinct_wires(outputs@) ==> forall|k: int|
                                    0 <= k < i ==> #[trigger] values@[outputs@[k].index] == y@[k]@,
                                only_changes(start, values@, wire_set(outputs@)),
                            decreases outputs@.len() - i,
                        {
                            values.set(outputs[i], y[i].copy());
                            proof {
                                assert(wire_set(outputs@).contains(outputs@[i as int].index));
                                if distinct_wires(outputs@) {
                                    assert forall|k: int| 0 <= k < i + 1 implies #[trigger] values@[outputs@[k].index]
                                        == y@[k]@ by {
                                        if k < i {
                                            assert(outputs@[k].index != outputs@[i as int].index);
                                        }
                                    }
                                }
                            }
                            i += 1;
                        }
                        proof {
                            if distinct_wires(outputs@) {
                                assert(wire_values_of(outputs@, values@) =~= row_values(y@));
                            }
                        }
                    }
                },
                None => {},
            }
        },
        None => {},
    }
}

fn generate_sorted<F: Field>(
    inputs: &Vec<Expression<F>>,
    outputs: &Vec<Wire>,
    values: &mut WireValues<F>,
)
    ensures
        assigns_more(old(values)@, final(values)@),
        if all_assigned(inputs@, old(values)@) && inputs@.len() == outputs@.len() {
            &&& forall|k: int| 0 <= k < outputs@.len() ==> #[trigger] final(values)@.contains_key(outputs@[k].index)
            &&& distinct_wires(outputs@) ==> {
                &&& forall|i: int, j: int|
                    0 <= i < j < outputs@.len() ==> #[trigger] final(values)@[outputs@[i].index]
                        <= #[trigger] final(values)@[outputs@[j].index]
                &&& wire_values_of(outputs@, final(values)@).to_multiset() == values_of(
                    inputs@,
                    old(values)@,
                ).to_multiset()
            }
            &&& only_changes(old(values)@, final(values)@, wire_set(outputs@))
        } else {
            final(values)@ == old(values)@
        },
{
    let ghost start = values@;
    match evaluate_all(inputs, values) {
        Some(items) => {
            let ghost item_values = items@.map_values(|e: Element<F>| e@);
            proof {
                assert(item_values =~= values_of(inputs@, start));
            }
            let sorted = sort_elements(items);
            if sorted.len() == outputs.len() {
                let mut i: usize = 0;
                while i < outputs.len()
                    invariant
                        0 <= i <= outputs@.len(),
                        sorted@.len() == outputs@.len(),
                        forall|k: int| 0 <= k < i ==> #[trigger] values@.contains_key(outputs@[k].index),
                        distinct_wires(outputs@) ==> forall|k: int|
                            0 <= k < i ==> #[trigger] values@[outputs@[k].index] == sorted@[k]@,
                        only_changes(start, values@, wire_set(outputs@)),
                        assigns_more(start, values@),
                    decreases outputs@.len() - i,
                {
                    values.set(outputs[i], sorted[i].copy());
                    proof {
                        assert(wire_set(outputs@).contains(outputs@[i as int].index));
                        if distinct_wires(outputs@) {
                            assert forall|k: int| 0 <= k < i + 1 implies #[trigger] values@[outputs@[k].index]
                                == sorted@[k]@ by {
                                if k < i {
                                    assert(outputs@[k].index != outputs@[i as int].index);
                                }
                            }
                        }
                    }
                    i += 1;
                }
                proof {
                    if distinct_wires(outputs@) {
                        assert(wire_values_of(outputs@, values@) =~= sorted@.map_values(|e: Element<F>| e@));
                    }
                }
            }
        },
        None => {},
    }
}

/// The elements in ascending order of value (an insertion sort).
pub fn sort_elements<F: Field>(items: Vec<Element<F>>) -> (r: Vec<Element<F>>)
    ensures
        r@.len() == items@.len(),
        forall|i: int, j: int| 0 <= i < j < r@.len() ==> r@[i]@ <= r@[j]@,
        r@.map_values(|e: Element<F>| e@).to_multiset() == items@.map_values(
            |e: Element<F>| e@,
        ).to_multiset(),
{
    let mut v = items;
    let ghost orig = v@.map_values(|e: Element<F>| e@);
    let n = v.len();
    let mut i: usize = 0;
    while i < n
        invariant
            v@.len() == n,
            i <= n,
            forall|a: int, b: int| 0 <= a < b < i ==> v@[a]@ <= v@[b]@,
            v@.map_values(|e: Element<F>| e@).to_multiset() == orig.to_multiset(),
        decreases n - i,
    {
        let mut j: usize = i;
        while j > 0 && v[j].lt(&v[j - 1])
            invariant
                v@.len() == n,
                0 <= j <= i < n,
                forall|a: int, b: int|
                    0 <= a < b <= i && a != j && b != j ==> v@[a]@ <= v@[b]@,
                forall|b: int| j < b <= i ==> v@[j as int]@ < v@[b]@,
                0 < j < i ==> v@[j - 1]@ <= v@[j + 1]@,
                v@.map_values(|e: Element<F>| e@).to_multiset() == orig.to_multiset(),
            decreases j,
        {
            let ghost before = v@.map_values(|e: Element<F>| e@);
            let hi = v[j].copy();
            let lo = v[j - 1].copy();
            v.set(j, lo);
            v.set(j - 1, hi);
            proof {
                let after = v@.map_values(|e: Element<F>| e@);
                lemma_swap_multiset(before, j - 1, j as int);
                assert(after =~= before.update(j as int, before[j - 1]).update(
                    j - 1,
                    before[j as int],
                ));
            }
            j -= 1;
        }
        i += 1;
    }
    v
}

/// Swapping two entries keeps the multiset of a sequence.
proof fn lemma_swap_multiset(s: Seq<nat>, i: int, j: int)
    requires
        0 <= i < j < s.len(),
    ensures
        s.update(j, s[i]).update(i, s[j]).to_multiset() == s.to_multiset(),
{
    let t = s.update(j, s[i]);
    vstd::seq_lib::to_multiset_update(s, j, s[i]);
    vstd::seq_lib::to_multiset_update(t, i, s[j]);
    assert(t[i] == s[i]);
    vstd::seq_lib::to_multiset_contains(s, s[j]);
    assert(s.contains(s[j])) by {
        assert(s[j] == s[j]);
    }
    broadcast use vstd::multiset::group_multiset_axioms;
    assert(s.to_multiset().insert(s[i]).remove(s[j]).insert(s[j]).remove(s[i]) =~= s.to_multiset());
}

/// The values of field elements, as a multiset.
pub open spec fn element_multiset<F: Field>(v: Seq<Element<F>>) -> Multiset<nat> {
    v.map_values(|e: Element<F>| e@).to_multiset()
}

/// The values among the first `j` of `bv` whose index is still free (`ba` holds `n` there).
spec fn unmatched(bv: Seq<nat>, ba: Seq<usize>, n: usize, j: nat) -> Multiset<nat>
    decreases j,
{
    if j == 0 {
        Multiset::empty()
    } else {
        let prev = unmatched(bv, ba, n, (j - 1) as nat);
        if ba[j - 1] == n {
            prev.insert(bv[j - 1])
        } else {
            prev
        }
    }
}

/// While every index is free, the free values are those of the prefix.
proof fn lemma_unmatched_all(bv: Seq<nat>, ba: Seq<usize>, n: usize, j: nat)
    requires
        j <= bv.len(),
        j <= ba.len(),
        forall|k: int| 0 <= k < j ==> #[trigger] ba[k] == n,
    ensures
        unmatched(bv, ba, n, j) == bv.take(j as int).to_multiset(),
    decreases j,
{
    if j == 0 {
        assert(bv.take(0) =~= Seq::<nat>::empty());
        broadcast use vstd::multiset::group_multiset_axioms, vstd::seq_lib::group_to_multiset_ensures;
        assert(Seq::<nat>::empty().to_multiset() =~= Multiset::empty());
    } else {
        lemma_unmatched_all(bv, ba, n, (j - 1) as nat);
        assert(bv.take(j as int) =~= bv.take(j - 1).push(bv[j - 1]));
        vstd::seq_lib::to_multiset_build(bv.take(j - 1), bv[j - 1]);
    }
}

/// A free index contributes its value.
proof fn lemma_unmatched_contains(bv: Seq<nat>, ba: Seq<usize>, n: usize, j: nat, f: int)
    requires
        0 <= f < j,
        ba[f] == n,
    ensures
        unmatched(bv, ba, n, j).count(bv[f]) > 0,
    decreases j,
{
    broadcast use vstd::multiset::group_multiset_axioms;
    if f < j - 1 {
        lemma_unmatched_contains(bv, ba, n, (j - 1) as nat, f);
    }
}

/// A value that no free index holds is not among the free values.
proof fn lemma_unmatched_absent(bv: Seq<nat>, ba: Seq<usize>, n: usize, j: nat, x: nat)
    requires
        forall|k: int| 0 <= k < j ==> !(#[trigger] ba[k] == n && bv[k] == x),
    ensures
        unmatched(bv, ba, n, j).count(x) == 0,
    decreases j,
{
    broadcast use vstd::multiset::group_multiset_axioms;
    if j > 0 {
        lemma_unmatched_absent(bv, ba, n, (j - 1) as nat, x);
        assert(!(ba[j - 1] == n && bv[j - 1] == x));
    }
}

/// Taking a free index removes its value from the free values.
proof fn lemma_unmatched_take(bv: Seq<nat>, ba: Seq<usize>, n: usize, j: nat, f: int, v: usize)
    requires
        0 <= f < ba.len(),
        j <= ba.len(),
        ba[f] == n,
        v != n,
    ensures
        unmatched(bv, ba.update(f, v), n, j) == if f < j {
            unmatched(bv, ba, n, j).remove(bv[f])
        } else {
            unmatched(bv, ba, n, j)
        },
    decreases j,
{
    broadcast use vstd::multiset::group_multiset_axioms;
    let ub = ba.update(f, v);
    if j > 0 {
        lemma_unmatched_take(bv, ba, n, (j - 1) as nat, f, v);
        let prev = unmatched(bv, ba, n, (j - 1) as nat);
        if f < j - 1 {
            lemma_unmatched_contains(bv, ba, n, (j - 1) as nat, f);
            if ba[j - 1] == n {
                assert(prev.remove(bv[f]).insert(bv[j - 1]) =~= prev.insert(bv[j - 1]).remove(bv[f]));
            }
        } else if f == j - 1 {
            assert(prev.insert(bv[f]).remove(bv[f]) =~= prev);
        }
    }
}

/// Pairs each index of `a` with a distinct index of `b` that holds an equal value; `None` when
/// `b` is not a permutation of `a`.
fn match_indices<F: Field>(a: &Vec<Element<F>>, b: &Vec<Element<F>>) -> (r: Option<
    (Vec<usize>, Vec<usize>),
>)
    requires
        a@.len() == b@.len(),
    ensures
        r matches Some(m) ==> {
            &&& m.0@.len() == a@.len()
            &&& m.1@.len() == a@.len()
            &&& forall|i: int| 0 <= i < a@.len() ==> #[trigger] m.0@[i] < a@.len()
            &&& forall|j: int| 0 <= j < a@.len() ==> #[trigger] m.1@[j] < a@.len()
            &&& forall|i: int|
                0 <= i < a@.len() ==> b@[#[trigger] m.0@[i] as int]@ == a@[i]@ && m.1@[m.0@[i] as int]
                    == i
        },
        r is None <==> element_multiset(a@) != element_multiset(b@),
{
    let ghost av = a@.map_values(|e: Element<F>| e@);
    let ghost bv = b@.map_values(|e: Element<F>| e@);
    let n = a.len();
    let mut ab: Vec<usize> = Vec::new();
    let mut ba: Vec<usize> = Vec::new();
    let mut k: usize = 0;
    while k < n
        invariant
            k <= n,
            ba@.len() == k,
            forall|j: int| 0 <= j < k ==> #[trigger] ba@[j] == n,
        decreases n - k,
    {
        ba.push(n);
        k += 1;
    }
    proof {
        lemma_unmatched_all(bv, ba@, n, n as nat);
        assert(bv.take(n as int) =~= bv);
        assert(av.take(0) =~= Seq::<nat>::empty());
        broadcast use vstd::multiset::group_multiset_axioms, vstd::seq_lib::group_to_multiset_ensures;
        assert(bv.to_multiset() =~= av.take(0).to_multiset().add(unmatched(bv, ba@, n, n as nat)));
    }
    let mut i: usize = 0;
    while i < n
        invariant
            i <= n,
            n == a@.len(),
            n == b@.len(),
            av == a@.map_values(|e: Element<F>| e@),
            bv == b@.map_values(|e: Element<F>| e@),
            bv.to_multiset() == av.take(i as int).to_multiset().add(unmatched(bv, ba@, n, n as nat)),
            ab@.len() == i,
            ba@.len() == n,
            forall|j: int| 0 <= j < n ==> (#[trigger] ba@[j] < i || ba@[j] == n),
            forall|j: int| 0 <= j < n && ba@[j] < n ==> ab@[#[trigger] ba@[j] as int] == j,
            forall|k: int|
                0 <= k < i ==> #[trigger] ab@[k] < n && ba@[ab@[k] as int] == k && b@[ab@[k] as int]@
                    == a@[k]@,
        decreases n - i,
    {
        let mut j: usize = 0;
        let mut found: usize = n;
        while j < n && found == n
            invariant
                j <= n,
                i < n,
                n == a@.len(),
                n == b@.len(),
                ba@.len() == n,
                found == n || (found < n && ba@[found as int] == n && b@[found as int]@ == a@[i as int]@),
                found == n ==> forall|k: int| 0 <= k < j ==> !(#[trigger] ba@[k] == n && b@[k]@ == a@[i as int]@),
            decreases n - j,
        {
            if ba[j] == n && b[j].equals(&a[i]) {
                found = j;
            }
            j += 1;
        }
        if found == n {
            proof {
                let x = av[i as int];
                assert forall|k: int| 0 <= k < n implies !(#[trigger] ba@[k] == n && bv[k] == x) by {
                    assert(bv[k] == b@[k]@);
                }
                lemma_unmatched_absent(bv, ba@, n, n as nat, x);
                broadcast use vstd::multiset::group_multiset_axioms;
                assert(av =~= av.take(i as int) + av.skip(i as int));
                vstd::seq_lib::lemma_multiset_commutative(av.take(i as int), av.skip(i as int));
                assert(av.skip(i as int)[0] == x);
                vstd::seq_lib::to_multiset_contains(av.skip(i as int), x);
                assert(av.skip(i as int).contains(x));
                assert(av.to_multiset().count(x) > bv.to_multiset().count(x));
            }
            return None;
        }
        let j = found;
        proof {
            let x = av[i as int];
            assert(bv[j as int] == x);
            lemma_unmatched_take(bv, ba@, n, n as nat, j as int, i);
            lemma_unmatched_contains(bv, ba@, n, n as nat, j as int);
            assert(av.take(i + 1) =~= av.take(i as int).push(x));
            vstd::seq_lib::to_multiset_build(av.take(i as int), x);
            broadcast use vstd::multiset::group_multiset_axioms;
            let u = unmatched(bv, ba@, n, n as nat);
            assert(av.take(i as int).to_multiset().add(u) =~= av.take(i as int).to_multiset().insert(
                x,
            ).add(u.remove(x)));
        }
        ba.set(j, i);
        ab.push(j);
        i += 1;
    }
    let mut j: usize = 0;
    while j < n
        invariant
            j <= n,
            ba@.len() == n,
            n == a@.len(),
            n == b@.len(),
            av == a@.map_values(|e: Element<F>| e@),
            bv == b@.map_values(|e: Element<F>| e@),
            bv.to_multiset() == av.take(n as int).to_multiset().add(unmatched(bv, ba@, n, n as nat)),
            forall|q: int| 0 <= q < n ==> (#[trigger] ba@[q] < n || ba@[q] == n),
            forall|q: int| 0 <= q < j ==> #[trigger] ba@[q] < n,
        decreases n - j,
    {
        if ba[j] >= n {
            proof {
                lemma_unmatched_contains(bv, ba@, n, n as nat, j as int);
                broadcast use vstd::multiset::group_multiset_axioms;
                vstd::seq_lib::to_multiset_len(bv);
                vstd::seq_lib::to_multiset_len(av.take(n as int));
            }
            return None;
        }
        j += 1;
    }
    proof {
        let u = unmatched(bv, ba@, n, n as nat);
        assert forall|x: nat| u.count(x) == 0 by {
            lemma_unmatched_absent(bv, ba@, n, n as nat, x);
        }
        broadcast use vstd::multiset::group_multiset_axioms;
        assert(u =~= Multiset::empty());
        assert(av.take(n as int) =~= av);
        assert(bv.to_multiset() =~= av.to_multiset());
    }
    Some((ab, ba))
}

/// The indices of the switch wires of both sides.
pub open spec fn switch_set(a_switches: Seq<BooleanWire>, b_switches: Seq<BooleanWire>) -> Set<u32> {
    boolean_wire_set(a_switches) + boolean_wire_set(b_switches)
}

/// `new` differs from `old` only at the wires of `changed`, and each of those that it assigns
/// anew holds 0 or 1.
pub open spec fn boolean_update(old: Map<u32, nat>, new: Map<u32, nat>, changed: Set<u32>) -> bool {
    &&& assigns_more(old, new)
    &&& only_changes(old, new, changed)
    &&& forall|w: u32|
        changed.contains(w) && #[trigger] new.contains_key(w) && !(old.contains_key(w) && new[w]
            == old[w]) ==> new[w] == 0 || new[w] == 1
}

/// Leaving the assignment as it is, is a boolean update.
proof fn lemma_boolean_update_refl(a: Map<u32, nat>, s: Set<u32>)
    ensures
        boolean_update(a, a, s),
{
}

/// Two boolean updates in a row are one.
proof fn lemma_boolean_update_trans(a: Map<u32, nat>, b: Map<u32, nat>, c: Map<u32, nat>, s: Set<u32>)
    requires
        boolean_update(a, b, s),
        boolean_update(b, c, s),
    ensures
        boolean_update(a, c, s),
{
    assert forall|w: u32|
        s.contains(w) && #[trigger] c.contains_key(w) && !(a.contains_key(w) && c[w] == a[w]) implies c[w]
        == 0 || c[w] == 1 by {
        if b.contains_key(w) && c[w] == b[w] {
            assert(b.contains_key(w));
        }
    }
    assert forall|w: u32| !s.contains(w) implies (#[trigger] c.contains_key(w) == a.contains_key(w) && (
    a.contains_key(w) ==> c[w] == a[w])) by {
        assert(b.contains_key(w) == a.contains_key(w));
    }
}

/// The side opposite to `side`.
pub open spec fn other_side(side: usize) -> usize {
    if side == 0 {
        1
    } else {
        0
    }
}

/// The other index of the switch that index `i` feeds.
pub open spec fn sibling_index(i: int) -> int {
    if i % 2 == 0 {
        i + 1
    } else {
        i - 1
    }
}

/// The pending routes of a side after wire `o` of it was reached from the other side with
/// `subnet`: it is marked, unless it goes through no switch, its switch is already set, or it or
/// its sibling is already pending.
pub open spec fn enqueued(
    pending: Seq<Option<bool>>,
    o: int,
    switches: Seq<BooleanWire>,
    vals: Map<u32, nat>,
    subnet: bool,
) -> Seq<Option<bool>> {
    if o / 2 < switches.len() && !vals.contains_key(switches[o / 2].spec_wire().index)
        && pending[sibling_index(o)] is None && pending[o] is None {
        pending.update(o, Some(subnet))
    } else {
        pending
    }
}

/// Every pending wire goes through a switch that is not yet set.
pub open spec fn pending_unset(
    pending: Seq<Option<bool>>,
    switches: Seq<BooleanWire>,
    vals: Map<u32, nat>,
) -> bool {
    forall|i: int|
        0 <= i < pending.len() && #[trigger] pending[i] is Some ==> i / 2 < switches.len()
            && !vals.contains_key(switches[i / 2].spec_wire().index)
}

/// No wire is a switch of both sides.
pub open spec fn sides_disjoint(a_switches: Seq<BooleanWire>, b_switches: Seq<BooleanWire>) -> bool {
    forall|i: int, j: int|
        0 <= i < a_switches.len() && 0 <= j < b_switches.len() ==> #[trigger] a_switches[i].spec_wire().index
            != #[trigger] b_switches[j].spec_wire().index
}

/// Marking a wire whose switch is not set keeps every pending switch unset.
proof fn lemma_enqueued_unset(
    pending: Seq<Option<bool>>,
    o: int,
    switches: Seq<BooleanWire>,
    vals: Map<u32, nat>,
    subnet: bool,
)
    requires
        pending_unset(pending, switches, vals),
        0 <= o < pending.len(),
    ensures
        pending_unset(enqueued(pending, o, switches, vals, subnet), switches, vals),
{
    let q = enqueued(pending, o, switches, vals, subnet);
    if o / 2 < switches.len() && !vals.contains_key(switches[o / 2].spec_wire().index)
        && pending[sibling_index(o)] is None && pending[o] is None {
        assert(q == pending.update(o, Some(subnet)));
        assert forall|i: int| 0 <= i < q.len() && #[trigger] q[i] is Some implies i / 2 < switches.len()
            && !vals.contains_key(switches[i / 2].spec_wire().index) by {
            if i != o {
                assert(q[i] == pending[i]);
            }
        }
    } else {
        assert(q == pending);
    }
}

/// Setting a wire that is no switch of a side keeps that side's pending switches unset.
proof fn lemma_unset_insert(
    pending: Seq<Option<bool>>,
    switches: Seq<BooleanWire>,
    vals: Map<u32, nat>,
    w: u32,
    v: nat,
)
    requires
        pending_unset(pending, switches, vals),
        forall|j: int| 0 <= j < switches.len() ==> #[trigger] switches[j].spec_wire().index != w,
    ensures
        pending_unset(pending, switches, vals.insert(w, v)),
{
    assert forall|i: int| 0 <= i < pending.len() && #[trigger] pending[i] is Some implies i / 2
        < switches.len() && !vals.insert(w, v).contains_key(switches[i / 2].spec_wire().index) by {
        assert(switches[i / 2].spec_wire().index != w);
    }
}

/// The number of switches that are not yet set.
spec fn unset_count(switches: Seq<BooleanWire>, vals: Map<u32, nat>) -> nat
    decreases switches.len(),
{
    if switches.len() == 0 {
        0
    } else {
        unset_count(switches.drop_last(), vals) + if vals.contains_key(
            switches.last().spec_wire().index,
        ) {
            0nat
        } else {
            1nat
        }
    }
}

/// At most every switch is unset.
proof fn lemma_unset_count_bound(switches: Seq<BooleanWire>, vals: Map<u32, nat>)
    ensures
        unset_count(switches, vals) <= switches.len(),
    decreases switches.len(),
{
    if switches.len() > 0 {
        lemma_unset_count_bound(switches.drop_last(), vals);
    }
}

/// Assigning more wires leaves no more switches unset, and fewer where a switch gets set.
proof fn lemma_unset_count_mono(switches: Seq<BooleanWire>, v1: Map<u32, nat>, v2: Map<u32, nat>, k: int)
    requires
        assigns_more(v1, v2),
    ensures
        unset_count(switches, v2) <= unset_count(switches, v1),
        0 <= k < switches.len() && !v1.contains_key(switches[k].spec_wire().index) && v2.contains_key(
            switches[k].spec_wire().index,
        ) ==> unset_count(switches, v2) < unset_count(switches, v1),
    decreases switches.len(),
{
    if switches.len() > 0 {
        lemma_unset_count_mono(switches.drop_last(), v1, v2, k);
        let w = switches.last().spec_wire().index;
        if v1.contains_key(w) {
            assert(v2.contains_key(w));
        }
    }
}

/// The state of routing one layer of a permutation network: for each side, the wires that have
/// been routed to a subnetwork on the other side but whose switch is not yet set.
struct Layer<'a> {
    a_switches: &'a Vec<BooleanWire>,
    b_switches: &'a Vec<BooleanWire>,
    a_to_b: Vec<usize>,
    b_to_a: Vec<usize>,
    a_pending: Vec<Option<bool>>,
    b_pending: Vec<Option<bool>>,
}

impl<'a> Layer<'a> {
    spec fn wf(&self, n: nat) -> bool {
        &&& self.a_to_b@.len() == n
        &&& self.b_to_a@.len() == n
        &&& self.a_pending@.len() == n
        &&& self.b_pending@.len() == n
        &&& 2 * self.a_switches@.len() <= n
        &&& 2 * self.b_switches@.len() <= n
        &&& forall|i: int| 0 <= i < n ==> #[trigger] self.a_to_b@[i] < n
        &&& forall|i: int| 0 <= i < n ==> #[trigger] self.b_to_a@[i] < n
    }

    /// The pending routes of side `side` (0 for the `a` side).
    spec fn pending_of(&self, side: usize) -> Seq<Option<bool>> {
        if side == 0 {
            self.a_pending@
        } else {
            self.b_pending@
        }
    }

    /// The switches of side `side`.
    spec fn switches_of(&self, side: usize) -> Seq<BooleanWire> {
        if side == 0 {
            self.a_switches@
        } else {
            self.b_switches@
        }
    }

    /// The index on the other side that index `i` of side `side` maps to.
    spec fn other_index(&self, side: usize, i: int) -> int {
        if side == 0 {
            self.a_to_b@[i] as int
        } else {
            self.b_to_a@[i] as int
        }
    }

    /// The two index maps and the switches are those of `other`.
    spec fn same_maps(&self, other: Layer<'a>) -> bool {
        &&& self.a_switches == other.a_switches
        &&& self.b_switches == other.b_switches
        &&& self.a_to_b@ == other.a_to_b@
        &&& self.b_to_a@ == other.b_to_a@
    }

    /// After wire `this_i` on side `side` was routed to `subnet`, marks the wire it maps to on the
    /// other side for routing to the same subnetwork, unless its switch is already set or its
    /// sibling is already pending.
    fn enqueue_other_side<F: Field>(
        &mut self,
        values: &WireValues<F>,
        side: usize,
        this_i: usize,
        subnet: bool,
        Ghost(n): Ghost<nat>,
    )
        requires
            old(self).wf(n),
            this_i < n,
        ensures
            final(self).wf(n),
            final(self).same_maps(*old(self)),
            final(self).pending_of(side) == old(self).pending_of(side),
            final(self).pending_of(other_side(side)) == enqueued(
                old(self).pending_of(other_side(side)),
                old(self).other_index(side, this_i as int),
                old(self).switches_of(other_side(side)),
                values@,
                subnet,
            ),
    {
        let other_i = if side == 0 {
            self.a_to_b[this_i]
        } else {
            self.b_to_a[this_i]
        };
        let other_switches = if side == 0 {
            self.b_switches
        } else {
            self.a_switches
        };
        let other_switch_i = other_i / 2;
        if other_switch_i >= other_switches.len() {
            // The other wire doesn't go through a switch, so there's no routing to be done.
            return;
        }
        if values.contains_boolean(other_switches[other_switch_i]) {
            // The other switch has already been routed.
            return;
        }
        let sibling = if other_i % 2 == 0 {
            other_i + 1
        } else {
            other_i - 1
        };
        if side == 0 {
            if self.b_pending[sibling].is_some() {
                return;
            }
            if self.b_pending[other_i].is_none() {
                self.b_pending.set(other_i, Some(subnet));
            }
        } else {
            if self.a_pending[sibling].is_some() {
                return;
            }
            if self.a_pending[other_i].is_none() {
                self.a_pending.set(other_i, Some(subnet));
            }
        }
    }

    /// Sets switch `switch_index` of side `side`, then marks the two wires it feeds for routing on
    /// the other side.
    fn route_switch<F: Field>(
        &mut self,
        values: &mut WireValues<F>,
        side: usize,
        switch_index: usize,
        swap: bool,
        Ghost(n): Ghost<nat>,
    )
        requires
            old(self).wf(n),
            side == 0 ==> switch_index < old(self).a_switches@.len(),
            side != 0 ==> switch_index < old(self).b_switches@.len(),
        ensures
            final(self).wf(n),
            final(self).same_maps(*old(self)),
            final(values)@ == old(values)@.insert(
                old(self).switches_of(side)[switch_index as int].spec_wire().index,
                if swap { 1nat } else { 0nat },
            ),
            final(self).pending_of(side) == old(self).pending_of(side),
            final(self).pending_of(other_side(side)) == enqueued(
                enqueued(
                    old(self).pending_of(other_side(side)),
                    old(self).other_index(side, 2 * switch_index),
                    old(self).switches_of(other_side(side)),
                    final(values)@,
                    swap,
                ),
                old(self).other_index(side, 2 * switch_index + 1),
                old(self).switches_of(other_side(side)),
                final(values)@,
                !swap,
            ),
            boolean_update(
                old(values)@,
                final(values)@,
                switch_set(old(self).a_switches@, old(self).b_switches@),
            ),
    {
        let len = self.a_pending.len();
        if side == 0 {
            values.set_boolean(self.a_switches[switch_index], swap);
            proof {
                assert(boolean_wire_set(self.a_switches@).contains(
                    self.a_switches@[switch_index as int].spec_wire().index,
                ));
            }
        } else {
            values.set_boolean(self.b_switches[switch_index], swap);
            proof {
                assert(boolean_wire_set(self.b_switches@).contains(
                    self.b_switches@[switch_index as int].spec_wire().index,
                ));
            }
        }
        let this_i_1 = switch_index * 2;
        let this_i_2 = this_i_1 + 1;
        self.enqueue_other_side(values, side, this_i_1, swap, Ghost(n));
        self.enqueue_other_side(values, side, this_i_2, !swap, Ghost(n));
    }

    /// Whether any wire of side `side` is pending.
    fn has_pending(&self, side: usize) -> (r: bool)
        ensures
            r == exists|i: int| 0 <= i < self.pending_of(side).len() && #[trigger] self.pending_of(side)[i] is Some,
    {
        let pending = if side == 0 {
            &self.a_pending
        } else {
            &self.b_pending
        };
        let mut i: usize = 0;
        while i < pending.len()
            invariant
                i <= pending@.len(),
                pending@ == self.pending_of(side),
                forall|k: int| 0 <= k < i ==> #[trigger] pending@[k] is None,
            decreases pending@.len() - i,
        {
            if pending[i].is_some() {
                return true;
            }
            i += 1;
        }
        false
    }

    /// Routes every pending wire of side `side`, in increasing order, then clears them.
    fn route_pending<F: Field>(&mut self, values: &mut WireValues<F>, side: usize, Ghost(n): Ghost<nat>)
        requires
            old(self).wf(n),
        ensures
            final(self).wf(n),
            final(self).same_maps(*old(self)),
            boolean_update(
                old(values)@,
                final(values)@,
                switch_set(old(self).a_switches@, old(self).b_switches@),
            ),
            only_changes(old(values)@, final(values)@, boolean_wire_set(old(self).switches_of(side))),
            forall|i: int| 0 <= i < n ==> #[trigger] final(self).pending_of(side)[i] is None,
            forall|i: int|
                0 <= i < n && #[trigger] old(self).pending_of(side)[i] is Some && i / 2 < old(
                    self,
                ).switches_of(side).len() ==> final(values)@.contains_key(
                    old(self).switches_of(side)[i / 2].spec_wire().index,
                ),
            sides_disjoint(old(self).a_switches@, old(self).b_switches@) && pending_unset(
                old(self).pending_of(other_side(side)),
                old(self).switches_of(other_side(side)),
                old(values)@,
            ) ==> pending_unset(
                final(self).pending_of(other_side(side)),
                final(self).switches_of(other_side(side)),
                final(values)@,
            ),
    {
        let ghost start = values@;
        let ghost sw = switch_set(self.a_switches@, self.b_switches@);
        let ghost own = boolean_wire_set(self.switches_of(side));
        let ghost disjoint_start = sides_disjoint(self.a_switches@, self.b_switches@) && pending_unset(
            self.pending_of(other_side(side)),
            self.switches_of(other_side(side)),
            values@,
        );
        let len = if side == 0 {
            self.a_pending.len()
        } else {
            self.b_pending.len()
        };
        let mut i: usize = 0;
        while i < len
            invariant
                self.wf(n),
                len == n,
                i <= len,
                self.same_maps(*old(self)),
                self.pending_of(side) == old(self).pending_of(side),
                sw == switch_set(self.a_switches@, self.b_switches@),
                own == boolean_wire_set(self.switches_of(side)),
                boolean_update(start, values@, sw),
                only_changes(start, values@, own),
                forall|k: int|
                    0 <= k < i && #[trigger] old(self).pending_of(side)[k] is Some && k / 2 < old(
                        self,
                    ).switches_of(side).len() ==> values@.contains_key(
                        old(self).switches_of(side)[k / 2].spec_wire().index,
                    ),
                disjoint_start ==> sides_disjoint(self.a_switches@, self.b_switches@) && pending_unset(
                    self.pending_of(other_side(side)),
                    self.switches_of(other_side(side)),
                    values@,
                ),
            decreases len - i,
        {
            let entry = if side == 0 {
                self.a_pending[i]
            } else {
                self.b_pending[i]
            };
            if let Some(subnet) = entry {
                let this_first_switch_input = i % 2 == 0;
                let swap = this_first_switch_input == subnet;
                let this_switch_i = i / 2;
                let switches_len = if side == 0 {
                    self.a_switches.len()
                } else {
                    self.b_switches.len()
                };
                if this_switch_i < switches_len {
                    let ghost before = values@;
                    let ghost lb = *self;
                    self.route_switch(values, side, this_switch_i, swap, Ghost(n));
                    proof {
                        lemma_boolean_update_trans(start, before, values@, sw);
                        let w = lb.switches_of(side)[this_switch_i as int].spec_wire().index;
                        assert(own.contains(w));
                        assert forall|k: int|
                            0 <= k < i + 1 && #[trigger] old(self).pending_of(side)[k] is Some && k / 2
                                < old(self).switches_of(side).len() implies values@.contains_key(
                            old(self).switches_of(side)[k / 2].spec_wire().index,
                        ) by {
                            if k < i {
                                assert(before.contains_key(old(self).switches_of(side)[k / 2].spec_wire().index));
                            }
                        }
                        if disjoint_start {
                            let os = other_side(side);
                            let mid = before.insert(w, if swap { 1nat } else { 0nat });
                            assert forall|j: int| 0 <= j < lb.switches_of(os).len() implies #[trigger] lb.switches_of(
                                os,
                            )[j].spec_wire().index != w by {
                                if side == 0 {
                                    assert(lb.a_switches@[this_switch_i as int].spec_wire().index
                                        != lb.b_switches@[j].spec_wire().index);
                                } else {
                                    assert(lb.a_switches@[j].spec_wire().index
                                        != lb.b_switches@[this_switch_i as int].spec_wire().index);
                                }
                            }
                            lemma_unset_insert(lb.pending_of(os), lb.switches_of(os), before, w, if swap { 1nat } else { 0nat });
                            lemma_enqueued_unset(
                                lb.pending_of(os),
                                lb.other_index(side, 2 * this_switch_i),
                                lb.switches_of(os),
                                mid,
                                swap,
                            );
                            lemma_enqueued_unset(
                                enqueued(
                                    lb.pending_of(os),
                                    lb.other_index(side, 2 * this_switch_i),
                                    lb.switches_of(os),
                                    mid,
                                    swap,
                                ),
                                lb.other_index(side, 2 * this_switch_i + 1),
                                lb.switches_of(os),
                                mid,
                                !swap,
                            );
                        }
                    }
                }
            }
            i += 1;
        }
        let ghost mid_other = self.pending_of(other_side(side));
        let mut k: usize = 0;
        while k < len
            invariant
                self.wf(n),
                len == n,
                k <= len,
                self.same_maps(*old(self)),
                self.pending_of(other_side(side)) == mid_other,
                forall|q: int| 0 <= q < k ==> #[trigger] self.pending_of(side)[q] is None,
            decreases len - k,
        {
            let ghost prev = self.pending_of(side);
            if side == 0 {
                self.a_pending.set(k, None);
            } else {
                self.b_pending.set(k, None);
            }
            proof {
                assert(self.pending_of(side) == prev.update(k as int, None));
                assert forall|q: int| 0 <= q < k + 1 implies #[trigger] self.pending_of(side)[q] is None by {
                    if q < k {
                        assert(prev[q] is None);
                    }
                }
            }
            k += 1;
        }
    }
}

/// How far routing a layer is from done: the unset switches and the switches that the scans have
/// still to pass.
spec fn route_potential(
    a_switches: Seq<BooleanWire>,
    b_switches: Seq<BooleanWire>,
    vals: Map<u32, nat>,
    scan_a: int,
    scan_b: int,
) -> int {
    unset_count(a_switches, vals) + unset_count(b_switches, vals) + (a_switches.len() - scan_a) + (
    b_switches.len() - scan_b)
}

/// The sizes and values for which a layer can be routed: at least two wires, at most one switch
/// per two wires on each side, and `b_values` a permutation of `a_values`.
pub open spec fn routable<F: Field>(
    a_values: Seq<Element<F>>,
    b_values: Seq<Element<F>>,
    a_switches: Seq<BooleanWire>,
    b_switches: Seq<BooleanWire>,
) -> bool {
    &&& a_values.len() >= 2
    &&& a_switches.len() <= a_values.len() / 2
    &&& b_switches.len() <= a_values.len() / 2
    &&& element_multiset(a_values) == element_multiset(b_values)
}

/// The values on both sides of a layer can be routed through its switches: at least two values,
/// as many on each side, at most one switch per two values on each side, and `b_values` a
/// permutation of `a_values`.
pub open spec fn route_possible(
    a_values: Seq<nat>,
    b_values: Seq<nat>,
    a_switches: Seq<BooleanWire>,
    b_switches: Seq<BooleanWire>,
) -> bool {
    &&& a_values.len() >= 2
    &&& a_values.len() == b_values.len()
    &&& a_switches.len() <= a_values.len() / 2
    &&& b_switches.len() <= a_values.len() / 2
    &&& a_values.to_multiset() == b_values.to_multiset()
}

/// Generates switch settings for a single layer of the recursive network (see Figure 8 in the
/// AS-Waksman paper), given the values on both sides. When `b_values` is not a permutation of
/// `a_values`, no switch is set; when it is, and no wire is a switch of both sides, every switch
/// is set.
fn route<F: Field>(
    a_values: &Vec<Element<F>>,
    b_values: &Vec<Element<F>>,
    a_switches: &Vec<BooleanWire>,
    b_switches: &Vec<BooleanWire>,
    values: &mut WireValues<F>,
)
    requires
        a_values@.len() == b_values@.len(),
    ensures
        boolean_update(old(values)@, final(values)@, switch_set(a_switches@, b_switches@)),
        !routable(a_values@, b_values@, a_switches@, b_switches@) ==> final(values)@ == old(values)@,
        routable(a_values@, b_values@, a_switches@, b_switches@) && sides_disjoint(
            a_switches@,
            b_switches@,
        ) ==> (forall|k: int|
            0 <= k < a_switches@.len() ==> final(values)@.contains_key(
                #[trigger] a_switches@[k].spec_wire().index,
            )) && (forall|k: int|
            0 <= k < b_switches@.len() ==> final(values)@.contains_key(
                #[trigger] b_switches@[k].spec_wire().index,
            )),
{
    let ghost start = values@;
    let ghost sw = switch_set(a_switches@, b_switches@);
    let ghost disj = sides_disjoint(a_switches@, b_switches@);
    let n = a_values.len();
    if n < 2 || a_switches.len() > n / 2 || b_switches.len() > n / 2 {
        return;
    }
    let (a_to_b, b_to_a) = match match_indices(a_values, b_values) {
        Some(m) => m,
        None => return,
    };
    let mut a_pending: Vec<Option<bool>> = Vec::new();
    let mut b_pending: Vec<Option<bool>> = Vec::new();
    let mut k: usize = 0;
    while k < n
        invariant
            k <= n,
            a_pending@.len() == k,
            b_pending@.len() == k,
            forall|q: int| 0 <= q < k ==> #[trigger] a_pending@[q] is None,
            forall|q: int| 0 <= q < k ==> #[trigger] b_pending@[q] is None,
        decreases n - k,
    {
        a_pending.push(None);
        b_pending.push(None);
        k += 1;
    }
    let mut layer = Layer { a_switches, b_switches, a_to_b, b_to_a, a_pending, b_pending };
    let ghost gn = n as nat;
    let even = n % 2 == 0;
    if even {
        let ghost l0 = layer;
        layer.enqueue_other_side(values, 1, n - 2, false, Ghost(gn));
        let ghost l1 = layer;
        layer.enqueue_other_side(values, 1, n - 1, true, Ghost(gn));
        proof {
            lemma_enqueued_unset(l0.a_pending@, l0.other_index(1, n - 2), a_switches@, values@, false);
            lemma_enqueued_unset(l1.a_pending@, l1.other_index(1, n - 1), a_switches@, values@, true);
        }
    } else {
        let ghost l0 = layer;
        layer.enqueue_other_side(values, 0, n - 1, true, Ghost(gn));
        let ghost l1 = layer;
        layer.enqueue_other_side(values, 1, n - 1, true, Ghost(gn));
        proof {
            lemma_enqueued_unset(l0.b_pending@, l0.other_index(0, n - 1), b_switches@, values@, true);
            lemma_enqueued_unset(l1.a_pending@, l1.other_index(1, n - 1), a_switches@, values@, true);
        }
    }

    // Until both scans complete, we alternate back and forth between the left and right switch
    // layers. We process any partially routed wires for that side, or if there aren't any, we
    // route the next switch in our scan. Each round sets a switch or advances a scan, so the scans
    // finish within `8 * n + 8` rounds.
    let mut scan_a: usize = 0;
    let mut scan_b: usize = 0;
    let mut rounds: u128 = 0;
    let limit: u128 = 8 * (n as u128) + 8;
    proof {
        lemma_unset_count_bound(a_switches@, values@);
        lemma_unset_count_bound(b_switches@, values@);
    }
    while (scan_a < a_switches.len() || scan_b < b_switches.len()) && rounds < limit
        invariant
            layer.wf(gn),
            gn == n,
            limit == 8 * n + 8,
            layer.a_switches == a_switches,
            layer.b_switches == b_switches,
            scan_a <= a_switches@.len(),
            scan_b <= b_switches@.len(),
            sw == switch_set(a_switches@, b_switches@),
            boolean_update(start, values@, sw),
            disj == sides_disjoint(a_switches@, b_switches@),
            disj ==> pending_unset(layer.a_pending@, a_switches@, values@),
            disj ==> pending_unset(layer.b_pending@, b_switches@, values@),
            disj ==> forall|q: int| 0 <= q < scan_a ==> values@.contains_key(
                #[trigger] a_switches@[q].spec_wire().index,
            ),
            disj ==> forall|q: int| 0 <= q < scan_b ==> values@.contains_key(
                #[trigger] b_switches@[q].spec_wire().index,
            ),
            disj ==> rounds + route_potential(
                a_switches@,
                b_switches@,
                values@,
                scan_a as int,
                scan_b as int,
            ) <= 2 * n,
        decreases limit - rounds,
    {
        rounds += 1;
        let ghost phi0 = route_potential(a_switches@, b_switches@, values@, scan_a as int, scan_b as int);
        let ghost mut progress = false;
        let mut side: usize = 0;
        while side < 2
            invariant
                layer.wf(gn),
                gn == n,
                layer.a_switches == a_switches,
                layer.b_switches == b_switches,
                scan_a <= a_switches@.len(),
                scan_b <= b_switches@.len(),
                side <= 2,
                sw == switch_set(a_switches@, b_switches@),
                boolean_update(start, values@, sw),
                disj == sides_disjoint(a_switches@, b_switches@),
                disj ==> pending_unset(layer.a_pending@, a_switches@, values@),
                disj ==> pending_unset(layer.b_pending@, b_switches@, values@),
                disj ==> forall|q: int| 0 <= q < scan_a ==> values@.contains_key(
                    #[trigger] a_switches@[q].spec_wire().index,
                ),
                disj ==> forall|q: int| 0 <= q < scan_b ==> values@.contains_key(
                    #[trigger] b_switches@[q].spec_wire().index,
                ),
                disj ==> route_potential(a_switches@, b_switches@, values@, scan_a as int, scan_b as int)
                    + (if progress { 1int } else { 0int }) <= phi0,
                disj && !progress ==> side != 2 && (side == 0 ==> scan_a < a_switches@.len()
                    || scan_b < b_switches@.len()) && (side == 1 ==> scan_b < b_switches@.len()),
            decreases 2 - side,
        {
            let ghost before = values@;
            let ghost lb = layer;
            let ghost sa0 = scan_a;
            let ghost sb0 = scan_b;
            if layer.has_pending(side) {
                layer.route_pending(values, side, Ghost(gn));
                proof {
                    if disj {
                        let i = choose|i: int| 0 <= i < lb.pending_of(side).len() && #[trigger] lb.pending_of(side)[i] is Some;
                        let sws = lb.switches_of(side);
                        assert(i / 2 < sws.len() && !before.contains_key(sws[i / 2].spec_wire().index));
                        assert(values@.contains_key(sws[i / 2].spec_wire().index));
                        lemma_unset_count_mono(a_switches@, before, values@, i / 2);
                        lemma_unset_count_mono(b_switches@, before, values@, i / 2);
                        progress = true;
                    }
                }
            } else if side == 0 {
                while scan_a < a_switches.len() && values.contains_boolean(a_switches[scan_a])
                    invariant
                        scan_a <= a_switches@.len(),
                        sa0 <= scan_a,
                        disj ==> forall|q: int| 0 <= q < scan_a ==> values@.contains_key(
                            #[trigger] a_switches@[q].spec_wire().index,
                        ),
                    decreases a_switches@.len() - scan_a,
                {
                    scan_a += 1;
                }
                if scan_a < a_switches.len() {
                    // Either switch configuration would work; we arbitrarily choose not to swap.
                    let ghost mid = values@;
                    layer.route_switch(values, 0, scan_a, false, Ghost(gn));
                    proof {
                        if disj {
                            let w = a_switches@[scan_a as int].spec_wire().index;
                            assert forall|j: int| 0 <= j < b_switches@.len() implies #[trigger] b_switches@[j].spec_wire().index != w by {
                                assert(a_switches@[scan_a as int].spec_wire().index != b_switches@[j].spec_wire().index);
                            }
                            lemma_unset_insert(lb.b_pending@, b_switches@, before, w, 0);
                            let mv = before.insert(w, 0);
                            assert(mv == values@);
                            lemma_enqueued_unset(lb.b_pending@, lb.other_index(0, 2 * scan_a), b_switches@, mv, false);
                            lemma_enqueued_unset(
                                enqueued(lb.b_pending@, lb.other_index(0, 2 * scan_a), b_switches@, mv, false),
                                lb.other_index(0, 2 * scan_a + 1),
                                b_switches@,
                                mv,
                                true,
                            );
                            lemma_unset_count_mono(a_switches@, before, values@, scan_a as int);
                            lemma_unset_count_mono(b_switches@, before, values@, 0);
                            progress = true;
                        }
                    }
                    scan_a += 1;
                } else {
                    proof {
                        if disj && sa0 < scan_a {
                            progress = true;
                        }
                    }
                }
            } else {
                while scan_b < b_switches.len() && values.contains_boolean(b_switches[scan_b])
                    invariant
                        scan_b <= b_switches@.len(),
                        sb0 <= scan_b,
                        disj ==> forall|q: int| 0 <= q < scan_b ==> values@.contains_key(
                            #[trigger] b_switches@[q].spec_wire().index,
                        ),
                    decreases b_switches@.len() - scan_b,
                {
                    scan_b += 1;
                }
                if scan_b < b_switches.len() {
                    let ghost mid = values@;
                    layer.route_switch(values, 1, scan_b, false, Ghost(gn));
                    proof {
                        if disj {
                            let w = b_switches@[scan_b as int].spec_wire().index;
                            assert forall|j: int| 0 <= j < a_switches@.len() implies #[trigger] a_switches@[j].spec_wire().index != w by {
                                assert(a_switches@[j].spec_wire().index != b_switches@[scan_b as int].spec_wire().index);
                            }
                            lemma_unset_insert(lb.a_pending@, a_switches@, before, w, 0);
                            let mv = before.insert(w, 0);
                            assert(mv == values@);
                            lemma_enqueued_unset(lb.a_pending@, lb.other_index(1, 2 * scan_b), a_switches@, mv, false);
                            lemma_enqueued_unset(
                                enqueued(lb.a_pending@, lb.other_index(1, 2 * scan_b), a_switches@, mv, false),
                                lb.other_index(1, 2 * scan_b + 1),
                                a_switches@,
                                mv,
                                true,
                            );
                            lemma_unset_count_mono(b_switches@, before, values@, scan_b as int);
                            lemma_unset_count_mono(a_switches@, before, values@, 0);
                            progress = true;
                        }
                    }
                    scan_b += 1;
                } else {
                    proof {
                        if disj && sb0 < scan_b {
                            progress = true;
                        }
                    }
                }
            }
            proof {
                lemma_boolean_update_trans(start, before, values@, sw);
            }
            side += 1;
        }
    }
}

} // verus!
