//! Assignments of values to wires.

use std::collections::HashMap;

use vstd::prelude::*;

use crate::field::{Element, Field};
use crate::natural::{bit_of, Natural};
use crate::wire::{BinaryWire, BooleanWire, Wire, ONE_WIRE_INDEX};

verus! {

/// The values of some wires, keyed by wire index. The constant-1 wire is always assigned 1.
#[derive(Debug)]
pub struct WireValues<F: Field> {
    values: HashMap<u32, Element<F>>,
    /// One more than the largest index assigned so far: every key is below it.
    bound: u64,
}

impl<F: Field> View for WireValues<F> {
    type V = Map<u32, nat>;

    closed spec fn view(&self) -> Map<u32, nat> {
        self.values@.map_values(|e: Element<F>| e@)
    }
}

impl<F: Field> WireValues<F> {
    /// Every assigned index is below the bound, which fits one past `u32`.
    #[verifier::type_invariant]
    spec fn inv(&self) -> bool {
        &&& self.bound <= u32::MAX as u64 + 1
        &&& forall|w: u32| #[trigger] self.values@.contains_key(w) ==> (w as u64) < self.bound
    }

    /// An assignment of only the constant-1 wire.
    pub fn new() -> (r: Self)
        ensures
            r@ == map![ONE_WIRE_INDEX => 1nat],
    {
        broadcast use vstd::std_specs::hash::group_hash_axioms;

        let mut values: HashMap<u32, Element<F>> = HashMap::new();
        values.insert(ONE_WIRE_INDEX, Element::one());
        let r = WireValues { values, bound: ONE_WIRE_INDEX as u64 + 1 };
        proof {
            assert(r@ =~= map![ONE_WIRE_INDEX => 1nat]);
        }
        r
    }

    /// A copy of this assignment.
    pub fn copy(&self) -> (r: Self)
        ensures
            r@ == self@,
    {
        proof {
            use_type_invariant(self);
        }
        WireValues { values: self.values.clone(), bound: self.bound }
    }

    pub fn contains(&self, wire: Wire) -> (r: bool)
        ensures
            r == self@.contains_key(wire.index),
    {
        broadcast use vstd::std_specs::hash::group_hash_axioms;

        self.values.contains_key(&wire.index)
    }

    pub fn contains_boolean(&self, wire: BooleanWire) -> (r: bool)
        ensures
            r == self@.contains_key(wire.spec_wire().index),
    {
        self.contains(wire.wire())
    }

    /// Whether every one of the given wires is assigned.
    pub fn contains_all(&self, wires: &[Wire]) -> (r: bool)
        ensures
            r == forall|k: int| 0 <= k < wires@.len() ==> self@.contains_key(#[trigger] wires@[k].index),
    {
        let mut i: usize = 0;
        while i < wires.len()
            invariant
                0 <= i <= wires@.len(),
                forall|k: int| 0 <= k < i ==> self@.contains_key(#[trigger] wires@[k].index),
            decreases wires@.len() - i,
        {
            if !self.contains(wires[i]) {
                return false;
            }
            i += 1;
        }
        true
    }

    /// The value of an assigned wire.
    pub fn get(&self, wire: Wire) -> (r: &Element<F>)
        requires
            self@.contains_key(wire.index),
        ensures
            r@ == self@[wire.index],
    {
        broadcast use vstd::std_specs::hash::group_hash_axioms;

        self.values.get(&wire.index).unwrap()
    }

    /// The value of a wire, if it is assigned.
    pub fn try_get(&self, wire: Wire) -> (r: Option<&Element<F>>)
        ensures
            r is Some <==> self@.contains_key(wire.index),
            r matches Some(e) ==> e@ == self@[wire.index],
    {
        broadcast use vstd::std_specs::hash::group_hash_axioms;

        self.values.get(&wire.index)
    }

    /// Assigns a value to a wire, replacing any earlier value.
    pub fn set(&mut self, wire: Wire, value: Element<F>)
        ensures
            final(self)@ == old(self)@.insert(wire.index, value@),
    {
        broadcast use vstd::std_specs::hash::group_hash_axioms;

        proof {
            use_type_invariant(&*self);
        }
        let ghost v = value@;
        let i = wire.index;
        let mut m: HashMap<u32, Element<F>> = HashMap::new();
        core::mem::swap(&mut self.values, &mut m);
        if i as u64 >= self.bound {
            self.bound = i as u64 + 1;
        }
        m.insert(i, value);
        core::mem::swap(&mut self.values, &mut m);
        proof {
            assert(self@ =~= old(self)@.insert(wire.index, v));
        }
    }

    /// Assigns 0 or 1 to a boolean wire.
    pub fn set_boolean(&mut self, wire: BooleanWire, value: bool)
        ensures
            final(self)@ == old(self)@.insert(
                wire.spec_wire().index,
                if value { 1nat } else { 0nat },
            ),
    {
        self.set(wire.wire(), Element::from_bool(value));
    }

    /// Assigns the bits of `value` to the bits of a binary wire, least significant first; bits of
    /// `value` past the wire's length are dropped.
    pub fn set_binary_unsigned(&mut self, wire: &BinaryWire, value: &Natural)
        ensures
            forall|k: int|
                0 <= k < wire.bits@.len() ==> #[trigger] final(self)@.contains_key(
                    wire.bits@[k].spec_wire().index,
                ),
            forall|w: u32|
                #[trigger] old(self)@.contains_key(w) ==> final(self)@.contains_key(w),
            forall|w: u32|
                old(self)@.contains_key(w) && (forall|k: int|
                    0 <= k < wire.bits@.len() ==> #[trigger] wire.bits@[k].spec_wire().index != w)
                    ==> #[trigger] final(self)@[w] == old(self)@[w],
    {
        let mut i: usize = 0;
        while i < wire.bits.len()
            invariant
                0 <= i <= wire.bits@.len(),
                forall|k: int|
                    0 <= k < i ==> #[trigger] self@.contains_key(wire.bits@[k].spec_wire().index),
                forall|w: u32| #[trigger] old(self)@.contains_key(w) ==> self@.contains_key(w),
                forall|w: u32|
                    old(self)@.contains_key(w) && (forall|k: int|
                        0 <= k < wire.bits@.len() ==> #[trigger] wire.bits@[k].spec_wire().index
                            != w) ==> #[trigger] self@[w] == old(self)@[w],
            decreases wire.bits@.len() - i,
        {
            let b = value.bit(i as u64);
            self.set_boolean(wire.bits[i], b);
            i += 1;
        }
    }

    /// Every assigned (wire, value) pair, in increasing wire order.
    pub fn assignments(&self) -> (r: Vec<(Wire, Element<F>)>)
        ensures
            forall|k: int|
                0 <= k < r@.len() ==> self@.contains_key(#[trigger] r@[k].0.index) && self@[r@[
                    k
                ].0.index] == r@[k].1@,
            forall|w: u32|
                #[trigger] self@.contains_key(w) ==> exists|k: int|
                    0 <= k < r@.len() && #[trigger] r@[k].0.index == w,
    {
        proof {
            use_type_invariant(self);
        }
        let mut out: Vec<(Wire, Element<F>)> = Vec::new();
        let mut i: u64 = 0;
        while i < self.bound
            invariant
                0 <= i <= self.bound,
                self.bound <= u32::MAX as u64 + 1,
                forall|w: u32| #[trigger] self@.contains_key(w) ==> (w as u64) < self.bound,
                forall|k: int|
                    0 <= k < out@.len() ==> self@.contains_key(#[trigger] out@[k].0.index)
                        && self@[out@[k].0.index] == out@[k].1@,
                forall|w: u32|
                    #[trigger] self@.contains_key(w) && (w as u64) < i ==> exists|k: int|
                        0 <= k < out@.len() && #[trigger] out@[k].0.index == w,
            decreases self.bound - i,
        {
            let wire = Wire { index: i as u32 };
            match self.try_get(wire) {
                Some(e) => {
                    let ghost before = out@;
                    out.push((wire, e.copy()));
                    proof {
                        assert forall|w: u32|
                            #[trigger] self@.contains_key(w) && (w as u64) < i + 1 implies exists|
                            k: int,
                        | 0 <= k < out@.len() && #[trigger] out@[k].0.index == w by {
                            if (w as u64) < i {
                                let k = choose|k: int|
                                    0 <= k < before.len() && #[trigger] before[k].0.index == w;
                                assert(out@[k] == before[k]);
                            } else {
                                assert(out@[out@.len() - 1].0.index == w);
                            }
                        }
                    }
                },
                None => {},
            }
            i += 1;
        }
        out
    }
}

} // verus!
