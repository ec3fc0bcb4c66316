//! Wires, and wrappers that designate wires as boolean or binary.

use vstd::prelude::*;

verus! {

/// The index of the special wire whose value is always 1.
pub const ONE_WIRE_INDEX: u32 = 0;

/// A wire represents a witness element.
#[derive(Clone, Copy, Debug, PartialEq, Eq, Structural, Hash, PartialOrd, Ord)]
pub struct Wire {
    pub index: u32,
}

impl Wire {
    /// The special wire whose value is always 1, used to encode constants.
    pub fn one() -> (r: Wire)
        ensures
            r.index == ONE_WIRE_INDEX,
    {
        Wire { index: ONE_WIRE_INDEX }
    }

    /// Whether this is the special constant-1 wire.
    pub fn is_one(&self) -> (r: bool)
        ensures
            r == (self.index == ONE_WIRE_INDEX),
    {
        self.index == ONE_WIRE_INDEX
    }
}

/// A `Wire` whose value is constrained to be binary.
#[derive(Clone, Copy, Debug, PartialEq, Eq, Structural, Hash)]
pub struct BooleanWire {
    wire: Wire,
}

impl BooleanWire {
    /// Construct a BooleanWire from an arbitrary wire. This is only safe if you separately
    /// constrain the wire to equal 0 or 1.
    ///
    /// Users should not normally call this method directly; use a method like
    /// `GadgetBuilder::boolean_wire()` instead.
    pub fn new_unsafe(wire: Wire) -> (r: Self)
        ensures
            r.spec_wire() == wire,
    {
        BooleanWire { wire }
    }

    /// The underlying wire.
    pub closed spec fn spec_wire(&self) -> Wire {
        self.wire
    }

    pub fn wire(&self) -> (r: Wire)
        ensures
            r == self.spec_wire(),
    {
        self.wire
    }
}

/// A "binary wire" which is comprised of several bits, each one being a boolean wire.
#[derive(Clone, Debug)]
pub struct BinaryWire {
    /// The list of bits, ordered from least significant to most significant.
    pub bits: Vec<BooleanWire>,
}

impl BinaryWire {
    /// The number of bits.
    pub fn len(&self) -> (r: usize)
        ensures
            r == self.bits@.len(),
    {
        self.bits.len()
    }
}

} // verus!
