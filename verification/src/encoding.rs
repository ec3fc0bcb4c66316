//! The data of a constraint system and of a witness as the zkInterface format carries them:
//! variable ids, and field elements as fixed-width little-endian bytes.

use vstd::prelude::*;

use std::collections::HashSet;

use vstd::arithmetic::power2::pow2;

use crate::constraint::Constraint;
use crate::expression::Expression;
use crate::field::{Element, Field};
use crate::gadget::Gadget;
use crate::natural::le_bytes_value;
use crate::splitting::field_bits;
use crate::wire::{Wire, ONE_WIRE_INDEX};
use crate::wire_values::WireValues;

verus! {

/// The bytes that encode any element of `F`: the field's bit count, rounded up to bytes.
pub open spec fn spec_bytes_per_element<F: Field>() -> nat {
    (field_bits::<F>() + 7) / 8
}

/// The `k`th of the fixed-width encodings in `bytes`.
pub open spec fn encoded_chunk(bytes: Seq<u8>, width: nat, k: int) -> Seq<u8> {
    bytes.subrange(k * width, (k + 1) * width)
}

/// The indices of some wires.
pub open spec fn wire_indices(ws: Seq<Wire>) -> Seq<u32> {
    ws.map_values(|w: Wire| w.index)
}

/// The indices of the wires of a constraint's three expressions, in order.
pub open spec fn constraint_wire_indices<F: Field>(c: Constraint<F>) -> Seq<u32> {
    (c.a@ + c.b@ + c.c@).map_values(|t: (u32, nat)| t.0)
}

/// One of the first `n` constraints mentions the wire with index `w`.
pub open spec fn mentioned_in<F: Field>(cs: Seq<Constraint<F>>, n: int, w: u32) -> bool {
    exists|i: int| 0 <= i < n && #[trigger] constraint_wire_indices(cs[i]).contains(w)
}

/// Get the number of bytes required to represent any element of the given field.
pub fn bytes_per_element<F: Field>() -> (r: usize)
    ensures
        r == spec_bytes_per_element::<F>(),
        r >= 1,
{
    let bits = Element::<F>::max_bits();
    proof {
        crate::comparisons::lemma_field_bits_positive::<F>();
    }
    bits / 8 + if bits % 8 == 0 {
        0
    } else {
        1
    }
}

/// A last byte that is not zero makes the value at least `2^(8 (len - 1))`.
proof fn lemma_top_byte(b: Seq<u8>)
    requires
        b.len() > 0,
        b.last() != 0,
    ensures
        le_bytes_value(b) >= pow2((8 * (b.len() - 1)) as nat),
{
    let e = pow2((8 * (b.len() - 1)) as nat);
    let t = b.last() as nat;
    assert(t * e >= e) by (nonlinear_arith)
        requires
            t >= 1,
    ;
}

/// The little-endian bytes of an element, padded with zeros to the field's byte width.
pub fn element_to_bytes_le<F: Field>(n: &Element<F>) -> (r: Vec<u8>)
    ensures
        r@.len() == spec_bytes_per_element::<F>(),
        le_bytes_value(r@) == n@,
{
    proof {
        use_type_invariant(n);
    }
    let mut bytes = n.to_biguint().to_bytes_le();
    let width = bytes_per_element::<F>();
    proof {
        let fb = field_bits::<F>();
        let p = F::modulus();
        crate::field_arithmetic::lemma_below_bit_length((p - 1) as nat);
        if bytes@.len() > 1 {
            lemma_top_byte(bytes@);
            let e = (8 * (bytes@.len() - 1)) as nat;
            if e >= fb {
                if e > fb {
                    vstd::arithmetic::power2::lemma_pow2_strictly_increases(fb, e);
                }
                assert(false);
            }
        }
    }
    while bytes.len() < width
        invariant
            width == spec_bytes_per_element::<F>(),
            bytes@.len() <= width,
            le_bytes_value(bytes@) == n@,
        decreases width - bytes@.len(),
    {
        let ghost before = bytes@;
        bytes.push(0);
        proof {
            assert(bytes@.drop_last() =~= before);
            let e = pow2((8 * (bytes@.len() - 1)) as nat);
            assert((0 as nat) * e == 0);
            assert(le_bytes_value(bytes@) == le_bytes_value(before) + (bytes@.last() as nat) * e);
        }
    }
    bytes
}

/// The wires of a constraint's three expressions, in order.
fn constraint_wires<F: Field>(c: &Constraint<F>) -> (r: Vec<Wire>)
    ensures
        wire_indices(r@) == constraint_wire_indices(*c),
{
    let mut r = c.a.dependencies();
    let mut b = c.b.dependencies();
    let mut d = c.c.dependencies();
    let ghost (ra, rb, rc) = (r@, b@, d@);
    r.append(&mut b);
    r.append(&mut d);
    proof {
        assert(wire_indices(ra) =~= c.a@.map_values(|t: (u32, nat)| t.0));
        assert(wire_indices(rb) =~= c.b@.map_values(|t: (u32, nat)| t.0));
        assert(wire_indices(rc) =~= c.c@.map_values(|t: (u32, nat)| t.0));
        assert(wire_indices(r@) =~= constraint_wire_indices(*c));
    }
    r
}

/// The wires that the gadget's constraints mention, each once, in the order they first appear.
pub fn gadget_wires<F: Field>(gadget: &Gadget<F>) -> (r: Vec<Wire>)
    ensures
        forall|i: int, j: int| 0 <= i < j < r@.len() ==> r@[i] != r@[j],
        forall|w: u32|
            mentioned_in(gadget.constraints@, gadget.constraints@.len() as int, w)
                <==> #[trigger] wire_indices(r@).contains(w),
{
    broadcast use vstd::std_specs::hash::group_hash_axioms;

    let ghost cs = gadget.constraints@;
    let mut seen: HashSet<u32> = HashSet::new();
    let mut wires: Vec<Wire> = Vec::new();
    let mut i: usize = 0;
    while i < gadget.constraints.len()
        invariant
            cs == gadget.constraints@,
            i <= cs.len(),
            forall|a: int, b: int| 0 <= a < b < wires@.len() ==> wires@[a] != wires@[b],
            forall|w: u32| #[trigger] seen@.contains(w) <==> wire_indices(wires@).contains(w),
            forall|w: u32| #[trigger] seen@.contains(w) <==> mentioned_in(cs, i as int, w),
        decreases cs.len() - i,
    {
        let list = constraint_wires(&gadget.constraints[i]);
        let mut k: usize = 0;
        while k < list.len()
            invariant
                cs == gadget.constraints@,
                i < cs.len(),
                wire_indices(list@) == constraint_wire_indices(cs[i as int]),
                k <= list@.len(),
                forall|a: int, b: int| 0 <= a < b < wires@.len() ==> wires@[a] != wires@[b],
                forall|w: u32| #[trigger] seen@.contains(w) <==> wire_indices(wires@).contains(w),
                forall|w: u32|
                    #[trigger] seen@.contains(w) <==> (mentioned_in(cs, i as int, w)
                        || wire_indices(list@).take(k as int).contains(w)),
            decreases list@.len() - k,
        {
            let wire = list[k];
            let ghost before = wires@;
            let ghost before_seen = seen@;
            let fresh = seen.insert(wire.index);
            if fresh {
                wires.push(wire);
            }
            proof {
                let li = wire_indices(list@);
                assert(li[k as int] == wire.index);
                assert(li.take(k + 1) =~= li.take(k as int).push(wire.index));
                let lk1 = li.take(k + 1);
                let lk = li.take(k as int);
                assert forall|x: u32| lk1.contains(x) <==> (lk.contains(x) || x == wire.index) by {
                    if lk1.contains(x) {
                        let t = choose|t: int| 0 <= t < lk1.len() && #[trigger] lk1[t] == x;
                        if t < k {
                            assert(lk[t] == x);
                        }
                    }
                    if lk.contains(x) {
                        let t = choose|t: int| 0 <= t < lk.len() && #[trigger] lk[t] == x;
                        assert(lk1[t] == x);
                    }
                    if x == wire.index {
                        assert(lk1[k as int] == x);
                    }
                }
                assert forall|x: u32| #[trigger] seen@.contains(x) <==> (before_seen.contains(x) || x == wire.index) by {}
                if fresh {
                    assert(wire_indices(wires@) =~= wire_indices(before).push(wire.index));
                    let wb = wire_indices(before);
                    let wn = wire_indices(wires@);
                    assert forall|x: u32| wn.contains(x) <==> (wb.contains(x) || x == wire.index) by {
                        if wn.contains(x) {
                            let t = choose|t: int| 0 <= t < wn.len() && #[trigger] wn[t] == x;
                            if t < wb.len() {
                                assert(wb[t] == x);
                            }
                        }
                        if wb.contains(x) {
                            let t = choose|t: int| 0 <= t < wb.len() && #[trigger] wb[t] == x;
                            assert(wn[t] == x);
                        }
                        if x == wire.index {
                            assert(wn[wb.len() as int] == x);
                        }
                    }
                    assert forall|a: int, b: int| 0 <= a < b < wires@.len() implies wires@[a] != wires@[b] by {
                        if b == before.len() {
                            assert(wire_indices(before)[a] == before[a].index);
                            assert(!before_seen.contains(wire.index));
                        }
                    }
                } else {
                    assert(wires@ == before);
                }
            }
            k += 1;
        }
        proof {
            assert(wire_indices(list@).take(list@.len() as int) =~= wire_indices(list@));
            assert forall|w: u32| #[trigger] seen@.contains(w) <==> mentioned_in(cs, i + 1, w) by {
                if mentioned_in(cs, i + 1, w) {
                    let c = choose|c: int| 0 <= c < i + 1 && #[trigger] constraint_wire_indices(cs[c]).contains(w);
                    if c < i {
                        assert(mentioned_in(cs, i as int, w));
                    }
                }
                if mentioned_in(cs, i as int, w) {
                    let c = choose|c: int| 0 <= c < i && #[trigger] constraint_wire_indices(cs[c]).contains(w);
                    assert(0 <= c < i + 1 && constraint_wire_indices(cs[c]).contains(w));
                }
                if wire_indices(list@).contains(w) {
                    assert(constraint_wire_indices(cs[i as int]).contains(w));
                }
            }
        }
        i += 1;
    }
    proof {
        assert forall|w: u32|
            mentioned_in(gadget.constraints@, gadget.constraints@.len() as int, w)
                <==> #[trigger] wire_indices(wires@).contains(w) by {
            assert(seen@.contains(w) <==> wire_indices(wires@).contains(w));
        }
    }
    wires
}

/// The ids of an expression's wires, and its coefficients in fixed-width little-endian bytes.
pub fn expression_entries<F: Field>(exp: &Expression<F>) -> (r: (Vec<u64>, Vec<u8>))
    ensures
        r.0@.len() == exp@.len(),
        r.1@.len() == exp@.len() * spec_bytes_per_element::<F>(),
        forall|k: int| 0 <= k < exp@.len() ==> #[trigger] r.0@[k] == exp@[k].0,
        forall|k: int|
            0 <= k < exp@.len() ==> le_bytes_value(
                #[trigger] encoded_chunk(r.1@, spec_bytes_per_element::<F>(), k),
            ) == exp@[k].1,
{
    let width = bytes_per_element::<F>();
    let ghost w = width as nat;
    let coefficients = exp.coefficients();
    let mut ids: Vec<u64> = Vec::new();
    let mut values: Vec<u8> = Vec::new();
    assert(0 * w == 0);
    let mut i: usize = 0;
    while i < coefficients.len()
        invariant
            w == spec_bytes_per_element::<F>(),
            i <= coefficients@.len(),
            coefficients@.len() == exp@.len(),
            forall|k: int| 0 <= k < exp@.len() ==> (#[trigger] coefficients@[k]).0.index == exp@[k].0 && coefficients@[k].1@ == exp@[k].1,
            ids@.len() == i,
            values@.len() == i * w,
            forall|k: int| 0 <= k < i ==> #[trigger] ids@[k] == exp@[k].0,
            forall|k: int| 0 <= k < i ==> le_bytes_value(#[trigger] encoded_chunk(values@, w, k)) == exp@[k].1,
        decreases coefficients@.len() - i,
    {
        let (wire, coefficient) = &coefficients[i];
        ids.push(wire.index as u64);
        let mut bytes = element_to_bytes_le(coefficient);
        let ghost before = values@;
        let ghost chunk = bytes@;
        values.append(&mut bytes);
        proof {
            assert(values@ == before + chunk);
            assert((i + 1) * w == i * w + w) by (nonlinear_arith);
            assert forall|k: int| 0 <= k < i + 1 implies le_bytes_value(#[trigger] encoded_chunk(values@, w, k))
                == exp@[k].1 by {
                assert(k * w + w == (k + 1) * w) by (nonlinear_arith);
                if k < i {
                    assert((k + 1) * w <= i * w) by (nonlinear_arith)
                        requires
                            k + 1 <= i,
                    ;
                    assert(encoded_chunk(values@, w, k) =~= encoded_chunk(before, w, k));
                } else {
                    assert(encoded_chunk(values@, w, k) =~= chunk);
                }
            }
        }
        i += 1;
    }
    (ids, values)
}

/// The ids of the witness's assigned wires, other than the constant-1 wire, that are public (or,
/// with `public` false, private), with their values in fixed-width little-endian bytes, in
/// increasing wire order.
pub fn witness_entries<F: Field>(witness: &WireValues<F>, public_wires: &[Wire], public: bool) -> (r: (
    Vec<u64>,
    Vec<u8>,
))
    ensures
        r.1@.len() == r.0@.len() * spec_bytes_per_element::<F>(),
        forall|k: int|
            0 <= k < r.0@.len() ==> {
                let w = #[trigger] r.0@[k];
                &&& w <= u32::MAX
                &&& w != ONE_WIRE_INDEX
                &&& witness@.contains_key(w as u32)
                &&& public_wires@.contains(Wire { index: w as u32 }) == public
                &&& le_bytes_value(encoded_chunk(r.1@, spec_bytes_per_element::<F>(), k)) == witness@[w as u32]
            },
        forall|w: u32|
            witness@.contains_key(w) && w != ONE_WIRE_INDEX && public_wires@.contains(Wire { index: w }) == public
                ==> exists|k: int| 0 <= k < r.0@.len() && #[trigger] r.0@[k] == w,
{
    let width = bytes_per_element::<F>();
    let ghost wd = width as nat;
    let assignments = witness.assignments();
    let mut ids: Vec<u64> = Vec::new();
    let mut values: Vec<u8> = Vec::new();
    assert(0 * wd == 0);
    let mut i: usize = 0;
    while i < assignments.len()
        invariant
            wd == spec_bytes_per_element::<F>(),
            i <= assignments@.len(),
            forall|k: int|
                0 <= k < assignments@.len() ==> witness@.contains_key(#[trigger] assignments@[k].0.index)
                    && witness@[assignments@[k].0.index] == assignments@[k].1@,
            forall|w: u32|
                #[trigger] witness@.contains_key(w) ==> exists|k: int|
                    0 <= k < assignments@.len() && #[trigger] assignments@[k].0.index == w,
            values@.len() == ids@.len() * wd,
            forall|k: int|
                0 <= k < ids@.len() ==> {
                    let w = #[trigger] ids@[k];
                    &&& w <= u32::MAX
                    &&& w != ONE_WIRE_INDEX
                    &&& witness@.contains_key(w as u32)
                    &&& public_wires@.contains(Wire { index: w as u32 }) == public
                    &&& le_bytes_value(encoded_chunk(values@, wd, k)) == witness@[w as u32]
                },
            forall|j: int|
                #![trigger assignments@[j]]
                0 <= j < i ==> {
                    let w = assignments@[j].0.index;
                    w != ONE_WIRE_INDEX && public_wires@.contains(Wire { index: w }) == public
                        ==> exists|k: int| 0 <= k < ids@.len() && #[trigger] ids@[k] == w
                },
        decreases assignments@.len() - i,
    {
        let (wire, value) = &assignments[i];
        let mut listed = false;
        let mut j: usize = 0;
        while j < public_wires.len()
            invariant
                j <= public_wires@.len(),
                listed == exists|t: int| 0 <= t < j && public_wires@[t] == *wire,
            decreases public_wires@.len() - j,
        {
            if public_wires[j].index == wire.index {
                listed = true;
            }
            j += 1;
        }
        assert(listed == public_wires@.contains(*wire));
        if wire.index != ONE_WIRE_INDEX && listed == public {
            let ghost before_ids = ids@;
            let ghost before = values@;
            let n = ids.len();
            ids.push(wire.index as u64);
            let mut bytes = element_to_bytes_le(value);
            let ghost chunk = bytes@;
            values.append(&mut bytes);
            proof {
                assert(values@ == before + chunk);
                assert((n + 1) * wd == n * wd + wd) by (nonlinear_arith);
                assert forall|k: int| 0 <= k < ids@.len() implies {
                    let w = #[trigger] ids@[k];
                    &&& w <= u32::MAX
                    &&& w != ONE_WIRE_INDEX
                    &&& witness@.contains_key(w as u32)
                    &&& public_wires@.contains(Wire { index: w as u32 }) == public
                    &&& le_bytes_value(encoded_chunk(values@, wd, k)) == witness@[w as u32]
                } by {
                    assert(k * wd + wd == (k + 1) * wd) by (nonlinear_arith);
                    if k < n {
                        assert((k + 1) * wd <= n * wd) by (nonlinear_arith)
                            requires
                                k + 1 <= n,
                        ;
                        assert(ids@[k] == before_ids[k]);
                        assert(encoded_chunk(values@, wd, k) =~= encoded_chunk(before, wd, k));
                    } else {
                        assert(encoded_chunk(values@, wd, k) =~= chunk);
                    }
                }
                assert forall|j: int| #![trigger assignments@[j]] 0 <= j < i + 1 implies {
                    let w = assignments@[j].0.index;
                    w != ONE_WIRE_INDEX && public_wires@.contains(Wire { index: w }) == public
                        ==> exists|k: int| 0 <= k < ids@.len() && #[trigger] ids@[k] == w
                } by {
                    if j < i {
                        let w = assignments@[j].0.index;
                        if w != ONE_WIRE_INDEX && public_wires@.contains(Wire { index: w }) == public {
                            let k = choose|k: int| 0 <= k < before_ids.len() && #[trigger] before_ids[k] == w;
                            assert(ids@[k] == w);
                        }
                    } else {
                        assert(ids@[n as int] == wire.index);
                    }
                }
            }
        }
        i += 1;
    }
    proof {
        assert forall|w: u32|
            witness@.contains_key(w) && w != ONE_WIRE_INDEX && public_wires@.contains(Wire { index: w }) == public
            implies exists|k: int| 0 <= k < ids@.len() && #[trigger] ids@[k] == w by {
            let j = choose|j: int| 0 <= j < assignments@.len() && #[trigger] assignments@[j].0.index == w;
            assert(assignments@[j].0 == Wire { index: w });
        }
    }
    (ids, values)
}

} // verus!
