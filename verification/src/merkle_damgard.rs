//! The Merkle–Damgård construction of a hash function from a compression function.

use vstd::prelude::*;

use crate::expression::Expression;
use crate::field::{Element, Field};
use crate::gadget_builder::{lemma_extends_trans, lemma_satisfied_prefix, valid_assignment, GadgetBuilder};
use crate::gadget_traits::{expression_values, CompressionFunction, HashFunction};

verus! {

/// The chaining value after compressing each block, in order, into `iv`.
pub open spec fn merkle_damgard_chain<F: Field, CF: CompressionFunction<F>>(
    compress: CF,
    iv: nat,
    blocks: Seq<nat>,
) -> nat
    decreases blocks.len(),
{
    if blocks.len() == 0 {
        iv
    } else {
        compress.compress_value(merkle_damgard_chain(compress, iv, blocks.drop_last()), blocks.last())
    }
}

/// The Merkle–Damgård hash: the chaining value, compressed with the number of blocks.
pub open spec fn merkle_damgard_value<F: Field, CF: CompressionFunction<F>>(
    compress: CF,
    iv: nat,
    blocks: Seq<nat>,
) -> nat {
    compress.compress_value(merkle_damgard_chain(compress, iv, blocks), blocks.len())
}

/// A hash function based on the Merkle–Damgård construction.
pub struct MerkleDamgard<F: Field, CF: CompressionFunction<F>> {
    initial_value: Element<F>,
    compress: CF,
}

impl<F: Field, CF: CompressionFunction<F>> MerkleDamgard<F, CF> {
    /// The initial value.
    pub closed spec fn spec_initial_value(&self) -> nat {
        self.initial_value@
    }

    /// The compression function.
    pub closed spec fn spec_compress(&self) -> CF {
        self.compress
    }

    /// Creates a Merkle–Damgård hash function from the given initial value and one-way compression
    /// function.
    pub fn new(initial_value: Element<F>, compress: CF) -> (r: Self)
        ensures
            r.spec_initial_value() == initial_value@,
            r.spec_compress() == compress,
    {
        MerkleDamgard { initial_value, compress }
    }

    /// Creates a Merkle–Damgård hash function from the given one-way compression function. Uses
    /// ChaCha20 (seeded with 0) as a source of randomness for the initial value; `None` when drawing
    /// it fails (see `Element::random`).
    pub fn new_default_initial_value(compress: CF) -> (r: Option<Self>)
        ensures
            r matches Some(h) ==> h.spec_compress() == compress && in_field(
                h.spec_initial_value(),
                F::modulus(),
            ),
    {
        let mut rng = crate::random::chacha20_seeded(0);
        match Element::random(&mut rng) {
            Some(initial_value) => Some(Self::new(initial_value, compress)),
            None => None,
        }
    }
}

impl<F: Field, CF: CompressionFunction<F>> HashFunction<F> for MerkleDamgard<F, CF> {
    open spec fn hash_wires(&self, blocks: nat) -> nat {
        (blocks + 1) * self.spec_compress().compress_wires()
    }

    open spec fn accepts_blocks(&self, blocks: nat) -> bool {
        blocks < F::modulus()
    }

    open spec fn hash_value(&self, blocks: Seq<nat>) -> nat {
        merkle_damgard_value(self.spec_compress(), self.spec_initial_value(), blocks)
    }

    fn hash(&self, builder: &mut GadgetBuilder<F>, blocks: &[Expression<F>]) -> (r: Expression<F>) {
        builder.merkle_damgard(&self.initial_value, blocks, &self.compress)
    }
}

/// `v` is an element of `F_p`.
pub open spec fn in_field(v: nat, p: nat) -> bool {
    v < p
}

impl<F: Field> GadgetBuilder<F> {
    /// Creates a Merkle–Damgård hash function from the given one-way compression function. The
    /// number of blocks, which pads the message, must be a field element.
    pub fn merkle_damgard<CF: CompressionFunction<F>>(
        &mut self,
        initial_value: &Element<F>,
        blocks: &[Expression<F>],
        compress: &CF,
    ) -> (r: Expression<F>)
        requires
            blocks@.len() < F::modulus(),
            old(self).has_room((blocks@.len() + 1) * compress.compress_wires()),
        ensures
            final(self).extends(*old(self)),
            final(self).next_index() <= old(self).next_index() + (blocks@.len() + 1)
                * compress.compress_wires(),
            forall|vals: Map<u32, nat>|
                #![trigger final(self).satisfied(vals)]
                final(self).satisfied(vals) && valid_assignment(vals, F::modulus()) ==> r.eval(vals)
                    == merkle_damgard_value(
                    *compress,
                    initial_value@,
                    expression_values(blocks@, vals),
                ),
    {
        let ghost start = *self;
        let ghost w = compress.compress_wires();
        proof {
            use_type_invariant(initial_value);
        }
        let mut current = Expression::from_element(initial_value);
        let mut i: usize = 0;
        proof {
            crate::field_arithmetic::lemma_extends_refl(*self);
            assert forall|vals: Map<u32, nat>| #![trigger self.satisfied(vals)]
                self.satisfied(vals) && valid_assignment(vals, F::modulus()) implies current.eval(vals)
                == merkle_damgard_chain(
                *compress,
                initial_value@,
                expression_values(blocks@.take(0), vals),
            ) by {
                crate::field_arithmetic::lemma_element_eval::<F>(current@, initial_value@, vals);
                assert(expression_values(blocks@.take(0), vals) =~= Seq::<nat>::empty());
            }
        }
        while i < blocks.len()
            invariant
                i <= blocks@.len(),
                w == compress.compress_wires(),
                self.extends(start),
                self.next_index() <= start.next_index() + i * w,
                start.next_index() + (blocks@.len() + 1) * w <= u32::MAX,
                forall|vals: Map<u32, nat>|
                    #![trigger self.satisfied(vals)]
                    self.satisfied(vals) && valid_assignment(vals, F::modulus()) ==> current.eval(vals)
                        == merkle_damgard_chain(
                        *compress,
                        initial_value@,
                        expression_values(blocks@.take(i as int), vals),
                    ),
            decreases blocks@.len() - i,
        {
            let ghost before = *self;
            proof {
                assert((i + 1) * w == i * w + w) by (nonlinear_arith);
                assert((i + 1) * w <= (blocks@.len() + 1) * w) by (nonlinear_arith)
                    requires
                        i + 1 <= blocks@.len() + 1,
                ;
            }
            let next = compress.compress(self, &current, &blocks[i]);
            proof {
                lemma_extends_trans(*self, before, start);
                assert forall|vals: Map<u32, nat>| #![trigger self.satisfied(vals)]
                    self.satisfied(vals) && valid_assignment(vals, F::modulus()) implies next.eval(vals)
                    == merkle_damgard_chain(
                    *compress,
                    initial_value@,
                    expression_values(blocks@.take(i + 1), vals),
                ) by {
                    lemma_satisfied_prefix(*self, before, vals);
                    let taken = expression_values(blocks@.take(i + 1), vals);
                    assert(taken.drop_last() =~= expression_values(blocks@.take(i as int), vals));
                    assert(taken.last() == blocks@[i as int].eval(vals));
                }
            }
            current = next;
            i += 1;
        }
        // Length padding
        let length = Expression::from_u128(blocks.len() as u128);
        let ghost before = *self;
        proof {
            assert((blocks@.len() + 1) * w == blocks@.len() * w + w) by (nonlinear_arith);
        }
        let r = compress.compress(self, &current, &length);
        proof {
            lemma_extends_trans(*self, before, start);
            assert(blocks@.take(blocks@.len() as int) =~= blocks@);
            assert forall|vals: Map<u32, nat>| #![trigger self.satisfied(vals)]
                self.satisfied(vals) && valid_assignment(vals, F::modulus()) implies r.eval(vals)
                == merkle_damgard_value(*compress, initial_value@, expression_values(blocks@, vals)) by {
                lemma_satisfied_prefix(*self, before, vals);
                crate::field_arithmetic::lemma_element_eval::<F>(
                    length@,
                    blocks@.len() as nat,
                    vals,
                );
            }
        }
        r
    }

    /// Creates a Merkle–Damgård hash function from the given one-way compression function. Uses
    /// ChaCha20 (seeded with 0) as a source of randomness for the initial value; `None` when drawing
    /// it fails (see `Element::random`).
    pub fn merkle_damgard_chacha20<CF: CompressionFunction<F>>(
        &mut self,
        blocks: &[Expression<F>],
        compress: &CF,
    ) -> (r: Option<Expression<F>>)
        requires
            blocks@.len() < F::modulus(),
            old(self).has_room((blocks@.len() + 1) * compress.compress_wires()),
        ensures
            final(self).extends(*old(self)),
            r is None ==> *final(self) == *old(self),
            r matches Some(out) ==> exists|iv: nat|
                #![trigger in_field(iv, F::modulus())]
                in_field(iv, F::modulus()) && forall|vals: Map<u32, nat>|
                    #![trigger final(self).satisfied(vals)]
                    final(self).satisfied(vals) && valid_assignment(vals, F::modulus()) ==> out.eval(
                        vals,
                    ) == merkle_damgard_value(*compress, iv, expression_values(blocks@, vals)),
    {
        proof {
            crate::field_arithmetic::lemma_extends_refl(*self);
        }
        let mut rng = crate::random::chacha20_seeded(0);
        match Element::random(&mut rng) {
            Some(initial_value) => {
                let out = self.merkle_damgard(&initial_value, blocks, compress);
                proof {
                    assert(in_field(initial_value@, F::modulus()));
                }
                Some(out)
            },
            None => None,
        }
    }
}

} // verus!
