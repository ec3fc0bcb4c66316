//! Interfaces of the primitives that gadgets are built from.

use vstd::prelude::*;

use crate::expression::Expression;
use crate::field::Field;
use crate::gadget_builder::{valid_assignment, GadgetBuilder};

verus! {

/// The values of several expressions under an assignment.
pub open spec fn expression_values<F: Field>(es: Seq<Expression<F>>, vals: Map<u32, nat>) -> Seq<
    nat,
> {
    es.map_values(|e: Expression<F>| e.eval(vals))
}

/// A symmetric-key block cipher.
///
/// The ciphers of this library state their wire bound and their encryption function; an
/// implementation that states neither is given no specification of them.
pub trait BlockCipher<F: Field> {
    /// An upper bound on the wires that one encryption or decryption creates.
    closed spec fn cipher_wires(&self) -> nat {
        arbitrary()
    }

    /// The encryption of `input` under `key`.
    closed spec fn encrypt_value(&self, key: nat, input: nat) -> nat {
        arbitrary()
    }

    fn encrypt(&self, builder: &mut GadgetBuilder<F>, key: &Expression<F>, input: &Expression<F>) -> (r:
        Expression<F>)
        requires
            old(builder).has_room(self.cipher_wires()),
        ensures
            final(builder).extends(*old(builder)),
            final(builder).next_index() <= old(builder).next_index() + self.cipher_wires(),
            forall|vals: Map<u32, nat>|
                #![trigger final(builder).satisfied(vals)]
                final(builder).satisfied(vals) && valid_assignment(vals, F::modulus()) ==> r.eval(vals)
                    == self.encrypt_value(key.eval(vals), input.eval(vals)),
    ;

    /// A plaintext that encrypts to `output` under `key`.
    fn decrypt(&self, builder: &mut GadgetBuilder<F>, key: &Expression<F>, output: &Expression<F>) -> (r:
        Expression<F>)
        requires
            old(builder).has_room(self.cipher_wires()),
        ensures
            final(builder).extends(*old(builder)),
            final(builder).next_index() <= old(builder).next_index() + self.cipher_wires(),
            forall|vals: Map<u32, nat>|
                #![trigger final(builder).satisfied(vals)]
                final(builder).satisfied(vals) && valid_assignment(vals, F::modulus())
                    ==> self.encrypt_value(key.eval(vals), r.eval(vals)) == output.eval(vals),
    ;
}

/// A function which compresses two field elements into one, and is intended to be one-way.
///
/// The compression functions of this library state their wire bound and their value; an
/// implementation that states neither is given no specification of them.
pub trait CompressionFunction<F: Field> {
    /// An upper bound on the wires that one compression creates.
    closed spec fn compress_wires(&self) -> nat {
        arbitrary()
    }

    /// The compression of `x` and `y`.
    closed spec fn compress_value(&self, x: nat, y: nat) -> nat {
        arbitrary()
    }

    fn compress(&self, builder: &mut GadgetBuilder<F>, x: &Expression<F>, y: &Expression<F>) -> (r:
        Expression<F>)
        requires
            old(builder).has_room(self.compress_wires()),
        ensures
            final(builder).extends(*old(builder)),
            final(builder).next_index() <= old(builder).next_index() + self.compress_wires(),
            forall|vals: Map<u32, nat>|
                #![trigger final(builder).satisfied(vals)]
                final(builder).satisfied(vals) && valid_assignment(vals, F::modulus()) ==> r.eval(vals)
                    == self.compress_value(x.eval(vals), y.eval(vals)),
    ;
}

/// A permutation of single field elements.
pub trait Permutation<F: Field> {
    /// An upper bound on the wires that one application, or one inversion, creates.
    spec fn permutation_wires(&self) -> nat;

    /// What the constraints of one application tell of an input `x` and its image `y`.
    spec fn maps_to(&self, x: nat, y: nat) -> bool;

    fn permute(&self, builder: &mut GadgetBuilder<F>, x: &Expression<F>) -> (r: Expression<F>)
        requires
            old(builder).has_room(self.permutation_wires()),
        ensures
            final(builder).extends(*old(builder)),
            final(builder).next_index() <= old(builder).next_index() + self.permutation_wires(),
            forall|vals: Map<u32, nat>|
                #![trigger final(builder).satisfied(vals)]
                final(builder).satisfied(vals) && valid_assignment(vals, F::modulus())
                    ==> self.maps_to(x.eval(vals), r.eval(vals)),
    ;

    /// A preimage of `x`.
    fn inverse(&self, builder: &mut GadgetBuilder<F>, x: &Expression<F>) -> (r: Expression<F>)
        requires
            old(builder).has_room(self.permutation_wires()),
        ensures
            final(builder).extends(*old(builder)),
            final(builder).next_index() <= old(builder).next_index() + self.permutation_wires(),
            forall|vals: Map<u32, nat>|
                #![trigger final(builder).satisfied(vals)]
                final(builder).satisfied(vals) && valid_assignment(vals, F::modulus())
                    ==> self.maps_to(r.eval(vals), x.eval(vals)),
    ;
}

/// A permutation of multiple field elements.
pub trait MultiPermutation<F: Field> {
    /// An upper bound on the wires that one application, or one inversion, creates.
    spec fn multi_permutation_wires(&self) -> nat;

    /// The number of field elements permuted.
    spec fn spec_width(&self) -> nat;

    /// The number of field elements permuted.
    fn width(&self) -> (r: usize)
        ensures
            r == self.spec_width(),
    ;

    fn permute(&self, builder: &mut GadgetBuilder<F>, inputs: &[Expression<F>]) -> (r: Vec<
        Expression<F>,
    >)
        requires
            inputs@.len() == self.spec_width(),
            old(builder).has_room(self.multi_permutation_wires()),
        ensures
            r@.len() == self.spec_width(),
            final(builder).extends(*old(builder)),
            final(builder).next_index() <= old(builder).next_index()
                + self.multi_permutation_wires(),
    ;

    fn inverse(&self, builder: &mut GadgetBuilder<F>, outputs: &[Expression<F>]) -> (r: Vec<
        Expression<F>,
    >)
        requires
            outputs@.len() == self.spec_width(),
            old(builder).has_room(self.multi_permutation_wires()),
        ensures
            r@.len() == self.spec_width(),
            final(builder).extends(*old(builder)),
            final(builder).next_index() <= old(builder).next_index()
                + self.multi_permutation_wires(),
    ;
}

/// A function which hashes a sequence of field elements, outputting a single field element.
pub trait HashFunction<F: Field> {
    /// An upper bound on the wires that hashing `blocks` blocks creates.
    spec fn hash_wires(&self, blocks: nat) -> nat;

    /// Whether this function can hash `blocks` blocks.
    spec fn accepts_blocks(&self, blocks: nat) -> bool;

    /// The hash of a sequence of blocks.
    spec fn hash_value(&self, blocks: Seq<nat>) -> nat;

    fn hash(&self, builder: &mut GadgetBuilder<F>, blocks: &[Expression<F>]) -> (r: Expression<F>)
        requires
            self.accepts_blocks(blocks@.len() as nat),
            old(builder).has_room(self.hash_wires(blocks@.len() as nat)),
        ensures
            final(builder).extends(*old(builder)),
            final(builder).next_index() <= old(builder).next_index() + self.hash_wires(
                blocks@.len() as nat,
            ),
            forall|vals: Map<u32, nat>|
                #![trigger final(builder).satisfied(vals)]
                final(builder).satisfied(vals) && valid_assignment(vals, F::modulus()) ==> r.eval(vals)
                    == self.hash_value(expression_values(blocks@, vals)),
    ;
}

} // verus!
