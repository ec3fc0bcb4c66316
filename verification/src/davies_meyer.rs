//! The Davies-Meyer construction of a compression function from a block cipher.

use std::marker::PhantomData;

use vstd::prelude::*;

use crate::expression::Expression;
use crate::field::{field_add, Field};
use crate::gadget_builder::{valid_assignment, GadgetBuilder};
use crate::gadget_traits::{BlockCipher, CompressionFunction};

verus! {

/// The additive variant of Davies-Meyer, which creates a one-way compression function from a block
/// cipher.
pub struct DaviesMeyer<F: Field, BC: BlockCipher<F>> {
    cipher: BC,
    phantom: PhantomData<F>,
}

impl<F: Field, BC: BlockCipher<F>> DaviesMeyer<F, BC> {
    /// The block cipher.
    pub closed spec fn spec_cipher(&self) -> BC {
        self.cipher
    }

    /// Create a new Davies-Meyer compression function from the given block cipher.
    pub fn new(cipher: BC) -> (r: Self)
        ensures
            r.spec_cipher() == cipher,
    {
        DaviesMeyer { cipher, phantom: PhantomData }
    }
}

impl<F: Field, BC: BlockCipher<F>> CompressionFunction<F> for DaviesMeyer<F, BC> {
    open spec fn compress_wires(&self) -> nat {
        self.spec_cipher().cipher_wires()
    }

    open spec fn compress_value(&self, x: nat, y: nat) -> nat {
        field_add(self.spec_cipher().encrypt_value(x, y), y, F::modulus())
    }

    fn compress(&self, builder: &mut GadgetBuilder<F>, x: &Expression<F>, y: &Expression<F>) -> (r:
        Expression<F>) {
        builder.davies_meyer(x, y, &self.cipher)
    }
}

impl<F: Field> GadgetBuilder<F> {
    /// Creates a one-way compression function from a block cipher, using the additive variant of
    /// the Davies-Meyer construction: `E_x(y) + y`.
    pub fn davies_meyer<BC: BlockCipher<F>>(
        &mut self,
        x: &Expression<F>,
        y: &Expression<F>,
        cipher: &BC,
    ) -> (r: Expression<F>)
        requires
            old(self).has_room(cipher.cipher_wires()),
        ensures
            final(self).extends(*old(self)),
            final(self).next_index() <= old(self).next_index() + cipher.cipher_wires(),
            forall|vals: Map<u32, nat>|
                #![trigger final(self).satisfied(vals)]
                final(self).satisfied(vals) && valid_assignment(vals, F::modulus()) ==> r.eval(vals)
                    == field_add(cipher.encrypt_value(x.eval(vals), y.eval(vals)), y.eval(vals), F::modulus()),
    {
        cipher.encrypt(self, x, y).add(y)
    }
}

} // verus!
