//! The Miyaguchi-Preneel construction of a compression function from a block cipher.

use std::marker::PhantomData;

use vstd::prelude::*;

use crate::expression::Expression;
use crate::field::{field_add, Field};
use crate::gadget_builder::GadgetBuilder;
use crate::gadget_traits::{BlockCipher, CompressionFunction};

verus! {

/// The additive variant of Miyaguchi-Preneel, which creates a one-way compression function from a
/// block cipher.
pub struct MiyaguchiPreneel<F: Field, BC: BlockCipher<F>> {
    cipher: BC,
    phantom: PhantomData<F>,
}

impl<F: Field, BC: BlockCipher<F>> MiyaguchiPreneel<F, BC> {
    /// The block cipher.
    pub closed spec fn spec_cipher(&self) -> BC {
        self.cipher
    }

    /// Create a new Miyaguchi-Preneel compression function from the given block cipher.
    pub fn new(cipher: BC) -> (r: Self)
        ensures
            r.spec_cipher() == cipher,
    {
        MiyaguchiPreneel { cipher, phantom: PhantomData }
    }
}

impl<F: Field, BC: BlockCipher<F>> CompressionFunction<F> for MiyaguchiPreneel<F, BC> {
    open spec fn compress_wires(&self) -> nat {
        self.spec_cipher().cipher_wires()
    }

    open spec fn compress_value(&self, x: nat, y: nat) -> nat {
        field_add(field_add(self.spec_cipher().encrypt_value(x, y), x, F::modulus()), y, F::modulus())
    }

    /// `E_x(y) + x + y`.
    fn compress(&self, builder: &mut GadgetBuilder<F>, x: &Expression<F>, y: &Expression<F>) -> (r:
        Expression<F>) {
        self.cipher.encrypt(builder, x, y).add(x).add(y)
    }
}

} // verus!
