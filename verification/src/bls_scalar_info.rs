//! A field element of a message, with the length of the chunk it came from.

use crate::bytes::le_bytes;
use crate::field::FieldElement;
use vstd::prelude::*;

verus! {

/// The field element of a chunk of a message, and the number of bytes that
/// the chunk had before it was filled up with zeros.
#[derive(Clone, Copy, Debug, PartialEq, Eq)]
pub struct BlsScalarInfo {
    pub bls_scalar: FieldElement,
    pub byte_length: usize,
}

impl BlsScalarInfo {
    /// Puts an element and the length of its chunk together.
    pub fn new(bls_scalar: FieldElement, byte_length: usize) -> (r: Self)
        ensures
            r.bls_scalar == bls_scalar,
            r.byte_length == byte_length,
    {
        Self { bls_scalar, byte_length }
    }

    /// The canonical encoding of the element.
    pub fn to_bytes(&self) -> (r: [u8; 32])
        ensures
            r@ == le_bytes(self.bls_scalar@, 32),
    {
        self.bls_scalar.to_bytes()
    }
}

} // verus!
