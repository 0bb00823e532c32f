//! What can go wrong.

use vstd::prelude::*;

verus! {

/// Why bytes or text could not be read.
#[derive(Clone, Copy, Debug, PartialEq, Eq, Structural)]
pub enum DecodeError {
    /// The text is not an even number of hexadecimal digits.
    InvalidHex,
    /// The bytes do not have the length of what they should encode.
    BadLength,
    /// Thirty-two bytes denote a number that is not below the field's order.
    NotCanonical,
}

/// Why an operation of the cipher failed.
#[derive(Clone, Copy, Debug, PartialEq, Eq, Structural)]
pub enum CipherError {
    /// An input could not be read.
    Decode(DecodeError),
    /// The tag of a block does not fit: the block was changed, or the secret
    /// or the nonce is not the one it was encrypted with.
    AuthenticationFailure,
}

} // verus!
