//! How a secret point is derived from a seed.

use crate::bytes::le_value;
use crate::curve::CurvePoint;
use crate::encryptor::PoseidonEncryption;
use crate::field::FieldElement;
use crate::hexadecimal::{hex_encode, hex_text, lemma_hex_digit_value};
use dusk_bytes::Serializable;
use dusk_jubjub::{JubJubAffine, JubJubScalar, GENERATOR};
use sha3::{Digest, Keccak256};
use vstd::prelude::*;
use vstd::utf8::{is_ascii_chars, is_ascii_chars_encode_utf8};

verus! {

/// The order of the curve's group of scalars.
pub open spec fn scalar_order() -> nat {
    0x0e7db4ea6533afa906673b0101343b00a6682093ccc81082d0970e5ed6f72cb7nat
}

/// The Keccak-256 digest of a byte string.
pub uninterp spec fn keccak256_digest(data: Seq<u8>) -> Seq<u8>;

/// The coordinates of the curve's generator multiplied by a scalar.
pub uninterp spec fn generator_multiple(scalar: nat) -> (nat, nat);

/// The bytes of a text of ASCII characters.
pub open spec fn ascii_bytes(text: Seq<char>) -> Seq<u8> {
    Seq::new(text.len(), |i: int| text[i] as u8)
}

/// The sixty-four bytes that a digest gives the scalar: the characters of
/// its hexadecimal text.
pub open spec fn digest_wide_bytes(digest: Seq<u8>) -> Seq<u8> {
    ascii_bytes(hex_text(digest))
}

/// The scalar of a digest: the number of the digest's sixty-four bytes,
/// reduced modulo the order of the scalars.
pub open spec fn digest_scalar(digest: Seq<u8>) -> nat {
    le_value(digest_wide_bytes(digest)) % scalar_order()
}

/// The coordinates of the secret point of a seed.
pub open spec fn secret_point(seed: Seq<u8>) -> (nat, nat) {
    generator_multiple(digest_scalar(keccak256_digest(seed)))
}

/// Hashes with `Keccak256`. The digest depends on the data alone.
#[verifier::external_body]
pub(crate) fn keccak256(data: &[u8]) -> (digest: [u8; 32])
    ensures
        digest@ == keccak256_digest(data@),
{
    let mut hasher = Keccak256::new();
    hasher.update(data);
    hasher.finalize().into()
}

/// Reduces with `JubJubScalar::from_bytes_wide`: the scalar is the number of
/// the sixty-four bytes modulo the order of the scalars. It is returned in
/// its canonical encoding.
#[verifier::external_body]
pub(crate) fn scalar_from_wide(wide: &[u8; 64]) -> (scalar: [u8; 32])
    ensures
        le_value(scalar@) == le_value(wide@) % scalar_order(),
{
    JubJubScalar::from_bytes_wide(wide).to_bytes()
}

/// Multiplies the curve's generator by a scalar, given in its canonical
/// encoding, with `AffineNielsPoint`'s `*`, and turns the product into
/// affine coordinates. The point depends on the scalar alone.
#[verifier::external_body]
pub(crate) fn generator_mul(scalar: &[u8; 32]) -> (point: CurvePoint)
    requires
        le_value(scalar@) < scalar_order(),
    ensures
        (point.x@, point.y@) == generator_multiple(le_value(scalar@)),
{
    let s = JubJubScalar::from_bytes(scalar).unwrap();
    let p = JubJubAffine::from(GENERATOR.to_niels() * s);
    CurvePoint {
        x: FieldElement { bytes: p.get_x().to_bytes() },
        y: FieldElement { bytes: p.get_y().to_bytes() },
    }
}

impl PoseidonEncryption {
    /// The sixty-four bytes that a digest gives the scalar: the characters
    /// of its lower-case hexadecimal text.
    pub fn digest_wide_bytes(digest: &[u8; 32]) -> (wide: [u8; 64])
        ensures
            wide@ == digest_wide_bytes(digest@),
    {
        let text = hex_encode(digest.as_slice());
        let characters = text.as_str().as_bytes();
        proof {
            assert forall|i: int| 0 <= i < text@.len() implies '\0' <= #[trigger] text@[i]
                <= '\u{7f}' by {
                lemma_hex_digit_value(digest@[i / 2] as int / 16);
                lemma_hex_digit_value(digest@[i / 2] as int % 16);
            }
            assert(is_ascii_chars(text@));
            is_ascii_chars_encode_utf8(text@);
        }
        let mut wide = [0u8;64];
        let mut i: usize = 0;
        while i < 64
            invariant
                i <= 64,
                characters@.len() == 64,
                forall|n: int| 0 <= n < i ==> wide@[n] == characters@[n],
            decreases 64 - i,
        {
            wide[i] = characters[i];
            i += 1;
        }
        assert(wide@ =~= digest_wide_bytes(digest@));
        wide
    }

    /// The secret point of a digest: the generator multiplied by the
    /// digest's scalar.
    pub fn secret_from_digest(digest: &[u8; 32]) -> (point: CurvePoint)
        ensures
            (point.x@, point.y@) == generator_multiple(digest_scalar(digest@)),
    {
        let wide = Self::digest_wide_bytes(digest);
        let scalar = scalar_from_wide(&wide);
        generator_mul(&scalar)
    }

    /// Derives the secret point of a seed: the seed is hashed, the digest's
    /// hexadecimal text is read as a number and reduced to a scalar, and the
    /// curve's generator is multiplied by it. The point depends on the seed
    /// alone.
    pub fn calculate_secret_key(y_bytes: &[u8]) -> (point: CurvePoint)
        ensures
            (point.x@, point.y@) == secret_point(y_bytes@),
    {
        let digest = keccak256(y_bytes);
        Self::secret_from_digest(&digest)
    }
}

} // verus!
