//! Elements of the scalar field of BLS12-381, held as canonical bytes.

use crate::bytes::{
    le_bytes, le_value, lemma_le_bytes_of_value, lemma_le_value_injective, lemma_le_value_zeros,
};
use crate::error::DecodeError;
use crate::hexadecimal::{hex_encode, hex_text};
use dusk_bls12_381::BlsScalar;
use dusk_bytes::Serializable;
use rand_core::OsRng;
use vstd::prelude::*;

verus! {

/// The order of the field.
pub open spec fn modulus() -> nat {
    0x73eda753299d7d483339d80809a1d80553bda402fffe5bfeffffffff00000001nat
}

/// Sum of two field elements.
pub open spec fn field_add(a: nat, b: nat) -> nat {
    (a + b) % modulus()
}

/// Difference of two field elements.
pub open spec fn field_sub(a: nat, b: nat) -> nat {
    ((a - b) % (modulus() as int)) as nat
}

/// The number that four 64-bit limbs denote, least significant limb first.
pub open spec fn limbs_value(limbs: Seq<u64>) -> nat {
    (limbs[0] as nat) + 0x1_0000_0000_0000_0000nat * (limbs[1] as nat)
        + 0x1_0000_0000_0000_0000_0000_0000_0000_0000nat * (limbs[2] as nat)
        + 0x1_0000_0000_0000_0000_0000_0000_0000_0000_0000_0000_0000_0000nat * (limbs[3] as nat)
}

/// The error of the scalar field's decoder.
#[verifier::external_type_specification]
#[verifier::external_body]
pub struct ExBytesError(dusk_bytes::Error);

/// A field element. It holds the 32 bytes of its canonical little-endian
/// encoding, which always denote a number below the field's order.
#[derive(Clone, Copy, Debug, PartialEq, Eq)]
pub struct FieldElement {
    pub(crate) bytes: [u8; 32],
}

impl View for FieldElement {
    type V = nat;

    /// The number that the element stands for.
    closed spec fn view(&self) -> nat {
        le_value(self.bytes@)
    }
}

impl FieldElement {
    /// Every element is reduced: it is below the field's order.
    #[verifier::type_invariant]
    pub open spec fn is_reduced(self) -> bool {
        self@ < modulus()
    }

    /// The zero of the field.
    pub fn zero() -> (r: Self)
        ensures
            r@ == 0,
    {
        let bytes = [0u8; 32];
        proof {
            lemma_le_value_zeros(bytes@);
        }
        FieldElement { bytes }
    }

    /// The canonical encoding: 32 bytes, least significant first.
    pub fn to_bytes(&self) -> (r: [u8; 32])
        ensures
            r@ == le_bytes(self@, 32),
    {
        proof {
            lemma_le_bytes_of_value(self.bytes@);
        }
        self.bytes
    }

    /// Decodes an element from its canonical encoding. Bytes that denote a
    /// number that is not below the field's order are refused.
    pub fn from_bytes(bytes: &[u8; 32]) -> (r: Result<FieldElement, DecodeError>)
        ensures
            match r {
                Ok(element) => le_value(bytes@) < modulus() && element@ == le_value(bytes@),
                Err(e) => le_value(bytes@) >= modulus() && e == DecodeError::NotCanonical,
            },
    {
        match scalar_from_bytes(bytes) {
            Ok(element) => Ok(element),
            Err(_) => Err(DecodeError::NotCanonical),
        }
    }

    /// The hexadecimal text of the canonical encoding.
    pub fn to_hex(&self) -> (text: String)
        ensures
            text@ == hex_text(le_bytes(self@, 32)),
    {
        let bytes = self.to_bytes();
        hex_encode(bytes.as_slice())
    }

    /// Whether two elements are the same number.
    pub fn equals(&self, other: &FieldElement) -> (r: bool)
        ensures
            r == (self@ == other@),
    {
        let mut i: usize = 0;
        while i < 32
            invariant
                i <= 32,
                forall|j: int| 0 <= j < i ==> self.bytes@[j] == other.bytes@[j],
            decreases 32 - i,
        {
            if self.bytes[i] != other.bytes[i] {
                proof {
                    if self@ == other@ {
                        lemma_le_value_injective(self.bytes@, other.bytes@);
                    }
                }
                return false;
            }
            i += 1;
        }
        assert(self.bytes@ =~= other.bytes@);
        true
    }
}

/// The numbers that a sequence of field elements stands for.
pub open spec fn values(elements: Seq<FieldElement>) -> Seq<nat> {
    elements.map_values(|e: FieldElement| e@)
}

/// Decodes with `BlsScalar::from_bytes`, which accepts exactly the encodings
/// of numbers below the field's order and keeps the number.
#[verifier::external_body]
pub(crate) fn scalar_from_bytes(bytes: &[u8; 32]) -> (r: Result<FieldElement, dusk_bytes::Error>)
    ensures
        r is Ok <==> le_value(bytes@) < modulus(),
        r matches Ok(e) ==> e@ == le_value(bytes@),
{
    match BlsScalar::from_bytes(bytes) {
        Ok(s) => Ok(FieldElement { bytes: s.to_bytes() }),
        Err(e) => Err(e),
    }
}

/// Builds an element with `BlsScalar::from_raw`, which reduces the number that
/// the four limbs denote modulo the field's order.
#[verifier::external_body]
pub(crate) fn scalar_from_raw(limbs: [u64; 4]) -> (r: FieldElement)
    ensures
        r@ == limbs_value(limbs@) % modulus(),
{
    FieldElement { bytes: BlsScalar::from_raw(limbs).to_bytes() }
}

/// Adds with `BlsScalar`'s `+`, the addition of the field.
#[verifier::external_body]
pub(crate) fn scalar_add(a: &FieldElement, b: &FieldElement) -> (r: FieldElement)
    ensures
        r@ == field_add(a@, b@),
{
    let x = BlsScalar::from_bytes(&a.bytes).unwrap();
    let y = BlsScalar::from_bytes(&b.bytes).unwrap();
    FieldElement { bytes: (x + y).to_bytes() }
}

/// Subtracts with `BlsScalar`'s `-`, the subtraction of the field.
#[verifier::external_body]
pub(crate) fn scalar_sub(a: &FieldElement, b: &FieldElement) -> (r: FieldElement)
    ensures
        r@ == field_sub(a@, b@),
{
    let x = BlsScalar::from_bytes(&a.bytes).unwrap();
    let y = BlsScalar::from_bytes(&b.bytes).unwrap();
    FieldElement { bytes: (x - y).to_bytes() }
}

/// Draws an element with `BlsScalar::random` from `OsRng`, the operating
/// system's generator. Nothing is known of the outcome but that it is an
/// element. Where the system hands out no random bytes, `OsRng` panics.
#[verifier::external_body]
pub(crate) fn scalar_random() -> (r: FieldElement)
{
    FieldElement { bytes: BlsScalar::random(&mut OsRng).to_bytes() }
}

} // verus!
