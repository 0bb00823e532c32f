//! Authenticated encryption with a sponge over the scalar field of BLS12-381.

pub mod bls_scalar_info;
pub mod bytes;
pub mod codec;
pub mod curve;
pub mod encryptor;
pub mod error;
pub mod field;
pub mod hexadecimal;
pub mod permutation;
pub mod secret;
pub mod sponge;

pub use bls_scalar_info::BlsScalarInfo;
pub use curve::CurvePoint;
pub use encryptor::PoseidonEncryption;
pub use error::{CipherError, DecodeError};
pub use field::FieldElement;
