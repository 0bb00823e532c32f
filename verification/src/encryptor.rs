//! The cipher: blocks of field elements, and their bytes and text.

use crate::bls_scalar_info::BlsScalarInfo;
use crate::bytes::{le_bytes, le_value};
use crate::codec::{
    bytes_elements, canonical, chunk, chunk_count, chunk_len, cipher_text, decode_elements,
    decrypt_text, element_bytes_at, elements_bytes, encodable, encoded, lemma_empty_chunk,
    open_blocks,
};
use crate::curve::CurvePoint;
use crate::error::{CipherError, DecodeError};
use crate::field::{
    field_add, field_sub, limbs_value, modulus, scalar_add, scalar_from_raw, scalar_random,
    scalar_sub, values, FieldElement,
};
use crate::hexadecimal::{decode_hex, hex_encode};
use crate::permutation::permute_state;
use crate::sponge::{
    absorb, absorbed, decrypt_block, encrypt_block, initial_state, recovered, release, replace,
    replayed, slot, takes_message,
};
use vstd::prelude::*;
use vstd::utf8::encode_utf8;

verus! {

/// Number of field elements a single cipher block can carry.
pub const MESSAGE_CAPACITY: usize = 17;

/// Number of field elements of an encrypted block: the message slots and the tag.
pub const CIPHER_SIZE: usize = 18;

/// Number of bytes of an encrypted block.
pub const CIPHER_BYTES_SIZE: usize = 576;

/// Number of rounds that absorb the message of a block.
pub const ROUNDS: usize = 5;

/// The texts of a list of strings.
pub open spec fn texts_of(strings: Seq<String>) -> Seq<Seq<char>> {
    strings.map_values(|s: String| s@)
}

/// The thirty-two bytes of a byte string from `start` on.
fn copy_32(bytes: &[u8], start: usize) -> (r: [u8; 32])
    requires
        start + 32 <= bytes@.len(),
    ensures
        r@ == bytes@.subrange(start as int, start + 32),
{
    let mut buffer = [0u8;32];
    let mut i: usize = 0;
    while i < 32
        invariant
            i <= 32,
            start + 32 <= bytes.len(),
            forall|j: int| 0 <= j < i ==> buffer@[j] == bytes@[start + j],
        decreases 32 - i,
    {
        buffer[i] = bytes[start + i];
        i += 1;
    }
    assert(buffer@ =~= bytes@.subrange(start as int, start + 32));
    buffer
}

/// Chunk `k` of a message, filled up with zeros, and the number of bytes of
/// the message in it.
fn padded_chunk(message_bytes: &[u8], k: usize) -> (r: ([u8; 32], usize))
    requires
        k < 17,
    ensures
        r.0@ == chunk(message_bytes@, k as int),
        r.1 == chunk_len(message_bytes@, k as int),
{
    let mut buffer = [0u8;32];
    let start = 32 * k;
    let mut i: usize = 0;
    while i < 32 && start + i < message_bytes.len()
        invariant
            i <= 32,
            start == 32 * k,
            k < 17,
            i == 0 || start + i <= message_bytes@.len(),
            forall|j: int| 0 <= j < i ==> buffer@[j] == message_bytes@[start + j],
            forall|j: int| i <= j < 32 ==> buffer@[j] == 0,
        decreases 32 - i,
    {
        buffer[i] = message_bytes[start + i];
        i += 1;
    }
    assert(buffer@ =~= chunk(message_bytes@, k as int));
    (buffer, i)
}

/// Sponge cipher over a prime field.
#[derive(Debug, Copy, Clone, PartialEq, Eq, Ord, PartialOrd, Default)]
pub struct PoseidonEncryption {}

impl PoseidonEncryption {
    /// Creates the cipher.
    pub fn new() -> (r: Self)
        ensures
            r == (PoseidonEncryption {}),
    {
        PoseidonEncryption {}
    }

    /// Number of message slots of one block.
    pub fn capacity() -> (n: usize)
        ensures
            n == MESSAGE_CAPACITY,
    {
        MESSAGE_CAPACITY
    }

    /// Number of field elements of one encrypted block.
    pub fn cipher_size() -> (n: usize)
        ensures
            n == CIPHER_SIZE,
    {
        CIPHER_SIZE
    }

    /// The state that a block starts from: the two tags, the coordinates of
    /// the secret and the nonce.
    pub fn initial_state(secret: &CurvePoint, nonce: FieldElement) -> (state: [FieldElement; 5])
        ensures
            values(state@) == initial_state(secret.x@, secret.y@, nonce@),
    {
        let domain = scalar_from_raw([0x100000000u64, 0, 0, 0]);
        let capacity = scalar_from_raw([17u64, 0, 0, 0]);
        let state = [domain, capacity, secret.x, secret.y, nonce];
        proof {
            assert(limbs_value(seq![0x100000000u64, 0, 0, 0]) == 0x1_0000_0000);
            assert(limbs_value(seq![17u64, 0, 0, 0]) == 17);
            assert(values(state@) =~= initial_state(secret.x@, secret.y@, nonce@));
        }
        state
    }

    /// One round of an encryption, after its permutation: adds the round's
    /// message elements to places 1 to 4 of the state. The places then hold
    /// the round's elements of the encrypted block.
    pub fn absorb_round(permuted: &[FieldElement; 5], message: &[FieldElement], round: usize) -> (state:
        [FieldElement; 5])
        ensures
            values(state@) == absorb(values(permuted@), values(message@), round as int),
    {
        let mut state = *permuted;
        if round >= ROUNDS {
            assert(values(state@) =~= absorb(values(permuted@), values(message@), round as int));
            return state;
        }
        let mut j: usize = 1;
        while j < 5
            invariant
                1 <= j <= 5,
                round < 5,
                forall|i: int|
                    0 <= i < 5 ==> (#[trigger] state@[i])@ == if i < j && takes_message(
                        round as int,
                        i,
                    ) {
                        field_add(permuted@[i]@, slot(values(message@), 4 * round + i - 1))
                    } else {
                        permuted@[i]@
                    },
            decreases 5 - j,
        {
            let k = 4 * round + j - 1;
            if k < MESSAGE_CAPACITY {
                let element = if k < message.len() {
                    message[k]
                } else {
                    FieldElement::zero()
                };
                state[j] = scalar_add(&state[j], &element);
            }
            j += 1;
        }
        assert(values(state@) =~= absorb(values(permuted@), values(message@), round as int));
        state
    }

    /// One round of a decryption, after its permutation: recovers the round's
    /// message elements and puts the block's elements in places 1 to 4 of
    /// the state.
    pub fn recover_round(
        permuted: &[FieldElement; 5],
        cipher: &[FieldElement; 18],
        round: usize,
        message: &mut [FieldElement; 17],
    ) -> (state: [FieldElement; 5])
        ensures
            values(state@) == replace(values(permuted@), values(cipher@), round as int),
            values(final(message)@) == release(
                values(old(message)@),
                values(permuted@),
                values(cipher@),
                round as int,
            ),
    {
        let mut state = *permuted;
        if round >= ROUNDS {
            assert(values(state@) =~= replace(values(permuted@), values(cipher@), round as int));
            assert(values(message@) =~= release(
                values(old(message)@),
                values(permuted@),
                values(cipher@),
                round as int,
            ));
            return state;
        }
        let mut j: usize = 1;
        while j < 5
            invariant
                1 <= j <= 5,
                round < 5,
                forall|i: int|
                    0 <= i < 5 ==> (#[trigger] state@[i])@ == if i < j && takes_message(
                        round as int,
                        i,
                    ) {
                        cipher@[4 * round + i - 1]@
                    } else {
                        permuted@[i]@
                    },
                forall|k: int|
                    0 <= k < 17 ==> (#[trigger] message@[k])@ == if k / 4 == round && k % 4 + 1 < j {
                        field_sub(cipher@[k]@, permuted@[k % 4 + 1]@)
                    } else {
                        old(message)@[k]@
                    },
            decreases 5 - j,
        {
            let k = 4 * round + j - 1;
            if k < MESSAGE_CAPACITY {
                assert(k / 4 == round && k % 4 + 1 == j);
                message[k] = scalar_sub(&cipher[k], &state[j]);
                state[j] = cipher[k];
            }
            j += 1;
        }
        assert(values(state@) =~= replace(values(permuted@), values(cipher@), round as int));
        assert(values(message@) =~= release(
            values(old(message)@),
            values(permuted@),
            values(cipher@),
            round as int,
        ));
        state
    }

    /// Encrypts a block with a given nonce. Message elements past the
    /// seventeenth are left out; places that the message does not reach count
    /// as zero. The block depends on the message, the secret and the nonce
    /// alone.
    pub fn encrypt_with_nonce(
        &self,
        message: &[FieldElement],
        secret: &CurvePoint,
        nonce: FieldElement,
    ) -> (cipher: [FieldElement; 18])
        ensures
            values(cipher@) == encrypt_block(
                values(message@),
                initial_state(secret.x@, secret.y@, nonce@),
            ),
    {
        let ghost init = initial_state(secret.x@, secret.y@, nonce@);
        let ghost plain = values(message@);
        let mut cipher = [FieldElement::zero();18];
        let mut state = Self::initial_state(secret, nonce);
        let mut round: usize = 0;
        while round < ROUNDS
            invariant
                round <= 5,
                plain == values(message@),
                values(state@) == absorbed(plain, init, round as nat),
                forall|k: int|
                    0 <= k < 17 && k < 4 * round ==> (#[trigger] cipher@[k])@ == absorbed(
                        plain,
                        init,
                        (k / 4 + 1) as nat,
                    )[k % 4 + 1],
            decreases 5 - round,
        {
            let permuted = permute_state(&state);
            state = Self::absorb_round(&permuted, message, round);
            let mut j: usize = 1;
            while j < 5
                invariant
                    1 <= j <= 5,
                    round < 5,
                    values(state@) == absorbed(plain, init, (round + 1) as nat),
                    forall|k: int|
                        0 <= k < 17 && k < 4 * round + j - 1 ==> (#[trigger] cipher@[k])@ == absorbed(
                            plain,
                            init,
                            (k / 4 + 1) as nat,
                        )[k % 4 + 1],
                decreases 5 - j,
            {
                let k = 4 * round + j - 1;
                if k < MESSAGE_CAPACITY {
                    assert(k / 4 == round && k % 4 + 1 == j);
                    assert(values(state@)[j as int] == state@[j as int]@);
                    cipher[k] = state[j];
                }
                j += 1;
            }
            round += 1;
        }
        let last = permute_state(&state);
        cipher[MESSAGE_CAPACITY] = last[1];
        proof {
            assert(values(last@)[1] == last@[1]@);
            assert(values(cipher@) =~= encrypt_block(plain, init));
        }
        cipher
    }

    /// Encrypts a block with a nonce that is drawn for it, and returns both.
    /// Whatever nonce was drawn, the block is the one that
    /// `encrypt_with_nonce` gives for it.
    pub fn encrypt_scalar(&self, message: &[FieldElement], secret: &CurvePoint) -> (r: (
        [FieldElement; 18],
        FieldElement,
    ))
        ensures
            values(r.0@) == encrypt_block(
                values(message@),
                initial_state(secret.x@, secret.y@, r.1@),
            ),
    {
        let nonce = scalar_random();
        (self.encrypt_with_nonce(message, secret, nonce), nonce)
    }

    /// Decrypts a block. The message is returned where the block's tag is
    /// the one that its first seventeen elements, the secret and the nonce
    /// give, and only there.
    pub fn decrypt_scalar(
        &self,
        cipher: &[FieldElement; 18],
        secret: &CurvePoint,
        nonce: FieldElement,
    ) -> (r: Result<[FieldElement; 17], CipherError>)
        ensures
            match r {
                Ok(message) => decrypt_block(
                    values(cipher@),
                    initial_state(secret.x@, secret.y@, nonce@),
                ) == Some(values(message@)),
                Err(e) => e == CipherError::AuthenticationFailure && decrypt_block(
                    values(cipher@),
                    initial_state(secret.x@, secret.y@, nonce@),
                ) is None,
            },
    {
        let ghost init = initial_state(secret.x@, secret.y@, nonce@);
        let ghost block = values(cipher@);
        let mut message = [FieldElement::zero();17];
        let mut state = Self::initial_state(secret, nonce);
        let mut round: usize = 0;
        while round < ROUNDS
            invariant
                round <= 5,
                block == values(cipher@),
                values(state@) == replayed(block, init, round as nat),
                forall|k: int|
                    0 <= k < 17 && k < 4 * round ==> (#[trigger] message@[k])@ == recovered(
                        block,
                        init,
                    )[k],
            decreases 5 - round,
        {
            let permuted = permute_state(&state);
            let ghost before = values(message@);
            state = Self::recover_round(&permuted, cipher, round, &mut message);
            proof {
                assert forall|k: int| 0 <= k < 17 && k < 4 * (round + 1) implies (
                #[trigger] message@[k])@ == recovered(block, init)[k] by {
                    assert(values(message@)[k] == message@[k]@);
                    if k / 4 == round {
                    } else {
                        assert(k < 4 * round);
                        assert(before[k] == recovered(block, init)[k]);
                    }
                }
            }
            round += 1;
        }
        let last = permute_state(&state);
        proof {
            assert(values(last@)[1] == last@[1]@);
            assert(values(cipher@)[17] == cipher@[17]@);
            assert(values(message@) =~= recovered(block, init));
        }
        if cipher[MESSAGE_CAPACITY].equals(&last[1]) {
            Ok(message)
        } else {
            Err(CipherError::AuthenticationFailure)
        }
    }

    /// The bytes of an encrypted block: those of its eighteen elements, in
    /// order.
    pub fn to_bytes(cipher_text: [FieldElement; 18]) -> (bytes: [u8; 576])
        ensures
            bytes@ == elements_bytes(values(cipher_text@)),
    {
        let mut bytes = [0u8;576];
        let mut i: usize = 0;
        while i < CIPHER_SIZE
            invariant
                i <= 18,
                forall|n: int|
                    0 <= n < 32 * i ==> bytes@[n] == le_bytes(cipher_text@[n / 32]@, 32)[n % 32],
            decreases 18 - i,
        {
            let encoding = cipher_text[i].to_bytes();
            let mut j: usize = 0;
            while j < 32
                invariant
                    i < 18,
                    j <= 32,
                    encoding@ == le_bytes(cipher_text@[i as int]@, 32),
                    forall|n: int|
                        0 <= n < 32 * i + j ==> bytes@[n] == le_bytes(cipher_text@[n / 32]@, 32)[n
                            % 32],
                decreases 32 - j,
            {
                bytes[32 * i + j] = encoding[j];
                j += 1;
            }
            i += 1;
        }
        assert(bytes@ =~= elements_bytes(values(cipher_text@)));
        bytes
    }

    /// Reads an encrypted block from its bytes. Bytes that hold a number
    /// that is not below the field's order are refused.
    pub fn from_bytes(bytes: &[u8; 576]) -> (r: Result<[FieldElement; 18], DecodeError>)
        ensures
            match r {
                Ok(cipher) => canonical(bytes@) && values(cipher@) == bytes_elements(bytes@),
                Err(e) => !canonical(bytes@) && e == DecodeError::NotCanonical,
            },
    {
        let mut cipher = [FieldElement::zero();18];
        let mut i: usize = 0;
        while i < CIPHER_SIZE
            invariant
                i <= 18,
                forall|k: int|
                    0 <= k < i ==> le_value(#[trigger] element_bytes_at(bytes@, k)) < modulus()
                        && cipher@[k]@ == le_value(element_bytes_at(bytes@, k)),
            decreases 18 - i,
        {
            let encoding = copy_32(bytes.as_slice(), 32 * i);
            assert(encoding@ == element_bytes_at(bytes@, i as int));
            match FieldElement::from_bytes(&encoding) {
                Ok(element) => {
                    cipher[i] = element;
                },
                Err(e) => {
                    return Err(e);
                },
            }
            i += 1;
        }
        assert(values(cipher@) =~= bytes_elements(bytes@));
        Ok(cipher)
    }

    /// The chunks of a message as field elements, each with the number of
    /// bytes that the chunk had. Seventeen chunks are encoded at most. A
    /// chunk that denotes a number that is not below the field's order is
    /// refused.
    pub fn message_chunks(message_bytes: &[u8]) -> (r: Result<Vec<BlsScalarInfo>, DecodeError>)
        ensures
            match r {
                Ok(infos) => {
                    &&& encodable(message_bytes@)
                    &&& infos@.len() == chunk_count(message_bytes@)
                    &&& forall|k: int|
                        0 <= k < infos@.len() ==> (#[trigger] infos@[k]).bls_scalar@ == encoded(
                            message_bytes@,
                        )[k] && infos@[k].byte_length == chunk_len(message_bytes@, k)
                },
                Err(e) => !encodable(message_bytes@) && e == DecodeError::NotCanonical,
            },
    {
        let mut infos: Vec<BlsScalarInfo> = Vec::new();
        let mut k: usize = 0;
        while k < MESSAGE_CAPACITY && 32 * k < message_bytes.len()
            invariant
                k <= 17,
                infos@.len() == k,
                k == 0 || 32 * (k - 1) < message_bytes@.len(),
                forall|j: int|
                    0 <= j < k ==> le_value(#[trigger] chunk(message_bytes@, j)) < modulus(),
                forall|j: int|
                    0 <= j < k ==> (#[trigger] infos@[j]).bls_scalar@ == le_value(
                        chunk(message_bytes@, j),
                    ) && infos@[j].byte_length == chunk_len(message_bytes@, j),
            decreases 17 - k,
        {
            let (buffer, byte_length) = padded_chunk(message_bytes, k);
            match FieldElement::from_bytes(&buffer) {
                Ok(element) => {
                    infos.push(BlsScalarInfo::new(element, byte_length));
                },
                Err(e) => {
                    return Err(e);
                },
            }
            k += 1;
        }
        proof {
            assert forall|j: int| 0 <= j < 17 implies le_value(
                #[trigger] chunk(message_bytes@, j),
            ) < modulus() by {
                if j >= k {
                    lemma_empty_chunk(message_bytes@, j);
                }
            }
        }
        Ok(infos)
    }

    /// The seventeen field elements of a message: one for each chunk of
    /// thirty-two bytes, the last chunk filled up with zeros, and zero where
    /// the message has no chunk. Bytes past the seventeenth chunk are left
    /// out. A chunk that denotes a number that is not below the field's
    /// order is refused.
    pub fn get_message_bls_scalar_vector(&self, message_bytes: &[u8]) -> (r: Result<
        [FieldElement; 17],
        DecodeError,
    >)
        ensures
            match r {
                Ok(elements) => encodable(message_bytes@) && values(elements@) == encoded(
                    message_bytes@,
                ),
                Err(e) => !encodable(message_bytes@) && e == DecodeError::NotCanonical,
            },
    {
        let infos = match Self::message_chunks(message_bytes) {
            Ok(infos) => infos,
            Err(e) => {
                return Err(e);
            },
        };
        let mut messages = [FieldElement::zero();17];
        let mut index: usize = 0;
        while index < infos.len()
            invariant
                index <= infos@.len() <= 17,
                infos@.len() == chunk_count(message_bytes@),
                forall|k: int|
                    0 <= k < infos@.len() ==> (#[trigger] infos@[k]).bls_scalar@ == encoded(
                        message_bytes@,
                    )[k],
                forall|k: int|
                    0 <= k < index ==> (#[trigger] messages@[k])@ == encoded(message_bytes@)[k],
                forall|k: int| index <= k < 17 ==> (#[trigger] messages@[k])@ == 0,
            decreases infos@.len() - index,
        {
            messages[index] = infos[index].bls_scalar;
            index += 1;
        }
        proof {
            assert forall|k: int| 0 <= k < 17 implies values(messages@)[k] == encoded(
                message_bytes@,
            )[k] by {
                if k >= index {
                    lemma_empty_chunk(message_bytes@, k);
                }
            }
            assert(values(messages@) =~= encoded(message_bytes@));
        }
        Ok(messages)
    }

    /// The bytes of a list of field elements: thirty-two for each, in order.
    pub fn convert_bls_scalar_to_message(bls_scalars: Vec<FieldElement>) -> (message: Vec<u8>)
        ensures
            message@ == elements_bytes(values(bls_scalars@)),
    {
        let mut message: Vec<u8> = Vec::new();
        let mut i: usize = 0;
        while i < bls_scalars.len()
            invariant
                i <= bls_scalars@.len(),
                message@.len() == 32 * i,
                forall|n: int|
                    0 <= n < 32 * i ==> message@[n] == le_bytes(bls_scalars@[n / 32]@, 32)[n % 32],
            decreases bls_scalars@.len() - i,
        {
            let encoding = bls_scalars[i].to_bytes();
            let mut j: usize = 0;
            while j < 32
                invariant
                    i < bls_scalars@.len(),
                    j <= 32,
                    message@.len() == 32 * i + j,
                    encoding@ == le_bytes(bls_scalars@[i as int]@, 32),
                    forall|n: int|
                        0 <= n < 32 * i + j ==> message@[n] == le_bytes(
                            bls_scalars@[n / 32]@,
                            32,
                        )[n % 32],
                decreases 32 - j,
            {
                message.push(encoding[j]);
                j += 1;
            }
            i += 1;
        }
        assert(message@ =~= elements_bytes(values(bls_scalars@)));
        message
    }

    /// Reads a nonce from its hexadecimal text.
    pub fn decode_nonce(text: &str) -> (r: Result<FieldElement, DecodeError>)
        ensures
            match r {
                Ok(nonce) => decode_elements(text@, 1) == Ok::<Seq<nat>, DecodeError>(seq![nonce@]),
                Err(e) => decode_elements(text@, 1) == Err::<Seq<nat>, DecodeError>(e),
            },
    {
        let bytes = match decode_hex(text) {
            Ok(bytes) => bytes,
            Err(e) => {
                return Err(e);
            },
        };
        if bytes.len() != 32 {
            return Err(DecodeError::BadLength);
        }
        let encoding = copy_32(bytes.as_slice(), 0);
        assert(encoding@ == element_bytes_at(bytes@, 0));
        match FieldElement::from_bytes(&encoding) {
            Ok(nonce) => {
                assert(bytes_elements(bytes@) =~= seq![nonce@]);
                Ok(nonce)
            },
            Err(e) => Err(e),
        }
    }

    /// Reads an encrypted block from its hexadecimal text.
    pub fn decode_cipher(text: &str) -> (r: Result<[FieldElement; 18], DecodeError>)
        ensures
            match r {
                Ok(cipher) => decode_elements(text@, 18) == Ok::<Seq<nat>, DecodeError>(
                    values(cipher@),
                ),
                Err(e) => decode_elements(text@, 18) == Err::<Seq<nat>, DecodeError>(e),
            },
    {
        let decoded = match decode_hex(text) {
            Ok(decoded) => decoded,
            Err(e) => {
                return Err(e);
            },
        };
        if decoded.len() != CIPHER_BYTES_SIZE {
            return Err(DecodeError::BadLength);
        }
        let mut bytes = [0u8;576];
        let mut i: usize = 0;
        while i < CIPHER_BYTES_SIZE
            invariant
                i <= 576,
                decoded@.len() == 576,
                forall|n: int| 0 <= n < i ==> bytes@[n] == decoded@[n],
            decreases 576 - i,
        {
            bytes[i] = decoded[i];
            i += 1;
        }
        assert(bytes@ =~= decoded@);
        Self::from_bytes(&bytes)
    }

    /// Encrypts a message under a secret, with a nonce that is drawn for it.
    /// Returned are the text of the encrypted block, the nonce, the elements
    /// of the message and those of the block. Of the message only what one
    /// block can carry is encrypted: its first 544 bytes.
    pub fn encrypt(&self, message: String, secret: CurvePoint) -> (r: Result<
        (Vec<String>, FieldElement, [FieldElement; 17], [FieldElement; 18]),
        CipherError,
    >)
        ensures
            match r {
                Ok(out) => {
                    &&& encodable(encode_utf8(message@))
                    &&& values(out.2@) == encoded(encode_utf8(message@))
                    &&& values(out.3@) == encrypt_block(
                        encoded(encode_utf8(message@)),
                        initial_state(secret.x@, secret.y@, out.1@),
                    )
                    &&& texts_of(out.0@) == seq![cipher_text(values(out.3@))]
                },
                Err(e) => !encodable(encode_utf8(message@)) && e == CipherError::Decode(
                    DecodeError::NotCanonical,
                ),
            },
    {
        let elements = match self.get_message_bls_scalar_vector(message.as_str().as_bytes()) {
            Ok(elements) => elements,
            Err(e) => {
                return Err(CipherError::Decode(e));
            },
        };
        let (cipher, nonce) = self.encrypt_scalar(elements.as_slice(), &secret);
        let bytes = Self::to_bytes(cipher);
        let mut texts: Vec<String> = Vec::new();
        texts.push(hex_encode(bytes.as_slice()));
        assert(texts_of(texts@) =~= seq![cipher_text(values(cipher@))]);
        Ok((texts, nonce, elements, cipher))
    }

    /// Decrypts a list of encrypted blocks under a secret and the nonce they
    /// were encrypted with. Returned are the bytes of all the blocks'
    /// messages, 544 for each block. Where the nonce or a block cannot be
    /// read, or a block's tag does not fit, nothing is returned but the
    /// reason, that of the first block that gives one.
    pub fn decrypt(&self, cipher_text_hexes: Vec<String>, secret: &CurvePoint, nonce: String) -> (r:
        Result<Vec<u8>, CipherError>)
        ensures
            match r {
                Ok(bytes) => decrypt_text(
                    texts_of(cipher_text_hexes@),
                    secret.x@,
                    secret.y@,
                    nonce@,
                ) == Ok::<Seq<u8>, CipherError>(bytes@),
                Err(e) => decrypt_text(
                    texts_of(cipher_text_hexes@),
                    secret.x@,
                    secret.y@,
                    nonce@,
                ) == Err::<Seq<u8>, CipherError>(e),
            },
    {
        let nonce_element = match Self::decode_nonce(nonce.as_str()) {
            Ok(element) => element,
            Err(e) => {
                return Err(CipherError::Decode(e));
            },
        };
        let ghost init = initial_state(secret.x@, secret.y@, nonce_element@);
        let ghost texts = texts_of(cipher_text_hexes@);
        let mut result: Vec<FieldElement> = Vec::new();
        let mut i: usize = 0;
        assert(texts.skip(0) =~= texts);
        while i < cipher_text_hexes.len()
            invariant
                i <= cipher_text_hexes@.len(),
                texts == texts_of(cipher_text_hexes@),
                init == initial_state(secret.x@, secret.y@, nonce_element@),
                decode_elements(nonce@, 1) == Ok::<Seq<nat>, DecodeError>(seq![nonce_element@]),
                open_blocks(texts, init) == match open_blocks(texts.skip(i as int), init) {
                    Err(e) => Err::<Seq<nat>, CipherError>(e),
                    Ok(rest) => Ok(values(result@) + rest),
                },
            decreases cipher_text_hexes@.len() - i,
        {
            let ghost tail = texts.skip(i as int);
            assert(tail[0] == cipher_text_hexes@[i as int]@);
            assert(tail.drop_first() =~= texts.skip(i + 1));
            let cipher = match Self::decode_cipher(cipher_text_hexes[i].as_str()) {
                Ok(cipher) => cipher,
                Err(e) => {
                    return Err(CipherError::Decode(e));
                },
            };
            let message = match self.decrypt_scalar(&cipher, secret, nonce_element) {
                Ok(message) => message,
                Err(e) => {
                    return Err(e);
                },
            };
            let ghost before = values(result@);
            let mut j: usize = 0;
            while j < MESSAGE_CAPACITY
                invariant
                    j <= 17,
                    values(result@) == before + values(message@).take(j as int),
                decreases 17 - j,
            {
                let ghost previous = values(result@);
                result.push(message[j]);
                assert(values(result@) =~= previous.push(message@[j as int]@));
                assert(values(message@).take(j + 1) =~= values(message@).take(j as int).push(
                    message@[j as int]@,
                ));
                j += 1;
            }
            proof {
                assert(values(message@).take(17) =~= values(message@));
                match open_blocks(texts.skip(i + 1), init) {
                    Err(e) => {},
                    Ok(rest) => {
                        assert((before + values(message@)) + rest =~= before + (values(message@)
                            + rest));
                    },
                }
            }
            i += 1;
        }
        proof {
            assert(texts.skip(i as int) =~= Seq::<Seq<char>>::empty());
            assert(values(result@) + Seq::<nat>::empty() =~= values(result@));
        }
        Ok(Self::convert_bls_scalar_to_message(result))
    }
}

} // verus!
