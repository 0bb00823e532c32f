//! How messages and blocks are laid out in bytes.

use crate::bytes::{
    le_bytes, le_value, lemma_le_bytes_len, lemma_le_bytes_of_value, lemma_le_value_injective,
    lemma_le_value_of_bytes, lemma_le_value_zeros, pow256,
};
use crate::error::{CipherError, DecodeError};
use crate::field::modulus;
use crate::hexadecimal::{hex_bytes, hex_text, is_hex_text, lemma_hex_round_trip};
use crate::permutation::permute;
use crate::sponge::{
    absorb, absorbed, decrypt_block, encrypt_block, initial_state, lemma_block_round_trip,
    lemma_changed_tag_rejected, padded, takes_message,
};
use vstd::prelude::*;

verus! {

/// Number of bytes that a block can carry.
pub open spec fn block_capacity() -> int {
    544
}

/// Chunk `k` of a message: its bytes from `32 * k` on, up to thirty-two of
/// them, followed by zero bytes where the message ends before.
pub open spec fn chunk(message: Seq<u8>, k: int) -> Seq<u8> {
    Seq::new(
        32,
        |i: int|
            if 32 * k + i < message.len() {
                message[32 * k + i]
            } else {
                0u8
            },
    )
}

/// Number of bytes of the message in chunk `k`.
pub open spec fn chunk_len(message: Seq<u8>, k: int) -> int {
    if message.len() >= 32 * k + 32 {
        32
    } else if message.len() > 32 * k {
        message.len() - 32 * k
    } else {
        0
    }
}

/// Number of chunks that are encoded: the chunks that hold a byte of the
/// message, and seventeen at most.
pub open spec fn chunk_count(message: Seq<u8>) -> int {
    if message.len() >= block_capacity() {
        17
    } else {
        (message.len() as int + 31) / 32
    }
}

/// Whether a message can be encoded: each of its first seventeen chunks
/// denotes a number below the field's order.
pub open spec fn encodable(message: Seq<u8>) -> bool {
    forall|k: int| 0 <= k < 17 ==> le_value(#[trigger] chunk(message, k)) < modulus()
}

/// The seventeen field elements of a message: the numbers of its first
/// seventeen chunks. What follows those chunks is left out.
pub open spec fn encoded(message: Seq<u8>) -> Seq<nat> {
    Seq::new(17, |k: int| le_value(chunk(message, k)))
}

/// The bytes that a block can carry of a message: the message's first 544
/// bytes, followed by zero bytes where the message is shorter.
pub open spec fn block_text(message: Seq<u8>) -> Seq<u8> {
    Seq::new(
        544,
        |i: int|
            if i < message.len() {
                message[i]
            } else {
                0u8
            },
    )
}

/// The bytes of a sequence of field elements: thirty-two for each, in order.
pub open spec fn elements_bytes(elements: Seq<nat>) -> Seq<u8> {
    Seq::new(32 * elements.len(), |i: int| le_bytes(elements[i / 32], 32)[i % 32])
}

/// The thirty-two bytes at place `k` of a byte string.
pub open spec fn element_bytes_at(bytes: Seq<u8>, k: int) -> Seq<u8> {
    bytes.subrange(32 * k, 32 * k + 32)
}

/// The numbers that a byte string holds, thirty-two bytes each.
pub open spec fn bytes_elements(bytes: Seq<u8>) -> Seq<nat> {
    Seq::new(bytes.len() / 32, |k: int| le_value(element_bytes_at(bytes, k)))
}

/// Whether each number that a byte string holds is below the field's order.
pub open spec fn canonical(bytes: Seq<u8>) -> bool {
    forall|k: int| 0 <= k < bytes.len() / 32 ==> le_value(#[trigger] element_bytes_at(bytes, k)) < modulus()
}

/// The field elements that a hexadecimal text holds, where it holds `count`
/// of them; else why it does not.
pub open spec fn decode_elements(text: Seq<char>, count: int) -> Result<Seq<nat>, DecodeError> {
    if !is_hex_text(text) {
        Err(DecodeError::InvalidHex)
    } else if hex_bytes(text).len() != 32 * count {
        Err(DecodeError::BadLength)
    } else if !canonical(hex_bytes(text)) {
        Err(DecodeError::NotCanonical)
    } else {
        Ok(bytes_elements(hex_bytes(text)))
    }
}

/// The text of an encrypted block.
pub open spec fn cipher_text(cipher: Seq<nat>) -> Seq<char> {
    hex_text(elements_bytes(cipher))
}

/// The message elements of one block's text; else why the block is refused.
pub open spec fn open_block(text: Seq<char>, init: Seq<nat>) -> Result<Seq<nat>, CipherError> {
    match decode_elements(text, 18) {
        Err(e) => Err(CipherError::Decode(e)),
        Ok(cipher) => match decrypt_block(cipher, init) {
            None => Err(CipherError::AuthenticationFailure),
            Some(message) => Ok(message),
        },
    }
}

/// The message elements of a list of blocks, in order; where a block is
/// refused, the reason of the first such block, and no element.
pub open spec fn open_blocks(texts: Seq<Seq<char>>, init: Seq<nat>) -> Result<Seq<nat>, CipherError>
    decreases texts.len(),
{
    if texts.len() == 0 {
        Ok(Seq::empty())
    } else {
        match open_block(texts[0], init) {
            Err(e) => Err(e),
            Ok(message) => match open_blocks(texts.drop_first(), init) {
                Err(e) => Err(e),
                Ok(rest) => Ok(message + rest),
            },
        }
    }
}

/// What decrypting a list of blocks gives: the bytes of all their message
/// elements, or the first reason to refuse. The nonce is read first.
pub open spec fn decrypt_text(texts: Seq<Seq<char>>, x: nat, y: nat, nonce_text: Seq<char>) -> Result<
    Seq<u8>,
    CipherError,
> {
    match decode_elements(nonce_text, 1) {
        Err(e) => Err(CipherError::Decode(e)),
        Ok(nonce) => match open_blocks(texts, initial_state(x, y, nonce[0])) {
            Err(e) => Err(e),
            Ok(elements) => Ok(elements_bytes(elements)),
        },
    }
}

/// The field's order fits in thirty-two bytes.
pub proof fn lemma_modulus_fits()
    ensures
        modulus() < pow256(32),
{
    reveal_with_fuel(pow256, 33);
}

/// The bytes of field elements hold those elements, and are canonical.
pub proof fn lemma_elements_bytes_round_trip(elements: Seq<nat>)
    requires
        forall|k: int| 0 <= k < elements.len() ==> elements[k] < modulus(),
    ensures
        elements_bytes(elements).len() == 32 * elements.len(),
        canonical(elements_bytes(elements)),
        bytes_elements(elements_bytes(elements)) == elements,
{
    let bytes = elements_bytes(elements);
    lemma_modulus_fits();
    assert forall|k: int| 0 <= k < elements.len() implies le_value(
        #[trigger] element_bytes_at(bytes, k),
    ) == elements[k] by {
        lemma_le_bytes_len(elements[k], 32);
        assert forall|i: int| 0 <= i < 32 implies element_bytes_at(bytes, k)[i] == le_bytes(
            elements[k],
            32,
        )[i] by {
            assert((32 * k + i) / 32 == k && (32 * k + i) % 32 == i);
        }
        assert(element_bytes_at(bytes, k) =~= le_bytes(elements[k], 32));
        lemma_le_value_of_bytes(elements[k], 32);
    }
    assert(bytes.len() / 32 == elements.len());
    assert(bytes_elements(bytes) =~= elements);
}

/// The bytes of the elements of a message are the bytes that the block
/// carries of it.
pub proof fn lemma_encoded_bytes(message: Seq<u8>)
    ensures
        elements_bytes(encoded(message)) == block_text(message),
{
    let bytes = elements_bytes(encoded(message));
    assert forall|i: int| 0 <= i < 544 implies bytes[i] == block_text(message)[i] by {
        let k = i / 32;
        lemma_le_bytes_of_value(chunk(message, k));
        assert(32 * k + i % 32 == i);
    }
    assert(bytes =~= block_text(message));
}

/// A chunk that the message does not reach denotes zero.
pub proof fn lemma_empty_chunk(message: Seq<u8>, k: int)
    requires
        32 * k >= message.len(),
    ensures
        le_value(chunk(message, k)) == 0,
{
    lemma_le_value_zeros(chunk(message, k));
}

/// Every element of an encrypted block is an element of the field.
pub proof fn lemma_encrypt_block_reduced(message: Seq<nat>, init: Seq<nat>)
    ensures
        encrypt_block(message, init).len() == 18,
        forall|k: int| 0 <= k < 18 ==> encrypt_block(message, init)[k] < modulus(),
{
    assert forall|k: int| 0 <= k < 18 implies encrypt_block(message, init)[k] < modulus() by {
        if k < 17 {
            let r = k / 4;
            let j = k % 4 + 1;
            assert(takes_message(r, j));
            assert(4 * r + j - 1 == k);
            let permuted = permute(absorbed(message, init, r as nat));
            assert(absorbed(message, init, (r + 1) as nat) == absorb(permuted, message, r));
        }
    }
}

/// Round trip: the text of an encrypted message, decrypted under the same
/// secret with the text of the same nonce, gives the bytes that the block
/// carries of the message: the message itself, filled up with zero bytes to
/// 544 bytes, and cut after 544 bytes where it is longer. A message of
/// exactly 544 bytes comes back unchanged.
pub proof fn lemma_text_round_trip(message: Seq<u8>, x: nat, y: nat, nonce: nat)
    requires
        encodable(message),
        nonce < modulus(),
    ensures
        decrypt_text(
            seq![cipher_text(encrypt_block(encoded(message), initial_state(x, y, nonce)))],
            x,
            y,
            hex_text(le_bytes(nonce, 32)),
        ) == Ok::<Seq<u8>, CipherError>(block_text(message)),
        message.len() <= 544 ==> block_text(message).subrange(0, message.len() as int) == message,
        message.len() == 544 ==> block_text(message) == message,
{
    let init = initial_state(x, y, nonce);
    let cipher = encrypt_block(encoded(message), init);
    let texts = seq![cipher_text(cipher)];
    // the nonce
    let nonce_bytes = le_bytes(nonce, 32);
    lemma_hex_round_trip(nonce_bytes);
    lemma_elements_bytes_round_trip(seq![nonce]);
    lemma_le_bytes_len(nonce, 32);
    assert(elements_bytes(seq![nonce]) =~= nonce_bytes);
    assert(decode_elements(hex_text(nonce_bytes), 1) == Ok::<Seq<nat>, DecodeError>(seq![nonce]));
    // the block
    lemma_encrypt_block_reduced(encoded(message), init);
    lemma_elements_bytes_round_trip(cipher);
    lemma_hex_round_trip(elements_bytes(cipher));
    assert(decode_elements(cipher_text(cipher), 18) == Ok::<Seq<nat>, DecodeError>(cipher));
    assert forall|k: int| 0 <= k < 17 implies encoded(message)[k] < modulus() by {
        assert(le_value(chunk(message, k)) < modulus());
    }
    lemma_block_round_trip(encoded(message), init);
    assert(padded(encoded(message)) =~= encoded(message));
    assert(open_block(texts[0], init) == Ok::<Seq<nat>, CipherError>(encoded(message)));
    assert(texts.drop_first() =~= Seq::<Seq<char>>::empty());
    assert(open_blocks(texts.drop_first(), init) == Ok::<Seq<nat>, CipherError>(Seq::empty()));
    assert(encoded(message) + Seq::<nat>::empty() =~= encoded(message));
    assert(open_blocks(texts, init) == Ok::<Seq<nat>, CipherError>(encoded(message)));
    lemma_encoded_bytes(message);
    if message.len() <= 544 {
        assert(block_text(message).subrange(0, message.len() as int) =~= message);
    }
    if message.len() == 544 {
        assert(block_text(message) =~= message);
    }
}

/// A change in the bytes of the tag is always detected: bytes that agree
/// with those of an encrypted block in all that comes before the tag, and
/// differ from them in the tag, are refused. The reason is the tag, unless
/// the changed bytes no longer denote an element of the field.
pub proof fn lemma_changed_tag_bytes_rejected(message: Seq<nat>, init: Seq<nat>, forged: Seq<u8>)
    requires
        forall|k: int| 0 <= k < message.len() && k < 17 ==> message[k] < modulus(),
        forged.len() == 576,
        forall|i: int|
            0 <= i < 544 ==> forged[i] == elements_bytes(encrypt_block(message, init))[i],
        forged != elements_bytes(encrypt_block(message, init)),
    ensures
        open_block(hex_text(forged), init) == if canonical(forged) {
            Err::<Seq<nat>, CipherError>(CipherError::AuthenticationFailure)
        } else {
            Err::<Seq<nat>, CipherError>(CipherError::Decode(DecodeError::NotCanonical))
        },
{
    let cipher = encrypt_block(message, init);
    let bytes = elements_bytes(cipher);
    lemma_hex_round_trip(forged);
    lemma_encrypt_block_reduced(message, init);
    lemma_elements_bytes_round_trip(cipher);
    if canonical(forged) {
        let elements = bytes_elements(forged);
        assert forall|k: int| 0 <= k < 17 implies elements[k] == cipher[k] by {
            assert(element_bytes_at(forged, k) =~= element_bytes_at(bytes, k));
            assert(bytes_elements(bytes)[k] == cipher[k]);
        }
        if elements[17] == cipher[17] {
            assert(bytes_elements(bytes)[17] == cipher[17]);
            lemma_le_value_injective(element_bytes_at(forged, 17), element_bytes_at(bytes, 17));
            assert forall|i: int| 0 <= i < 576 implies forged[i] == bytes[i] by {
                if i >= 544 {
                    assert(element_bytes_at(forged, 17)[i - 544] == forged[i]);
                    assert(element_bytes_at(bytes, 17)[i - 544] == bytes[i]);
                }
            }
            assert(forged =~= bytes);
        }
        lemma_changed_tag_rejected(message, init, elements);
    }
}

} // verus!
