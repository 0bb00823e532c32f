use dusk_bls12_381::BlsScalar;
use dusk_bytes::Serializable;
use dusk_hades::{ScalarStrategy, Strategy};
use dusk_jubjub::{JubJubAffine, JubJubScalar, GENERATOR};
use poseidon_encryption::permutation::permute_state;
use poseidon_encryption::{CipherError, CurvePoint, DecodeError, FieldElement, PoseidonEncryption};
use sha3::{Digest, Keccak256};

const MODULUS_LIMBS: [u64; 4] = [
    0xffffffff00000001,
    0x53bda402fffe5bfe,
    0x3339d80809a1d805,
    0x73eda753299d7d48,
];

fn limbs_to_bytes(limbs: [u64; 4]) -> [u8; 32] {
    let mut bytes = [0u8; 32];
    for i in 0..4 {
        bytes[8 * i..8 * i + 8].copy_from_slice(&limbs[i].to_le_bytes());
    }
    bytes
}

fn fe(n: u64) -> FieldElement {
    FieldElement::from_bytes(&limbs_to_bytes([n, 0, 0, 0])).unwrap()
}

fn greatest() -> FieldElement {
    let mut limbs = MODULUS_LIMBS;
    limbs[0] -= 1;
    FieldElement::from_bytes(&limbs_to_bytes(limbs)).unwrap()
}

fn to_scalar(e: &FieldElement) -> BlsScalar {
    BlsScalar::from_bytes(&e.to_bytes()).unwrap()
}

fn from_scalar(s: &BlsScalar) -> FieldElement {
    FieldElement::from_bytes(&s.to_bytes()).unwrap()
}

fn test_secret() -> CurvePoint {
    PoseidonEncryption::calculate_secret_key(&[7u8; 32])
}

fn other_secret() -> CurvePoint {
    PoseidonEncryption::calculate_secret_key(&[8u8; 32])
}

/// The block as the permutation and the field give it, computed apart from
/// the library.
fn reference_block(message: &[BlsScalar], x: BlsScalar, y: BlsScalar, nonce: BlsScalar) -> [BlsScalar; 18] {
    let mut strategy = ScalarStrategy::new();
    let mut cipher = [BlsScalar::zero(); 18];
    let mut state = [
        BlsScalar::from_raw([0x100000000u64, 0, 0, 0]),
        BlsScalar::from_raw([17u64, 0, 0, 0]),
        x,
        y,
        nonce,
    ];
    for i in 0..5 {
        strategy.perm(&mut state);
        for j in 0..4 {
            if 4 * i + j < 17 {
                state[j + 1] += if 4 * i + j < message.len() {
                    message[4 * i + j]
                } else {
                    BlsScalar::zero()
                };
                cipher[4 * i + j] = state[j + 1];
            }
        }
    }
    strategy.perm(&mut state);
    cipher[17] = state[1];
    cipher
}

fn padded(message: &[u8]) -> Vec<u8> {
    let mut expected = vec![0u8; 544];
    for i in 0..544 {
        if i < message.len() {
            expected[i] = message[i];
        }
    }
    expected
}

fn round_trip(len: usize) {
    let cipher = PoseidonEncryption::new();
    let secret = test_secret();
    let text: String = (0..len).map(|i| (b'a' + (i % 7) as u8) as char).collect();
    let (hexes, nonce, elements, block) = cipher.encrypt(text.clone(), secret).unwrap();
    assert_eq!(hexes.len(), 1);
    assert_eq!(hexes[0].len(), 2 * 576);
    assert_eq!(hexes[0], hex::encode(PoseidonEncryption::to_bytes(block)));
    assert_eq!(elements, cipher.get_message_bls_scalar_vector(text.as_bytes()).unwrap());
    let plain = cipher.decrypt(hexes, &secret, nonce.to_hex()).unwrap();
    assert_eq!(plain, padded(text.as_bytes()));
    assert_eq!(&plain[..len.min(544)], &text.as_bytes()[..len.min(544)]);
}

#[test]
fn sizes() {
    assert_eq!(PoseidonEncryption::capacity(), 17);
    assert_eq!(PoseidonEncryption::cipher_size(), 18);
    assert_eq!(PoseidonEncryption::new(), PoseidonEncryption::default());
}

#[test]
fn initial_state_holds_tags_secret_and_nonce() {
    let secret = CurvePoint::from_raw_unchecked(fe(11), fe(12));
    let state = PoseidonEncryption::initial_state(&secret, fe(13));
    assert_eq!(state, [fe(0x1_0000_0000), fe(17), fe(11), fe(12), fe(13)]);
    let mut domain = [0u8; 32];
    domain[4] = 1;
    assert_eq!(state[0].to_bytes(), domain);
}

#[test]
fn permute_state_is_the_hades_permutation() {
    let state = [fe(1), fe(2), fe(3), fe(4), fe(5)];
    let out = permute_state(&state);
    let mut words = [
        BlsScalar::from(1u64),
        BlsScalar::from(2u64),
        BlsScalar::from(3u64),
        BlsScalar::from(4u64),
        BlsScalar::from(5u64),
    ];
    ScalarStrategy::new().perm(&mut words);
    for j in 0..5 {
        assert_eq!(out[j], from_scalar(&words[j]));
    }
    assert_ne!(out, state);
    assert_eq!(permute_state(&state), out);
}

#[test]
fn absorb_round_adds_the_message_of_its_round() {
    let permuted = [fe(100), fe(200), fe(300), fe(400), fe(500)];
    let message: Vec<FieldElement> = (1..=17).map(fe).collect();
    assert_eq!(
        PoseidonEncryption::absorb_round(&permuted, &message, 0),
        [fe(100), fe(201), fe(302), fe(403), fe(504)]
    );
    assert_eq!(
        PoseidonEncryption::absorb_round(&permuted, &message, 2),
        [fe(100), fe(209), fe(310), fe(411), fe(512)]
    );
}

#[test]
fn absorb_round_takes_one_element_in_the_last_round() {
    let permuted = [fe(100), fe(200), fe(300), fe(400), fe(500)];
    let message: Vec<FieldElement> = (1..=20).map(fe).collect();
    assert_eq!(
        PoseidonEncryption::absorb_round(&permuted, &message, 4),
        [fe(100), fe(217), fe(300), fe(400), fe(500)]
    );
    assert_eq!(PoseidonEncryption::absorb_round(&permuted, &message, 5), permuted);
    assert_eq!(PoseidonEncryption::absorb_round(&permuted, &message, usize::MAX), permuted);
}

#[test]
fn absorb_round_counts_missing_elements_as_zero() {
    let permuted = [fe(100), fe(200), fe(300), fe(400), fe(500)];
    let message = [fe(1), fe(2)];
    assert_eq!(
        PoseidonEncryption::absorb_round(&permuted, &message, 0),
        [fe(100), fe(201), fe(302), fe(400), fe(500)]
    );
    assert_eq!(PoseidonEncryption::absorb_round(&permuted, &message, 1), permuted);
}

#[test]
fn absorb_round_wraps_at_the_modulus() {
    let permuted = [fe(0), greatest(), fe(0), fe(0), fe(0)];
    let message = [fe(2)];
    assert_eq!(
        PoseidonEncryption::absorb_round(&permuted, &message, 0),
        [fe(0), fe(1), fe(0), fe(0), fe(0)]
    );
}

#[test]
fn recover_round_subtracts_and_takes_the_block() {
    let permuted = [fe(100), fe(200), fe(300), fe(400), fe(500)];
    let block: Vec<FieldElement> = (0..18).map(|k| fe(1000 + k)).collect();
    let block: [FieldElement; 18] = block.try_into().unwrap();
    let mut message = [fe(9); 17];
    let state = PoseidonEncryption::recover_round(&permuted, &block, 1, &mut message);
    assert_eq!(state, [fe(100), fe(1004), fe(1005), fe(1006), fe(1007)]);
    let mut expected = [fe(9); 17];
    expected[4] = fe(804);
    expected[5] = fe(705);
    expected[6] = fe(606);
    expected[7] = fe(507);
    assert_eq!(message, expected);
}

#[test]
fn recover_round_wraps_below_zero() {
    let permuted = [fe(0), fe(2), fe(0), fe(0), fe(0)];
    let mut block = [fe(0); 18];
    block[0] = fe(1);
    let mut message = [fe(0); 17];
    let state = PoseidonEncryption::recover_round(&permuted, &block, 0, &mut message);
    assert_eq!(message[0], greatest());
    assert_eq!(state, [fe(0), fe(1), fe(0), fe(0), fe(0)]);
}

#[test]
fn recover_round_past_the_last_changes_nothing() {
    let permuted = [fe(100), fe(200), fe(300), fe(400), fe(500)];
    let block = [fe(5); 18];
    let mut message = [fe(9); 17];
    let state = PoseidonEncryption::recover_round(&permuted, &block, 5, &mut message);
    assert_eq!(state, permuted);
    assert_eq!(message, [fe(9); 17]);
    let state = PoseidonEncryption::recover_round(&permuted, &block, 4, &mut message);
    assert_eq!(state, [fe(100), fe(5), fe(300), fe(400), fe(500)]);
}

#[test]
fn encrypt_with_nonce_agrees_with_the_permutation() {
    let cipher = PoseidonEncryption::new();
    let secret = test_secret();
    let nonce = fe(123456789);
    let message: Vec<FieldElement> = (0..17).map(|k| fe(1 + 3 * k)).collect();
    let block = cipher.encrypt_with_nonce(&message, &secret, nonce);
    let scalars: Vec<BlsScalar> = message.iter().map(to_scalar).collect();
    let expected = reference_block(&scalars, to_scalar(&secret.x), to_scalar(&secret.y), to_scalar(&nonce));
    for k in 0..18 {
        assert_eq!(block[k], from_scalar(&expected[k]));
    }
    assert_ne!(block[17], block[16]);
}

#[test]
fn encrypt_with_nonce_of_short_and_long_messages() {
    let cipher = PoseidonEncryption::new();
    let secret = test_secret();
    let nonce = fe(5);
    let short = [fe(1), fe(2), fe(3)];
    let mut filled = [fe(0); 17];
    filled[0] = fe(1);
    filled[1] = fe(2);
    filled[2] = fe(3);
    assert_eq!(
        cipher.encrypt_with_nonce(&short, &secret, nonce),
        cipher.encrypt_with_nonce(&filled, &secret, nonce)
    );
    let long: Vec<FieldElement> = (0..20).map(fe).collect();
    assert_eq!(
        cipher.encrypt_with_nonce(&long, &secret, nonce),
        cipher.encrypt_with_nonce(&long[..17], &secret, nonce)
    );
}

#[test]
fn encrypt_with_nonce_is_deterministic() {
    let cipher = PoseidonEncryption::new();
    let secret = test_secret();
    let message: Vec<FieldElement> = (0..17).map(fe).collect();
    let a = cipher.encrypt_with_nonce(&message, &secret, fe(99));
    let b = cipher.encrypt_with_nonce(&message, &secret, fe(99));
    assert_eq!(a, b);
    let c = cipher.encrypt_with_nonce(&message, &secret, fe(100));
    assert_ne!(a, c);
}

#[test]
fn scalar_round_trip() {
    let cipher = PoseidonEncryption::new();
    let secret = test_secret();
    let mut message = [fe(0); 17];
    for k in 0..17 {
        message[k] = fe(1000 * k as u64 + 1);
    }
    message[16] = greatest();
    let (block, nonce) = cipher.encrypt_scalar(&message, &secret);
    assert_eq!(cipher.decrypt_scalar(&block, &secret, nonce), Ok(message));
}

#[test]
fn decrypt_scalar_refuses_a_changed_tag() {
    let cipher = PoseidonEncryption::new();
    let secret = test_secret();
    let message = [fe(42); 17];
    let mut block = cipher.encrypt_with_nonce(&message, &secret, fe(1));
    block[17] = if block[17] == fe(0) { fe(1) } else { fe(0) };
    assert_eq!(
        cipher.decrypt_scalar(&block, &secret, fe(1)),
        Err(CipherError::AuthenticationFailure)
    );
}

#[test]
fn decrypt_scalar_refuses_a_changed_element() {
    let cipher = PoseidonEncryption::new();
    let secret = test_secret();
    let message = [fe(42); 17];
    let block = cipher.encrypt_with_nonce(&message, &secret, fe(1));
    for k in 0..17 {
        let mut changed = block;
        changed[k] = if block[k] == fe(0) { fe(1) } else { fe(0) };
        assert_eq!(
            cipher.decrypt_scalar(&changed, &secret, fe(1)),
            Err(CipherError::AuthenticationFailure)
        );
    }
}

#[test]
fn decrypt_scalar_refuses_another_secret_or_nonce() {
    let cipher = PoseidonEncryption::new();
    let message = [fe(42); 17];
    let block = cipher.encrypt_with_nonce(&message, &test_secret(), fe(1));
    assert_eq!(
        cipher.decrypt_scalar(&block, &other_secret(), fe(1)),
        Err(CipherError::AuthenticationFailure)
    );
    assert_eq!(
        cipher.decrypt_scalar(&block, &test_secret(), fe(2)),
        Err(CipherError::AuthenticationFailure)
    );
    assert_eq!(cipher.decrypt_scalar(&block, &test_secret(), fe(1)), Ok(message));
}

#[test]
fn nonces_are_fresh() {
    let cipher = PoseidonEncryption::new();
    let secret = test_secret();
    let message = [fe(1); 17];
    let (block_a, nonce_a) = cipher.encrypt_scalar(&message, &secret);
    let (block_b, nonce_b) = cipher.encrypt_scalar(&message, &secret);
    assert_ne!(nonce_a, nonce_b);
    assert_ne!(block_a, block_b);
}

#[test]
fn block_bytes_round_trip() {
    let mut block = [fe(0); 18];
    for k in 0..18 {
        block[k] = fe(256 * k as u64 + 1);
    }
    let bytes = PoseidonEncryption::to_bytes(block);
    for k in 0..18 {
        assert_eq!(bytes[32 * k], 1);
        assert_eq!(bytes[32 * k + 1], k as u8);
        assert_eq!(bytes[32 * k + 2], 0);
    }
    assert_eq!(PoseidonEncryption::from_bytes(&bytes), Ok(block));
}

#[test]
fn from_bytes_refuses_a_number_that_is_not_reduced() {
    let mut bytes = [0u8; 576];
    bytes[32 * 17..].copy_from_slice(&limbs_to_bytes(MODULUS_LIMBS));
    assert_eq!(PoseidonEncryption::from_bytes(&bytes), Err(DecodeError::NotCanonical));
    bytes[32 * 17] = 0;
    assert!(PoseidonEncryption::from_bytes(&bytes).is_ok());
}

#[test]
fn convert_gives_thirty_two_bytes_an_element() {
    assert_eq!(PoseidonEncryption::convert_bls_scalar_to_message(Vec::new()), Vec::<u8>::new());
    let bytes = PoseidonEncryption::convert_bls_scalar_to_message(vec![fe(1), fe(0x0203)]);
    let mut expected = vec![0u8; 64];
    expected[0] = 1;
    expected[32] = 3;
    expected[33] = 2;
    assert_eq!(bytes, expected);
}

#[test]
fn empty_message_encodes_to_zeros() {
    let cipher = PoseidonEncryption::new();
    assert_eq!(cipher.get_message_bls_scalar_vector(&[]), Ok([FieldElement::zero(); 17]));
    assert_eq!(PoseidonEncryption::message_chunks(&[]), Ok(vec![]));
}

#[test]
fn message_is_cut_into_chunks_of_thirty_two_bytes() {
    let cipher = PoseidonEncryption::new();
    let mut message = vec![0u8; 40];
    message[0] = 5;
    message[1] = 1;
    message[32] = 9;
    message[39] = 2;
    let elements = cipher.get_message_bls_scalar_vector(&message).unwrap();
    assert_eq!(elements[0], fe(256 + 5));
    assert_eq!(elements[1], fe(9 + (2u64 << 56)));
    for k in 2..17 {
        assert_eq!(elements[k], fe(0));
    }
    let infos = PoseidonEncryption::message_chunks(&message).unwrap();
    assert_eq!(infos.len(), 2);
    assert_eq!(infos[0].bls_scalar, elements[0]);
    assert_eq!(infos[0].byte_length, 32);
    assert_eq!(infos[1].bls_scalar, elements[1]);
    assert_eq!(infos[1].byte_length, 8);
}

#[test]
fn full_message_uses_all_slots() {
    let cipher = PoseidonEncryption::new();
    let message: Vec<u8> = (0..544).map(|i| (i % 100) as u8).collect();
    let elements = cipher.get_message_bls_scalar_vector(&message).unwrap();
    assert_eq!(PoseidonEncryption::convert_bls_scalar_to_message(elements.to_vec()), message);
    let infos = PoseidonEncryption::message_chunks(&message).unwrap();
    assert_eq!(infos.len(), 17);
    assert_eq!(infos[16].byte_length, 32);
}

#[test]
fn longer_message_loses_what_follows_544_bytes() {
    let cipher = PoseidonEncryption::new();
    let mut message: Vec<u8> = (0..545).map(|i| (i % 100) as u8).collect();
    message[544] = 0xff;
    let elements = cipher.get_message_bls_scalar_vector(&message).unwrap();
    assert_eq!(elements, cipher.get_message_bls_scalar_vector(&message[..544]).unwrap());
    assert_eq!(
        PoseidonEncryption::convert_bls_scalar_to_message(elements.to_vec()),
        message[..544].to_vec()
    );
    assert_eq!(PoseidonEncryption::message_chunks(&message).unwrap().len(), 17);
}

#[test]
fn chunk_that_is_not_reduced_is_refused() {
    let cipher = PoseidonEncryption::new();
    let mut message = vec![0u8; 64];
    message[63] = 0x74;
    assert_eq!(cipher.get_message_bls_scalar_vector(&message), Err(DecodeError::NotCanonical));
    assert_eq!(PoseidonEncryption::message_chunks(&message), Err(DecodeError::NotCanonical));
    message[63] = 0x73;
    assert!(cipher.get_message_bls_scalar_vector(&message).is_ok());
    let text: String = "t".repeat(32);
    assert_eq!(
        cipher.encrypt(text, test_secret()),
        Err(CipherError::Decode(DecodeError::NotCanonical))
    );
}

#[test]
fn round_trip_of_the_empty_message() {
    round_trip(0);
}

#[test]
fn round_trip_of_short_messages() {
    round_trip(1);
    round_trip(5);
    round_trip(31);
    round_trip(32);
    round_trip(33);
    round_trip(100);
}

#[test]
fn round_trip_of_a_full_message() {
    round_trip(543);
    round_trip(544);
}

#[test]
fn round_trip_of_a_longer_message_drops_the_rest() {
    round_trip(545);
    round_trip(600);
}

#[test]
fn round_trip_of_hello() {
    let cipher = PoseidonEncryption::new();
    let secret = test_secret();
    let (hexes, nonce, _, _) = cipher.encrypt("hello".to_string(), secret).unwrap();
    let plain = cipher.decrypt(hexes, &secret, nonce.to_hex()).unwrap();
    assert_eq!(plain.len(), 544);
    assert_eq!(&plain[..5], b"hello");
    assert!(plain[5..].iter().all(|b| *b == 0));
}

#[test]
fn decrypt_of_no_block_is_empty() {
    let cipher = PoseidonEncryption::new();
    assert_eq!(cipher.decrypt(vec![], &test_secret(), fe(1).to_hex()), Ok(vec![]));
}

#[test]
fn decrypt_of_several_blocks_joins_them() {
    let cipher = PoseidonEncryption::new();
    let secret = test_secret();
    let nonce = fe(77);
    let first = cipher.get_message_bls_scalar_vector(b"first block").unwrap();
    let second = cipher.get_message_bls_scalar_vector(b"second block").unwrap();
    let hexes = vec![
        hex::encode(PoseidonEncryption::to_bytes(cipher.encrypt_with_nonce(&first, &secret, nonce))),
        hex::encode(PoseidonEncryption::to_bytes(cipher.encrypt_with_nonce(&second, &secret, nonce))),
    ];
    let plain = cipher.decrypt(hexes.clone(), &secret, nonce.to_hex()).unwrap();
    let mut expected = padded(b"first block");
    expected.extend_from_slice(&padded(b"second block"));
    assert_eq!(plain, expected);
    let upper: Vec<String> = hexes.iter().map(|h| h.to_uppercase()).collect();
    assert_eq!(cipher.decrypt(upper, &secret, nonce.to_hex().to_uppercase()), Ok(expected));
}

#[test]
fn decrypt_returns_nothing_when_a_later_block_fails() {
    let cipher = PoseidonEncryption::new();
    let secret = test_secret();
    let nonce = fe(77);
    let first = cipher.get_message_bls_scalar_vector(b"first block").unwrap();
    let good = cipher.encrypt_with_nonce(&first, &secret, nonce);
    let mut bad = good;
    bad[3] = if good[3] == fe(0) { fe(1) } else { fe(0) };
    let hexes = vec![
        hex::encode(PoseidonEncryption::to_bytes(good)),
        hex::encode(PoseidonEncryption::to_bytes(bad)),
    ];
    assert_eq!(
        cipher.decrypt(hexes, &secret, nonce.to_hex()),
        Err(CipherError::AuthenticationFailure)
    );
}

#[test]
fn decrypt_detects_every_flipped_bit_of_one_byte() {
    let cipher = PoseidonEncryption::new();
    let secret = test_secret();
    let (hexes, nonce, _, block) = cipher.encrypt("attack at dawn".to_string(), secret).unwrap();
    let bytes = PoseidonEncryption::to_bytes(block);
    for place in [0usize, 100, 543, 544, 560] {
        for bit in 0..8 {
            let mut changed = bytes;
            changed[place] ^= 1 << bit;
            let r = cipher.decrypt(vec![hex::encode(changed)], &secret, nonce.to_hex());
            if PoseidonEncryption::from_bytes(&changed).is_ok() {
                assert_eq!(r, Err(CipherError::AuthenticationFailure));
            } else {
                assert_eq!(r, Err(CipherError::Decode(DecodeError::NotCanonical)));
            }
        }
    }
    assert!(cipher.decrypt(hexes, &secret, nonce.to_hex()).is_ok());
}

#[test]
fn decrypt_with_another_secret_fails() {
    let cipher = PoseidonEncryption::new();
    let (hexes, nonce, _, _) = cipher.encrypt("hello".to_string(), test_secret()).unwrap();
    assert_eq!(
        cipher.decrypt(hexes, &other_secret(), nonce.to_hex()),
        Err(CipherError::AuthenticationFailure)
    );
}

#[test]
fn decrypt_with_another_nonce_fails() {
    let cipher = PoseidonEncryption::new();
    let secret = test_secret();
    let message = cipher.get_message_bls_scalar_vector(b"hello").unwrap();
    let block = cipher.encrypt_with_nonce(&message, &secret, fe(1));
    let hexes = vec![hex::encode(PoseidonEncryption::to_bytes(block))];
    assert_eq!(
        cipher.decrypt(hexes.clone(), &secret, fe(2).to_hex()),
        Err(CipherError::AuthenticationFailure)
    );
    assert!(cipher.decrypt(hexes, &secret, fe(1).to_hex()).is_ok());
}

#[test]
fn decrypt_refuses_a_bad_nonce() {
    let cipher = PoseidonEncryption::new();
    let secret = test_secret();
    let invalid = Err(CipherError::Decode(DecodeError::InvalidHex));
    let length = Err(CipherError::Decode(DecodeError::BadLength));
    let reduced = Err(CipherError::Decode(DecodeError::NotCanonical));
    assert_eq!(cipher.decrypt(vec![], &secret, "zz".to_string()), invalid);
    assert_eq!(cipher.decrypt(vec![], &secret, "0".to_string()), invalid);
    assert_eq!(cipher.decrypt(vec![], &secret, "00".to_string()), length);
    assert_eq!(cipher.decrypt(vec![], &secret, "".to_string()), length);
    assert_eq!(cipher.decrypt(vec![], &secret, "00".repeat(33)), length);
    assert_eq!(cipher.decrypt(vec![], &secret, "ff".repeat(32)), reduced);
    assert_eq!(cipher.decrypt(vec!["zz".to_string()], &secret, "zz".to_string()), invalid);
}

#[test]
fn decrypt_refuses_a_bad_block() {
    let cipher = PoseidonEncryption::new();
    let secret = test_secret();
    let nonce = fe(1).to_hex();
    assert_eq!(
        cipher.decrypt(vec!["xy".to_string()], &secret, nonce.clone()),
        Err(CipherError::Decode(DecodeError::InvalidHex))
    );
    assert_eq!(
        cipher.decrypt(vec!["00".repeat(575)], &secret, nonce.clone()),
        Err(CipherError::Decode(DecodeError::BadLength))
    );
    assert_eq!(
        cipher.decrypt(vec!["ff".repeat(576)], &secret, nonce.clone()),
        Err(CipherError::Decode(DecodeError::NotCanonical))
    );
    assert_eq!(
        cipher.decrypt(vec!["00".repeat(576)], &secret, nonce),
        Err(CipherError::AuthenticationFailure)
    );
}

#[test]
fn decode_nonce_and_cipher() {
    assert_eq!(PoseidonEncryption::decode_nonce(&fe(9).to_hex()), Ok(fe(9)));
    assert_eq!(PoseidonEncryption::decode_nonce("abc"), Err(DecodeError::InvalidHex));
    let mut block = [fe(0); 18];
    block[17] = fe(3);
    let text = hex::encode(PoseidonEncryption::to_bytes(block));
    assert_eq!(PoseidonEncryption::decode_cipher(&text), Ok(block));
    assert_eq!(PoseidonEncryption::decode_cipher(&text[2..]), Err(DecodeError::BadLength));
}

#[test]
fn digest_wide_bytes_are_the_hex_characters() {
    let mut digest = [0u8; 32];
    digest[0] = 0xab;
    digest[1] = 0x09;
    digest[31] = 0xf0;
    let wide = PoseidonEncryption::digest_wide_bytes(&digest);
    assert_eq!(&wide[..4], b"ab09");
    assert_eq!(&wide[4..62], "0".repeat(58).as_bytes());
    assert_eq!(&wide[62..], b"f0");
}

#[test]
fn secret_key_agrees_with_the_curve() {
    let seeds: [&[u8]; 4] = [&[], &[7u8; 32], b"seed", &[0xffu8; 100]];
    for seed in seeds {
        let digest = Keccak256::digest(seed);
        let text = format!("{:x}", digest);
        let wide: [u8; 64] = text.as_bytes().try_into().unwrap();
        let scalar = JubJubScalar::from_bytes_wide(&wide);
        let expected: JubJubAffine = (GENERATOR.to_niels() * scalar).into();
        let point = PoseidonEncryption::calculate_secret_key(seed);
        assert_eq!(to_scalar(&point.x), expected.get_x());
        assert_eq!(to_scalar(&point.y), expected.get_y());
        let digest_bytes: [u8; 32] = digest.into();
        assert_eq!(PoseidonEncryption::secret_from_digest(&digest_bytes), point);
    }
}

#[test]
fn secret_key_of_the_empty_seed_goes_through_its_digest() {
    let digest: [u8; 32] =
        hex::decode("c5d2460186f7233c927e7db2dcc703c0e500b653ca82273b7bfad8045d85a470")
            .unwrap()
            .try_into()
            .unwrap();
    assert_eq!(
        PoseidonEncryption::calculate_secret_key(&[]),
        PoseidonEncryption::secret_from_digest(&digest)
    );
    assert_ne!(
        PoseidonEncryption::calculate_secret_key(&[]),
        PoseidonEncryption::calculate_secret_key(&[0])
    );
}

#[test]
fn secret_key_is_deterministic() {
    assert_eq!(test_secret(), test_secret());
    assert_ne!(test_secret(), other_secret());
}
