//! The sponge: how a block of field elements is encrypted and decrypted.

use crate::field::{field_add, field_sub, modulus};
use crate::permutation::permute;
use vstd::arithmetic::div_mod::{lemma_fundamental_div_mod, lemma_mod_multiples_vanish, lemma_small_mod};
use vstd::prelude::*;

verus! {

/// Number of message elements of a block.
pub open spec fn capacity() -> int {
    17
}

/// The first element of every initial state: the greatest length of a plain
/// text, two to the power 32.
pub open spec fn domain_tag() -> nat {
    0x1_0000_0000
}

/// The second element of every initial state: the number of message elements.
pub open spec fn capacity_tag() -> nat {
    17
}

/// The state that a block starts from, for a secret point `(x, y)` and a nonce.
pub open spec fn initial_state(x: nat, y: nat, nonce: nat) -> Seq<nat> {
    seq![domain_tag(), capacity_tag(), x, y, nonce]
}

/// The message element at place `k`; a place that the message does not
/// reach holds zero.
pub open spec fn slot(message: Seq<nat>, k: int) -> nat {
    if 0 <= k < message.len() {
        message[k]
    } else {
        0
    }
}

/// The seventeen elements that a message fills a block with.
pub open spec fn padded(message: Seq<nat>) -> Seq<nat> {
    Seq::new(17, |k: int| slot(message, k))
}

/// Whether place `j` of the state takes a message element in round `round`.
pub open spec fn takes_message(round: int, j: int) -> bool {
    1 <= j <= 4 && 0 <= 4 * round + j - 1 < capacity()
}

/// The state after round `round` has added its message elements to a state
/// that was just permuted.
pub open spec fn absorb(permuted: Seq<nat>, message: Seq<nat>, round: int) -> Seq<nat> {
    Seq::new(
        5,
        |j: int|
            if takes_message(round, j) {
                field_add(permuted[j], slot(message, 4 * round + j - 1))
            } else {
                permuted[j]
            },
    )
}

/// The state of an encryption after `rounds` rounds.
pub open spec fn absorbed(message: Seq<nat>, init: Seq<nat>, rounds: nat) -> Seq<nat>
    decreases rounds,
{
    if rounds == 0 {
        init
    } else {
        absorb(
            permute(absorbed(message, init, (rounds - 1) as nat)),
            message,
            rounds - 1,
        )
    }
}

/// The tag of an encryption: what the last permutation leaves at place 1.
pub open spec fn tag_of(last: Seq<nat>) -> nat {
    permute(last)[1]
}

/// The encrypted block: seventeen elements taken from the states after each
/// round, then the tag.
pub open spec fn encrypt_block(message: Seq<nat>, init: Seq<nat>) -> Seq<nat> {
    Seq::new(
        18,
        |k: int|
            if k < 17 {
                absorbed(message, init, (k / 4 + 1) as nat)[k % 4 + 1]
            } else {
                tag_of(absorbed(message, init, 5))
            },
    )
}

/// The state after round `round` of a decryption has put the block's
/// elements in the place of what was just permuted.
pub open spec fn replace(permuted: Seq<nat>, cipher: Seq<nat>, round: int) -> Seq<nat> {
    Seq::new(
        5,
        |j: int|
            if takes_message(round, j) {
                cipher[4 * round + j - 1]
            } else {
                permuted[j]
            },
    )
}

/// The state of a decryption after `rounds` rounds.
pub open spec fn replayed(cipher: Seq<nat>, init: Seq<nat>, rounds: nat) -> Seq<nat>
    decreases rounds,
{
    if rounds == 0 {
        init
    } else {
        replace(
            permute(replayed(cipher, init, (rounds - 1) as nat)),
            cipher,
            rounds - 1,
        )
    }
}

/// The recovered elements after round `round` of a decryption: the places of
/// that round hold the block's elements less what was just permuted, the
/// others what they held before.
pub open spec fn release(previous: Seq<nat>, permuted: Seq<nat>, cipher: Seq<nat>, round: int) -> Seq<
    nat,
> {
    Seq::new(
        17,
        |k: int|
            if k / 4 == round {
                field_sub(cipher[k], permuted[k % 4 + 1])
            } else {
                previous[k]
            },
    )
}

/// The seventeen elements that a decryption recovers, whether or not the tag
/// fits.
pub open spec fn recovered(cipher: Seq<nat>, init: Seq<nat>) -> Seq<nat> {
    Seq::new(
        17,
        |k: int|
            field_sub(cipher[k], permute(replayed(cipher, init, (k / 4) as nat))[k % 4 + 1]),
    )
}

/// The tag that a decryption computes from the first seventeen elements.
pub open spec fn expected_tag(cipher: Seq<nat>, init: Seq<nat>) -> nat {
    tag_of(replayed(cipher, init, 5))
}

/// The decrypted block: the recovered elements where the block's last
/// element is the expected tag, nothing where it is not.
pub open spec fn decrypt_block(cipher: Seq<nat>, init: Seq<nat>) -> Option<Seq<nat>> {
    if cipher[17] == expected_tag(cipher, init) {
        Some(recovered(cipher, init))
    } else {
        None
    }
}

/// Subtracting from a sum what was added gives the other summand back,
/// where that summand is an element of the field.
pub proof fn lemma_add_then_sub(a: nat, b: nat)
    requires
        b < modulus(),
    ensures
        field_sub(field_add(a, b), a) == b,
{
    let q = modulus() as int;
    let s = (a + b) as int;
    lemma_fundamental_div_mod(s, q);
    assert(s % q - a == q * (-(s / q)) + b) by (nonlinear_arith)
        requires
            s == q * (s / q) + s % q,
            s == a + b,
    ;
    lemma_mod_multiples_vanish(-(s / q), b as int, q);
    lemma_small_mod(b, modulus());
}

/// Decrypting the block of an encryption goes through the states of that
/// encryption.
pub proof fn lemma_replay_follows(message: Seq<nat>, init: Seq<nat>, rounds: nat)
    requires
        rounds <= 5,
    ensures
        replayed(encrypt_block(message, init), init, rounds) == absorbed(message, init, rounds),
    decreases rounds,
{
    if rounds > 0 {
        let r = (rounds - 1) as nat;
        lemma_replay_follows(message, init, r);
        let cipher = encrypt_block(message, init);
        let permuted = permute(absorbed(message, init, r));
        assert forall|j: int| 0 <= j < 5 implies replace(permuted, cipher, r as int)[j] == absorb(
            permuted,
            message,
            r as int,
        )[j] by {
            if takes_message(r as int, j) {
                let k = 4 * r + j - 1;
                assert(k / 4 == r && k % 4 + 1 == j);
            }
        }
        assert(replace(permuted, cipher, r as int) =~= absorb(permuted, message, r as int));
    }
}

/// Round trip of a block: decrypting what was encrypted, from the same
/// initial state, accepts the tag and recovers the message, with zero in the
/// places that the message did not reach. Elements past the seventeenth are
/// not part of the block.
pub proof fn lemma_block_round_trip(message: Seq<nat>, init: Seq<nat>)
    requires
        forall|k: int| 0 <= k < message.len() && k < 17 ==> message[k] < modulus(),
    ensures
        decrypt_block(encrypt_block(message, init), init) == Some(padded(message)),
{
    let cipher = encrypt_block(message, init);
    lemma_replay_follows(message, init, 5);
    assert forall|k: int| 0 <= k < 17 implies recovered(cipher, init)[k] == padded(message)[k] by {
        let r = (k / 4) as nat;
        let j = k % 4 + 1;
        lemma_replay_follows(message, init, r);
        let permuted = permute(absorbed(message, init, r));
        assert(takes_message(r as int, j));
        assert(4 * r + j - 1 == k);
        assert(absorbed(message, init, r + 1) == absorb(permuted, message, r as int));
        assert(cipher[k] == field_add(permuted[j], slot(message, k)));
        lemma_add_then_sub(permuted[j], slot(message, k));
    }
    assert(recovered(cipher, init) =~= padded(message));
}

/// The states of a decryption depend on the first seventeen elements of the
/// block alone.
pub proof fn lemma_replay_ignores_tag(a: Seq<nat>, b: Seq<nat>, init: Seq<nat>, rounds: nat)
    requires
        forall|k: int| 0 <= k < 17 ==> a[k] == b[k],
    ensures
        replayed(a, init, rounds) == replayed(b, init, rounds),
    decreases rounds,
{
    if rounds > 0 {
        let r = (rounds - 1) as nat;
        lemma_replay_ignores_tag(a, b, init, r);
        let permuted = permute(replayed(a, init, r));
        assert(replace(permuted, a, r as int) =~= replace(permuted, b, r as int));
    }
}

/// A changed tag is always detected: a block that agrees with an encrypted
/// block in its first seventeen elements and differs from it in the last is
/// rejected.
pub proof fn lemma_changed_tag_rejected(message: Seq<nat>, init: Seq<nat>, forged: Seq<nat>)
    requires
        forall|k: int| 0 <= k < message.len() && k < 17 ==> message[k] < modulus(),
        forall|k: int| 0 <= k < 17 ==> forged[k] == encrypt_block(message, init)[k],
        forged[17] != encrypt_block(message, init)[17],
    ensures
        decrypt_block(forged, init) is None,
{
    let cipher = encrypt_block(message, init);
    lemma_block_round_trip(message, init);
    lemma_replay_ignores_tag(forged, cipher, init, 5);
}

} // verus!
