//! The permutation that drives the sponge.

use crate::field::{modulus, values, FieldElement};
use dusk_bls12_381::BlsScalar;
use dusk_bytes::Serializable;
use dusk_hades::{ScalarStrategy, Strategy};
use vstd::arithmetic::div_mod::lemma_small_mod;
use vstd::prelude::*;

verus! {

/// What the Hades permutation makes of a state of five field elements.
pub uninterp spec fn hades_permutation(state: Seq<nat>) -> Seq<nat>;

/// The permutation of the sponge: the Hades permutation, as five elements
/// of the field. The permutation turns elements of the field into elements
/// of the field, so for a state of such elements the reduction changes
/// nothing; with it the outcome is a state whatever the argument.
pub open spec fn permute(state: Seq<nat>) -> Seq<nat> {
    Seq::new(5, |j: int| hades_permutation(state)[j] % modulus())
}

/// Permutes a state with `ScalarStrategy::perm`. The outcome depends on the
/// five elements alone, and consists of five elements of the field.
#[verifier::external_body]
pub(crate) fn hades_permute(state: &[FieldElement; 5]) -> (out: [FieldElement; 5])
    ensures
        values(out@) == hades_permutation(values(state@)),
        forall|j: int| 0 <= j < 5 ==> (#[trigger] out@[j])@ < modulus(),
{
    let mut words = state.map(|e| BlsScalar::from_bytes(&e.bytes).unwrap());
    ScalarStrategy::new().perm(&mut words);
    words.map(|w| FieldElement { bytes: w.to_bytes() })
}

/// Applies the permutation of the sponge to a state.
pub fn permute_state(state: &[FieldElement; 5]) -> (out: [FieldElement; 5])
    ensures
        values(out@) == permute(values(state@)),
{
    let out = hades_permute(state);
    proof {
        assert forall|j: int| 0 <= j < 5 implies values(out@)[j] == permute(values(state@))[j] by {
            assert(out@[j]@ < modulus());
            lemma_small_mod(out@[j]@, modulus());
        }
        assert(values(out@) =~= permute(values(state@)));
    }
    out
}

} // verus!
