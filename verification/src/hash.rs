//! The two-input compression function over the field, and commitment
//! derivation from a note identifier and an amount.

use ark_ff::BigInteger;
use ark_ff::PrimeField;
use light_poseidon::PoseidonHasher;
use vstd::prelude::*;

use crate::field::Fe;

verus! {

/// What the two-input Poseidon permutation over the BN254 scalar field
/// returns; a function of its two arguments alone.
pub uninterp spec fn hash2_of(l: nat, r: nat) -> nat;

/// Relies on `light_poseidon::Poseidon::<Fr>::new_circom(2)` and
/// `PoseidonHasher::hash`: the circom-compatible two-input Poseidon over the
/// BN254 scalar field, whose output is a field element determined by the two
/// inputs alone.  `new_circom(2)` and a two-element `hash` call cannot fail.
#[verifier::external_body]
pub fn bn254_poseidon(left: &Fe, right: &Fe) -> (r: Fe)
    requires
        left.wf(),
        right.wf(),
    ensures
        r.wf(),
        r.val() == hash2_of(left.val(), right.val()),
{
    let l = ark_bn254::Fr::from_be_bytes_mod_order(left.bytes.as_slice());
    let rt = ark_bn254::Fr::from_be_bytes_mod_order(right.bytes.as_slice());
    let mut hasher = light_poseidon::Poseidon::<ark_bn254::Fr>::new_circom(2).unwrap();
    let out = hasher.hash(&[l, rt]).unwrap();
    Fe { bytes: out.into_bigint().to_bytes_be() }
}

/// Commitment for a note identifier and an amount: the note identifier
/// itself when the amount is zero (such events carry an already-final
/// commitment), the hash of the pair otherwise.
pub fn derive_commitment(note: &Fe, amount: &Fe) -> (r: Fe)
    requires
        note.wf(),
        amount.wf(),
    ensures
        r.wf(),
        amount.val() == 0 ==> r.bytes@ == note.bytes@,
        amount.val() != 0 ==> r.val() == hash2_of(note.val(), amount.val()),
{
    if amount.is_zero() {
        note.dup()
    } else {
        bn254_poseidon(note, amount)
    }
}

} // verus!
