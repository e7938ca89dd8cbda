//! The hash of the tree, and what the tree is built from.

pub mod parallelization;
pub mod tree_utils;

use crate::field::Felt;
use vstd::prelude::*;

verus! {

/// The Pedersen hash of two field elements, as numbers.
pub uninterp spec fn pedersen_spec(a: nat, b: nat) -> nat;

/// Calls `starknet_crypto::pedersen_hash` on the two elements and hands its
/// result back as an element. The hash is a function of its two arguments
/// alone; the contract names its result. An element is below the modulus, so
/// `FieldElement::from_bytes_be` accepts its bytes, and `to_bytes_be` gives the
/// canonical bytes of the result.
#[verifier::external_body]
pub fn pedersen(a: &Felt, b: &Felt) -> (r: Felt)
    ensures
        r@ == pedersen_spec(a@, b@),
{
    let x = starknet_crypto::FieldElement::from_bytes_be(&a.bytes).unwrap();
    let y = starknet_crypto::FieldElement::from_bytes_be(&b.bytes).unwrap();
    Felt { bytes: starknet_crypto::pedersen_hash(&x, &y).to_bytes_be() }
}

} // verus!
