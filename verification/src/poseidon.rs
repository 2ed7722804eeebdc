//! The Poseidon hash of two field elements, as the hash of a Merkle tree.

use crate::field::{limbs_value, modulus, Field};
use crate::semaphore::Hasher;
use vstd::prelude::*;

verus! {

/// The Poseidon hash of two numbers below the field's order.
pub uninterp spec fn poseidon_hash2(left: nat, right: nat) -> nat;

/// Calls `semaphore_rs_poseidon::poseidon::hash2` on two 256-bit numbers
/// given by their limbs. The function panics on a number that is not below
/// the field's order; its result is a field element written out as a
/// number, so it is below the order.
#[verifier::external_body]
fn poseidon_hash2_limbs(left: [u64; 4], right: [u64; 4]) -> (hash: [u64; 4])
    requires
        limbs_value(left) < modulus(),
        limbs_value(right) < modulus(),
    ensures
        limbs_value(hash) == poseidon_hash2(limbs_value(left), limbs_value(right)),
        limbs_value(hash) < modulus(),
{
    let left = ruint::Uint::<256, 4>::from_limbs(left);
    let right = ruint::Uint::<256, 4>::from_limbs(right);
    semaphore_rs_poseidon::poseidon::hash2(left, right).into_limbs()
}

/// The tree hasher over field elements: a node is the Poseidon hash of its
/// two children.
#[derive(Clone, Copy, Debug, PartialEq, Eq)]
pub struct PoseidonHash;

impl Hasher for PoseidonHash {
    type Hash = Field;

    open spec fn spec_hash_node(left: Field, right: Field) -> Field {
        Field::of_value(poseidon_hash2(left@, right@))
    }

    fn hash_node(left: &Field, right: &Field) -> (h: Field) {
        let hash = poseidon_hash2_limbs(left.to_limbs(), right.to_limbs());
        let h = Field::from_reduced_limbs(hash);
        proof {
            Field::lemma_of_value(h);
        }
        h
    }

    proof fn lemma_clone_is_copy(a: Field, b: Field) {
        assert(call_ensures(Field::clone, (&a,), b) ==> a == b);
    }

    proof fn lemma_eq_is_equality(a: Field, b: Field) {
        if a@ == b@ {
            Field::lemma_view_injective(a, b);
        }
    }
}

} // verus!
