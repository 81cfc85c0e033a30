//! The tree over 32-byte hashes that a block commits to, with the chain's
//! default hash as the merge.

use crate::merkle::{build_root, root_of, Merge};
use vstd::array::spec_array_fill_for_copy_type;
use vstd::prelude::*;

verus! {

/// The digest that `ckb_hash::blake2b_256` gives for `input`: 32 bytes.
pub uninterp spec fn blake2b_256_digest(input: Seq<u8>) -> Seq<u8>;

/// Calls `ckb_hash::blake2b_256`, the chain's default hash: Blake2b with a
/// digest of 32 bytes and the chain's personalization. The claim: the digest
/// is a function of the input bytes alone.
#[verifier::external_body]
fn blake2b_256(input: &[u8]) -> (digest: [u8; 32])
    ensures
        digest@ == blake2b_256_digest(input@),
{
    ckb_hash::blake2b_256(input)
}

/// The merge of two 32-byte hashes: the hash of the left one followed by the
/// right one.
pub struct MergeByte32;

impl Merge for MergeByte32 {
    type Item = [u8; 32];

    open spec fn merged(left: [u8; 32], right: [u8; 32]) -> [u8; 32] {
        choose|parent: [u8; 32]| parent@ == blake2b_256_digest(left@ + right@)
    }

    open spec fn blank() -> [u8; 32] {
        spec_array_fill_for_copy_type::<u8, 32>(0)
    }

    fn merge(left: &[u8; 32], right: &[u8; 32]) -> (parent: [u8; 32]) {
        let mut input: Vec<u8> = Vec::new();
        let mut i: usize = 0;
        while i < 32
            invariant
                i <= 32,
                input@ == left@.take(i as int),
            decreases 32 - i,
        {
            input.push(left[i]);
            i += 1;
            assert(input@ =~= left@.take(i as int));
        }
        assert(left@.take(32) =~= left@);
        i = 0;
        while i < 32
            invariant
                i <= 32,
                input@ == left@ + right@.take(i as int),
            decreases 32 - i,
        {
            input.push(right[i]);
            i += 1;
            assert(input@ =~= left@ + right@.take(i as int));
        }
        assert(right@.take(32) =~= right@);
        let parent = blake2b_256(input.as_slice());
        proof {
            let chosen = Self::merged(*left, *right);
            assert(chosen@ == parent@);
            assert(chosen =~= parent);
        }
        parent
    }

    fn same(left: &[u8; 32], right: &[u8; 32]) -> (equal: bool) {
        let mut i: usize = 0;
        while i < 32
            invariant
                i <= 32,
                forall|j: int| 0 <= j < i ==> left[j] == right[j],
            decreases 32 - i,
        {
            if left[i] != right[i] {
                return false;
            }
            i += 1;
        }
        assert(*left =~= *right);
        true
    }

    fn blank_root() -> (root: [u8; 32]) {
        [0u8; 32]
    }
}

/// Computes the root of the tree over the hashes `leaves`; the all-zero hash
/// where there are none.
pub fn merkle_root(leaves: &[[u8; 32]]) -> (root: [u8; 32])
    requires
        2 * leaves.len() <= usize::MAX,
    ensures
        root == root_of::<MergeByte32>(leaves@),
{
    build_root::<MergeByte32>(leaves)
}

} // verus!
