use chain_primitives::byte32::{merkle_root, MergeByte32};
use chain_primitives::merkle::{build_proof, build_root, Merge};
use ckb_hash::blake2b_256;

fn pair(left: &[u8; 32], right: &[u8; 32]) -> [u8; 32] {
    let mut input = Vec::new();
    input.extend_from_slice(left);
    input.extend_from_slice(right);
    blake2b_256(&input)
}

#[test]
fn merge_is_the_hash_of_left_then_right() {
    let left = blake2b_256(b"left");
    let right = blake2b_256(b"right");
    let parent = MergeByte32::merge(&left, &right);
    assert_eq!(parent, pair(&left, &right));
    assert_ne!(parent, left);
    assert_ne!(parent, right);
    assert_ne!(parent, MergeByte32::merge(&right, &left));
}

#[test]
fn same_compares_all_bytes() {
    let hash = blake2b_256(b"same");
    let mut other = hash;
    assert!(MergeByte32::same(&hash, &other));
    other[31] ^= 1;
    assert!(!MergeByte32::same(&hash, &other));
    other = hash;
    other[0] ^= 0x80;
    assert!(!MergeByte32::same(&hash, &other));
}

#[test]
fn blank_root_is_all_zero() {
    assert_eq!(MergeByte32::blank_root(), [0u8; 32]);
    let none: Vec<[u8; 32]> = Vec::new();
    assert_eq!(merkle_root(&none), [0u8; 32]);
}

#[test]
fn four_hashed_strings_end_to_end() {
    let h0 = blake2b_256(b"transaction zero");
    let h1 = blake2b_256(b"transaction one");
    let h2 = blake2b_256(b"transaction two");
    let h3 = blake2b_256(b"transaction three");
    let leaves = [h0, h1, h2, h3];
    let root = pair(&pair(&h0, &h1), &pair(&h2, &h3));
    assert_eq!(merkle_root(&leaves), root);
    assert_eq!(build_root::<MergeByte32>(&leaves), root);
    let proof = build_proof::<MergeByte32>(&leaves, &[0, 3]).unwrap();
    assert_eq!(proof.indices, vec![0, 3]);
    assert_eq!(proof.lemmas.len(), 2);
    assert_eq!(proof.lemmas, vec![h1, h2]);
    assert!(proof.verify(&[h0, h3], &root, 4));
    assert!(!proof.verify(&[h0, h2], &root, 4));
}

#[test]
fn three_hashed_strings() {
    let h0 = blake2b_256(b"a");
    let h1 = blake2b_256(b"b");
    let h2 = blake2b_256(b"c");
    assert_eq!(merkle_root(&[h0, h1, h2]), pair(&pair(&h1, &h2), &h0));
    assert_eq!(merkle_root(&[h0]), h0);
}
