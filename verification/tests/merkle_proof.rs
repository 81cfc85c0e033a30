use chain_primitives::inclusion::MerkleProof;
use chain_primitives::merkle::{build_proof, build_root, build_tree, Merge};

struct Mix;

impl Merge for Mix {
    type Item = u64;

    fn merged(left: u64, right: u64) -> u64 {
        let mut x = left.wrapping_mul(0x9e37_79b9_7f4a_7c15) ^ right.wrapping_mul(0xc2b2_ae3d_27d4_eb4f);
        x ^= x >> 29;
        x = x.wrapping_mul(0x1656_67b1_9e37_79f9).wrapping_add(left.rotate_left(17));
        x ^ (x >> 32)
    }

    fn blank() -> u64 {
        0
    }

    fn merge(left: &u64, right: &u64) -> u64 {
        Self::merged(*left, *right)
    }

    fn blank_root() -> u64 {
        Self::blank()
    }

    fn same(left: &u64, right: &u64) -> bool {
        left == right
    }
}

fn m(left: u64, right: u64) -> u64 {
    Mix::merge(&left, &right)
}

fn sample(n: usize) -> Vec<u64> {
    (0..n as u64).map(|i| 0x5151 + 977 * i * i + i).collect()
}

fn picked(mask: usize, n: usize) -> Vec<usize> {
    (0..n).filter(|i| mask & (1 << i) != 0).collect()
}

#[test]
fn four_leaves_first_and_last() {
    let h = [101u64, 202, 303, 404];
    let proof = build_proof::<Mix>(&h, &[0, 3]).unwrap();
    assert_eq!(proof.indices, vec![0, 3]);
    assert_eq!(proof.lemmas, vec![h[1], h[2]]);
    let root = m(m(h[0], h[1]), m(h[2], h[3]));
    assert_eq!(build_root::<Mix>(&h), root);
    assert_eq!(proof.root(&[h[0], h[3]], 4), Some(root));
    assert!(proof.verify(&[h[0], h[3]], &root, 4));
}

#[test]
fn three_leaves_single_proofs() {
    let h = [7u64, 8, 9];
    let first = build_proof::<Mix>(&h, &[0]).unwrap();
    assert_eq!(first.lemmas, vec![m(h[1], h[2])]);
    let second = build_proof::<Mix>(&h, &[1]).unwrap();
    assert_eq!(second.lemmas, vec![h[2], h[0]]);
    let third = build_proof::<Mix>(&h, &[2]).unwrap();
    assert_eq!(third.lemmas, vec![h[1], h[0]]);
}

#[test]
fn lemmas_go_level_by_level_from_the_deepest() {
    let h = [1u64, 2, 3, 4, 5];
    let proof = build_proof::<Mix>(&h, &[0, 4]).unwrap();
    assert_eq!(proof.lemmas, vec![h[3], m(h[1], h[2])]);
    let proof = build_proof::<Mix>(&h, &[1, 3]).unwrap();
    assert_eq!(proof.lemmas, vec![h[4], h[0], h[2]]);
}

#[test]
fn lemmas_within_a_level_go_by_ascending_slot() {
    let h = [1u64, 2, 3, 4, 5, 6, 7, 8];
    let proof = build_proof::<Mix>(&h, &[1, 6]).unwrap();
    assert_eq!(proof.lemmas, vec![h[0], h[7], m(h[2], h[3]), m(h[4], h[5])]);
}

#[test]
fn single_leaf_tree_needs_no_lemma() {
    let proof = build_proof::<Mix>(&[77], &[0]).unwrap();
    assert_eq!(proof.indices, vec![0]);
    assert!(proof.lemmas.is_empty());
    assert_eq!(proof.root(&[77], 1), Some(77));
    assert!(proof.verify(&[77], &77, 1));
    assert!(!proof.verify(&[78], &77, 1));
}

#[test]
fn proof_of_all_leaves_needs_no_lemma() {
    let h = sample(6);
    let proof = build_proof::<Mix>(&h, &[0, 1, 2, 3, 4, 5]).unwrap();
    assert!(proof.lemmas.is_empty());
    assert!(proof.verify(&h, &build_root::<Mix>(&h), 6));
}

#[test]
fn indices_are_sorted_and_repeats_collapse() {
    let h = sample(9);
    let proof = build_proof::<Mix>(&h, &[7, 2, 7, 0, 2]).unwrap();
    assert_eq!(proof.indices, vec![0, 2, 7]);
    let same = build_proof::<Mix>(&h, &[0, 2, 7]).unwrap();
    assert_eq!(proof.lemmas, same.lemmas);
    assert!(proof.verify(&[h[0], h[2], h[7]], &build_root::<Mix>(&h), 9));
}

#[test]
fn no_proof_for_an_index_out_of_range() {
    let h = sample(5);
    assert!(build_proof::<Mix>(&h, &[5]).is_none());
    assert!(build_proof::<Mix>(&h, &[0, 9]).is_none());
    assert!(build_proof::<Mix>(&h, &[usize::MAX]).is_none());
    assert!(build_proof::<Mix>(&h, &[4]).is_some());
}

#[test]
fn no_proof_for_no_indices_or_no_leaves() {
    let h = sample(5);
    assert!(build_proof::<Mix>(&h, &[]).is_none());
    let none: Vec<u64> = Vec::new();
    assert!(build_proof::<Mix>(&none, &[0]).is_none());
    assert!(build_proof::<Mix>(&none, &[]).is_none());
}

#[test]
fn tree_and_free_function_build_the_same_proof() {
    let h = sample(13);
    let tree = build_tree::<Mix>(&h);
    let from_tree = tree.build_proof(&[12, 3]).unwrap();
    let direct = build_proof::<Mix>(&h, &[12, 3]).unwrap();
    assert_eq!(from_tree.indices, direct.indices);
    assert_eq!(from_tree.lemmas, direct.lemmas);
}

#[test]
fn every_built_proof_verifies() {
    for n in 1..=10usize {
        let h = sample(n);
        let root = build_root::<Mix>(&h);
        for mask in 1..(1usize << n) {
            let indices = picked(mask, n);
            let proven: Vec<u64> = indices.iter().map(|&i| h[i]).collect();
            let proof = build_proof::<Mix>(&h, &indices).unwrap();
            assert_eq!(proof.indices, indices);
            assert_eq!(proof.root(&proven, n), Some(root));
            assert!(proof.verify(&proven, &root, n));
        }
    }
}

#[test]
fn built_proofs_of_larger_trees_verify() {
    for n in [17usize, 31, 32, 33, 100, 255, 256, 257] {
        let h = sample(n);
        let root = build_root::<Mix>(&h);
        for indices in [vec![0], vec![n - 1], vec![0, n - 1], vec![n / 2, n / 2 + 1], vec![1, n / 3, n - 2]] {
            let mut sorted = indices.clone();
            sorted.sort();
            sorted.dedup();
            let proven: Vec<u64> = sorted.iter().map(|&i| h[i]).collect();
            let proof = build_proof::<Mix>(&h, &indices).unwrap();
            assert!(proof.verify(&proven, &root, n));
        }
    }
}

#[test]
fn a_changed_lemma_fails() {
    for n in 2..=9usize {
        let h = sample(n);
        let root = build_root::<Mix>(&h);
        for mask in 1..(1usize << n) {
            let indices = picked(mask, n);
            let proven: Vec<u64> = indices.iter().map(|&i| h[i]).collect();
            let proof = build_proof::<Mix>(&h, &indices).unwrap();
            for k in 0..proof.lemmas.len() {
                let mut lemmas = proof.lemmas.clone();
                lemmas[k] ^= 1;
                let forged: MerkleProof<Mix> = MerkleProof::new(proof.indices.clone(), lemmas);
                assert!(!forged.verify(&proven, &root, n));
            }
        }
    }
}

#[test]
fn a_changed_leaf_fails() {
    for n in 1..=9usize {
        let h = sample(n);
        let root = build_root::<Mix>(&h);
        for mask in 1..(1usize << n) {
            let indices = picked(mask, n);
            let proven: Vec<u64> = indices.iter().map(|&i| h[i]).collect();
            let proof = build_proof::<Mix>(&h, &indices).unwrap();
            for k in 0..proven.len() {
                let mut forged = proven.clone();
                forged[k] ^= 0x8000;
                assert!(!proof.verify(&forged, &root, n));
            }
        }
    }
}

#[test]
fn a_wrong_root_fails() {
    let h = sample(6);
    let proof = build_proof::<Mix>(&h, &[2]).unwrap();
    let root = build_root::<Mix>(&h);
    assert!(proof.verify(&[h[2]], &root, 6));
    assert!(!proof.verify(&[h[2]], &(root ^ 1), 6));
}

#[test]
fn a_wrong_number_of_lemmas_fails() {
    let h = sample(6);
    let root = build_root::<Mix>(&h);
    let proof = build_proof::<Mix>(&h, &[2]).unwrap();
    let mut more = proof.lemmas.clone();
    more.push(0);
    let longer: MerkleProof<Mix> = MerkleProof::new(vec![2], more);
    assert_eq!(longer.root(&[h[2]], 6), None);
    assert!(!longer.verify(&[h[2]], &root, 6));
    let mut fewer = proof.lemmas.clone();
    fewer.pop();
    let shorter: MerkleProof<Mix> = MerkleProof::new(vec![2], fewer);
    assert_eq!(shorter.root(&[h[2]], 6), None);
    assert!(!shorter.verify(&[h[2]], &root, 6));
}

#[test]
fn a_wrong_number_of_leaf_values_fails() {
    let h = sample(6);
    let root = build_root::<Mix>(&h);
    let proof = build_proof::<Mix>(&h, &[2, 4]).unwrap();
    assert!(proof.verify(&[h[2], h[4]], &root, 6));
    assert!(!proof.verify(&[h[2]], &root, 6));
    assert!(!proof.verify(&[h[2], h[4], h[5]], &root, 6));
    assert!(!proof.verify(&[], &root, 6));
}

#[test]
fn malformed_indices_fail() {
    let h = sample(6);
    let root = build_root::<Mix>(&h);
    let proof = build_proof::<Mix>(&h, &[2, 4]).unwrap();
    let unsorted: MerkleProof<Mix> = MerkleProof::new(vec![4, 2], proof.lemmas.clone());
    assert_eq!(unsorted.root(&[h[4], h[2]], 6), None);
    let repeated: MerkleProof<Mix> = MerkleProof::new(vec![2, 2], proof.lemmas.clone());
    assert_eq!(repeated.root(&[h[2], h[2]], 6), None);
    let beyond: MerkleProof<Mix> = MerkleProof::new(vec![2, 6], proof.lemmas.clone());
    assert_eq!(beyond.root(&[h[2], h[4]], 6), None);
    let empty: MerkleProof<Mix> = MerkleProof::new(vec![], vec![]);
    assert_eq!(empty.root(&[], 6), None);
    assert!(!empty.verify(&[], &root, 6));
}

#[test]
fn a_tree_too_large_to_number_fails() {
    let h = sample(6);
    let root = build_root::<Mix>(&h);
    let proof = build_proof::<Mix>(&h, &[2, 4]).unwrap();
    assert_eq!(proof.root(&[h[2], h[4]], usize::MAX), None);
    assert_eq!(proof.root(&[h[2], h[4]], usize::MAX / 2 + 1), None);
    assert!(!proof.verify(&[h[2], h[4]], &root, usize::MAX));
}

#[test]
fn a_wrong_leaf_count_fails() {
    let h = sample(6);
    let root = build_root::<Mix>(&h);
    let proof = build_proof::<Mix>(&h, &[2, 4]).unwrap();
    assert!(!proof.verify(&[h[2], h[4]], &root, 5));
    assert!(!proof.verify(&[h[2], h[4]], &root, 7));
    assert!(!proof.verify(&[h[2], h[4]], &root, 0));
}
