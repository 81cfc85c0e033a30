use chain_primitives::merkle::{build_root, build_tree, Merge};

struct Mix;

impl Merge for Mix {
    type Item = u64;

    fn merged(left: u64, right: u64) -> u64 {
        let mut x = left.wrapping_mul(0x9e37_79b9_7f4a_7c15) ^ right.wrapping_mul(0xc2b2_ae3d_27d4_eb4f);
        x ^= x >> 29;
        x = x.wrapping_mul(0x1656_67b1_9e37_79f9).wrapping_add(left.rotate_left(17));
        x ^ (x >> 32)
    }

    fn blank() -> u64 {
        0
    }

    fn merge(left: &u64, right: &u64) -> u64 {
        Self::merged(*left, *right)
    }

    fn blank_root() -> u64 {
        Self::blank()
    }

    fn same(left: &u64, right: &u64) -> bool {
        left == right
    }
}

fn m(left: u64, right: u64) -> u64 {
    Mix::merge(&left, &right)
}

#[test]
fn merge_is_sensitive_to_order() {
    assert_ne!(m(1, 2), m(2, 1));
}

#[test]
fn root_of_no_leaves_is_blank() {
    let leaves: Vec<u64> = Vec::new();
    assert_eq!(build_root::<Mix>(&leaves), 0);
    assert_eq!(build_tree::<Mix>(&leaves).root(), 0);
    assert_eq!(build_tree::<Mix>(&leaves).leaf_count(), 0);
}

#[test]
fn root_of_one_leaf_is_the_leaf() {
    assert_eq!(build_root::<Mix>(&[42]), 42);
}

#[test]
fn root_of_two_leaves_is_their_merge() {
    assert_eq!(build_root::<Mix>(&[5, 9]), m(5, 9));
}

#[test]
fn three_leaves_carry_the_first_to_the_top() {
    let (h0, h1, h2) = (11u64, 22u64, 33u64);
    assert_eq!(build_root::<Mix>(&[h0, h1, h2]), m(m(h1, h2), h0));
}

#[test]
fn four_leaves_are_balanced() {
    let (h0, h1, h2, h3) = (11u64, 22u64, 33u64, 44u64);
    assert_eq!(build_root::<Mix>(&[h0, h1, h2, h3]), m(m(h0, h1), m(h2, h3)));
}

#[test]
fn five_leaves_pair_the_last_two_first() {
    let h = [1u64, 2, 3, 4, 5];
    let expected = m(m(m(h[3], h[4]), h[0]), m(h[1], h[2]));
    assert_eq!(build_root::<Mix>(&h), expected);
}

#[test]
fn seven_leaves_shape() {
    let h = [10u64, 20, 30, 40, 50, 60, 70];
    let expected = m(m(m(h[1], h[2]), m(h[3], h[4])), m(m(h[5], h[6]), h[0]));
    assert_eq!(build_root::<Mix>(&h), expected);
}

#[test]
fn root_is_the_same_on_every_call() {
    let leaves: Vec<u64> = (0..37).map(|i| 1000 + 13 * i).collect();
    let first = build_root::<Mix>(&leaves);
    let second = build_root::<Mix>(&leaves);
    assert_eq!(first, second);
    assert_eq!(build_tree::<Mix>(&leaves).root(), first);
}

#[test]
fn duplicate_leaves_are_kept() {
    assert_eq!(build_root::<Mix>(&[7, 7]), m(7, 7));
    assert_ne!(build_root::<Mix>(&[7, 7]), build_root::<Mix>(&[7]));
}

#[test]
fn permuting_leaves_changes_the_root() {
    let leaves = [3u64, 1, 4, 1, 5, 9, 2, 6];
    let root = build_root::<Mix>(&leaves);
    for i in 0..leaves.len() {
        for j in (i + 1)..leaves.len() {
            if leaves[i] != leaves[j] {
                let mut swapped = leaves;
                swapped.swap(i, j);
                assert_ne!(build_root::<Mix>(&swapped), root);
            }
        }
    }
}

#[test]
fn tree_counts_its_leaves() {
    let leaves: Vec<u64> = (0..11).collect();
    assert_eq!(build_tree::<Mix>(&leaves).leaf_count(), 11);
}
